//! Counting the links of a resolved vault: every resolved reference is a backlink of the note
//! it names, so the backlinks number as many as the references.
use vstd::prelude::*;

use super::model::{ids, total_backlinks, total_references, NoteRecord, ParsedNote, ReferenceTarget, VaultIndex};
use super::paths::note_id_text;
use super::resolve::{
    alias_hits, alias_matches, backlinks_of, graph_of, note_ids, resolution_of, resolve_references, resolves_to,
    sources, stem_matches, ResolutionView,
};
use crate::sort::Keyed;
use crate::text::texts;

verus! {

broadcast use vstd::seq_lib::group_seq_lib_default;

proof fn lemma_note_ids_prefix(notes: Seq<ParsedNote>, t: Seq<char>)
    requires
        notes.len() > 0,
        note_ids(notes.drop_last()).contains(t),
    ensures
        note_ids(notes).contains(t),
{
    let i = choose|i: int| 0 <= i < note_ids(notes.drop_last()).len() && note_ids(notes.drop_last())[i] == t;
    assert(note_ids(notes)[i] == t);
}

proof fn lemma_stem_matches_known(notes: Seq<ParsedNote>, key: Seq<char>, t: Seq<char>)
    requires
        stem_matches(notes, key).contains(t),
    ensures
        note_ids(notes).contains(t),
    decreases notes.len(),
{
    if notes.len() > 0 {
        let rest = stem_matches(notes.drop_last(), key);
        if rest.contains(t) {
            lemma_stem_matches_known(notes.drop_last(), key, t);
            lemma_note_ids_prefix(notes, t);
        } else {
            assert(t == note_id_text(notes.last().relative_path@));
            assert(note_ids(notes)[notes.len() - 1] == t);
        }
    }
}

proof fn lemma_alias_hits_are_the_note(aliases: Seq<Seq<char>>, id: Seq<char>, key: Seq<char>, t: Seq<char>)
    requires
        alias_hits(aliases, id, key).contains(t),
    ensures
        t == id,
    decreases aliases.len(),
{
    if aliases.len() > 0 {
        if alias_hits(aliases.drop_last(), id, key).contains(t) {
            lemma_alias_hits_are_the_note(aliases.drop_last(), id, key, t);
        }
    }
}

proof fn lemma_alias_matches_known(notes: Seq<ParsedNote>, key: Seq<char>, t: Seq<char>)
    requires
        alias_matches(notes, key).contains(t),
    ensures
        note_ids(notes).contains(t),
    decreases notes.len(),
{
    if notes.len() > 0 {
        let rest = alias_matches(notes.drop_last(), key);
        let here = alias_hits(texts(notes.last().aliases@), note_id_text(notes.last().relative_path@), key);
        let i = choose|i: int| 0 <= i < (rest + here).len() && (rest + here)[i] == t;
        if i < rest.len() {
            assert(rest[i] == t);
            lemma_alias_matches_known(notes.drop_last(), key, t);
            lemma_note_ids_prefix(notes, t);
        } else {
            assert(here[i - rest.len()] == t);
            lemma_alias_hits_are_the_note(texts(notes.last().aliases@), note_id_text(notes.last().relative_path@), key, t);
            assert(note_ids(notes)[notes.len() - 1] == t);
        }
    }
}

proof fn lemma_resolution_known(notes: Seq<ParsedNote>, source_id: Seq<char>, r: ReferenceTarget, c: Seq<char>)
    requires
        resolution_of(notes, source_id, r.raw@, r.kind) == ResolutionView::Resolved(c),
    ensures
        note_ids(notes).contains(c),
{
    let stems = stem_matches(notes, crate::text::lowercase(super::resolve::reference_stem(r.raw@, r.kind)));
    let aliases = alias_matches(notes, crate::text::lowercase(r.raw@));
    if stems.len() == 1 && stems[0] == c {
        lemma_stem_matches_known(notes, crate::text::lowercase(super::resolve::reference_stem(r.raw@, r.kind)), c);
    }
    if aliases.len() == 1 && aliases[0] == c {
        lemma_alias_matches_known(notes, crate::text::lowercase(r.raw@), c);
    }
}

/// Every note a note's references resolve to is a note of the vault.
proof fn lemma_targets_known(notes: Seq<ParsedNote>, source_id: Seq<char>, refs: Seq<ReferenceTarget>, t: Seq<char>)
    requires
        resolve_references(notes, source_id, refs).0.contains(t),
    ensures
        note_ids(notes).contains(t),
    decreases refs.len(),
{
    if refs.len() > 0 {
        let (targets, messages) = resolve_references(notes, source_id, refs.drop_last());
        let r = refs.last();
        if targets.contains(t) {
            lemma_targets_known(notes, source_id, refs.drop_last(), t);
        } else {
            match resolution_of(notes, source_id, r.raw@, r.kind) {
                ResolutionView::Resolved(c) => {
                    assert(t == c);
                    lemma_resolution_known(notes, source_id, r, c);
                },
                _ => {},
            }
        }
    }
}

/// How often `target` occurs in `s`.
pub open spec fn hits(s: Seq<Seq<char>>, target: Seq<char>) -> nat {
    s.filter(|t: Seq<char>| t == target).len()
}

/// How often the texts of `s` occur among `targets`, summed over `targets`.
pub open spec fn hits_among(s: Seq<Seq<char>>, targets: Seq<Seq<char>>) -> nat
    decreases targets.len(),
{
    if targets.len() == 0 {
        0
    } else {
        hits_among(s, targets.drop_last()) + hits(s, targets.last())
    }
}

/// How often `x` occurs in `targets`.
pub open spec fn occurrences(targets: Seq<Seq<char>>, x: Seq<char>) -> nat
    decreases targets.len(),
{
    if targets.len() == 0 {
        0
    } else {
        occurrences(targets.drop_last(), x) + if targets.last() == x {
            1nat
        } else {
            0nat
        }
    }
}

proof fn lemma_hits_push(s: Seq<Seq<char>>, x: Seq<char>, target: Seq<char>)
    ensures
        hits(s.push(x), target) == hits(s, target) + if x == target {
            1nat
        } else {
            0nat
        },
{
    reveal(Seq::filter);
    assert(s.push(x).drop_last() =~= s);
}

proof fn lemma_hits_among_push(s: Seq<Seq<char>>, x: Seq<char>, targets: Seq<Seq<char>>)
    ensures
        hits_among(s.push(x), targets) == hits_among(s, targets) + occurrences(targets, x),
    decreases targets.len(),
{
    if targets.len() > 0 {
        lemma_hits_among_push(s, x, targets.drop_last());
        lemma_hits_push(s, x, targets.last());
    }
}

proof fn lemma_occurrences_once(targets: Seq<Seq<char>>, x: Seq<char>)
    requires
        targets.no_duplicates(),
        targets.contains(x),
    ensures
        occurrences(targets, x) == 1,
    decreases targets.len(),
{
    if targets.last() == x {
        lemma_occurrences_none(targets.drop_last(), x);
    } else {
        let i = choose|i: int| 0 <= i < targets.len() && targets[i] == x;
        assert(targets.drop_last()[i] == x);
        lemma_occurrences_once(targets.drop_last(), x);
    }
}

proof fn lemma_occurrences_none(targets: Seq<Seq<char>>, x: Seq<char>)
    requires
        !targets.contains(x),
    ensures
        occurrences(targets, x) == 0,
    decreases targets.len(),
{
    if targets.len() > 0 {
        assert(targets[targets.len() - 1] == targets.last());
        lemma_occurrences_none(targets.drop_last(), x);
    }
}

/// When every text of `s` is among `targets`, which holds each text once, the hits of `s`
/// among `targets` number as many as `s`.
proof fn lemma_hits_among_all(s: Seq<Seq<char>>, targets: Seq<Seq<char>>)
    requires
        targets.no_duplicates(),
        forall|i: int| 0 <= i < s.len() ==> targets.contains(#[trigger] s[i]),
    ensures
        hits_among(s, targets) == s.len(),
    decreases s.len(),
{
    if s.len() == 0 {
        lemma_hits_among_empty(s, targets);
    } else {
        let rest = s.drop_last();
        lemma_hits_among_all(rest, targets);
        assert(rest.push(s.last()) =~= s);
        lemma_hits_among_push(rest, s.last(), targets);
        assert(targets.contains(s[s.len() - 1]));
        lemma_occurrences_once(targets, s.last());
    }
}

proof fn lemma_hits_among_empty(s: Seq<Seq<char>>, targets: Seq<Seq<char>>)
    requires
        s.len() == 0,
    ensures
        hits_among(s, targets) == 0,
    decreases targets.len(),
{
    if targets.len() > 0 {
        lemma_hits_among_empty(s, targets.drop_last());
        reveal(Seq::filter);
    }
}

/// How often `target` occurs among the references of the records.
pub open spec fn reference_hits(records: Seq<NoteRecord>, target: Seq<char>) -> nat
    decreases records.len(),
{
    if records.len() == 0 {
        0
    } else {
        reference_hits(records.drop_last(), target) + hits(ids(records.last().references@), target)
    }
}

/// How often the references of the records occur among `targets`.
pub open spec fn reference_hits_among(records: Seq<NoteRecord>, targets: Seq<Seq<char>>) -> nat
    decreases records.len(),
{
    if records.len() == 0 {
        0
    } else {
        reference_hits_among(records.drop_last(), targets) + hits_among(ids(records.last().references@), targets)
    }
}

proof fn lemma_sources_len(records: Seq<NoteRecord>, target: Seq<char>)
    ensures
        sources(records, target).len() == reference_hits(records, target),
    decreases records.len(),
{
    if records.len() > 0 {
        lemma_sources_len(records.drop_last(), target);
        let r = ids(records.last().references@);
        assert((|t: Seq<char>| t == target) =~= (|t: Seq<char>| t == target));
    }
}

/// The number of sources of each of `targets`, summed.
pub open spec fn sources_among(records: Seq<NoteRecord>, targets: Seq<Seq<char>>) -> int
    decreases targets.len(),
{
    if targets.len() == 0 {
        0
    } else {
        sources_among(records, targets.drop_last()) + sources(records, targets.last()).len()
    }
}

proof fn lemma_reference_hits_among_push(records: Seq<NoteRecord>, targets: Seq<Seq<char>>, t: Seq<char>)
    ensures
        reference_hits_among(records, targets.push(t)) == reference_hits_among(records, targets) + reference_hits(
            records,
            t,
        ),
    decreases records.len(),
{
    if records.len() > 0 {
        lemma_reference_hits_among_push(records.drop_last(), targets, t);
        assert(targets.push(t).drop_last() =~= targets);
    }
}

proof fn lemma_sources_among(records: Seq<NoteRecord>, targets: Seq<Seq<char>>)
    ensures
        sources_among(records, targets) == reference_hits_among(records, targets),
    decreases targets.len(),
{
    if targets.len() == 0 {
        lemma_reference_hits_among_none(records, targets);
    } else {
        lemma_sources_among(records, targets.drop_last());
        lemma_sources_len(records, targets.last());
        assert(targets.drop_last().push(targets.last()) =~= targets);
        lemma_reference_hits_among_push(records, targets.drop_last(), targets.last());
    }
}

proof fn lemma_reference_hits_among_none(records: Seq<NoteRecord>, targets: Seq<Seq<char>>)
    requires
        targets.len() == 0,
    ensures
        reference_hits_among(records, targets) == 0,
    decreases records.len(),
{
    if records.len() > 0 {
        lemma_reference_hits_among_none(records.drop_last(), targets);
    }
}

/// The identities of the records, each the first time it occurs.
pub open spec fn first_ids(records: Seq<NoteRecord>, m: int) -> Seq<Seq<char>>
    decreases m,
{
    if m <= 0 {
        Seq::empty()
    } else {
        let rest = first_ids(records, m - 1);
        if rest.contains(records[m - 1].id@) {
            rest
        } else {
            rest.push(records[m - 1].id@)
        }
    }
}

proof fn lemma_first_ids(records: Seq<NoteRecord>, m: int)
    requires
        0 <= m <= records.len(),
    ensures
        first_ids(records, m).no_duplicates(),
        forall|t: Seq<char>| first_ids(records, m).contains(t) <==> exists|k: int| 0 <= k < m && (#[trigger] records[k]).id@ == t,
    decreases m,
{
    if m > 0 {
        lemma_first_ids(records, m - 1);
        let rest = first_ids(records, m - 1);
        let id = records[m - 1].id@;
        assert forall|t: Seq<char>| first_ids(records, m).contains(t) <==> exists|k: int|
            0 <= k < m && (#[trigger] records[k]).id@ == t by {
            if first_ids(records, m).contains(t) {
                if !rest.contains(t) {
                    assert(t == id);
                    assert(records[m - 1].id@ == t);
                }
            }
            if exists|k: int| 0 <= k < m && (#[trigger] records[k]).id@ == t {
                let k = choose|k: int| 0 <= k < m && (#[trigger] records[k]).id@ == t;
                if k < m - 1 {
                    assert(rest.contains(t));
                    if !rest.contains(id) {
                        assert(rest.push(id)[rest.len() as int - 0 - 0] == id);
                        let i = choose|i: int| 0 <= i < rest.len() && rest[i] == t;
                        assert(rest.push(id)[i] == t);
                    }
                } else if !rest.contains(id) {
                    assert(rest.push(id)[rest.len() as int] == t);
                }
            }
        }
    }
}

/// The backlinks the first `m` records get, counted.
pub open spec fn backlinks_upto(records: Seq<NoteRecord>, m: int) -> int
    decreases m,
{
    if m <= 0 {
        0
    } else {
        backlinks_upto(records, m - 1) + backlinks_of(records, m - 1).len()
    }
}

proof fn lemma_backlinks_upto(records: Seq<NoteRecord>, m: int)
    requires
        0 <= m <= records.len(),
    ensures
        backlinks_upto(records, m) == sources_among(records, first_ids(records, m)),
    decreases m,
{
    if m > 0 {
        lemma_backlinks_upto(records, m - 1);
        lemma_first_ids(records, m - 1);
        let rest = first_ids(records, m - 1);
        let id = records[m - 1].id@;
        if rest.contains(id) {
            let k = choose|k: int| 0 <= k < m - 1 && (#[trigger] records[k]).id@ == id;
            assert(backlinks_of(records, m - 1).len() == 0);
        } else {
            assert(!exists|k: int| 0 <= k < m - 1 && (#[trigger] records[k]).id@ == records[m - 1].id@);
            assert(rest.push(id).drop_last() =~= rest);
        }
    }
}

proof fn lemma_total_backlinks(records: Seq<NoteRecord>, m: int)
    requires
        0 <= m <= records.len(),
        forall|j: int| 0 <= j < records.len() ==> ids((#[trigger] records[j]).backlinks@) == backlinks_of(records, j),
    ensures
        total_backlinks(records.take(m)) == backlinks_upto(records, m),
    decreases m,
{
    if m > 0 {
        lemma_total_backlinks(records, m - 1);
        assert(records.take(m).drop_last() =~= records.take(m - 1));
        assert(records.take(m).last() == records[m - 1]);
        assert(ids(records[m - 1].backlinks@).len() == records[m - 1].backlinks@.len());
    }
}

proof fn lemma_total_references(records: Seq<NoteRecord>, targets: Seq<Seq<char>>)
    requires
        targets.no_duplicates(),
        forall|j: int, i: int|
            0 <= j < records.len() && 0 <= i < records[j].references@.len() ==> targets.contains(
                (#[trigger] records[j].references@[i])@,
            ),
    ensures
        total_references(records) == reference_hits_among(records, targets),
    decreases records.len(),
{
    if records.len() > 0 {
        let last = records.last();
        assert forall|j: int, i: int|
            0 <= j < records.drop_last().len() && 0 <= i < records.drop_last()[j].references@.len() implies targets.contains(
            (#[trigger] records.drop_last()[j].references@[i])@,
        ) by {
            assert(records.drop_last()[j] == records[j]);
        }
        lemma_total_references(records.drop_last(), targets);
        let r = ids(last.references@);
        assert forall|i: int| 0 <= i < r.len() implies targets.contains(#[trigger] r[i]) by {
            assert(records[records.len() - 1].references@[i]@ == r[i]);
        }
        lemma_hits_among_all(r, targets);
    }
}

/// In a vault whose references are resolved among its notes and whose backlinks are
/// attached, the backlinks number as many as the references: each resolved reference is a
/// backlink of the note it names.
pub proof fn law_backlinks_match_references(notes: Seq<ParsedNote>, records: Seq<NoteRecord>)
    requires
        graph_of(notes, records),
    ensures
        total_backlinks(records) == total_references(records),
{
    let n = records.len() as int;
    let targets = first_ids(records, n);
    lemma_first_ids(records, n);
    assert forall|j: int, i: int|
        0 <= j < records.len() && 0 <= i < records[j].references@.len() implies targets.contains(
        (#[trigger] records[j].references@[i])@,
    ) by {
        let note = notes[j];
        assert(resolves_to(notes, note, records[j]));
        let id = note_id_text(note.relative_path@);
        let t = records[j].references@[i]@;
        assert(ids(records[j].references@)[i] == t);
        lemma_targets_known(notes, id, note.unresolved_references@, t);
        let k = choose|k: int| 0 <= k < note_ids(notes).len() && note_ids(notes)[k] == t;
        assert(resolves_to(notes, notes[k], records[k]));
        assert(records[k].id@ == t);
    }
    lemma_total_references(records, targets);
    lemma_sources_among(records, targets);
    lemma_backlinks_upto(records, n);
    lemma_total_backlinks(records, n);
    assert(records.take(n) =~= records);
}

/// Holds of the records equal to `y`.
pub open spec fn same_record(y: NoteRecord) -> spec_fn(NoteRecord) -> bool {
    |e: NoteRecord| e == y
}

/// How often `y` occurs in `s`.
pub open spec fn count_of(s: Seq<NoteRecord>, y: NoteRecord) -> nat {
    s.filter(same_record(y)).len()
}

/// The records' references and backlinks, counted.
pub open spec fn link_counts(s: Seq<NoteRecord>) -> (int, int) {
    (total_references(s), total_backlinks(s))
}

proof fn lemma_count_push(s: Seq<NoteRecord>, x: NoteRecord, y: NoteRecord)
    ensures
        count_of(s.push(x), y) == count_of(s, y) + if x == y {
            1nat
        } else {
            0nat
        },
{
    reveal(Seq::filter);
    assert(s.push(x).drop_last() =~= s);
}

proof fn lemma_count_remove(t: Seq<NoteRecord>, i: int, y: NoteRecord)
    requires
        0 <= i < t.len(),
    ensures
        count_of(t, y) == count_of(t.remove(i), y) + if t[i] == y {
            1nat
        } else {
            0nat
        },
{
    let a = t.subrange(0, i);
    let b = t.subrange(i + 1, t.len() as int);
    assert(t =~= a.push(t[i]) + b);
    assert(t.remove(i) =~= a + b);
    lemma_count_push(a, t[i], y);
    Seq::filter_distributes_over_add(a.push(t[i]), b, same_record(y));
    Seq::filter_distributes_over_add(a, b, same_record(y));
}

proof fn lemma_link_counts_add(a: Seq<NoteRecord>, b: Seq<NoteRecord>)
    ensures
        total_references(a + b) == total_references(a) + total_references(b),
        total_backlinks(a + b) == total_backlinks(a) + total_backlinks(b),
    decreases b.len(),
{
    if b.len() > 0 {
        lemma_link_counts_add(a, b.drop_last());
        assert((a + b).drop_last() =~= a + b.drop_last());
    }
}

proof fn lemma_link_counts_remove(t: Seq<NoteRecord>, i: int)
    requires
        0 <= i < t.len(),
    ensures
        total_references(t) == total_references(t.remove(i)) + t[i].references@.len(),
        total_backlinks(t) == total_backlinks(t.remove(i)) + t[i].backlinks@.len(),
{
    let a = t.subrange(0, i);
    let b = t.subrange(i + 1, t.len() as int);
    assert(t =~= a.push(t[i]) + b);
    assert(t.remove(i) =~= a + b);
    lemma_link_counts_add(a.push(t[i]), b);
    lemma_link_counts_add(a, b);
    assert(a.push(t[i]).drop_last() =~= a);
}

/// Sequences holding the same records equally often have the same link counts.
proof fn lemma_link_counts_permuted(s: Seq<NoteRecord>, t: Seq<NoteRecord>)
    requires
        forall|y: NoteRecord| #[trigger] count_of(s, y) == count_of(t, y),
    ensures
        link_counts(s) == link_counts(t),
    decreases s.len(),
{
    if s.len() == 0 {
        if t.len() > 0 {
            t.lemma_filter_contains(same_record(t[0]), 0);
            assert(count_of(s, t[0]) == 0) by {
                reveal(Seq::filter);
            }
        }
    } else {
        let x = s.last();
        let rest = s.drop_last();
        assert(rest.push(x) =~= s);
        lemma_count_push(rest, x, x);
        assert(count_of(t, x) > 0);
        let w = t.filter(same_record(x))[0];
        t.lemma_filter_pred(same_record(x), 0);
        assert(w == x);
        assert(t.filter(same_record(x)).contains(x));
        crate::sort::lemma_filter_members(t, same_record(x), x);
        let i = choose|i: int| 0 <= i < t.len() && t[i] == x;
        assert forall|y: NoteRecord| #[trigger] count_of(rest, y) == count_of(t.remove(i), y) by {
            lemma_count_push(rest, x, y);
            lemma_count_remove(t, i, y);
            assert(count_of(s, y) == count_of(t, y));
        }
        lemma_link_counts_permuted(rest, t.remove(i));
        lemma_link_counts_remove(t, i);
    }
}

/// A stable sort of the records keeps their link counts.
proof fn lemma_link_counts_sorted(input: Seq<NoteRecord>, output: Seq<NoteRecord>)
    requires
        crate::sort::stably_sorted(input, output),
    ensures
        link_counts(input) == link_counts(output),
{
    assert forall|y: NoteRecord| #[trigger] count_of(input, y) == count_of(output, y) by {
        assert forall|e: NoteRecord| #[trigger] same_record(y)(e) implies crate::sort::key_eq(
            e.sort_key(),
            y.sort_key(),
        ) by {
            crate::sort::lemma_seq_key_reflexive(y.sort_key());
        }
        crate::sort::lemma_sorted_filter(input, output, y.sort_key(), same_record(y));
    }
    lemma_link_counts_permuted(input, output);
}

/// In a vault index resolved from parsed notes (what `resolve_graph` gives: the notes
/// resolved among themselves with backlinks attached, then ordered for display), the
/// backlinks number as many as the references.
pub proof fn law_index_backlinks_match_references(notes: Seq<ParsedNote>, index: VaultIndex)
    requires
        exists|records: Seq<NoteRecord>|
            #[trigger] graph_of(notes, records) && crate::sort::stably_sorted(records, index.notes@),
    ensures
        total_backlinks(index.notes@) == total_references(index.notes@),
{
    let records = choose|records: Seq<NoteRecord>|
        #[trigger] graph_of(notes, records) && crate::sort::stably_sorted(records, index.notes@);
    law_backlinks_match_references(notes, records);
    lemma_link_counts_sorted(records, index.notes@);
}

} // verus!
