//! The board: where notes are placed, and what a click on it asks for.
use vstd::prelude::*;

use crate::vault::model::{contains_id, ids, NoteId, NoteRecord, VaultIndex};

pub mod connectivity;
pub mod contours;
pub mod grid;
pub mod rejoin;
pub mod shelves;
pub mod rows;
pub mod slots;
pub mod tags;

verus! {

broadcast use vstd::seq_lib::group_seq_properties;

/// The most passes the placement makes to pull split tag clusters back together.
pub const MAX_CONNECTIVITY_PASSES: usize = 32;

/// How much of each note card the board draws at the current zoom.
#[derive(Clone, Copy, Debug, PartialEq, Eq, Structural)]
pub enum DetailLevel {
    Markers,
    Titles,
    Content,
}

/// A change of the selected note that the board asks for.
#[derive(Clone, Debug, PartialEq, Eq)]
pub enum SelectionRequest {
    Select(NoteId),
    Clear,
}

/// What the board reports after a frame.
pub struct BoardOutput {
    pub selection_request: Option<SelectionRequest>,
}

impl Default for BoardOutput {
    fn default() -> (output: Self)
        ensures
            output.selection_request is None,
    {
        BoardOutput { selection_request: None }
    }
}

/// What a click on `hit` asks for while `selected` is selected: clicking the selected note
/// clears the selection, clicking another note selects it, and clicking no note clears it.
pub open spec fn toggle(hit: Option<NoteId>, selected: Option<NoteId>) -> SelectionRequest {
    match hit {
        Some(h) => match selected {
            Some(s) => if h@ == s@ {
                SelectionRequest::Clear
            } else {
                SelectionRequest::Select(h)
            },
            None => SelectionRequest::Select(h),
        },
        None => SelectionRequest::Clear,
    }
}

impl SelectionRequest {
    /// What a click on `hit` asks for while `selected_note` is selected.
    pub fn toggled(hit: Option<NoteId>, selected_note: Option<&NoteId>) -> (request: SelectionRequest)
        ensures
            request == toggle(
                hit,
                match selected_note {
                    Some(s) => Some(*s),
                    None => None,
                },
            ),
    {
        match hit {
            None => SelectionRequest::Clear,
            Some(h) => match selected_note {
                Some(s) => if h.same(s) {
                    SelectionRequest::Clear
                } else {
                    SelectionRequest::Select(h)
                },
                None => SelectionRequest::Select(h),
            },
        }
    }
}

/// Clicking the selected note clears the selection; clicking it again then selects it.
pub proof fn law_click_toggles(id: NoteId)
    ensures
        toggle(Some(id), Some(id)) == SelectionRequest::Clear,
        toggle(Some(id), None) == SelectionRequest::Select(id),
{
}

/// The notes shown beside a selected note: the note itself, the notes it references and
/// the notes that reference it, each once.
pub open spec fn related_set(note: NoteRecord) -> Set<Seq<char>> {
    set![note.id@] + ids(note.references@).to_set() + ids(note.backlinks@).to_set()
}

pub proof fn lemma_take_next_contains(s: Seq<Seq<char>>, i: int, x: Seq<char>)
    requires
        0 <= i < s.len(),
    ensures
        s.take(i + 1).contains(x) <==> (s.take(i).contains(x) || x == s[i]),
{
    if s.take(i + 1).contains(x) {
        let k = choose|k: int| 0 <= k < i + 1 && #[trigger] s.take(i + 1)[k] == x;
        if k < i {
            assert(s.take(i)[k] == x);
        }
    }
    if s.take(i).contains(x) {
        let k = choose|k: int| 0 <= k < i && #[trigger] s.take(i)[k] == x;
        assert(s.take(i + 1)[k] == x);
    }
    if x == s[i] {
        assert(s.take(i + 1)[i] == x);
    }
}

/// The note, its references and its backlinks, each identity once.
pub fn related_note_ids(note: &NoteRecord) -> (related: Vec<NoteId>)
    ensures
        ids(related@).to_set() == related_set(*note),
        ids(related@).no_duplicates(),
{
    let mut related: Vec<NoteId> = Vec::new();
    related.push(note.id.duplicate());
    assert(ids(related@) =~= seq![note.id@]);
    let ghost refs = ids(note.references@);
    let ghost backs = ids(note.backlinks@);
    for i in 0..note.references.len()
        invariant
            refs == ids(note.references@),
            ids(related@).no_duplicates(),
            forall|x: Seq<char>|
                #[trigger] ids(related@).contains(x) <==> (x == note.id@ || refs.take(i as int).contains(x)),
    {
        let id = &note.references[i];
        let ghost before = ids(related@);
        assert(refs[i as int] == id@);
        proof {
            assert forall|x: Seq<char>| #[trigger] refs.take(i + 1).contains(x) <==> (refs.take(i as int).contains(x) || x == id@) by {
                lemma_take_next_contains(refs, i as int, x);
            }
        }
        if !contains_id(&related, id) {
            related.push(id.duplicate());
            assert(ids(related@) =~= before.push(id@));
        }
    }
    assert(refs.take(refs.len() as int) =~= refs);
    for i in 0..note.backlinks.len()
        invariant
            refs == ids(note.references@),
            backs == ids(note.backlinks@),
            ids(related@).no_duplicates(),
            forall|x: Seq<char>|
                #[trigger] ids(related@).contains(x) <==> (x == note.id@ || refs.contains(x)
                    || backs.take(i as int).contains(x)),
    {
        let id = &note.backlinks[i];
        let ghost before = ids(related@);
        assert(backs[i as int] == id@);
        proof {
            assert forall|x: Seq<char>| #[trigger] backs.take(i + 1).contains(x) <==> (backs.take(i as int).contains(x) || x == id@) by {
                lemma_take_next_contains(backs, i as int, x);
            }
        }
        if !contains_id(&related, id) {
            related.push(id.duplicate());
            assert(ids(related@) =~= before.push(id@));
        }
    }
    assert(backs.take(backs.len() as int) =~= backs);
    assert(ids(related@).to_set() =~= related_set(*note));
    related
}

/// The title of the first note with the given identity, or `Untitled`.
pub open spec fn title_of(notes: Seq<NoteRecord>, note_id: Seq<char>) -> Seq<char>
    decreases notes.len(),
{
    if notes.len() == 0 {
        "Untitled"@
    } else if notes[0].id@ == note_id {
        notes[0].title@
    } else {
        title_of(notes.drop_first(), note_id)
    }
}

/// The title of the note with the given identity, or `Untitled` when the index has none.
pub fn note_title(index: &VaultIndex, note_id: &NoteId) -> (title: String)
    ensures
        title@ == title_of(index.notes@, note_id@),
{
    let notes = &index.notes;
    assert(notes@.skip(0) =~= notes@);
    for i in 0..notes.len()
        invariant
            notes@ == index.notes@,
            title_of(notes@, note_id@) == title_of(notes@.skip(i as int), note_id@),
    {
        assert(notes@.skip(i as int)[0] == notes@[i as int]);
        assert(notes@.skip(i as int).drop_first() =~= notes@.skip(i + 1));
        if notes[i].id.same(note_id) {
            assert(notes@.skip(i as int).len() > 0);
            assert(title_of(notes@.skip(i as int), note_id@) == notes@[i as int].title@);
            return notes[i].title.clone();
        }
    }
    crate::text::string_of(crate::text::chars_of("Untitled").as_slice())
}

/// The identities of the notes, in order.
pub open spec fn note_ids(notes: Seq<NoteRecord>) -> Seq<Seq<char>> {
    notes.map_values(|note: NoteRecord| note.id@)
}

/// The links from `source` to each of `targets` that is in `known`, in order.
pub open spec fn links_among(source: Seq<char>, targets: Seq<Seq<char>>, known: Seq<Seq<char>>) -> Seq<(Seq<char>, Seq<char>)>
    decreases targets.len(),
{
    if targets.len() == 0 {
        Seq::empty()
    } else {
        let rest = links_among(source, targets.drop_last(), known);
        if known.contains(targets.last()) {
            rest.push((source, targets.last()))
        } else {
            rest
        }
    }
}

/// The links of the notes, note by note: from each note to each of its references that is in
/// `known`.
pub open spec fn links_of(notes: Seq<NoteRecord>, known: Seq<Seq<char>>) -> Seq<(Seq<char>, Seq<char>)>
    decreases notes.len(),
{
    if notes.len() == 0 {
        Seq::empty()
    } else {
        links_of(notes.drop_last(), known) + links_among(notes.last().id@, ids(notes.last().references@), known)
    }
}

/// The identities of pairs of notes.
pub open spec fn pair_views(pairs: Seq<(NoteId, NoteId)>) -> Seq<(Seq<char>, Seq<char>)> {
    pairs.map_values(|pair: (NoteId, NoteId)| (pair.0@, pair.1@))
}

/// The links the board draws: from each note, in order, to each of its references that is a
/// note of the board, in order.
pub fn board_links(notes: &Vec<NoteRecord>) -> (links: Vec<(NoteId, NoteId)>)
    ensures
        pair_views(links@) == links_of(notes@, note_ids(notes@)),
{
    let ghost all = note_ids(notes@);
    let mut known: Vec<NoteId> = Vec::new();
    for i in 0..notes.len()
        invariant
            all == note_ids(notes@),
            ids(known@) == all.take(i as int),
    {
        let ghost before = known@;
        known.push(notes[i].id.duplicate());
        assert(ids(known@) =~= ids(before).push(notes@[i as int].id@));
        assert(all.take(i + 1) =~= all.take(i as int).push(all[i as int]));
    }
    assert(all.take(notes@.len() as int) =~= all);
    let mut links: Vec<(NoteId, NoteId)> = Vec::new();
    assert(pair_views(links@) =~= links_of(notes@.take(0), all));
    for i in 0..notes.len()
        invariant
            all == note_ids(notes@),
            ids(known@) == all,
            pair_views(links@) == links_of(notes@.take(i as int), all),
    {
        let note = &notes[i];
        let ghost refs = ids(note.references@);
        let ghost head = pair_views(links@);
        assert(links_among(note.id@, refs.take(0), all) =~= Seq::<(Seq<char>, Seq<char>)>::empty());
        assert(pair_views(links@) =~= head + links_among(note.id@, refs.take(0), all));
        for j in 0..note.references.len()
            invariant
                all == note_ids(notes@),
                ids(known@) == all,
                refs == ids(note.references@),
                i < notes@.len(),
                *note == notes@[i as int],
                pair_views(links@) == head + links_among(note.id@, refs.take(j as int), all),
        {
            let target = &note.references[j];
            let ghost before = links@;
            assert(refs.take(j + 1).drop_last() =~= refs.take(j as int));
            assert(refs.take(j + 1).last() == target@);
            if contains_id(&known, target) {
                links.push((note.id.duplicate(), target.duplicate()));
                assert(pair_views(links@) =~= pair_views(before).push((note.id@, target@)));
            }
        }
        assert(refs.take(refs.len() as int) =~= refs);
        assert(notes@.take(i + 1).drop_last() =~= notes@.take(i as int));
        assert(notes@.take(i + 1).last() == *note);
    }
    assert(notes@.take(notes@.len() as int) =~= notes@);
    links
}

} // verus!
