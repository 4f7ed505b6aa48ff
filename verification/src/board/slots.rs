//! Grid slots of notes: spreading notes that want the same slot around it.
use vstd::prelude::*;

use super::grid::{
    compact_offset, compact_position, law_compact_offset_on_its_ring, law_compact_offsets_differ, ring_distance, within,
    RingSlot, COMPACT_LIMIT, RING_LIMIT,
};
use super::tags::{note_order_key, note_order_key_exec, push_codes, TagEntry};
use crate::sort::{
    key_le, lemma_ranks_before_irreflexive, lemma_ranks_before_total, lemma_ranks_before_transitive, ranks_before, SortKey,
};
use crate::vault::model::NoteRecord;

verus! {

/// The order in which notes sharing a slot are spread: more tags first, then more references
/// and backlinks, then the layout order of notes (the lower-cased shown identity, then the
/// shown identity).
pub open spec fn spread_key(note: NoteRecord, tag_count: nat) -> Seq<u64> {
    seq![
        (u64::MAX - tag_count) as u64,
        (u64::MAX - (note.references@.len() + note.backlinks@.len())) as u64,
    ] + note_order_key(note)
}

/// The note at `j` is spread before the note at `i`: it may move, wants the same slot, and
/// comes first in the spreading order (earlier in the list when the keys are equal).
pub open spec fn spread_before(
    keys: Seq<Seq<u64>>,
    desired: Seq<(i32, i32)>,
    unchanged: Seq<bool>,
    j: int,
    i: int,
) -> bool {
    &&& !unchanged[j]
    &&& desired[j] == desired[i]
    &&& (!key_le(keys[i], keys[j]) || (key_le(keys[j], keys[i]) && j < i))
}

/// How many of the first `n` notes are spread before the note at `i`.
pub open spec fn spread_rank(keys: Seq<Seq<u64>>, desired: Seq<(i32, i32)>, unchanged: Seq<bool>, i: int, n: int) -> nat
    decreases n,
{
    if n <= 0 {
        0
    } else {
        spread_rank(keys, desired, unchanged, i, n - 1) + if spread_before(keys, desired, unchanged, n - 1, i) {
            1nat
        } else {
            0nat
        }
    }
}

/// How many of the first `n` notes want the slot `slot`.
pub open spec fn wanting(desired: Seq<(i32, i32)>, slot: (i32, i32), n: int) -> nat
    decreases n,
{
    if n <= 0 {
        0
    } else {
        wanting(desired, slot, n - 1) + if desired[n - 1] == slot {
            1nat
        } else {
            0nat
        }
    }
}

/// A note that keeps its place wants the slot `slot`, so the slot stays its own.
pub open spec fn center_reserved(desired: Seq<(i32, i32)>, unchanged: Seq<bool>, slot: (i32, i32)) -> bool {
    exists|j: int| 0 <= j < desired.len() && unchanged[j] && #[trigger] desired[j] == slot
}

/// `offset` is the `index`-th offset of the compact order around a slot.
pub open spec fn is_compact_offset(index: int, offset: (i32, i32)) -> bool {
    if index == 0 {
        offset == (0i32, 0i32)
    } else {
        exists|radius: int, sorted: Seq<RingSlot>| #[trigger] compact_position(index, radius, sorted, offset)
    }
}

/// Where the note at `i` is placed once notes sharing a slot are spread: a note that keeps
/// its place, or is alone in wanting its slot, keeps it; otherwise it takes the compact offset
/// of its rank among the moving notes wanting that slot, one further out when a note that
/// keeps its place holds the slot itself.
pub open spec fn spread_to(
    keys: Seq<Seq<u64>>,
    desired: Seq<(i32, i32)>,
    unchanged: Seq<bool>,
    i: int,
    slot: (i32, i32),
) -> bool {
    if unchanged[i] || wanting(desired, desired[i], desired.len() as int) <= 1 {
        slot == desired[i]
    } else {
        exists|offset: (i32, i32)|
            #[trigger] is_compact_offset(spread_index(keys, desired, unchanged, i), offset) && slot.0 == desired[i].0
                + offset.0 && slot.1 == desired[i].1 + offset.1
    }
}

/// The place in the compact order of the note at `i` among the notes wanting its slot: its
/// rank, one further out when a note that keeps its place holds the slot.
pub open spec fn spread_index(keys: Seq<Seq<u64>>, desired: Seq<(i32, i32)>, unchanged: Seq<bool>, i: int) -> int {
    spread_rank(keys, desired, unchanged, i, desired.len() as int) + if center_reserved(desired, unchanged, desired[i]) {
        1int
    } else {
        0int
    }
}

proof fn lemma_spread_rank_bound(keys: Seq<Seq<u64>>, desired: Seq<(i32, i32)>, unchanged: Seq<bool>, i: int, n: int)
    requires
        0 <= n,
        0 <= i,
    ensures
        spread_rank(keys, desired, unchanged, i, n) <= n,
        i < n ==> spread_rank(keys, desired, unchanged, i, n) <= n - 1,
    decreases n,
{
    if n > 0 {
        lemma_spread_rank_bound(keys, desired, unchanged, i, n - 1);
        crate::sort::lemma_seq_key_reflexive(keys[i]);
    }
}

/// The spreading key of a note with `tag_count` tags.
fn spread_key_exec(note: &NoteRecord, tag_count: usize) -> (key: Vec<u64>)
    requires
        note.references@.len() + note.backlinks@.len() <= usize::MAX,
    ensures
        key@ == spread_key(*note, tag_count as nat),
{
    let degree = note.references.len() + note.backlinks.len();
    let mut key: Vec<u64> = Vec::new();
    key.push(u64::MAX - tag_count as u64);
    key.push(u64::MAX - degree as u64);
    push_codes(&mut key, &note_order_key_exec(note));
    assert(key@ =~= spread_key(*note, tag_count as nat));
    key
}

/// The spreading keys of all notes.
pub open spec fn spread_keys(notes: Seq<NoteRecord>, note_tags: Seq<Vec<TagEntry>>) -> Seq<Seq<u64>> {
    Seq::new(notes.len(), |j: int| spread_key(notes[j], note_tags[j]@.len()))
}

/// Spreads the notes that want the same slot around it: each keeps its slot when it keeps its
/// place or is alone in wanting it; the others take the compact offsets around the slot in the
/// spreading order of [`spread_key`], leaving the slot itself to a note that keeps its place.
pub fn spread_shared_anchors(
    notes: &Vec<NoteRecord>,
    note_tags: &Vec<Vec<TagEntry>>,
    desired: &Vec<(i32, i32)>,
    unchanged: &Vec<bool>,
) -> (spread: Vec<(i32, i32)>)
    requires
        note_tags@.len() == notes@.len(),
        desired@.len() == notes@.len(),
        unchanged@.len() == notes@.len(),
        notes@.len() <= COMPACT_LIMIT,
        forall|i: int|
            0 <= i < notes@.len() ==> (#[trigger] notes@[i]).references@.len() + notes@[i].backlinks@.len()
                <= usize::MAX,
        forall|i: int| 0 <= i < desired@.len() ==> within(#[trigger] desired@[i], i32::MAX - RING_LIMIT),
    ensures
        spread@.len() == notes@.len(),
        forall|i: int|
            0 <= i < notes@.len() ==> spread_to(
                spread_keys(notes@, note_tags@),
                desired@,
                unchanged@,
                i,
                #[trigger] spread@[i],
            ),
{
    let n = notes.len();
    let ghost keys_spec = spread_keys(notes@, note_tags@);
    let mut keys: Vec<Vec<u64>> = Vec::new();
    for j in 0..n
        invariant
            n == notes@.len(),
            note_tags@.len() == notes@.len(),
            keys_spec == spread_keys(notes@, note_tags@),
            forall|i: int|
                0 <= i < notes@.len() ==> (#[trigger] notes@[i]).references@.len() + notes@[i].backlinks@.len()
                    <= usize::MAX,
            keys@.len() == j,
            forall|k: int| 0 <= k < j ==> (#[trigger] keys@[k])@ == keys_spec[k],
    {
        keys.push(spread_key_exec(&notes[j], note_tags[j].len()));
    }
    let mut spread: Vec<(i32, i32)> = Vec::new();
    for i in 0..n
        invariant
            n == notes@.len(),
            desired@.len() == n,
            unchanged@.len() == n,
            n <= COMPACT_LIMIT,
            keys@.len() == n,
            forall|k: int| 0 <= k < n ==> (#[trigger] keys@[k])@ == keys_spec[k],
            keys_spec == spread_keys(notes@, note_tags@),
            forall|k: int| 0 <= k < desired@.len() ==> within(#[trigger] desired@[k], i32::MAX - RING_LIMIT),
            spread@.len() == i,
            forall|k: int| 0 <= k < i ==> spread_to(keys_spec, desired@, unchanged@, k, #[trigger] spread@[k]),
    {
        let anchor = desired[i];
        let mut wanted: usize = 0;
        let mut rank: usize = 0;
        let mut reserved = false;
        for j in 0..n
            invariant
                n == desired@.len(),
                unchanged@.len() == n,
                keys@.len() == n,
                forall|k: int| 0 <= k < n ==> (#[trigger] keys@[k])@ == keys_spec[k],
                i < n,
                anchor == desired@[i as int],
                wanted == wanting(desired@, anchor, j as int),
                wanted <= j,
                rank == spread_rank(keys_spec, desired@, unchanged@, i as int, j as int),
                rank <= j,
                reserved == exists|k: int| 0 <= k < j && unchanged@[k] && #[trigger] desired@[k] == anchor,
        {
            let other = desired[j];
            let same = other.0 == anchor.0 && other.1 == anchor.1;
            assert(same == (desired@[j as int] == anchor));
            if same {
                wanted += 1;
                if unchanged[j] {
                    reserved = true;
                } else {
                    let after = SortKey::le(&keys[i], &keys[j]);
                    let before = SortKey::le(&keys[j], &keys[i]);
                    if !after || (before && j < i) {
                        rank += 1;
                    }
                }
            }
        }
        assert(reserved == center_reserved(desired@, unchanged@, anchor));
        let slot = if unchanged[i] || wanted <= 1 {
            anchor
        } else {
            proof {
                lemma_spread_rank_bound(keys_spec, desired@, unchanged@, i as int, n as int);
            }
            let index = if reserved {
                rank + 1
            } else {
                rank
            };
            let offset = compact_offset(index);
            proof {
                if index > 0 {
                    let (radius, sorted) = choose|radius: int, sorted: Seq<RingSlot>| #[trigger] compact_position(
                        index as int,
                        radius,
                        sorted,
                        offset,
                    );
                    law_compact_offset_on_its_ring(index as int, radius, sorted, offset);
                }
                assert(within(desired@[i as int], i32::MAX - RING_LIMIT));
                assert(is_compact_offset(index as int, offset));
                assert(index == spread_index(keys_spec, desired@, unchanged@, i as int));
            }
            let slot = (anchor.0 + offset.0, anchor.1 + offset.1);
            assert(spread_to(keys_spec, desired@, unchanged@, i as int, slot));
            slot
        };
        spread.push(slot);
    }
    spread
}

proof fn lemma_spread_rank_step(keys: Seq<Seq<u64>>, desired: Seq<(i32, i32)>, unchanged: Seq<bool>, j: int, i: int, n: int)
    requires
        spread_before(keys, desired, unchanged, j, i),
        0 <= j,
        0 <= n,
    ensures
        spread_rank(keys, desired, unchanged, j, n) + (if j < n {
            1int
        } else {
            0int
        }) <= spread_rank(keys, desired, unchanged, i, n),
    decreases n,
{
    if n > 0 {
        lemma_spread_rank_step(keys, desired, unchanged, j, i, n - 1);
        let k = n - 1;
        if k == j {
            lemma_ranks_before_irreflexive(keys, j);
        } else if spread_before(keys, desired, unchanged, k, j) {
            lemma_ranks_before_transitive(keys, k, j, i);
            assert(ranks_before(keys, k, i));
        }
    }
}

proof fn lemma_wanting_two(desired: Seq<(i32, i32)>, i: int, j: int, n: int)
    requires
        0 <= i < n,
        0 <= j < n,
        i != j,
        desired[i] == desired[j],
    ensures
        wanting(desired, desired[i], n) >= 2,
    decreases n,
{
    if i < n - 1 && j < n - 1 {
        lemma_wanting_two(desired, i, j, n - 1);
    } else {
        let other = if i == n - 1 {
            j
        } else {
            i
        };
        lemma_wanting_one(desired, other, n - 1);
    }
}

proof fn lemma_wanting_one(desired: Seq<(i32, i32)>, i: int, n: int)
    requires
        0 <= i < n,
    ensures
        wanting(desired, desired[i], n) >= 1,
    decreases n,
{
    if i < n - 1 {
        lemma_wanting_one(desired, i, n - 1);
    }
}

proof fn lemma_offsets_differ(x: int, a: (i32, i32), y: int, b: (i32, i32))
    requires
        is_compact_offset(x, a),
        is_compact_offset(y, b),
        0 <= x,
        0 <= y,
        x != y,
    ensures
        a != b,
{
    if x > 0 && y > 0 {
        let (rx, sx) = choose|r: int, s: Seq<RingSlot>| #[trigger] compact_position(x, r, s, a);
        let (ry, sy) = choose|r: int, s: Seq<RingSlot>| #[trigger] compact_position(y, r, s, b);
        law_compact_offsets_differ(x, rx, sx, a, y, ry, sy, b);
    } else if x > 0 {
        let (rx, sx) = choose|r: int, s: Seq<RingSlot>| #[trigger] compact_position(x, r, s, a);
        law_compact_offset_on_its_ring(x, rx, sx, a);
    } else {
        let (ry, sy) = choose|r: int, s: Seq<RingSlot>| #[trigger] compact_position(y, r, s, b);
        law_compact_offset_on_its_ring(y, ry, sy, b);
    }
}

/// Of two notes that want the same slot, unless both keep their places, no two end up on
/// the same slot once shared slots are spread.
pub proof fn law_spread_notes_land_apart(
    keys: Seq<Seq<u64>>,
    desired: Seq<(i32, i32)>,
    unchanged: Seq<bool>,
    i: int,
    j: int,
    a: (i32, i32),
    b: (i32, i32),
)
    requires
        unchanged.len() == desired.len(),
        0 <= i < desired.len(),
        0 <= j < desired.len(),
        i != j,
        desired[i] == desired[j],
        !(unchanged[i] && unchanged[j]),
        spread_to(keys, desired, unchanged, i, a),
        spread_to(keys, desired, unchanged, j, b),
    ensures
        a != b,
{
    let n = desired.len() as int;
    lemma_wanting_two(desired, i, j, n);
    if unchanged[i] || unchanged[j] {
        // The note that keeps its place holds the slot; the other is spread at least one ring
        // out.
        let (kept, moved, slot) = if unchanged[i] {
            (i, j, b)
        } else {
            (j, i, a)
        };
        assert(center_reserved(desired, unchanged, desired[moved])) by {
            assert(unchanged[kept] && desired[kept] == desired[moved]);
        }
        let index = spread_index(keys, desired, unchanged, moved);
        let offset = choose|offset: (i32, i32)|
            #[trigger] is_compact_offset(index, offset) && slot.0 == desired[moved].0 + offset.0 && slot.1
                == desired[moved].1 + offset.1;
        lemma_offsets_differ(0, (0i32, 0i32), index, offset);
    } else {
        lemma_ranks_before_total(keys, i, j);
        if ranks_before(keys, j, i) {
            lemma_spread_rank_step(keys, desired, unchanged, j, i, n);
        } else {
            lemma_spread_rank_step(keys, desired, unchanged, i, j, n);
        }
        let x = spread_index(keys, desired, unchanged, i);
        let y = spread_index(keys, desired, unchanged, j);
        let oa = choose|offset: (i32, i32)|
            #[trigger] is_compact_offset(x, offset) && a.0 == desired[i].0 + offset.0 && a.1 == desired[i].1 + offset.1;
        let ob = choose|offset: (i32, i32)|
            #[trigger] is_compact_offset(y, offset) && b.0 == desired[j].0 + offset.0 && b.1 == desired[j].1 + offset.1;
        lemma_offsets_differ(x, oa, y, ob);
    }
}

} // verus!
