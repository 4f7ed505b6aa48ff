//! Distances used when a split cluster is pulled back together: slots are grouped into
//! square buckets, and a bucket's distance bounds the distance of every slot in it.
use vstd::prelude::*;

use super::grid::{ring_distance, within};
use crate::sort::{key_le, lemma_ranks_before_total, lemma_seq_key_total, lemma_seq_key_transitive, lemma_sorted_keeps, ranks_before, stable_sort, stably_sorted, Keyed, SortKey};
use crate::vault::model::{contains_id, ids, NoteId};

verus! {

/// The side of a bucket, in slots.
pub const BUCKET_SIZE: i32 = 8;

/// Slots and buckets handled here stay within this distance of the origin on each axis.
pub const DISTANCE_LIMIT: i32 = 536870912;

/// How far `value` lies outside `[minimum, maximum]`; zero inside.
pub open spec fn interval_distance(value: int, minimum: int, maximum: int) -> int {
    if value < minimum {
        minimum - value
    } else if value > maximum {
        value - maximum
    } else {
        0
    }
}

/// How far `value` lies outside `[minimum, maximum]`.
pub fn distance_to_interval(value: i32, minimum: i32, maximum: i32) -> (distance: i64)
    ensures
        distance == interval_distance(value as int, minimum as int, maximum as int),
{
    if value < minimum {
        minimum as i64 - value as i64
    } else if value > maximum {
        value as i64 - maximum as i64
    } else {
        0
    }
}

/// The least squared distance from `slot` to a slot of the bucket.
pub open spec fn bucket_distance(slot: (i32, i32), bucket: (i32, i32)) -> int {
    let (x0, y0) = (bucket.0 * BUCKET_SIZE, bucket.1 * BUCKET_SIZE);
    let dx = interval_distance(slot.0 as int, x0, x0 + BUCKET_SIZE - 1);
    let dy = interval_distance(slot.1 as int, y0, y0 + BUCKET_SIZE - 1);
    dx * dx + dy * dy
}

/// A lower bound of the squared distance from `slot` to any slot in the bucket.
pub fn bucket_lower_bound(slot: (i32, i32), bucket: (i32, i32)) -> (bound: i64)
    requires
        -DISTANCE_LIMIT <= slot.0 <= DISTANCE_LIMIT,
        -DISTANCE_LIMIT <= slot.1 <= DISTANCE_LIMIT,
        -(DISTANCE_LIMIT as int) <= bucket.0 * BUCKET_SIZE <= DISTANCE_LIMIT,
        -(DISTANCE_LIMIT as int) <= bucket.1 * BUCKET_SIZE <= DISTANCE_LIMIT,
    ensures
        bound == bucket_distance(slot, bucket),
{
    let minimum = (bucket.0 * BUCKET_SIZE, bucket.1 * BUCKET_SIZE);
    let maximum = (minimum.0 + BUCKET_SIZE - 1, minimum.1 + BUCKET_SIZE - 1);
    let dx = distance_to_interval(slot.0, minimum.0, maximum.0);
    let dy = distance_to_interval(slot.1, minimum.1, maximum.1);
    assert(0 <= dx <= 2 * DISTANCE_LIMIT + BUCKET_SIZE);
    assert(0 <= dy <= 2 * DISTANCE_LIMIT + BUCKET_SIZE);
    assert(dx * dx <= (2 * DISTANCE_LIMIT + BUCKET_SIZE) * (2 * DISTANCE_LIMIT + BUCKET_SIZE)) by (nonlinear_arith)
        requires
            0 <= dx <= 2 * DISTANCE_LIMIT + BUCKET_SIZE,
    ;
    assert(dy * dy <= (2 * DISTANCE_LIMIT + BUCKET_SIZE) * (2 * DISTANCE_LIMIT + BUCKET_SIZE)) by (nonlinear_arith)
        requires
            0 <= dy <= 2 * DISTANCE_LIMIT + BUCKET_SIZE,
    ;
    assert(0 <= dx * dx && 0 <= dy * dy) by (nonlinear_arith)
        requires
            0 <= dx,
            0 <= dy,
    ;
    assert((2 * DISTANCE_LIMIT + BUCKET_SIZE) * (2 * DISTANCE_LIMIT + BUCKET_SIZE) == 1152921521786716224int) by (nonlinear_arith);
    dx * dx + dy * dy
}

/// The bound never exceeds the squared distance to a slot inside the bucket.
pub proof fn law_bucket_bound_is_a_lower_bound(slot: (i32, i32), bucket: (i32, i32), other: (i32, i32))
    requires
        bucket.0 * BUCKET_SIZE <= other.0 < bucket.0 * BUCKET_SIZE + BUCKET_SIZE,
        bucket.1 * BUCKET_SIZE <= other.1 < bucket.1 * BUCKET_SIZE + BUCKET_SIZE,
    ensures
        bucket_distance(slot, bucket) <= (slot.0 - other.0) * (slot.0 - other.0) + (slot.1 - other.1) * (
        slot.1 - other.1),
{
    let (x0, y0) = (bucket.0 * BUCKET_SIZE, bucket.1 * BUCKET_SIZE);
    let dx = interval_distance(slot.0 as int, x0, x0 + BUCKET_SIZE - 1);
    let dy = interval_distance(slot.1 as int, y0, y0 + BUCKET_SIZE - 1);
    let ex = slot.0 - other.0;
    let ey = slot.1 - other.1;
    assert(0 <= dx && (dx <= ex || dx <= -ex));
    assert(0 <= dy && (dy <= ey || dy <= -ey));
    assert(dx * dx <= ex * ex) by (nonlinear_arith)
        requires
            0 <= dx,
            dx <= ex || dx <= -ex,
    ;
    assert(dy * dy <= ey * ey) by (nonlinear_arith)
        requires
            0 <= dy,
            dy <= ey || dy <= -ey,
    ;
}

/// Two slots touch: they differ, by at most one on each axis.
pub open spec fn touching(a: (i32, i32), b: (i32, i32)) -> bool {
    ring_distance(a, b) == 1
}

/// The member at position `k` of `order` touches a member before it.
pub open spec fn touches_earlier(slots: Seq<(i32, i32)>, order: Seq<int>, k: int) -> bool {
    exists|p: int| 0 <= p < k && #[trigger] touching(slots[order[k]], slots[order[p]])
}

/// Every index of `order` after the first is of a member touching a member before it.
pub open spec fn grown_by_touch(slots: Seq<(i32, i32)>, order: Seq<int>) -> bool {
    forall|k: int| 0 < k < order.len() ==> #[trigger] touches_earlier(slots, order, k)
}

/// Every member touching a member of `order` is in `order`.
pub open spec fn closed_by_touch(slots: Seq<(i32, i32)>, order: Seq<int>) -> bool {
    forall|a: int, j: int|
        0 <= a < order.len() && 0 <= j < slots.len() && #[trigger] touching(slots[order[a]], slots[j]) ==> order.contains(j)
}

/// `order` lists distinct indices of members.
pub open spec fn member_indices(n: int, order: Seq<int>) -> bool {
    &&& order.no_duplicates()
    &&& forall|k: int| 0 <= k < order.len() ==> 0 <= #[trigger] order[k] < n
}

/// The member at `i` is in one of `comps`.
pub open spec fn in_some(comps: Seq<Seq<int>>, i: int) -> bool {
    exists|c: int| 0 <= c < comps.len() && #[trigger] comps[c].contains(i)
}

/// The slot of the member at `k`, if one holds `target`.
fn slot_holder(slots: &Vec<(i32, i32)>, target: (i32, i32)) -> (found: Option<usize>)
    ensures
        match found {
            Some(k) => k < slots@.len() && slots@[k as int] == target,
            None => forall|k: int| 0 <= k < slots@.len() ==> slots@[k] != target,
        },
{
    for k in 0..slots.len()
        invariant
            forall|j: int| 0 <= j < k ==> slots@[j] != target,
    {
        if slots[k].0 == target.0 && slots[k].1 == target.1 {
            return Some(k);
        }
    }
    None
}

/// The slots touching a slot are the eight around it.
proof fn lemma_touching_offsets(a: (i32, i32), b: (i32, i32))
    requires
        touching(a, b),
    ensures
        -1 <= b.0 - a.0 <= 1,
        -1 <= b.1 - a.1 <= 1,
        !(b.0 == a.0 && b.1 == a.1),
{
}

/// The indices as integers.
pub open spec fn as_ints(v: Seq<usize>) -> Seq<int> {
    v.map_values(|k: usize| k as int)
}

/// How many entries are `false`.
pub open spec fn count_unseen(s: Seq<bool>) -> nat
    decreases s.len(),
{
    if s.len() == 0 {
        0
    } else {
        count_unseen(s.drop_last()) + if s.last() {
            0nat
        } else {
            1nat
        }
    }
}

proof fn lemma_count_unseen_mark(s: Seq<bool>, k: int)
    requires
        0 <= k < s.len(),
        !s[k],
    ensures
        count_unseen(s.update(k, true)) + 1 == count_unseen(s),
    decreases s.len(),
{
    if k < s.len() - 1 {
        lemma_count_unseen_mark(s.drop_last(), k);
        assert(s.update(k, true).drop_last() =~= s.drop_last().update(k, true));
    } else {
        assert(s.update(k, true).drop_last() =~= s.drop_last());
    }
}

/// The offset of the `d`-th of the nine slots around and at a slot, row by row.
pub open spec fn around(d: int) -> (int, int) {
    ((d % 3) - 1, (d / 3) - 1)
}

proof fn lemma_grown_push(slots: Seq<(i32, i32)>, order: Seq<int>, x: int, h: int)
    requires
        grown_by_touch(slots, order),
        0 <= h < order.len(),
        touching(slots[x], slots[order[h]]),
    ensures
        grown_by_touch(slots, order.push(x)),
{
    let after = order.push(x);
    assert forall|q: int| 0 < q < after.len() implies #[trigger] touches_earlier(slots, after, q) by {
        if q == order.len() {
            assert(after[h] == order[h]);
            assert(touching(slots[after[q]], slots[after[h]]));
        } else {
            assert(touches_earlier(slots, order, q));
            assert(after[q] == order[q]);
            let p = choose|p: int| 0 <= p < q && #[trigger] touching(slots[order[q]], slots[order[p]]);
            assert(after[p] == order[p]);
        }
    }
}

/// The state of spreading a component: `order` holds the members found, those before `head`
/// have had their touching members found, `seen` marks the members of earlier components and
/// of `order`.
#[verifier::opaque]
pub open spec fn spreading(
    slots: Seq<(i32, i32)>,
    comps: Seq<Seq<int>>,
    initial: Seq<bool>,
    seen: Seq<bool>,
    order: Seq<int>,
    head: int,
) -> bool {
    let n = slots.len() as int;
    &&& seen.len() == n
    &&& initial.len() == n
    &&& 0 <= head <= order.len()
    &&& order.len() >= 1
    &&& member_indices(n, order)
    &&& grown_by_touch(slots, order)
    &&& forall|k: int| order.contains(k) ==> !in_some(comps, k)
    &&& forall|i: int| 0 <= i < n ==> seen[i] == (in_some(comps, i) || order.contains(i))
    &&& forall|a: int, j: int|
        0 <= a < head && 0 <= j < n && #[trigger] touching(slots[order[a]], slots[j]) ==> order.contains(j)
    &&& count_unseen(seen) + order.len() == count_unseen(initial)
}

/// What spreading relies on: earlier components are closed, slots are distinct and near the
/// origin, and `initial` marks the members of earlier components.
pub open spec fn spreading_ground(slots: Seq<(i32, i32)>, comps: Seq<Seq<int>>, initial: Seq<bool>) -> bool {
    &&& initial.len() == slots.len()
    &&& forall|i: int| 0 <= i < slots.len() ==> initial[i] == in_some(comps, i)
    &&& forall|c: int| 0 <= c < comps.len() ==> closed_by_touch(slots, #[trigger] comps[c])
    &&& forall|i: int, j: int| 0 <= i < j < slots.len() ==> (#[trigger] slots[i]) != (#[trigger] slots[j])
    &&& forall|i: int| 0 <= i < slots.len() ==> within(#[trigger] slots[i], DISTANCE_LIMIT as int)
}

/// Finds the member holding `target`, a slot touching the member at position `head` of
/// `order`, and adds it to `order` unless already seen.
fn visit_slot(
    slots: &Vec<(i32, i32)>,
    seen: &mut Vec<bool>,
    order: &mut Vec<usize>,
    head: usize,
    target: (i32, i32),
    Ghost(comps): Ghost<Seq<Seq<int>>>,
    Ghost(initial): Ghost<Seq<bool>>,
)
    requires
        spreading_ground(slots@, comps, initial),
        spreading(slots@, comps, initial, old(seen)@, as_ints(old(order)@), head as int),
        head < old(order)@.len(),
        touching(slots@[old(order)@[head as int] as int], target),
    ensures
        spreading(slots@, comps, initial, final(seen)@, as_ints(final(order)@), head as int),
        final(order)@.len() >= old(order)@.len(),
        final(order)@.take(old(order)@.len() as int) == old(order)@,
        forall|j: int| 0 <= j < slots@.len() && slots@[j] == target ==> as_ints(final(order)@).contains(j),
        count_unseen(final(seen)@) <= count_unseen(old(seen)@),
        count_unseen(final(seen)@) < count_unseen(old(seen)@) || final(order)@.len() == old(order)@.len(),
{
    let ghost cur = old(order)@[head as int] as int;
    let ghost before = as_ints(order@);
    let ghost seen_before = seen@;
    proof {
        reveal(spreading);
        assert(before[head as int] == cur);
    }
    match slot_holder(slots, target) {
        None => {
            assert(order@.take(order@.len() as int) =~= order@);
        },
        Some(k) => {
            proof {
                reveal(spreading);
                assert(seen@[k as int] == (in_some(comps, k as int) || before.contains(k as int)));
                assert forall|j: int| 0 <= j < slots@.len() && slots@[j] == target implies j == k by {
                    if j != k {
                        if j < k {
                            assert(slots@[j] != slots@[k as int]);
                        } else {
                            assert(slots@[k as int] != slots@[j]);
                        }
                    }
                }
            }
            if seen[k] {
                proof {
                    reveal(spreading);
                    if in_some(comps, k as int) {
                        let c = choose|c: int| 0 <= c < comps.len() && #[trigger] comps[c].contains(k as int);
                        let a = choose|a: int| 0 <= a < comps[c].len() && comps[c][a] == k as int;
                        assert(closed_by_touch(slots@, comps[c]));
                        assert(touching(slots@[comps[c][a]], slots@[cur]));
                        assert(before.contains(cur));
                    }
                }
                assert(order@.take(order@.len() as int) =~= order@);
            } else {
                proof {
                    reveal(spreading);
                    lemma_count_unseen_mark(seen@, k as int);
                }
                let ghost old_order = order@;
                seen.set(k, true);
                order.push(k);
                proof {
                    reveal(spreading);
                    let after = as_ints(order@);
                    assert(after =~= before.push(k as int));
                    assert(order@.take(old_order.len() as int) =~= old_order);
                    assert(!before.contains(k as int));
                    assert(touching(slots@[k as int], slots@[cur]));
                    lemma_grown_push(slots@, before, k as int, head as int);
                    assert forall|i: int| 0 <= i < slots@.len() implies seen@[i] == (in_some(comps, i) || after.contains(i)) by {
                        if i == k {
                            assert(after[before.len() as int] == i);
                        } else {
                            assert(seen@[i] == seen_before[i]);
                            assert(seen_before[i] == (in_some(comps, i) || before.contains(i)));
                            if after.contains(i) {
                                let q = choose|q: int| 0 <= q < after.len() && after[q] == i;
                                assert(before[q] == i);
                            }
                            if before.contains(i) {
                                let q = choose|q: int| 0 <= q < before.len() && before[q] == i;
                                assert(after[q] == i);
                            }
                        }
                    }
                    assert forall|kk: int| after.contains(kk) implies !in_some(comps, kk) by {
                        if kk != k {
                            let q = choose|q: int| 0 <= q < after.len() && after[q] == kk;
                            assert(before[q] == kk);
                        }
                    }
                    assert forall|a: int, j: int|
                        0 <= a < head && 0 <= j < slots@.len() && #[trigger] touching(slots@[after[a]], slots@[j]) implies after.contains(
                        j,
                    ) by {
                        assert(after[a] == before[a]);
                        assert(before.contains(j));
                        let q = choose|q: int| 0 <= q < before.len() && before[q] == j;
                        assert(after[q] == j);
                    }
                    assert(after[before.len() as int] == k);
                    assert forall|q1: int, q2: int| 0 <= q1 < after.len() && 0 <= q2 < after.len() && q1 != q2 implies after[q1]
                        != after[q2] by {
                        if q1 < before.len() && q2 < before.len() {
                            assert(after[q1] == before[q1] && after[q2] == before[q2]);
                        } else if q1 < before.len() {
                            assert(after[q1] == before[q1]);
                        } else if q2 < before.len() {
                            assert(after[q2] == before[q2]);
                        }
                    }
                    assert(member_indices(slots@.len() as int, after));
                    assert(count_unseen(seen@) + after.len() == count_unseen(initial));
                    assert(grown_by_touch(slots@, after));
                    assert(spreading(slots@, comps, initial, seen@, after, head as int));
                }
            }
        },
    }
}

/// The members of the component of the member at `start`, found by spreading from it to
/// touching members, and marked as seen; `comps` are the components found before.
fn grow_component(
    slots: &Vec<(i32, i32)>,
    seen: &mut Vec<bool>,
    start: usize,
    Ghost(comps): Ghost<Seq<Seq<int>>>,
) -> (order: Vec<usize>)
    requires
        spreading_ground(slots@, comps, old(seen)@),
        start < slots@.len(),
        !old(seen)@[start as int],
    ensures
        final(seen)@.len() == slots@.len(),
        order@.len() >= 1,
        order@[0] == start,
        member_indices(slots@.len() as int, as_ints(order@)),
        grown_by_touch(slots@, as_ints(order@)),
        closed_by_touch(slots@, as_ints(order@)),
        forall|k: int| as_ints(order@).contains(k) ==> !in_some(comps, k),
        forall|i: int| 0 <= i < slots@.len() ==> final(seen)@[i] == (in_some(comps, i) || as_ints(order@).contains(i)),
        count_unseen(final(seen)@) + order@.len() == count_unseen(old(seen)@),
{
    let n = slots.len();
    let ghost initial = seen@;
    let mut order: Vec<usize> = Vec::new();
    proof {
        lemma_count_unseen_mark(seen@, start as int);
    }
    seen.set(start, true);
    order.push(start);
    proof {
        reveal(spreading);
        assert(as_ints(order@) =~= seq![start as int]);
        assert forall|i: int| 0 <= i < n implies seen@[i] == (in_some(comps, i) || as_ints(order@).contains(i)) by {
            if i == start {
                assert(as_ints(order@)[0] == i);
            }
        }
        assert(spreading(slots@, comps, initial, seen@, as_ints(order@), 0));
    }
    let mut head: usize = 0;
    while head < order.len()
        invariant
            n == slots@.len(),
            spreading_ground(slots@, comps, initial),
            spreading(slots@, comps, initial, seen@, as_ints(order@), head as int),
            order@.len() >= 1,
            order@[0] == start,
        decreases count_unseen(seen@), order@.len() - head,
    {
        let cur = order[head];
        proof {
            reveal(spreading);
            assert(as_ints(order@)[head as int] == cur);
        }
        let here = slots[cur];
        let ghost unseen_before = count_unseen(seen@);
        let ghost len_before = order@.len();
        for d in 0..9usize
            invariant
                n == slots@.len(),
                spreading_ground(slots@, comps, initial),
                spreading(slots@, comps, initial, seen@, as_ints(order@), head as int),
                head < order@.len(),
                order@.len() >= len_before,
                order@[head as int] == cur,
                cur < n,
                here == slots@[cur as int],
                order@[0] == start,
                forall|e: int, j: int|
                    #![trigger around(e), slots@[j]]
                    0 <= e < d && e != 4 && 0 <= j < n && slots@[j].0 == here.0 + around(e).0 && slots@[j].1 == here.1
                        + around(e).1 ==> as_ints(order@).contains(j),
                count_unseen(seen@) <= unseen_before,
                count_unseen(seen@) < unseen_before || order@.len() == len_before,
        {
            if d != 4 {
                let dx: i32 = (d % 3) as i32 - 1;
                let dy: i32 = (d / 3) as i32 - 1;
                assert(within(here, DISTANCE_LIMIT as int));
                let target = (here.0 + dx, here.1 + dy);
                let ghost order_before = order@;
                visit_slot(slots, seen, &mut order, head, target, Ghost(comps), Ghost(initial));
                proof {
                    assert forall|e: int, j: int|
                        #![trigger around(e), slots@[j]]
                        0 <= e < d + 1 && e != 4 && 0 <= j < n && slots@[j].0 == here.0 + around(e).0 && slots@[j].1
                            == here.1 + around(e).1 implies as_ints(order@).contains(j) by {
                        if e < d {
                            assert(as_ints(order_before).contains(j));
                            let q = choose|q: int| 0 <= q < order_before.len() && as_ints(order_before)[q] == j;
                            assert(order@.take(order_before.len() as int)[q] == order_before[q]);
                            assert(as_ints(order@)[q] == j);
                        } else {
                            assert(around(e) == (dx as int, dy as int));
                        }
                    }
                    assert(order@[0] == order@.take(order_before.len() as int)[0]);
                    assert(order@[head as int] == order@.take(order_before.len() as int)[head as int]);
                }
            }
        }
        proof {
            reveal(spreading);
            assert forall|a: int, j: int|
                0 <= a < head + 1 && 0 <= j < n && #[trigger] touching(slots@[as_ints(order@)[a]], slots@[j]) implies as_ints(
                order@,
            ).contains(j) by {
                if a == head {
                    lemma_touching_offsets(here, slots@[j]);
                    let dx = slots@[j].0 - here.0;
                    let dy = slots@[j].1 - here.1;
                    let e = 3 * (dy + 1) + (dx + 1);
                    assert(e % 3 == dx + 1 && e / 3 == dy + 1);
                    assert(around(e) == (dx, dy));
                }
            }
        }
        head += 1;
    }
    proof {
        reveal(spreading);
    }
    order
}

/// The layout keys of the members.
pub open spec fn member_keys(members: Seq<NoteId>) -> Seq<Seq<u64>> {
    members.map_values(|id: NoteId| id.sort_key())
}

/// `input` holds copies of the members at the indices of `order`, in that order.
pub open spec fn copies_of(members: Seq<NoteId>, order: Seq<int>, input: Seq<NoteId>) -> bool {
    &&& input.len() == order.len()
    &&& forall|t: int| 0 <= t < order.len() ==> (#[trigger] input[t])@ == members[order[t]]@
}

/// Component `c` of `out` is the stable sort by layout key of copies of the members of
/// `order`.
pub open spec fn sorted_copies(members: Seq<NoteId>, order: Seq<int>, out: Seq<NoteId>) -> bool {
    exists|input: Seq<NoteId>| copies_of(members, order, input) && #[trigger] stably_sorted(input, out)
}

/// `comps` split the members into their touching components: every member is in exactly
/// one, each grows from its first member by touching members and holds every member touching
/// one of its own; each is listed from its first member, the least of it in layout order (by
/// key, then by position), and the components are listed by their first members in layout
/// order; `out` holds each component's members sorted by layout key.
pub open spec fn split_into_components(
    members: Seq<NoteId>,
    slots: Seq<(i32, i32)>,
    comps: Seq<Seq<int>>,
    out: Seq<Vec<NoteId>>,
) -> bool {
    let n = members.len() as int;
    let keys = member_keys(members);
    &&& comps.len() == out.len()
    &&& forall|i: int| 0 <= i < n ==> in_some(comps, i)
    &&& forall|c1: int, c2: int, a: int, b: int|
        0 <= c1 < comps.len() && 0 <= c2 < comps.len() && 0 <= a < comps[c1].len() && 0 <= b < comps[c2].len() && #[trigger] comps[c1][a]
            == #[trigger] comps[c2][b] ==> c1 == c2 && a == b
    &&& forall|c: int|
        0 <= c < comps.len() ==> (#[trigger] comps[c]).len() > 0 && member_indices(n, comps[c]) && grown_by_touch(slots, comps[c])
            && closed_by_touch(slots, comps[c]) && sorted_copies(members, comps[c], out[c]@)
    &&& forall|c: int, a: int|
        0 <= c < comps.len() && 0 <= a < comps[c].len() ==> !ranks_before(keys, #[trigger] comps[c][a], comps[c][0])
    &&& forall|c1: int, c2: int|
        0 <= c1 < c2 < comps.len() ==> ranks_before(keys, (#[trigger] comps[c1])[0], (#[trigger] comps[c2])[0])
}

/// The unseen member that comes first in layout order, if any.
fn first_unseen(keys: &Vec<Vec<u64>>, seen: &Vec<bool>, Ghost(spec_keys): Ghost<Seq<Seq<u64>>>) -> (first: Option<usize>)
    requires
        keys@.len() == seen@.len(),
        spec_keys.len() == keys@.len(),
        forall|i: int| 0 <= i < keys@.len() ==> (#[trigger] keys@[i])@ == spec_keys[i],
    ensures
        match first {
            Some(s) => s < seen@.len() && !seen@[s as int] && forall|j: int|
                0 <= j < seen@.len() && !seen@[j] ==> !ranks_before(spec_keys, j, s as int),
            None => forall|j: int| 0 <= j < seen@.len() ==> seen@[j],
        },
{
    let mut best: Option<usize> = None;
    for i in 0..seen.len()
        invariant
            keys@.len() == seen@.len(),
            spec_keys.len() == keys@.len(),
            forall|k: int| 0 <= k < keys@.len() ==> (#[trigger] keys@[k])@ == spec_keys[k],
            match best {
                Some(s) => s < i && !seen@[s as int] && forall|j: int|
                    0 <= j < i && !seen@[j] ==> !ranks_before(spec_keys, j, s as int),
                None => forall|j: int| 0 <= j < i ==> seen@[j],
            },
    {
        if !seen[i] {
            match best {
                None => {
                    proof {
                        crate::sort::lemma_ranks_before_irreflexive(spec_keys, i as int);
                    }
                    best = Some(i);
                },
                Some(s) => {
                    let after = SortKey::le(&keys[s], &keys[i]);
                    let before = SortKey::le(&keys[i], &keys[s]);
                    if !after || (before && i < s) {
                        proof {
                            assert(ranks_before(spec_keys, i as int, s as int));
                            assert forall|j: int| 0 <= j < i + 1 && !seen@[j] implies !ranks_before(spec_keys, j, i as int) by {
                                if j == i {
                                    crate::sort::lemma_ranks_before_irreflexive(spec_keys, i as int);
                                } else if ranks_before(spec_keys, j, i as int) {
                                    crate::sort::lemma_ranks_before_transitive(spec_keys, j, i as int, s as int);
                                    if j == s {
                                        crate::sort::lemma_ranks_before_irreflexive(spec_keys, s as int);
                                    }
                                }
                            }
                        }
                        best = Some(i);
                    } else {
                        assert(!ranks_before(spec_keys, i as int, s as int));
                    }
                },
            }
        }
    }
    best
}

/// Copies of the members at the indices of `order`, in that order.
pub(crate) fn copies_at(members: &Vec<NoteId>, order: &Vec<usize>) -> (copies: Vec<NoteId>)
    requires
        forall|t: int| 0 <= t < order@.len() ==> (#[trigger] order@[t]) < members@.len(),
    ensures
        copies_of(members@, as_ints(order@), copies@),
{
    let mut copies: Vec<NoteId> = Vec::new();
    for t in 0..order.len()
        invariant
            forall|u: int| 0 <= u < order@.len() ==> (#[trigger] order@[u]) < members@.len(),
            copies@.len() == t,
            forall|u: int| 0 <= u < t ==> (#[trigger] copies@[u])@ == members@[order@[u] as int]@,
    {
        copies.push(members[order[t]].duplicate());
    }
    copies
}

/// The components found so far while splitting the members: those of `comps`, with `out`
/// holding their sorted copies and `seen` marking their members, every unseen member coming
/// after each component's first member in layout order.
pub open spec fn found_components(
    members: Seq<NoteId>,
    slots: Seq<(i32, i32)>,
    comps: Seq<Seq<int>>,
    out: Seq<Vec<NoteId>>,
    seen: Seq<bool>,
) -> bool {
    let n = members.len() as int;
    let keys = member_keys(members);
    &&& slots.len() == n
    &&& spreading_ground(slots, comps, seen)
    &&& comps.len() == out.len()
    &&& forall|c1: int, c2: int, a: int, b: int|
        0 <= c1 < comps.len() && 0 <= c2 < comps.len() && 0 <= a < comps[c1].len() && 0 <= b < comps[c2].len() && #[trigger] comps[c1][a]
            == #[trigger] comps[c2][b] ==> c1 == c2 && a == b
    &&& forall|c: int|
        0 <= c < comps.len() ==> (#[trigger] comps[c]).len() > 0 && member_indices(n, comps[c]) && grown_by_touch(slots, comps[c])
            && closed_by_touch(slots, comps[c]) && sorted_copies(members, comps[c], out[c]@)
    &&& forall|c: int, a: int|
        0 <= c < comps.len() && 0 <= a < comps[c].len() ==> !ranks_before(keys, #[trigger] comps[c][a], comps[c][0])
    &&& forall|c1: int, c2: int|
        0 <= c1 < c2 < comps.len() ==> ranks_before(keys, (#[trigger] comps[c1])[0], (#[trigger] comps[c2])[0])
    &&& forall|c: int, j: int|
        #![trigger comps[c], seen[j]]
        0 <= c < comps.len() && 0 <= j < n && !seen[j] ==> ranks_before(keys, comps[c][0], j)
}

proof fn lemma_in_some_push(comps: Seq<Seq<int>>, x: Seq<int>, i: int)
    ensures
        in_some(comps.push(x), i) == (in_some(comps, i) || x.contains(i)),
{
    if in_some(comps, i) {
        let c = choose|c: int| 0 <= c < comps.len() && #[trigger] comps[c].contains(i);
        assert(comps.push(x)[c] == comps[c]);
    }
    if x.contains(i) {
        assert(comps.push(x)[comps.len() as int] == x);
    }
    if in_some(comps.push(x), i) {
        let c = choose|c: int| 0 <= c < comps.push(x).len() && #[trigger] comps.push(x)[c].contains(i);
        if c < comps.len() {
            assert(comps.push(x)[c] == comps[c]);
        }
    }
}

/// Adding the component grown from the first unseen member keeps what was found.
proof fn lemma_add_component(
    members: Seq<NoteId>,
    slots: Seq<(i32, i32)>,
    comps: Seq<Seq<int>>,
    out: Seq<Vec<NoteId>>,
    seen: Seq<bool>,
    comp: Seq<int>,
    sorted: Vec<NoteId>,
    grown_seen: Seq<bool>,
)
    requires
        found_components(members, slots, comps, out, seen),
        comp.len() >= 1,
        0 <= comp[0] < members.len(),
        !seen[comp[0]],
        forall|j: int| 0 <= j < seen.len() && !seen[j] ==> !ranks_before(member_keys(members), j, comp[0]),
        member_indices(members.len() as int, comp),
        grown_by_touch(slots, comp),
        closed_by_touch(slots, comp),
        forall|k: int| comp.contains(k) ==> !in_some(comps, k),
        grown_seen.len() == seen.len(),
        forall|i: int| 0 <= i < members.len() ==> grown_seen[i] == (in_some(comps, i) || comp.contains(i)),
        sorted_copies(members, comp, sorted@),
    ensures
        found_components(members, slots, comps.push(comp), out.push(sorted), grown_seen),
{
    let n = members.len() as int;
    let keys = member_keys(members);
    let new_comps = comps.push(comp);
    let new_out = out.push(sorted);
    let m = comps.len() as int;
    assert(new_comps[m] == comp);
    assert(new_out[m] == sorted);
    assert forall|c: int| 0 <= c < comps.len() implies #[trigger] new_comps[c] == comps[c] && new_out[c] == out[c] by {}
    assert forall|i: int| 0 <= i < n implies grown_seen[i] == in_some(new_comps, i) by {
        lemma_in_some_push(comps, comp, i);
    }
    assert forall|i: int| 0 <= i < n implies seen[i] == in_some(comps, i) by {}
    assert forall|c1: int, c2: int, a: int, b: int|
        0 <= c1 < new_comps.len() && 0 <= c2 < new_comps.len() && 0 <= a < new_comps[c1].len() && 0 <= b < new_comps[c2].len()
            && #[trigger] new_comps[c1][a] == #[trigger] new_comps[c2][b] implies c1 == c2 && a == b by {
        if c1 < m && c2 < m {
            assert(comps[c1][a] == comps[c2][b]);
        } else if c1 == m && c2 == m {
            assert(comp[a] == comp[b]);
        } else if c1 == m {
            assert(comp.contains(comp[a]));
            assert(comps[c2].contains(comp[a]));
            assert(in_some(comps, comp[a]));
        } else {
            assert(comp.contains(comp[b]));
            assert(comps[c1].contains(comp[b]));
            assert(in_some(comps, comp[b]));
        }
    }
    assert forall|c: int, a: int|
        0 <= c < new_comps.len() && 0 <= a < new_comps[c].len() implies !ranks_before(keys, #[trigger] new_comps[c][a], new_comps[c][0]) by {
        if c == m {
            assert(comp.contains(comp[a]));
            assert(!in_some(comps, comp[a]));
            assert(member_indices(n, comp));
            assert(0 <= comp[a] < n);
            assert(!seen[comp[a]]);
        } else {
            assert(!ranks_before(keys, comps[c][a], comps[c][0]));
        }
    }
    assert forall|c1: int, c2: int|
        0 <= c1 < c2 < new_comps.len() implies ranks_before(keys, (#[trigger] new_comps[c1])[0], (#[trigger] new_comps[c2])[0]) by {
        if c2 == m {
            assert(ranks_before(keys, comps[c1][0], comp[0]));
        } else {
            assert(ranks_before(keys, comps[c1][0], comps[c2][0]));
        }
    }
    assert forall|c: int, j: int|
        #![trigger new_comps[c], grown_seen[j]]
        0 <= c < new_comps.len() && 0 <= j < n && !grown_seen[j] implies ranks_before(keys, new_comps[c][0], j) by {
        lemma_in_some_push(comps, comp, j);
        assert(!seen[j]);
        if c == m {
            assert(comp[0] != j) by {
                assert(comp.contains(comp[0]));
            }
            lemma_ranks_before_total(keys, comp[0], j);
        } else {
            assert(ranks_before(keys, comps[c][0], j));
        }
    }
    assert forall|c: int| 0 <= c < new_comps.len() implies closed_by_touch(slots, #[trigger] new_comps[c]) by {
        if c < m {
            assert(closed_by_touch(slots, comps[c]));
        }
    }
    assert forall|c: int|
        0 <= c < new_comps.len() implies (#[trigger] new_comps[c]).len() > 0 && member_indices(n, new_comps[c])
            && grown_by_touch(slots, new_comps[c]) && closed_by_touch(slots, new_comps[c]) && sorted_copies(
            members,
            new_comps[c],
            new_out[c]@,
        ) by {
        if c < m {
            assert(comps[c].len() > 0 && member_indices(n, comps[c]) && grown_by_touch(slots, comps[c]) && closed_by_touch(
                slots,
                comps[c],
            ) && sorted_copies(members, comps[c], out[c]@));
        }
    }
}

/// The touching components of the members, whose slots are `slots`: the members reached from
/// one another by steps between touching slots, each component sorted by layout key, and the
/// components listed by their first members in layout order.
pub fn connected_components(members: &Vec<NoteId>, slots: &Vec<(i32, i32)>) -> (components: Vec<Vec<NoteId>>)
    requires
        slots@.len() == members@.len(),
        forall|i: int, j: int| 0 <= i < j < slots@.len() ==> (#[trigger] slots@[i]) != (#[trigger] slots@[j]),
        forall|i: int| 0 <= i < slots@.len() ==> within(#[trigger] slots@[i], DISTANCE_LIMIT as int),
    ensures
        exists|comps: Seq<Seq<int>>| #[trigger] split_into_components(members@, slots@, comps, components@),
{
    let (_, components) = split_components(members, slots);
    components
}

/// The index lists as sequences of integers.
pub open spec fn index_lists(orders: Seq<Vec<usize>>) -> Seq<Seq<int>> {
    orders.map_values(|order: Vec<usize>| as_ints(order@))
}

/// The touching components of the members, as index lists and as sorted copies.
fn split_components(members: &Vec<NoteId>, slots: &Vec<(i32, i32)>) -> (split: (Vec<Vec<usize>>, Vec<Vec<NoteId>>))
    requires
        slots@.len() == members@.len(),
        forall|i: int, j: int| 0 <= i < j < slots@.len() ==> (#[trigger] slots@[i]) != (#[trigger] slots@[j]),
        forall|i: int| 0 <= i < slots@.len() ==> within(#[trigger] slots@[i], DISTANCE_LIMIT as int),
    ensures
        split_into_components(members@, slots@, index_lists(split.0@), split.1@),
{
    let n = members.len();
    let ghost keys_spec = member_keys(members@);
    let keys = layout_keys(members);
    let mut orders: Vec<Vec<usize>> = Vec::new();
    let mut seen: Vec<bool> = Vec::new();
    for i in 0..n
        invariant
            seen@.len() == i,
            forall|k: int| 0 <= k < i ==> !(#[trigger] seen@[k]),
    {
        seen.push(false);
    }
    let mut components: Vec<Vec<NoteId>> = Vec::new();
    let ghost mut comps: Seq<Seq<int>> = Seq::empty();
    proof {
        assert forall|i: int| 0 <= i < n implies seen@[i] == in_some(comps, i) by {}
        assert(found_components(members@, slots@, comps, components@, seen@));
        assert(index_lists(orders@) =~= comps);
    }
    loop
        invariant
            n == members@.len(),
            slots@.len() == n,
            keys_spec == member_keys(members@),
            keys@.len() == n,
            forall|k: int| 0 <= k < n ==> (#[trigger] keys@[k])@ == keys_spec[k],
            found_components(members@, slots@, comps, components@, seen@),
            comps == index_lists(orders@),
        ensures
            split_into_components(members@, slots@, comps, components@),
            comps == index_lists(orders@),
        decreases count_unseen(seen@),
    {
        match first_unseen(&keys, &seen, Ghost(keys_spec)) {
            None => {
                proof {
                    assert forall|i: int| 0 <= i < n implies in_some(comps, i) by {
                        assert(seen@[i]);
                    }
                }
                break;
            },
            Some(start) => {
                let ghost seen_before = seen@;
                let order = grow_component(slots, &mut seen, start, Ghost(comps));
                proof {
                    assert forall|t: int| 0 <= t < order@.len() implies (#[trigger] order@[t]) < members@.len() by {
                        assert(as_ints(order@)[t] == order@[t]);
                    }
                }
                let copies = copies_at(members, &order);
                let ghost input = copies@;
                let sorted = stable_sort(copies);
                let ghost comp = as_ints(order@);
                proof {
                    assert(comp[0] == start);
                    assert(sorted_copies(members@, comp, sorted@));
                    lemma_add_component(members@, slots@, comps, components@, seen_before, comp, sorted, seen@);
                }
                let ghost old_out = components@;
                components.push(sorted);
                let ghost old_orders = orders@;
                orders.push(order);
                proof {
                    comps = comps.push(comp);
                    assert(components@ == old_out.push(sorted));
                    assert(index_lists(orders@) =~= index_lists(old_orders).push(comp));
                }
            },
        }
    }
    proof {
        assert(split_into_components(members@, slots@, comps, components@));
    }
    (orders, components)
}

/// How many members of `component` keep their place, their identities being in `kept`.
pub open spec fn kept_count(component: Seq<NoteId>, kept: Seq<Seq<char>>) -> nat
    decreases component.len(),
{
    if component.len() == 0 {
        0
    } else {
        kept_count(component.drop_last(), kept) + if kept.contains(component.last()@) {
            1nat
        } else {
            0nat
        }
    }
}

/// The component at `a` is at least as good a root as the one at `b`: more members that keep
/// their place, then more members, then the first member earlier in layout order.
pub open spec fn root_ge(components: Seq<Vec<NoteId>>, kept: Seq<Seq<char>>, a: int, b: int) -> bool {
    let (ka, kb) = (kept_count(components[a]@, kept), kept_count(components[b]@, kept));
    let (la, lb) = (components[a]@.len(), components[b]@.len());
    ||| ka > kb
    ||| ka == kb && la > lb
    ||| ka == kb && la == lb && key_le(components[a]@[0].sort_key(), components[b]@[0].sort_key())
}

/// The component at `r` is the root: the last of the best roots.
pub open spec fn is_root(components: Seq<Vec<NoteId>>, kept: Seq<Seq<char>>, r: int) -> bool {
    &&& 0 <= r < components.len()
    &&& forall|c: int| 0 <= c < components.len() ==> #[trigger] root_ge(components, kept, r, c)
    &&& forall|c: int| r < c < components.len() ==> !#[trigger] root_ge(components, kept, c, r)
}

/// How many members of `component` keep their place.
fn kept_members(component: &Vec<NoteId>, kept: &Vec<NoteId>) -> (count: usize)
    ensures
        count == kept_count(component@, ids(kept@)),
{
    let mut count: usize = 0;
    for i in 0..component.len()
        invariant
            count == kept_count(component@.take(i as int), ids(kept@)),
            count <= i,
    {
        assert(component@.take(i + 1).drop_last() =~= component@.take(i as int));
        if contains_id(kept, &component[i]) {
            count += 1;
        }
    }
    assert(component@.take(component@.len() as int) =~= component@);
    count
}

proof fn lemma_root_ge_total(components: Seq<Vec<NoteId>>, kept: Seq<Seq<char>>, a: int, b: int)
    ensures
        root_ge(components, kept, a, b) || root_ge(components, kept, b, a),
{
    crate::sort::lemma_seq_key_total(components[a]@[0].sort_key(), components[b]@[0].sort_key());
}

proof fn lemma_root_ge_transitive(components: Seq<Vec<NoteId>>, kept: Seq<Seq<char>>, a: int, b: int, c: int)
    requires
        root_ge(components, kept, a, b),
        root_ge(components, kept, b, c),
    ensures
        root_ge(components, kept, a, c),
{
    let (x, y, z) = (components[a]@[0].sort_key(), components[b]@[0].sort_key(), components[c]@[0].sort_key());
    if key_le(x, y) && key_le(y, z) {
        crate::sort::lemma_seq_key_transitive(x, y, z);
    }
}

/// The component the others are pulled toward: the one with the most members that keep their
/// place, then the most members, then the first member earliest in layout order.
pub fn root_component(components: &Vec<Vec<NoteId>>, kept: &Vec<NoteId>) -> (root: usize)
    requires
        components@.len() > 0,
        forall|c: int| 0 <= c < components@.len() ==> (#[trigger] components@[c])@.len() > 0,
    ensures
        is_root(components@, ids(kept@), root as int),
{
    let ghost kv = ids(kept@);
    let mut best: usize = 0;
    let mut best_kept = kept_members(&components[0], kept);
    proof {
        lemma_root_ge_total(components@, kv, 0, 0);
    }
    for c in 1..components.len()
        invariant
            kv == ids(kept@),
            forall|k: int| 0 <= k < components@.len() ==> (#[trigger] components@[k])@.len() > 0,
            best < c,
            best_kept == kept_count(components@[best as int]@, kv),
            forall|k: int| 0 <= k < c ==> #[trigger] root_ge(components@, kv, best as int, k),
            forall|k: int| best < k < c ==> !#[trigger] root_ge(components@, kv, k, best as int),
    {
        let here_kept = kept_members(&components[c], kept);
        let here_len = components[c].len();
        let best_len = components[best].len();
        let first_here = components[c][0].sort_key_exec();
        let first_best = components[best][0].sort_key_exec();
        let at_least = here_kept > best_kept || (here_kept == best_kept && here_len > best_len) || (here_kept == best_kept
            && here_len == best_len && SortKey::le(&first_here, &first_best));
        assert(at_least == root_ge(components@, kv, c as int, best as int));
        if at_least {
            proof {
                assert forall|k: int| 0 <= k < c + 1 implies #[trigger] root_ge(components@, kv, c as int, k) by {
                    if k < c {
                        lemma_root_ge_transitive(components@, kv, c as int, best as int, k);
                    } else {
                        lemma_root_ge_total(components@, kv, k, k);
                    }
                }
            }
            best = c;
            best_kept = here_kept;
        } else {
            proof {
                lemma_root_ge_total(components@, kv, c as int, best as int);
            }
        }
    }
    best
}

/// The bucket of a slot: its coordinates divided by [`BUCKET_SIZE`], rounded down.
pub open spec fn bucket_of(slot: (i32, i32)) -> (int, int) {
    (slot.0 as int / BUCKET_SIZE as int, slot.1 as int / BUCKET_SIZE as int)
}

/// A bucket's corner lies within [`DISTANCE_LIMIT`] of the origin on each axis.
pub open spec fn bucket_in_range(bucket: (i32, i32)) -> bool {
    &&& -(DISTANCE_LIMIT as int) <= bucket.0 * BUCKET_SIZE <= DISTANCE_LIMIT
    &&& -(DISTANCE_LIMIT as int) <= bucket.1 * BUCKET_SIZE <= DISTANCE_LIMIT
}

/// Some key of `keys` is the bucket of `slot`.
pub open spec fn keyed(keys: Seq<(i32, i32)>, slot: (i32, i32)) -> bool {
    exists|k: int| 0 <= k < keys.len() && bucket_of(slot) == (keys[k].0 as int, keys[k].1 as int)
}

fn floor_div_bucket(x: i32) -> (q: i32)
    requires
        -DISTANCE_LIMIT <= x <= DISTANCE_LIMIT,
    ensures
        q == x as int / BUCKET_SIZE as int,
        q * BUCKET_SIZE <= x < q * BUCKET_SIZE + BUCKET_SIZE,
        -(DISTANCE_LIMIT as int) <= q * BUCKET_SIZE <= DISTANCE_LIMIT,
{
    if x >= 0 {
        x / BUCKET_SIZE
    } else {
        -((-x + BUCKET_SIZE - 1) / BUCKET_SIZE)
    }
}

/// Slots grouped into buckets: each bucket with the indices of the slots in it.
pub struct SlotBuckets {
    pub buckets: Vec<((i32, i32), Vec<usize>)>,
}

impl SlotBuckets {
    /// Slot `r` is listed in some bucket.
    pub open spec fn lists(&self, r: int) -> bool {
        exists|t: int, u: int|
            0 <= t < self.buckets@.len() && 0 <= u < self.buckets@[t].1@.len() && #[trigger] self.buckets@[t].1@[u] == r
    }

    /// Every listed index is of a slot in its bucket, every bucket is in range, and every
    /// slot is listed.
    pub open spec fn holds(&self, slots: Seq<(i32, i32)>) -> bool {
        &&& forall|t: int| 0 <= t < self.buckets@.len() ==> bucket_in_range((#[trigger] self.buckets@[t]).0)
        &&& forall|t: int, u: int|
            0 <= t < self.buckets@.len() && 0 <= u < self.buckets@[t].1@.len() ==> (#[trigger] self.buckets@[t].1@[u])
                < slots.len() && bucket_of(slots[self.buckets@[t].1@[u] as int]) == (
                self.buckets@[t].0.0 as int,
                self.buckets@[t].0.1 as int,
            )
        &&& forall|r: int| 0 <= r < slots.len() ==> #[trigger] self.lists(r)
    }

    /// Groups the slots into buckets.
    pub fn new(slots: &Vec<(i32, i32)>) -> (grouped: Self)
        requires
            forall|i: int| 0 <= i < slots@.len() ==> within(#[trigger] slots@[i], DISTANCE_LIMIT as int),
        ensures
            grouped.holds(slots@),
    {
        let n = slots.len();
        let mut keys: Vec<(i32, i32)> = Vec::new();
        for r in 0..n
            invariant
                n == slots@.len(),
                forall|i: int| 0 <= i < n ==> within(#[trigger] slots@[i], DISTANCE_LIMIT as int),
                forall|k: int| 0 <= k < keys@.len() ==> bucket_in_range(#[trigger] keys@[k]),
                forall|i: int| 0 <= i < r ==> #[trigger] keyed(keys@, slots@[i]),
        {
            let slot = slots[r];
            assert(within(slot, DISTANCE_LIMIT as int));
            let b = (floor_div_bucket(slot.0), floor_div_bucket(slot.1));
            let mut present = false;
            for t in 0..keys.len()
                invariant
                    present ==> exists|k: int| 0 <= k < keys@.len() && keys@[k] == b,
            {
                if keys[t].0 == b.0 && keys[t].1 == b.1 {
                    present = true;
                    assert(keys@[t as int] == b);
                }
            }
            let ghost before = keys@;
            if !present {
                keys.push(b);
                assert(keys@[keys@.len() - 1] == b);
            }
            proof {
                assert forall|i: int| 0 <= i < r + 1 implies #[trigger] keyed(keys@, slots@[i]) by {
                    if i < r {
                        assert(keyed(before, slots@[i]));
                        let k = choose|k: int| 0 <= k < before.len() && bucket_of(slots@[i]) == (before[k].0 as int, before[k].1 as int);
                        assert(keys@[k] == before[k]);
                    } else if present {
                        let k = choose|k: int| 0 <= k < keys@.len() && keys@[k] == b;
                        assert(bucket_of(slots@[i]) == (keys@[k].0 as int, keys@[k].1 as int));
                    } else {
                        assert(bucket_of(slots@[i]) == (keys@[keys@.len() - 1].0 as int, keys@[keys@.len() - 1].1 as int));
                    }
                }
            }
        }
        let mut buckets: Vec<((i32, i32), Vec<usize>)> = Vec::new();
        for t in 0..keys.len()
            invariant
                n == slots@.len(),
                forall|i: int| 0 <= i < n ==> within(#[trigger] slots@[i], DISTANCE_LIMIT as int),
                forall|k: int| 0 <= k < keys@.len() ==> bucket_in_range(#[trigger] keys@[k]),
                buckets@.len() == t,
                forall|k: int| 0 <= k < t ==> (#[trigger] buckets@[k]).0 == keys@[k],
                forall|k: int, u: int|
                    0 <= k < t && 0 <= u < buckets@[k].1@.len() ==> (#[trigger] buckets@[k].1@[u]) < n && bucket_of(
                        slots@[buckets@[k].1@[u] as int],
                    ) == (buckets@[k].0.0 as int, buckets@[k].0.1 as int),
                forall|k: int, r: int|
                    0 <= k < t && 0 <= r < n && bucket_of(slots@[r]) == (keys@[k].0 as int, keys@[k].1 as int)
                        ==> #[trigger] buckets@[k].1@.contains(r as usize),
        {
            let key = keys[t];
            let mut members: Vec<usize> = Vec::new();
            for r in 0..n
                invariant
                    n == slots@.len(),
                    forall|i: int| 0 <= i < n ==> within(#[trigger] slots@[i], DISTANCE_LIMIT as int),
                    forall|u: int|
                        0 <= u < members@.len() ==> (#[trigger] members@[u]) < n && bucket_of(slots@[members@[u] as int])
                            == (key.0 as int, key.1 as int),
                    forall|i: int|
                        0 <= i < r && bucket_of(slots@[i]) == (key.0 as int, key.1 as int) ==> members@.contains(
                            i as usize,
                        ),
            {
                let slot = slots[r];
                assert(within(slot, DISTANCE_LIMIT as int));
                let b = (floor_div_bucket(slot.0), floor_div_bucket(slot.1));
                let ghost before = members@;
                if b.0 == key.0 && b.1 == key.1 {
                    members.push(r);
                    assert(members@[members@.len() - 1] == r);
                }
                proof {
                    assert forall|i: int|
                        0 <= i < r + 1 && bucket_of(slots@[i]) == (key.0 as int, key.1 as int) implies members@.contains(
                        i as usize,
                    ) by {
                        if i < r {
                            let u = choose|u: int| 0 <= u < before.len() && before[u] == i as usize;
                            assert(members@[u] == before[u]);
                        } else {
                            assert(members@[members@.len() - 1] == i as usize);
                        }
                    }
                }
            }
            buckets.push((key, members));
        }
        let grouped = SlotBuckets { buckets };
        proof {
            assert forall|r: int| 0 <= r < n implies #[trigger] grouped.lists(r) by {
                assert(keyed(keys@, slots@[r]));
                let k = choose|k: int|
                    0 <= k < keys@.len() && bucket_of(slots@[r]) == (keys@[k].0 as int, keys@[k].1 as int);
                assert(grouped.buckets@[k].1@.contains(r as usize));
                let u = choose|u: int| 0 <= u < grouped.buckets@[k].1@.len() && grouped.buckets@[k].1@[u] == r as usize;
                assert(grouped.buckets@[k].1@[u] == r);
            }
        }
        grouped
    }
}

/// The squared distance between two slots.
pub open spec fn gap(a: (i32, i32), b: (i32, i32)) -> int {
    (a.0 - b.0) * (a.0 - b.0) + (a.1 - b.1) * (a.1 - b.1)
}

/// The squared distance between two slots.
pub fn squared_gap(a: (i32, i32), b: (i32, i32)) -> (d: i64)
    requires
        within(a, DISTANCE_LIMIT as int),
        within(b, DISTANCE_LIMIT as int),
    ensures
        d == gap(a, b),
{
    let dx = a.0 as i64 - b.0 as i64;
    let dy = a.1 as i64 - b.1 as i64;
    assert(dx * dx <= 1152921504606846976 && dy * dy <= 1152921504606846976) by (nonlinear_arith)
        requires
            -1073741824 <= dx <= 1073741824,
            -1073741824 <= dy <= 1073741824,
    ;
    assert(0 <= dx * dx && 0 <= dy * dy) by (nonlinear_arith);
    dx * dx + dy * dy
}

/// A candidate pair `(d1, l1, r1)` orders no later than `(d2, l2, r2)`: by squared
/// distance, then by the key of its left member, then by the key of its right member.
pub open spec fn pair_order(d1: int, l1: Seq<u64>, r1: Seq<u64>, d2: int, l2: Seq<u64>, r2: Seq<u64>) -> bool {
    d1 < d2 || (d1 == d2 && (!key_le(l2, l1) || (key_le(l1, l2) && key_le(r1, r2))))
}

/// The pair of left member `i` and right member `j` orders no later than that of `a` and `b`.
pub open spec fn pair_le(
    left_slots: Seq<(i32, i32)>,
    right_slots: Seq<(i32, i32)>,
    left_keys: Seq<Seq<u64>>,
    right_keys: Seq<Seq<u64>>,
    i: int,
    j: int,
    a: int,
    b: int,
) -> bool {
    pair_order(
        gap(left_slots[i], right_slots[j]),
        left_keys[i],
        right_keys[j],
        gap(left_slots[a], right_slots[b]),
        left_keys[a],
        right_keys[b],
    )
}

proof fn lemma_pair_order_total(d1: int, l1: Seq<u64>, r1: Seq<u64>, d2: int, l2: Seq<u64>, r2: Seq<u64>)
    ensures
        pair_order(d1, l1, r1, d2, l2, r2) || pair_order(d2, l2, r2, d1, l1, r1),
{
    lemma_seq_key_total::<u64>(l1, l2);
    lemma_seq_key_total::<u64>(r1, r2);
}

proof fn lemma_pair_order_transitive(
    d1: int,
    l1: Seq<u64>,
    r1: Seq<u64>,
    d2: int,
    l2: Seq<u64>,
    r2: Seq<u64>,
    d3: int,
    l3: Seq<u64>,
    r3: Seq<u64>,
)
    requires
        pair_order(d1, l1, r1, d2, l2, r2),
        pair_order(d2, l2, r2, d3, l3, r3),
    ensures
        pair_order(d1, l1, r1, d3, l3, r3),
{
    if d1 == d2 && d2 == d3 {
        lemma_seq_key_total::<u64>(l1, l2);
        lemma_seq_key_total::<u64>(l2, l3);
        lemma_seq_key_total::<u64>(l1, l3);
        if key_le(l3, l1) && key_le(l1, l2) {
            lemma_seq_key_transitive::<u64>(l3, l1, l2);
        }
        if key_le(l2, l3) && key_le(l3, l1) {
            lemma_seq_key_transitive::<u64>(l2, l3, l1);
        }
        if key_le(l1, l2) && key_le(l2, l3) {
            lemma_seq_key_transitive::<u64>(l1, l2, l3);
        }
        if key_le(l3, l2) && key_le(l2, l1) {
            lemma_seq_key_transitive::<u64>(l3, l2, l1);
        }
        if key_le(r1, r2) && key_le(r2, r3) {
            lemma_seq_key_transitive::<u64>(r1, r2, r3);
        }
    }
}

/// Whether candidate `(d1, l1, r1)` orders no later than `(d2, l2, r2)`.
fn pair_order_exec(d1: i64, l1: &Vec<u64>, r1: &Vec<u64>, d2: i64, l2: &Vec<u64>, r2: &Vec<u64>) -> (r: bool)
    ensures
        r == pair_order(d1 as int, l1@, r1@, d2 as int, l2@, r2@),
{
    if d1 != d2 {
        return d1 < d2;
    }
    if !SortKey::le(l2, l1) {
        return true;
    }
    SortKey::le(l1, l2) && SortKey::le(r1, r2)
}

/// The layout keys of the members, in their order.
fn layout_keys(members: &Vec<NoteId>) -> (keys: Vec<Vec<u64>>)
    ensures
        keys@.len() == members@.len(),
        forall|k: int| 0 <= k < keys@.len() ==> (#[trigger] keys@[k])@ == member_keys(members@)[k],
{
    let mut keys: Vec<Vec<u64>> = Vec::new();
    for i in 0..members.len()
        invariant
            keys@.len() == i,
            forall|k: int| 0 <= k < i ==> (#[trigger] keys@[k])@ == member_keys(members@)[k],
    {
        keys.push(members[i].sort_key_exec());
    }
    keys
}

/// The closest pair of a left member and a right member: least squared distance between
/// their slots, ties going to the left member first in layout order, then to the right
/// member first in layout order. Buckets whose bound exceeds the best distance found so far
/// are passed over.
pub fn closest_pair(
    left: &Vec<NoteId>,
    left_slots: &Vec<(i32, i32)>,
    right: &Vec<NoteId>,
    right_slots: &Vec<(i32, i32)>,
    buckets: &SlotBuckets,
) -> (pair: (usize, usize))
    requires
        left@.len() == left_slots@.len(),
        0 < left@.len(),
        right@.len() == right_slots@.len(),
        0 < right@.len(),
        buckets.holds(right_slots@),
        forall|i: int| 0 <= i < left_slots@.len() ==> within(#[trigger] left_slots@[i], DISTANCE_LIMIT as int),
        forall|j: int| 0 <= j < right_slots@.len() ==> within(#[trigger] right_slots@[j], DISTANCE_LIMIT as int),
    ensures
        pair.0 < left@.len(),
        pair.1 < right@.len(),
        forall|a: int, b: int|
            0 <= a < left@.len() && 0 <= b < right@.len() ==> #[trigger] pair_le(
                left_slots@,
                right_slots@,
                member_keys(left@),
                member_keys(right@),
                pair.0 as int,
                pair.1 as int,
                a,
                b,
            ),
{
    let nl = left.len();
    let nr = right.len();
    let lk = layout_keys(left);
    let rk = layout_keys(right);
    let ghost ls = left_slots@;
    let ghost rs = right_slots@;
    let ghost lks = member_keys(left@);
    let ghost rks = member_keys(right@);
    let mut best: Option<(i64, usize, usize)> = None;
    for i in 0..nl
        invariant
            nl == left@.len(),
            nr == right@.len(),
            0 < nr,
            ls == left_slots@,
            rs == right_slots@,
            lks == member_keys(left@),
            rks == member_keys(right@),
            ls.len() == nl,
            rs.len() == nr,
            lk@.len() == nl,
            rk@.len() == nr,
            forall|k: int| 0 <= k < nl ==> (#[trigger] lk@[k])@ == lks[k],
            forall|k: int| 0 <= k < nr ==> (#[trigger] rk@[k])@ == rks[k],
            buckets.holds(rs),
            forall|k: int| 0 <= k < nl ==> within(#[trigger] ls[k], DISTANCE_LIMIT as int),
            forall|k: int| 0 <= k < nr ==> within(#[trigger] rs[k], DISTANCE_LIMIT as int),
            match best {
                None => i == 0,
                Some((d, bi, bj)) => {
                    &&& bi < nl
                    &&& bj < nr
                    &&& d == gap(ls[bi as int], rs[bj as int])
                    &&& forall|a: int, b: int|
                        0 <= a < i && 0 <= b < nr ==> #[trigger] pair_le(ls, rs, lks, rks, bi as int, bj as int, a, b)
                },
            },
    {
        let slot = left_slots[i];
        assert(within(slot, DISTANCE_LIMIT as int));
        let nb = buckets.buckets.len();
        for t in 0..nb
            invariant
                nl == left@.len(),
                nr == right@.len(),
                i < nl,
                slot == ls[i as int],
                within(slot, DISTANCE_LIMIT as int),
                nb == buckets.buckets@.len(),
                ls == left_slots@,
                rs == right_slots@,
                ls.len() == nl,
                rs.len() == nr,
                lk@.len() == nl,
                rk@.len() == nr,
                forall|k: int| 0 <= k < nl ==> (#[trigger] lk@[k])@ == lks[k],
                forall|k: int| 0 <= k < nr ==> (#[trigger] rk@[k])@ == rks[k],
                buckets.holds(rs),
                forall|k: int| 0 <= k < nr ==> within(#[trigger] rs[k], DISTANCE_LIMIT as int),
                match best {
                    None => i == 0 && forall|s: int| 0 <= s < t ==> (#[trigger] buckets.buckets@[s]).1@.len() == 0,
                    Some((d, bi, bj)) => {
                        &&& bi < nl
                        &&& bj < nr
                        &&& d == gap(ls[bi as int], rs[bj as int])
                        &&& forall|a: int, b: int|
                            0 <= a < i && 0 <= b < nr ==> #[trigger] pair_le(ls, rs, lks, rks, bi as int, bj as int, a, b)
                        &&& forall|s: int, u: int|
                            0 <= s < t && 0 <= u < buckets.buckets@[s].1@.len() ==> pair_le(
                                ls,
                                rs,
                                lks,
                                rks,
                                bi as int,
                                bj as int,
                                i as int,
                                #[trigger] buckets.buckets@[s].1@[u] as int,
                            )
                    },
                },
        {
            let bucket = &buckets.buckets[t];
            assert(bucket_in_range(buckets.buckets@[t as int].0));
            let skip = match best {
                Some((d, _, _)) => bucket_lower_bound(slot, bucket.0) > d,
                None => false,
            };
            if skip {
                proof {
                    let (d, bi, bj) = best.unwrap();
                    assert forall|u: int| 0 <= u < bucket.1@.len() implies pair_le(
                        ls,
                        rs,
                        lks,
                        rks,
                        bi as int,
                        bj as int,
                        i as int,
                        #[trigger] bucket.1@[u] as int,
                    ) by {
                        let j = bucket.1@[u] as int;
                        assert(bucket_of(rs[j]) == (bucket.0.0 as int, bucket.0.1 as int));
                        law_bucket_bound_is_a_lower_bound(slot, bucket.0, rs[j]);
                    }
                }
            } else {
                let nu = bucket.1.len();
                for u in 0..nu
                    invariant
                        nl == left@.len(),
                        nr == right@.len(),
                        i < nl,
                        t < nb,
                        nu == bucket.1@.len(),
                        *bucket == buckets.buckets@[t as int],
                        slot == ls[i as int],
                        within(slot, DISTANCE_LIMIT as int),
                        nb == buckets.buckets@.len(),
                        ls == left_slots@,
                        rs == right_slots@,
                        ls.len() == nl,
                        rs.len() == nr,
                        lk@.len() == nl,
                        rk@.len() == nr,
                        forall|k: int| 0 <= k < nl ==> (#[trigger] lk@[k])@ == lks[k],
                        forall|k: int| 0 <= k < nr ==> (#[trigger] rk@[k])@ == rks[k],
                        buckets.holds(rs),
                        forall|k: int| 0 <= k < nr ==> within(#[trigger] rs[k], DISTANCE_LIMIT as int),
                        match best {
                            None => i == 0 && u == 0 && forall|s: int|
                                0 <= s < t ==> (#[trigger] buckets.buckets@[s]).1@.len() == 0,
                            Some((d, bi, bj)) => {
                                &&& bi < nl
                                &&& bj < nr
                                &&& d == gap(ls[bi as int], rs[bj as int])
                                &&& forall|a: int, b: int|
                                    0 <= a < i && 0 <= b < nr ==> #[trigger] pair_le(
                                        ls,
                                        rs,
                                        lks,
                                        rks,
                                        bi as int,
                                        bj as int,
                                        a,
                                        b,
                                    )
                                &&& forall|s: int, v: int|
                                    0 <= s < t && 0 <= v < buckets.buckets@[s].1@.len() ==> pair_le(
                                        ls,
                                        rs,
                                        lks,
                                        rks,
                                        bi as int,
                                        bj as int,
                                        i as int,
                                        #[trigger] buckets.buckets@[s].1@[v] as int,
                                    )
                                &&& forall|v: int|
                                    0 <= v < u ==> pair_le(
                                        ls,
                                        rs,
                                        lks,
                                        rks,
                                        bi as int,
                                        bj as int,
                                        i as int,
                                        #[trigger] bucket.1@[v] as int,
                                    )
                            },
                        },
                {
                    let j = bucket.1[u];
                    assert(j < nr);
                    let d = squared_gap(slot, right_slots[j]);
                    let better = match best {
                        None => true,
                        Some((bd, bi, bj)) => !pair_order_exec(bd, &lk[bi], &rk[bj], d, &lk[i], &rk[j]),
                    };
                    if better {
                        proof {
                            if let Some((bd, bi, bj)) = best {
                                lemma_pair_order_total(
                                    bd as int,
                                    lks[bi as int],
                                    rks[bj as int],
                                    d as int,
                                    lks[i as int],
                                    rks[j as int],
                                );
                                assert forall|a: int, b: int|
                                    0 <= a < i && 0 <= b < nr implies #[trigger] pair_le(
                                    ls,
                                    rs,
                                    lks,
                                    rks,
                                    i as int,
                                    j as int,
                                    a,
                                    b,
                                ) by {
                                    assert(pair_le(ls, rs, lks, rks, bi as int, bj as int, a, b));
                                    lemma_pair_order_transitive(
                                        d as int,
                                        lks[i as int],
                                        rks[j as int],
                                        bd as int,
                                        lks[bi as int],
                                        rks[bj as int],
                                        gap(ls[a], rs[b]),
                                        lks[a],
                                        rks[b],
                                    );
                                }
                                assert forall|s: int, v: int|
                                    0 <= s < t && 0 <= v < buckets.buckets@[s].1@.len() implies pair_le(
                                    ls,
                                    rs,
                                    lks,
                                    rks,
                                    i as int,
                                    j as int,
                                    i as int,
                                    #[trigger] buckets.buckets@[s].1@[v] as int,
                                ) by {
                                    let b = buckets.buckets@[s].1@[v] as int;
                                    assert(pair_le(ls, rs, lks, rks, bi as int, bj as int, i as int, b));
                                    lemma_pair_order_transitive(
                                        d as int,
                                        lks[i as int],
                                        rks[j as int],
                                        bd as int,
                                        lks[bi as int],
                                        rks[bj as int],
                                        gap(ls[i as int], rs[b]),
                                        lks[i as int],
                                        rks[b],
                                    );
                                }
                                assert forall|v: int| 0 <= v < u + 1 implies pair_le(
                                    ls,
                                    rs,
                                    lks,
                                    rks,
                                    i as int,
                                    j as int,
                                    i as int,
                                    #[trigger] bucket.1@[v] as int,
                                ) by {
                                    let b = bucket.1@[v] as int;
                                    if v < u {
                                        assert(pair_le(ls, rs, lks, rks, bi as int, bj as int, i as int, b));
                                        lemma_pair_order_transitive(
                                            d as int,
                                            lks[i as int],
                                            rks[j as int],
                                            bd as int,
                                            lks[bi as int],
                                            rks[bj as int],
                                            gap(ls[i as int], rs[b]),
                                            lks[i as int],
                                            rks[b],
                                        );
                                    } else {
                                        lemma_pair_order_total(
                                            d as int,
                                            lks[i as int],
                                            rks[j as int],
                                            d as int,
                                            lks[i as int],
                                            rks[j as int],
                                        );
                                    }
                                }
                            } else {
                                assert forall|v: int| 0 <= v < u + 1 implies pair_le(
                                    ls,
                                    rs,
                                    lks,
                                    rks,
                                    i as int,
                                    j as int,
                                    i as int,
                                    #[trigger] bucket.1@[v] as int,
                                ) by {
                                    lemma_pair_order_total(
                                        d as int,
                                        lks[i as int],
                                        rks[j as int],
                                        d as int,
                                        lks[i as int],
                                        rks[j as int],
                                    );
                                }
                            }
                        }
                        best = Some((d, i, j));
                    } else {
                        proof {
                            let (bd, bi, bj) = best.unwrap();
                            lemma_pair_order_total(
                                bd as int,
                                lks[bi as int],
                                rks[bj as int],
                                d as int,
                                lks[i as int],
                                rks[j as int],
                            );
                        }
                    }
                }
            }
        }
        proof {
            assert(buckets.lists(0));
            match best {
                None => {
                    let (s, u) = choose|s: int, u: int|
                        0 <= s < buckets.buckets@.len() && 0 <= u < buckets.buckets@[s].1@.len()
                            && #[trigger] buckets.buckets@[s].1@[u] == 0;
                    assert(buckets.buckets@[s].1@.len() == 0);
                },
                Some((d, bi, bj)) => {
                    assert forall|a: int, b: int| 0 <= a < i + 1 && 0 <= b < nr implies #[trigger] pair_le(
                        ls,
                        rs,
                        lks,
                        rks,
                        bi as int,
                        bj as int,
                        a,
                        b,
                    ) by {
                        if a == i {
                            assert(buckets.lists(b));
                            let (s, u) = choose|s: int, u: int|
                                0 <= s < buckets.buckets@.len() && 0 <= u < buckets.buckets@[s].1@.len()
                                    && #[trigger] buckets.buckets@[s].1@[u] == b;
                            assert(pair_le(ls, rs, lks, rks, bi as int, bj as int, i as int, buckets.buckets@[s].1@[u] as int));
                        }
                    }
                },
            }
        }
    }
    match best {
        Some((_, bi, bj)) => (bi, bj),
        None => (0, 0),
    }
}

/// The sign of a number: -1, 0 or 1.
pub open spec fn sign(x: int) -> int {
    if x > 0 {
        1
    } else if x < 0 {
        -1
    } else {
        0
    }
}

/// The step, one slot or none on each axis, that leads from `from` towards `to`.
pub open spec fn toward(from: (i32, i32), to: (i32, i32)) -> (int, int) {
    (sign(to.0 - from.0), sign(to.1 - from.1))
}

/// A split component pulled back towards the root: its member `left` and the root's member
/// `right` closest to it, both as indices of the cluster's members, and the step that leads
/// from `left` towards `right`.
#[derive(Clone, Copy, Debug)]
pub struct Pull {
    pub left: usize,
    pub right: usize,
    pub step: (i32, i32),
}

/// `pull` joins the component `from` to the component `to` at their closest pair of members,
/// in the order of [`pair_le`], and steps from the one towards the other.
pub open spec fn pulls_together(
    members: Seq<NoteId>,
    slots: Seq<(i32, i32)>,
    from: Seq<int>,
    to: Seq<int>,
    pull: Pull,
) -> bool {
    let keys = member_keys(members);
    let (l, r) = (pull.left as int, pull.right as int);
    &&& from.contains(l)
    &&& to.contains(r)
    &&& forall|a: int, b: int|
        from.contains(a) && to.contains(b) ==> #[trigger] pair_le(slots, slots, keys, keys, l, r, a, b)
    &&& (pull.step.0 as int, pull.step.1 as int) == toward(slots[l], slots[r])
}

/// The index, among all components, of the `p`-th component other than the root.
pub open spec fn past_root(p: int, root: int) -> int {
    if p < root {
        p
    } else {
        p + 1
    }
}

/// `pulls` bring a split cluster back together: none when its members form one component;
/// otherwise one for each component but the root, in order, joining it to the root.
pub open spec fn pulled_back(
    members: Seq<NoteId>,
    slots: Seq<(i32, i32)>,
    kept: Seq<Seq<char>>,
    comps: Seq<Seq<int>>,
    out: Seq<Vec<NoteId>>,
    pulls: Seq<Pull>,
) -> bool {
    if out.len() <= 1 {
        pulls.len() == 0
    } else {
        exists|root: int|
            #[trigger] is_root(out, kept, root) && pulls.len() == out.len() - 1 && forall|p: int|
                0 <= p < pulls.len() ==> pulls_together(members, slots, comps[past_root(p, root)], comps[root], #[trigger] pulls[p])
    }
}

/// The slots at the indices of `order`, in that order.
pub(crate) fn slots_at(slots: &Vec<(i32, i32)>, order: &Vec<usize>) -> (picked: Vec<(i32, i32)>)
    requires
        forall|t: int| 0 <= t < order@.len() ==> (#[trigger] order@[t]) < slots@.len(),
    ensures
        picked@.len() == order@.len(),
        forall|t: int| 0 <= t < order@.len() ==> #[trigger] picked@[t] == slots@[order@[t] as int],
{
    let mut picked: Vec<(i32, i32)> = Vec::new();
    for t in 0..order.len()
        invariant
            forall|u: int| 0 <= u < order@.len() ==> (#[trigger] order@[u]) < slots@.len(),
            picked@.len() == t,
            forall|u: int| 0 <= u < t ==> #[trigger] picked@[u] == slots@[order@[u] as int],
    {
        picked.push(slots[order[t]]);
    }
    picked
}

fn sign_of(x: i32) -> (s: i32)
    ensures
        s == sign(x as int),
{
    if x > 0 {
        1
    } else if x < 0 {
        -1
    } else {
        0
    }
}

/// How to bring the cluster's members back together: split them into touching components,
/// pick the root, and pull every other component towards it at their closest pair.
pub fn cluster_pulls(members: &Vec<NoteId>, slots: &Vec<(i32, i32)>, kept: &Vec<NoteId>) -> (pulls: Vec<Pull>)
    requires
        slots@.len() == members@.len(),
        forall|i: int, j: int| 0 <= i < j < slots@.len() ==> (#[trigger] slots@[i]) != (#[trigger] slots@[j]),
        forall|i: int| 0 <= i < slots@.len() ==> within(#[trigger] slots@[i], DISTANCE_LIMIT as int),
    ensures
        exists|comps: Seq<Seq<int>>, out: Seq<Vec<NoteId>>|
            #[trigger] split_into_components(members@, slots@, comps, out) && pulled_back(
                members@,
                slots@,
                ids(kept@),
                comps,
                out,
                pulls@,
            ),
{
    let n = members.len();
    let (orders, components) = split_components(members, slots);
    let ghost comps = index_lists(orders@);
    let ghost out = components@;
    let ghost kv = ids(kept@);
    let mut pulls: Vec<Pull> = Vec::new();
    if components.len() <= 1 {
        assert(split_into_components(members@, slots@, comps, out) && pulled_back(members@, slots@, kv, comps, out, pulls@));
        return pulls;
    }
    proof {
        assert forall|c: int| 0 <= c < components@.len() implies (#[trigger] components@[c])@.len() > 0 by {
            assert(comps[c].len() > 0);
            assert(sorted_copies(members@, comps[c], out[c]@));
            let input = choose|input: Seq<NoteId>|
                copies_of(members@, comps[c], input) && #[trigger] stably_sorted(input, out[c]@);
            lemma_sorted_keeps(input, out[c]@, 0);
        }
    }
    let root = root_component(&components, kept);
    proof {
        assert forall|c: int, t: int| 0 <= c < orders@.len() && 0 <= t < orders@[c]@.len() implies (#[trigger] orders@[c]@[t])
            < n by {
            assert(comps[c] == as_ints(orders@[c]@));
            assert(member_indices(n as int, comps[c]));
            assert(comps[c][t] == orders@[c]@[t]);
        }
    }
    let to = &orders[root];
    let right = copies_at(members, to);
    let right_slots = slots_at(slots, to);
    assert(comps[root as int] == as_ints(to@));
    proof {
        assert forall|j: int| 0 <= j < right_slots@.len() implies within(#[trigger] right_slots@[j], DISTANCE_LIMIT as int) by {
            assert(right_slots@[j] == slots@[to@[j] as int]);
        }
    }
    let buckets = SlotBuckets::new(&right_slots);
    let count = components.len();
    for c in 0..count
        invariant
            n == members@.len(),
            n == slots@.len(),
            count == components@.len(),
            count > 1,
            comps == index_lists(orders@),
            out == components@,
            kv == ids(kept@),
            orders@.len() == count,
            split_into_components(members@, slots@, comps, out),
            is_root(out, kv, root as int),
            forall|i: int| 0 <= i < n ==> within(#[trigger] slots@[i], DISTANCE_LIMIT as int),
            forall|c: int, t: int| 0 <= c < orders@.len() && 0 <= t < orders@[c]@.len() ==> (#[trigger] orders@[c]@[t]) < n,
            *to == orders@[root as int],
            copies_of(members@, as_ints(to@), right@),
            right_slots@.len() == to@.len(),
            forall|t: int| 0 <= t < to@.len() ==> #[trigger] right_slots@[t] == slots@[to@[t] as int],
            forall|j: int| 0 <= j < right_slots@.len() ==> within(#[trigger] right_slots@[j], DISTANCE_LIMIT as int),
            buckets.holds(right_slots@),
            pulls@.len() == if c <= root { c as int } else { c - 1 },
            forall|p: int|
                0 <= p < pulls@.len() ==> pulls_together(
                    members@,
                    slots@,
                    comps[past_root(p, root as int)],
                    comps[root as int],
                    #[trigger] pulls@[p],
                ),
    {
        if c != root {
            let from = &orders[c];
            let left = copies_at(members, from);
            let left_slots = slots_at(slots, from);
            proof {
                assert(comps[c as int] == as_ints(from@));
                assert(comps[c as int].len() > 0);
                assert(comps[root as int].len() > 0);
                assert forall|i: int| 0 <= i < left_slots@.len() implies within(#[trigger] left_slots@[i], DISTANCE_LIMIT as int) by {
                    assert(left_slots@[i] == slots@[from@[i] as int]);
                }
            }
            let (x, y) = closest_pair(&left, &left_slots, &right, &right_slots, &buckets);
            let l = from[x];
            let r = to[y];
            let a = slots[l];
            let b = slots[r];
            assert(within(a, DISTANCE_LIMIT as int) && within(b, DISTANCE_LIMIT as int));
            let pull = Pull { left: l, right: r, step: (sign_of(b.0 - a.0), sign_of(b.1 - a.1)) };
            let ghost keys = member_keys(members@);
            proof {
                let from_s = comps[c as int];
                let to_s = comps[root as int];
                assert(from_s[x as int] == l);
                assert(to_s[y as int] == r);
                assert forall|a: int, b: int| from_s.contains(a) && to_s.contains(b) implies #[trigger] pair_le(
                    slots@,
                    slots@,
                    keys,
                    keys,
                    l as int,
                    r as int,
                    a,
                    b,
                ) by {
                    let u = choose|u: int| 0 <= u < from_s.len() && from_s[u] == a;
                    let v = choose|v: int| 0 <= v < to_s.len() && to_s[v] == b;
                    assert(pair_le(left_slots@, right_slots@, member_keys(left@), member_keys(right@), x as int, y as int, u, v));
                    assert(member_keys(left@)[u] == keys[a]);
                    assert(member_keys(right@)[v] == keys[b]);
                    assert(member_keys(left@)[x as int] == keys[l as int]);
                    assert(member_keys(right@)[y as int] == keys[r as int]);
                }
                assert(past_root(pulls@.len() as int, root as int) == c);
            }
            pulls.push(pull);
        }
    }
    proof {
        assert(pulled_back(members@, slots@, kv, comps, out, pulls@));
    }
    pulls
}

} // verus!
