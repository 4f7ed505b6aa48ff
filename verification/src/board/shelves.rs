//! The order in which tag clusters are laid out, and the shelves that hold them side by side.
use vstd::prelude::*;

use super::grid::{ceil_sqrt, ceil_sqrt_from, compact_side, compact_side_length, lemma_ceil_sqrt_bound, SIDE_LIMIT};
use super::tags::{
    affinity_fits, degree_of, is_next_by_affinity, next_tag_by_affinity, placed_sum, weight_at, weight_key_of,
    Cluster, TagWeights, WeightEntry,
};
use crate::text::{lemma_texts_push, same_text, texts};

verus! {

broadcast use vstd::seq_lib::group_seq_properties;

/// The weight between `tag` and each tag of `placed`, read from `entries`.
spec fn placed_sum_in(entries: Seq<WeightEntry>, tag: Seq<char>, placed: Seq<Seq<char>>) -> int
    decreases placed.len(),
{
    if placed.len() == 0 {
        0
    } else {
        placed_sum_in(entries, tag, placed.drop_last()) + if tag == placed.last() {
            0
        } else {
            weight_at(entries, weight_key_of(tag, placed.last()).0, weight_key_of(tag, placed.last()).1)
        }
    }
}

/// The entry `e` is the one kept for the pair of `tag` and `p`.
spec fn entry_matches(e: WeightEntry, tag: Seq<char>, p: Seq<char>) -> bool {
    tag != p && weight_key_of(tag, p) == (e.left@, e.right@)
}

/// The weight of `e` counted once for every tag of `placed` whose pair with `tag` it keeps.
spec fn matched_total(e: WeightEntry, tag: Seq<char>, placed: Seq<Seq<char>>) -> int
    decreases placed.len(),
{
    if placed.len() == 0 {
        0
    } else {
        matched_total(e, tag, placed.drop_last()) + if entry_matches(e, tag, placed.last()) {
            e.weight as int
        } else {
            0int
        }
    }
}

proof fn lemma_placed_sum_in_entries(tag: Seq<char>, placed: Seq<Seq<char>>, weights: TagWeights)
    ensures
        placed_sum(tag, placed, weights) == placed_sum_in(weights.entries@, tag, placed),
    decreases placed.len(),
{
    if placed.len() > 0 {
        lemma_placed_sum_in_entries(tag, placed.drop_last(), weights);
    }
}

proof fn lemma_placed_sum_in_empty(tag: Seq<char>, placed: Seq<Seq<char>>)
    ensures
        placed_sum_in(Seq::<WeightEntry>::empty(), tag, placed) == 0,
    decreases placed.len(),
{
    if placed.len() > 0 {
        lemma_placed_sum_in_empty(tag, placed.drop_last());
    }
}

proof fn lemma_placed_sum_in_split(entries: Seq<WeightEntry>, tag: Seq<char>, placed: Seq<Seq<char>>)
    requires
        entries.len() > 0,
    ensures
        placed_sum_in(entries, tag, placed) == placed_sum_in(entries.drop_last(), tag, placed) + matched_total(
            entries.last(),
            tag,
            placed,
        ),
    decreases placed.len(),
{
    if placed.len() > 0 {
        lemma_placed_sum_in_split(entries, tag, placed.drop_last());
    }
}

proof fn lemma_matched_total_none(e: WeightEntry, tag: Seq<char>, placed: Seq<Seq<char>>)
    requires
        forall|i: int| 0 <= i < placed.len() ==> !entry_matches(e, tag, #[trigger] placed[i]),
    ensures
        matched_total(e, tag, placed) == 0,
    decreases placed.len(),
{
    if placed.len() > 0 {
        lemma_matched_total_none(e, tag, placed.drop_last());
        assert(!entry_matches(e, tag, placed[placed.len() - 1]));
    }
}

/// Two tags other than `tag` that share their pair key with `tag` are the same tag.
proof fn lemma_pair_key_injective(tag: Seq<char>, p: Seq<char>, q: Seq<char>)
    requires
        tag != p,
        tag != q,
        weight_key_of(tag, p) == weight_key_of(tag, q),
    ensures
        p == q,
{
}

proof fn lemma_matched_total_bound(e: WeightEntry, tag: Seq<char>, placed: Seq<Seq<char>>)
    requires
        placed.no_duplicates(),
    ensures
        matched_total(e, tag, placed) <= if e.left@ == tag || e.right@ == tag {
            e.weight as int
        } else {
            0int
        },
    decreases placed.len(),
{
    if placed.len() > 0 {
        let rest = placed.drop_last();
        let last = placed.last();
        assert(rest.no_duplicates());
        if entry_matches(e, tag, last) {
            assert forall|i: int| 0 <= i < rest.len() implies !entry_matches(e, tag, #[trigger] rest[i]) by {
                if entry_matches(e, tag, rest[i]) {
                    lemma_pair_key_injective(tag, rest[i], last);
                    assert(placed[i] == placed[placed.len() - 1]);
                }
            }
            lemma_matched_total_none(e, tag, rest);
        } else {
            lemma_matched_total_bound(e, tag, rest);
        }
    }
}

proof fn lemma_placed_sum_in_degree(entries: Seq<WeightEntry>, tag: Seq<char>, placed: Seq<Seq<char>>)
    requires
        placed.no_duplicates(),
    ensures
        placed_sum_in(entries, tag, placed) <= degree_of(entries, tag),
    decreases entries.len(),
{
    if entries.len() == 0 {
        lemma_placed_sum_in_empty(tag, placed);
        assert(entries =~= Seq::<WeightEntry>::empty());
    } else {
        lemma_placed_sum_in_degree(entries.drop_last(), tag, placed);
        lemma_placed_sum_in_split(entries, tag, placed);
        lemma_matched_total_bound(entries.last(), tag, placed);
    }
}

/// The weight between a tag and tags placed once each is at most the tag's weighted degree.
proof fn lemma_placed_sum_within_degree(tag: Seq<char>, placed: Seq<Seq<char>>, weights: TagWeights)
    requires
        placed.no_duplicates(),
    ensures
        placed_sum(tag, placed, weights) <= degree_of(weights.entries@, tag),
{
    lemma_placed_sum_in_entries(tag, placed, weights);
    lemma_placed_sum_in_degree(weights.entries@, tag, placed);
}

/// How many clusters have a key that is not placed.
pub open spec fn count_unplaced(clusters: Seq<Cluster>, placed: Seq<Seq<char>>) -> nat
    decreases clusters.len(),
{
    if clusters.len() == 0 {
        0
    } else {
        count_unplaced(clusters.drop_last(), placed) + if placed.contains(clusters.last().key@) {
            0nat
        } else {
            1nat
        }
    }
}

proof fn lemma_count_unplaced_push(clusters: Seq<Cluster>, placed: Seq<Seq<char>>, k: Seq<char>, m: int)
    requires
        0 <= m < clusters.len(),
        clusters[m].key@ == k,
        !placed.contains(k),
    ensures
        count_unplaced(clusters, placed.push(k)) < count_unplaced(clusters, placed),
    decreases clusters.len(),
{
    lemma_count_unplaced_grow(clusters.drop_last(), placed, k);
    if m < clusters.len() - 1 {
        lemma_count_unplaced_push(clusters.drop_last(), placed, k, m);
    }
}

proof fn lemma_count_unplaced_grow(clusters: Seq<Cluster>, placed: Seq<Seq<char>>, k: Seq<char>)
    ensures
        count_unplaced(clusters, placed.push(k)) <= count_unplaced(clusters, placed),
    decreases clusters.len(),
{
    if clusters.len() > 0 {
        lemma_count_unplaced_grow(clusters.drop_last(), placed, k);
    }
}

/// `k` is the key of the cluster [`next_tag_by_affinity`] picks once `placed` are placed.
#[verifier::opaque]
pub open spec fn picks(clusters: Seq<Cluster>, placed: Seq<Seq<char>>, weights: TagWeights, k: Seq<char>) -> bool {
    exists|m: int| #[trigger] is_next_by_affinity(clusters, placed, weights, m) && clusters[m].key@ == k
}

/// Each key of `order` is the cluster [`next_tag_by_affinity`] picks after the keys before it.
pub open spec fn follows_affinity(clusters: Seq<Cluster>, order: Seq<Seq<char>>, weights: TagWeights) -> bool {
    forall|i: int| 0 <= i < order.len() ==> #[trigger] picks(clusters, order.take(i), weights, order[i])
}

proof fn lemma_follows_push(clusters: Seq<Cluster>, placed: Seq<Seq<char>>, weights: TagWeights, k: Seq<char>, m: int)
    requires
        placed.no_duplicates(),
        follows_affinity(clusters, placed, weights),
        picks(clusters, placed, weights, k),
        !placed.contains(k),
        0 <= m < clusters.len(),
        clusters[m].key@ == k,
    ensures
        placed.push(k).no_duplicates(),
        follows_affinity(clusters, placed.push(k), weights),
        count_unplaced(clusters, placed.push(k)) < count_unplaced(clusters, placed),
{
    let grown = placed.push(k);
    lemma_count_unplaced_push(clusters, placed, k, m);
    assert forall|i: int| 0 <= i < grown.len() implies #[trigger] picks(clusters, grown.take(i), weights, grown[i]) by {
        if i < placed.len() {
            assert(grown.take(i) =~= placed.take(i));
            assert(grown[i] == placed[i]);
        } else {
            assert(grown.take(i) =~= placed);
        }
    }
}

proof fn lemma_affinity_fits(clusters: Seq<Cluster>, placed: Seq<Seq<char>>, weights: TagWeights)
    requires
        placed.no_duplicates(),
        forall|i: int|
            0 <= i < clusters.len() ==> degree_of(weights.entries@, (#[trigger] clusters[i]).key@) <= u32::MAX,
    ensures
        affinity_fits(clusters, placed, weights),
{
    assert forall|i: int| 0 <= i < clusters.len() implies placed_sum((#[trigger] clusters[i]).key@, placed, weights)
        <= u32::MAX && degree_of(weights.entries@, clusters[i].key@) <= u32::MAX by {
        lemma_placed_sum_within_degree(clusters[i].key@, placed, weights);
    }
}

/// The order in which the clusters are laid out: each next cluster is the one
/// [`next_tag_by_affinity`] picks given the clusters before it, until every cluster is placed.
pub fn relationship_order(clusters: &Vec<Cluster>, weights: &TagWeights) -> (order: Vec<String>)
    requires
        weights.wf(),
        forall|i: int|
            0 <= i < clusters@.len() ==> degree_of(weights.entries@, (#[trigger] clusters@[i]).key@) <= u32::MAX,
    ensures
        texts(order@).no_duplicates(),
        follows_affinity(clusters@, texts(order@), *weights),
        forall|i: int| 0 <= i < clusters@.len() ==> texts(order@).contains((#[trigger] clusters@[i]).key@),
{
    let mut order: Vec<String> = Vec::new();
    assert(texts(order@) =~= Seq::<Seq<char>>::empty());
    loop
        invariant
            weights.wf(),
            forall|i: int|
                0 <= i < clusters@.len() ==> degree_of(weights.entries@, (#[trigger] clusters@[i]).key@) <= u32::MAX,
            texts(order@).no_duplicates(),
            follows_affinity(clusters@, texts(order@), *weights),
        ensures
            texts(order@).no_duplicates(),
            follows_affinity(clusters@, texts(order@), *weights),
            forall|i: int| 0 <= i < clusters@.len() ==> texts(order@).contains((#[trigger] clusters@[i]).key@),
        decreases count_unplaced(clusters@, texts(order@)),
    {
        let ghost placed = texts(order@);
        proof {
            lemma_affinity_fits(clusters@, placed, *weights);
        }
        match next_tag_by_affinity(clusters, &order, weights) {
            None => {
                break;
            },
            Some(k) => {
                let ghost m = choose|m: int| #[trigger] is_next_by_affinity(clusters@, placed, *weights, m) && clusters@[m].key@ == k@;
                let ghost before = order@;
                order.push(k);
                proof {
                    assert(picks(clusters@, placed, *weights, k@)) by {
                        reveal(picks);
                    }
                    assert(!placed.contains(k@));
                    lemma_texts_push(before, k);
                    lemma_follows_push(clusters@, placed, *weights, k@, m);
                }
            },
        }
    }
    order
}

/// Slots left free beside each cluster on a shelf and below each shelf.
pub const CLUSTER_GUTTER_SLOTS: i128 = 1;

/// The larger of two integers.
pub open spec fn larger(a: int, b: int) -> int {
    if a >= b {
        a
    } else {
        b
    }
}

/// The cursor of the shelves: the column where the next cluster goes, the top of the current
/// shelf, the height of the current shelf, and the widest extent used so far.
pub type ShelfCursor = (int, int, int, int);

/// A cluster of side `side` no longer fits on the current shelf and opens the next one.
pub open spec fn wraps(cursor: ShelfCursor, side: int, width: int) -> bool {
    cursor.0 > 0 && cursor.0 + side > width
}

/// The top-left slot of a cluster of side `side` set at `cursor`.
pub open spec fn corner_at(cursor: ShelfCursor, side: int, width: int) -> (int, int) {
    if wraps(cursor, side, width) {
        (0, cursor.1 + cursor.2 + CLUSTER_GUTTER_SLOTS)
    } else {
        (cursor.0, cursor.1)
    }
}

/// The cursor once a cluster of side `side` is set at `cursor`.
pub open spec fn advance(cursor: ShelfCursor, side: int, width: int) -> ShelfCursor {
    let corner = corner_at(cursor, side, width);
    let height = if wraps(cursor, side, width) {
        side
    } else {
        larger(cursor.2, side)
    };
    (corner.0 + side + CLUSTER_GUTTER_SLOTS, corner.1, height, larger(cursor.3, corner.0 + side))
}

/// The cursor after the first `n` clusters, of sides `sides`, are set on shelves `width` slots
/// wide, left to right and shelf below shelf.
pub open spec fn shelf_cursor(sides: Seq<int>, width: int, n: int) -> ShelfCursor
    decreases n,
{
    if n <= 0 {
        (0, 0, 0, 0)
    } else {
        advance(shelf_cursor(sides, width, n - 1), sides[n - 1], width)
    }
}

/// The top-left slot of the `i`-th cluster on the shelves.
pub open spec fn shelf_corner(sides: Seq<int>, width: int, i: int) -> (int, int) {
    corner_at(shelf_cursor(sides, width, i), sides[i], width)
}

/// The centre of the `i`-th cluster in half slots, the arrangement centred on the origin.
pub open spec fn shelf_center(sides: Seq<int>, width: int, i: int) -> (int, int) {
    let end = shelf_cursor(sides, width, sides.len() as int);
    let corner = shelf_corner(sides, width, i);
    (2 * corner.0 + sides[i] - end.3, 2 * corner.1 + sides[i] - (end.1 + end.2))
}

/// The footprint side of each cluster.
pub open spec fn footprint_sides(clusters: Seq<Cluster>) -> Seq<int> {
    clusters.map_values(|c: Cluster| compact_side(c.members@.len()))
}

/// The footprint side of the last cluster keyed `key`, or 1 when no cluster has that key.
pub open spec fn side_of(clusters: Seq<Cluster>, key: Seq<char>) -> int
    decreases clusters.len(),
{
    if clusters.len() == 0 {
        1
    } else if clusters.last().key@ == key {
        compact_side(clusters.last().members@.len())
    } else {
        side_of(clusters.drop_last(), key)
    }
}

/// The footprint sides of the clusters keyed by `keys`, in that order.
pub open spec fn sides_in_order(clusters: Seq<Cluster>, keys: Seq<Seq<char>>) -> Seq<int> {
    keys.map_values(|k: Seq<char>| side_of(clusters, k))
}

/// The area of the footprints with a gutter on one side and below each.
pub open spec fn padded_area(sides: Seq<int>) -> int
    decreases sides.len(),
{
    if sides.len() == 0 {
        0
    } else {
        padded_area(sides.drop_last()) + (sides.last() + CLUSTER_GUTTER_SLOTS) * (sides.last()
            + CLUSTER_GUTTER_SLOTS)
    }
}

/// The widest footprint, and 1 when there is none.
pub open spec fn widest(sides: Seq<int>) -> int
    decreases sides.len(),
{
    if sides.len() == 0 {
        1
    } else {
        larger(widest(sides.drop_last()), sides.last())
    }
}

/// The width of the shelves: the side of a square as large as the padded footprints, but at
/// least the widest footprint.
pub open spec fn shelf_width(sides: Seq<int>) -> int {
    larger(ceil_sqrt_from(padded_area(sides) as nat, 1) as int, widest(sides))
}

/// The cursor stays within `n` times 2050 slots of the origin while every side is between 1
/// and 2049.
proof fn lemma_shelf_cursor_bounds(sides: Seq<int>, width: int, n: int)
    requires
        0 <= n <= sides.len(),
        forall|i: int| 0 <= i < sides.len() ==> 1 <= #[trigger] sides[i] <= 2049,
    ensures
        ({
            let c = shelf_cursor(sides, width, n);
            &&& 0 <= c.0
            &&& 0 <= c.1
            &&& 0 <= c.2
            &&& c.0 == 0 ==> c.2 == 0
            &&& c.0 > 0 ==> c.2 + CLUSTER_GUTTER_SLOTS <= c.0
            &&& c.1 + c.0 <= n * 2050
            &&& 0 <= c.3 <= n * 2050
        }),
    decreases n,
{
    if n > 0 {
        lemma_shelf_cursor_bounds(sides, width, n - 1);
        assert(1 <= sides[n - 1] <= 2049);
    }
}

/// Of the clusters set before the cursor, each lies on an earlier shelf, at least a gutter
/// above the current one, or on the current shelf, at least a gutter left of the cursor and
/// no taller than the shelf.
proof fn lemma_shelf_cursor_separation(sides: Seq<int>, width: int, n: int, i: int)
    requires
        0 <= i < n <= sides.len(),
        forall|k: int| 0 <= k < sides.len() ==> 0 <= #[trigger] sides[k],
    ensures
        ({
            let c = shelf_corner(sides, width, i);
            let cursor = shelf_cursor(sides, width, n);
            ||| c.1 + sides[i] + CLUSTER_GUTTER_SLOTS <= cursor.1
            ||| c.1 == cursor.1 && c.0 + sides[i] + CLUSTER_GUTTER_SLOTS <= cursor.0 && sides[i] <= cursor.2
        }),
    decreases n,
{
    let prev = shelf_cursor(sides, width, n - 1);
    lemma_shelf_height_nonnegative(sides, width, n - 1);
    assert(0 <= sides[n - 1]);
    assert(shelf_cursor(sides, width, n) == advance(prev, sides[n - 1], width));
    if i < n - 1 {
        lemma_shelf_cursor_separation(sides, width, n - 1, i);
    } else {
        assert(shelf_corner(sides, width, i) == corner_at(prev, sides[i], width));
    }
}

proof fn lemma_shelf_height_nonnegative(sides: Seq<int>, width: int, n: int)
    requires
        n <= sides.len(),
        forall|k: int| 0 <= k < sides.len() ==> 0 <= #[trigger] sides[k],
    ensures
        0 <= shelf_cursor(sides, width, n).2,
    decreases n,
{
    if n > 0 {
        lemma_shelf_height_nonnegative(sides, width, n - 1);
        assert(0 <= sides[n - 1]);
    }
}

/// Clusters on the shelves never overlap: of two clusters, the later stands at least a gutter
/// below the earlier one, or on the same shelf at least a gutter to its right.
pub proof fn law_shelf_footprints_are_separated(sides: Seq<int>, width: int, i: int, j: int)
    requires
        0 <= i < j < sides.len(),
        forall|k: int| 0 <= k < sides.len() ==> 0 <= #[trigger] sides[k],
    ensures
        ({
            let a = shelf_corner(sides, width, i);
            let b = shelf_corner(sides, width, j);
            ||| a.1 + sides[i] + CLUSTER_GUTTER_SLOTS <= b.1
            ||| a.1 == b.1 && a.0 + sides[i] + CLUSTER_GUTTER_SLOTS <= b.0
        }),
{
    lemma_shelf_cursor_separation(sides, width, j, i);
    let cursor = shelf_cursor(sides, width, j);
    assert(shelf_corner(sides, width, j) == corner_at(cursor, sides[j], width));
}

proof fn lemma_padded_area_prefix(sides: Seq<int>, i: int)
    requires
        0 <= i <= sides.len(),
    ensures
        padded_area(sides.take(i)) <= padded_area(sides),
    decreases sides.len() - i,
{
    if i < sides.len() {
        lemma_padded_area_prefix(sides, i + 1);
        assert(sides.take(i + 1).drop_last() =~= sides.take(i));
        let s = sides[i] + CLUSTER_GUTTER_SLOTS;
        assert(s * s >= 0) by (nonlinear_arith);
    } else {
        assert(sides.take(i) =~= sides);
    }
}

/// The footprint side of the last cluster keyed `key`, or 1 when there is none.
fn side_for_key(clusters: &Vec<Cluster>, key: &String) -> (side: i128)
    requires
        forall|i: int| 0 <= i < clusters@.len() ==> (#[trigger] clusters@[i]).members@.len() <= SIDE_LIMIT,
    ensures
        side == side_of(clusters@, key@),
        1 <= side <= 2049,
{
    let mut j = clusters.len();
    assert(clusters@.take(j as int) =~= clusters@);
    while j > 0
        invariant
            j <= clusters@.len(),
            forall|i: int| 0 <= i < clusters@.len() ==> (#[trigger] clusters@[i]).members@.len() <= SIDE_LIMIT,
            side_of(clusters@, key@) == side_of(clusters@.take(j as int), key@),
        decreases j,
    {
        assert(clusters@.take(j as int).drop_last() =~= clusters@.take(j - 1));
        if same_text(&clusters[j - 1].key, key) {
            return compact_side_length(clusters[j - 1].members.len()) as i128;
        }
        j -= 1;
    }
    1
}

/// The centre of each cluster, in half slots, on shelves filled in the order `sides` lists
/// them, `width` slots wide.
fn shelf_centers(sides: &Vec<i128>, width: i128) -> (centers: Vec<(i128, i128)>)
    requires
        forall|i: int| 0 <= i < sides@.len() ==> 1 <= #[trigger] sides@[i] <= 2049,
    ensures
        centers@.len() == sides@.len(),
        forall|i: int|
            0 <= i < sides@.len() ==> (#[trigger] centers@[i]).0 == shelf_center(
                sides@.map_values(|s: i128| s as int),
                width as int,
                i,
            ).0 && centers@[i].1 == shelf_center(sides@.map_values(|s: i128| s as int), width as int, i).1,
{
    let ghost view = sides@.map_values(|s: i128| s as int);
    let mut corners: Vec<(i128, i128)> = Vec::new();
    let mut x: i128 = 0;
    let mut y: i128 = 0;
    let mut height: i128 = 0;
    let mut used: i128 = 0;
    for n in 0..sides.len()
        invariant
            view == sides@.map_values(|s: i128| s as int),
            forall|i: int| 0 <= i < view.len() ==> 1 <= #[trigger] view[i] <= 2049,
            corners@.len() == n,
            (x as int, y as int, height as int, used as int) == shelf_cursor(view, width as int, n as int),
            forall|i: int|
                0 <= i < n ==> (#[trigger] corners@[i]).0 == shelf_corner(view, width as int, i).0
                    && corners@[i].1 == shelf_corner(view, width as int, i).1,
    {
        proof {
            lemma_shelf_cursor_bounds(view, width as int, n as int);
            lemma_shelf_cursor_bounds(view, width as int, n + 1);
            assert(n * 2050 <= 18446744073709551615 * 2050);
        }
        let side = sides[n];
        assert(view[n as int] == side);
        if x > 0 && x + side > width {
            x = 0;
            y = y + height + 1;
            height = 0;
        }
        corners.push((x, y));
        x = x + side + 1;
        if side > height {
            height = side;
        }
        if x - 1 > used {
            used = x - 1;
        }
    }
    proof {
        lemma_shelf_cursor_bounds(view, width as int, view.len() as int);
        assert(sides@.len() * 2050 <= 18446744073709551615 * 2050);
    }
    let mut centers: Vec<(i128, i128)> = Vec::new();
    for i in 0..sides.len()
        invariant
            view == sides@.map_values(|s: i128| s as int),
            forall|k: int| 0 <= k < view.len() ==> 1 <= #[trigger] view[k] <= 2049,
            corners@.len() == sides@.len(),
            (x as int, y as int, height as int, used as int) == shelf_cursor(view, width as int, view.len() as int),
            0 <= x,
            0 <= y,
            0 <= height <= sides@.len() * 2050,
            y + x <= sides@.len() * 2050,
            0 <= used <= sides@.len() * 2050,
            sides@.len() * 2050 <= 18446744073709551615 * 2050,
            forall|k: int|
                0 <= k < sides@.len() ==> (#[trigger] corners@[k]).0 == shelf_corner(view, width as int, k).0
                    && corners@[k].1 == shelf_corner(view, width as int, k).1,
            0 <= i <= sides@.len(),
            centers@.len() == i,
            forall|k: int|
                0 <= k < i ==> (#[trigger] centers@[k]).0 == shelf_center(view, width as int, k).0
                    && centers@[k].1 == shelf_center(view, width as int, k).1,
    {
        proof {
            lemma_shelf_cursor_bounds(view, width as int, i as int);
            assert(0 <= shelf_cursor(view, width as int, i as int).0);
        }
        let corner = corners[i];
        let side = sides[i];
        assert(view[i as int] == side);
        assert(0 <= corner.0 <= sides@.len() * 2050 && 0 <= corner.1 <= sides@.len() * 2050);
        centers.push((2 * corner.0 + side - used, 2 * corner.1 + side - (y + height)));
    }
    centers
}

/// The keys of a list of cluster centres, in order.
pub open spec fn center_keys(centers: Seq<(String, (i128, i128))>) -> Seq<Seq<char>> {
    centers.map_values(|c: (String, (i128, i128))| c.0@)
}

/// Where each cluster stands when no earlier layout is kept: the clusters in
/// [`relationship_order`], each a square of its footprint side, set on shelves left to right
/// and shelf below shelf, the shelves [`shelf_width`] slots wide; each centre is given in half
/// slots, with the whole arrangement centred on the origin.
pub fn cold_side_by_side_centers(clusters: &Vec<Cluster>, weights: &TagWeights) -> (centers: Vec<(String, (i128, i128))>)
    requires
        weights.wf(),
        forall|i: int|
            0 <= i < clusters@.len() ==> degree_of(weights.entries@, (#[trigger] clusters@[i]).key@) <= u32::MAX,
        forall|i: int| 0 <= i < clusters@.len() ==> (#[trigger] clusters@[i]).members@.len() <= SIDE_LIMIT,
        padded_area(footprint_sides(clusters@)) <= SIDE_LIMIT,
    ensures
        center_keys(centers@).no_duplicates(),
        follows_affinity(clusters@, center_keys(centers@), *weights),
        forall|i: int| 0 <= i < clusters@.len() ==> center_keys(centers@).contains((#[trigger] clusters@[i]).key@),
        forall|i: int|
            0 <= i < centers@.len() ==> (#[trigger] centers@[i]).1.0 == shelf_center(
                sides_in_order(clusters@, center_keys(centers@)),
                shelf_width(footprint_sides(clusters@)),
                i,
            ).0 && centers@[i].1.1 == shelf_center(
                sides_in_order(clusters@, center_keys(centers@)),
                shelf_width(footprint_sides(clusters@)),
                i,
            ).1,
{
    let order = relationship_order(clusters, weights);
    let ghost fs = footprint_sides(clusters@);
    let mut area: usize = 0;
    let mut wide: i128 = 1;
    assert(fs.take(0) =~= Seq::<int>::empty());
    for i in 0..clusters.len()
        invariant
            fs == footprint_sides(clusters@),
            forall|k: int| 0 <= k < clusters@.len() ==> (#[trigger] clusters@[k]).members@.len() <= SIDE_LIMIT,
            padded_area(fs) <= SIDE_LIMIT,
            area == padded_area(fs.take(i as int)),
            wide == widest(fs.take(i as int)),
    {
        proof {
            lemma_padded_area_prefix(fs, i + 1);
            assert(fs.take(i + 1).drop_last() =~= fs.take(i as int));
        }
        let side = compact_side_length(clusters[i].members.len());
        assert(fs[i as int] == side);
        let padded = side as usize + 1;
        assert(padded * padded <= 4202500) by (nonlinear_arith)
            requires
                padded <= 2050,
        ;
        area = area + padded * padded;
        if side as i128 > wide {
            wide = side as i128;
        }
    }
    assert(fs.take(fs.len() as int) =~= fs);
    let root = ceil_sqrt(area) as i128;
    let width = if root >= wide {
        root
    } else {
        wide
    };
    let ghost keys = texts(order@);
    let ghost in_order = sides_in_order(clusters@, keys);
    let mut sides: Vec<i128> = Vec::new();
    for k in 0..order.len()
        invariant
            keys == texts(order@),
            in_order == sides_in_order(clusters@, keys),
            forall|i: int| 0 <= i < clusters@.len() ==> (#[trigger] clusters@[i]).members@.len() <= SIDE_LIMIT,
            sides@.len() == k,
            forall|i: int| 0 <= i < k ==> (#[trigger] sides@[i]) == in_order[i] && 1 <= sides@[i] <= 2049,
    {
        let side = side_for_key(clusters, &order[k]);
        sides.push(side);
    }
    assert(sides@.map_values(|s: i128| s as int) =~= in_order);
    let placed = shelf_centers(&sides, width);
    let mut centers: Vec<(String, (i128, i128))> = Vec::new();
    for i in 0..order.len()
        invariant
            keys == texts(order@),
            placed@.len() == order@.len(),
            centers@.len() == i,
            forall|k: int| 0 <= k < i ==> (#[trigger] centers@[k]).0@ == keys[k] && centers@[k].1 == placed@[k],
    {
        centers.push((order[i].clone(), placed[i]));
    }
    assert(center_keys(centers@) =~= keys);
    centers
}

} // verus!
