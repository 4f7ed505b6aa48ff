//! Packing the notes of each grid row so that no two share a slot, keeping each as near its
//! wanted column as the row allows.
use vstd::prelude::*;

use super::grid::{order_code, order_code_exec};
use super::tags::{note_order_key, note_order_key_exec};
use crate::sort::{
    distinct_keys, key_eq, key_le, lemma_filter_members, lemma_key_eq_equal, lemma_rank_bound, lemma_rank_distinct,
    lemma_sorted_members, lemma_sorted_once, rank_in, stable_sort, stably_sorted, Keyed, SortKey,
};
use crate::vault::model::NoteRecord;

verus! {

/// The weight of a note that keeps its place from an earlier layout.
pub const PRESERVED_WEIGHT: u64 = 32;

/// The weight of any other note.
pub const NEW_WEIGHT: u64 = 1;

/// The furthest column from the origin that a row holds.
pub const COLUMN_LIMIT: i32 = 268435456;

/// The most notes that are packed at once.
pub const PACK_LIMIT: usize = 268435456;

/// A note of a row: its index in the note list, the column it wants, its weight, and its rank
/// in the layout order of notes.
#[derive(Clone, Copy, Debug, PartialEq, Eq)]
pub struct RowItem {
    pub note: usize,
    pub column: i32,
    pub weight: u64,
    pub name_rank: usize,
}

impl Keyed for RowItem {
    /// By wanted column, then heavier first, then in the layout order of notes.
    open spec fn sort_key(&self) -> Seq<u64> {
        seq![order_code(self.column), (u64::MAX - self.weight) as u64, self.name_rank as u64]
    }

    fn sort_key_exec(&self) -> (key: Vec<u64>) {
        let a = order_code_exec(self.column);
        let b = u64::MAX - self.weight;
        let c = self.name_rank as u64;
        let key = vec![a, b, c];
        assert(key@ =~= seq![a, b, c]);
        key
    }
}

/// A run of consecutive row positions fitted to one common offset: positions `start` up to
/// `end`, their total weight, and the weighted sum of their targets.
#[derive(Clone, Copy, Debug, PartialEq, Eq)]
pub struct IsotonicBlock {
    pub start: usize,
    pub end: usize,
    pub weight: i128,
    pub weighted_sum: i128,
}

/// The offset the item at position `k` of a row wants: its column less its position.
pub open spec fn target(items: Seq<RowItem>, k: int) -> int {
    items[k].column - k
}

/// The weighted sum of the targets of positions `a` up to `b`.
pub open spec fn weighted_sum(items: Seq<RowItem>, a: int, b: int) -> int
    decreases b - a,
{
    if b <= a {
        0
    } else {
        weighted_sum(items, a, b - 1) + items[b - 1].weight * target(items, b - 1)
    }
}

/// The total weight of positions `a` up to `b`.
pub open spec fn total_weight(items: Seq<RowItem>, a: int, b: int) -> int
    decreases b - a,
{
    if b <= a {
        0
    } else {
        total_weight(items, a, b - 1) + items[b - 1].weight
    }
}

/// The mean target of positions `a` up to `p` lies above that of positions `a` up to `b`.
pub open spec fn mean_above(items: Seq<RowItem>, a: int, p: int, b: int) -> bool {
    weighted_sum(items, a, p) * total_weight(items, a, b) > weighted_sum(items, a, b) * total_weight(items, a, p)
}

/// Every proper leading part of positions `a` up to `b` has a mean target above theirs: the
/// run cannot be split into two with the first below the second.
pub open spec fn tight(items: Seq<RowItem>, a: int, b: int) -> bool {
    forall|p: int| a < p < b ==> #[trigger] mean_above(items, a, p, b)
}

/// The mean target of positions `a` up to `b` is at most that of positions `b` up to `c`.
pub open spec fn means_ordered(items: Seq<RowItem>, a: int, b: int, c: int) -> bool {
    weighted_sum(items, a, b) * total_weight(items, b, c) <= weighted_sum(items, b, c) * total_weight(items, a, b)
}

/// The block holds the sums of its positions and is tight.
pub open spec fn block_fits(items: Seq<RowItem>, block: IsotonicBlock) -> bool {
    &&& block.start < block.end <= items.len()
    &&& block.weight == total_weight(items, block.start as int, block.end as int)
    &&& block.weighted_sum == weighted_sum(items, block.start as int, block.end as int)
    &&& tight(items, block.start as int, block.end as int)
}

/// The blocks cover positions 0 up to `upto` in order, each fits, and their means do not
/// decrease from one block to the next (the pairs before `last_pair` at least).
pub open spec fn isotonic_upto(items: Seq<RowItem>, blocks: Seq<IsotonicBlock>, upto: int, last_pair: int) -> bool {
    &&& (blocks.len() == 0) == (upto == 0)
    &&& blocks.len() > 0 ==> blocks[0].start == 0 && blocks.last().end == upto
    &&& forall|t: int| 0 <= t < blocks.len() ==> block_fits(items, #[trigger] blocks[t])
    &&& forall|t: int| 0 <= t < blocks.len() - 1 ==> (#[trigger] blocks[t]).end == blocks[t + 1].start
    &&& forall|t: int|
        0 <= t < blocks.len() - 1 && t < last_pair ==> means_ordered(
            items,
            (#[trigger] blocks[t]).start as int,
            blocks[t].end as int,
            blocks[t + 1].end as int,
        )
}

/// The blocks of an isotonic fit of the whole row: consecutive tight blocks covering every
/// position, with means that do not decrease.
pub open spec fn isotonic(items: Seq<RowItem>, blocks: Seq<IsotonicBlock>) -> bool {
    isotonic_upto(items, blocks, items.len() as int, blocks.len() as int)
}

/// The items a row may hold: columns within [`COLUMN_LIMIT`], weights from 1 to
/// [`PRESERVED_WEIGHT`], and at most [`PACK_LIMIT`] of them.
pub open spec fn packable(items: Seq<RowItem>) -> bool {
    &&& items.len() <= PACK_LIMIT
    &&& forall|k: int|
        0 <= k < items.len() ==> -COLUMN_LIMIT <= (#[trigger] items[k]).column <= COLUMN_LIMIT && 1
            <= items[k].weight <= PRESERVED_WEIGHT
}

proof fn lemma_sums_split(items: Seq<RowItem>, a: int, b: int, c: int)
    requires
        a <= b <= c,
    ensures
        weighted_sum(items, a, c) == weighted_sum(items, a, b) + weighted_sum(items, b, c),
        total_weight(items, a, c) == total_weight(items, a, b) + total_weight(items, b, c),
    decreases c - b,
{
    if b < c {
        lemma_sums_split(items, a, b, c - 1);
    }
}

proof fn lemma_sums_bounded(items: Seq<RowItem>, a: int, b: int)
    requires
        0 <= a <= b <= items.len(),
        packable(items),
    ensures
        b > a ==> total_weight(items, a, b) >= 1,
        0 <= total_weight(items, a, b) <= 32 * (b - a),
        -17179869184 * (b - a) <= weighted_sum(items, a, b) <= 17179869184 * (b - a),
        -536870912 * total_weight(items, a, b) <= weighted_sum(items, a, b) <= 536870912 * total_weight(items, a, b),
    decreases b - a,
{
    if b > a {
        lemma_sums_bounded(items, a, b - 1);
        let it = items[b - 1];
        let t = target(items, b - 1);
        assert(-536870912 <= t <= 536870912);
        assert(-17179869184 <= it.weight * t <= 17179869184) by (nonlinear_arith)
            requires
                1 <= it.weight <= 32,
                -536870912 <= t <= 536870912,
        ;
        assert(-536870912 * it.weight <= it.weight * t <= 536870912 * it.weight) by (nonlinear_arith)
            requires
                1 <= it.weight <= 32,
                -536870912 <= t <= 536870912,
        ;
    }
}

proof fn lemma_product_bounded(s: int, w: int)
    requires
        -17179869184 * 268435456 <= s <= 17179869184 * 268435456,
        0 <= w <= 32 * 268435456,
    ensures
        -17179869184 * 268435456 * (32 * 268435456) <= s * w <= 17179869184 * 268435456 * (32 * 268435456),
{
    assert(-17179869184 * 268435456 * (32 * 268435456) <= s * w <= 17179869184 * 268435456 * (32 * 268435456))
        by (nonlinear_arith)
        requires
            -17179869184 * 268435456 <= s <= 17179869184 * 268435456,
            0 <= w <= 32 * 268435456,
    ;
}

/// When `A` lies above `B`, the two together lie between them.
proof fn lemma_mediant(sa: int, wa: int, sb: int, wb: int)
    requires
        wa > 0,
        wb > 0,
        sa * wb > sb * wa,
    ensures
        sa * (wa + wb) > (sa + sb) * wa,
        (sa + sb) * wb > sb * (wa + wb),
{
    assert(sa * (wa + wb) == sa * wa + sa * wb) by (nonlinear_arith);
    assert((sa + sb) * wa == sa * wa + sb * wa) by (nonlinear_arith);
    assert((sa + sb) * wb == sa * wb + sb * wb) by (nonlinear_arith);
    assert(sb * (wa + wb) == sb * wa + sb * wb) by (nonlinear_arith);
}

/// When `A` lies above the two together, the two together lie above `B`.
proof fn lemma_mediant_split(sa: int, wa: int, sb: int, wb: int)
    requires
        wa > 0,
        wb > 0,
        sa * (wa + wb) > (sa + sb) * wa,
    ensures
        sa * wb > sb * wa,
        (sa + sb) * wb > sb * (wa + wb),
{
    assert(sa * (wa + wb) == sa * wa + sa * wb) by (nonlinear_arith);
    assert((sa + sb) * wa == sa * wa + sb * wa) by (nonlinear_arith);
    lemma_mediant(sa, wa, sb, wb);
}

/// "Lies above" is transitive.
proof fn lemma_above_transitive(s1: int, w1: int, s2: int, w2: int, s3: int, w3: int)
    requires
        w1 > 0,
        w2 > 0,
        w3 > 0,
        s1 * w2 > s2 * w1,
        s2 * w3 > s3 * w2,
    ensures
        s1 * w3 > s3 * w1,
{
    assert(s1 * w2 * w3 > s2 * w1 * w3) by (nonlinear_arith)
        requires
            w3 > 0,
            s1 * w2 > s2 * w1,
    ;
    assert(s2 * w3 * w1 > s3 * w2 * w1) by (nonlinear_arith)
        requires
            w1 > 0,
            s2 * w3 > s3 * w2,
    ;
    assert(s2 * w1 * w3 == s2 * w3 * w1) by (nonlinear_arith);
    assert(s1 * w3 * w2 > s3 * w1 * w2) by (nonlinear_arith)
        requires
            s1 * w2 * w3 > s3 * w2 * w1,
    ;
    assert(s1 * w3 > s3 * w1) by (nonlinear_arith)
        requires
            w2 > 0,
            s1 * w3 * w2 > s3 * w1 * w2,
    ;
}

/// Two tight runs, the first above the second, make one tight run.
proof fn lemma_merge_tight(items: Seq<RowItem>, a: int, b: int, c: int)
    requires
        0 <= a < b < c <= items.len(),
        packable(items),
        tight(items, a, b),
        tight(items, b, c),
        weighted_sum(items, a, b) * total_weight(items, b, c) > weighted_sum(items, b, c) * total_weight(items, a, b),
    ensures
        tight(items, a, c),
{
    let sl = weighted_sum(items, a, b);
    let wl = total_weight(items, a, b);
    let sr = weighted_sum(items, b, c);
    let wr = total_weight(items, b, c);
    lemma_sums_split(items, a, b, c);
    lemma_sums_bounded(items, a, b);
    lemma_sums_bounded(items, b, c);
    lemma_mediant(sl, wl, sr, wr);
    assert forall|p: int| a < p < c implies #[trigger] mean_above(items, a, p, c) by {
        if p == b {
        } else if p < b {
            lemma_sums_bounded(items, a, p);
            assert(mean_above(items, a, p, b));
            lemma_above_transitive(
                weighted_sum(items, a, p),
                total_weight(items, a, p),
                sl,
                wl,
                sl + sr,
                wl + wr,
            );
        } else {
            let sq = weighted_sum(items, b, p);
            let wq = total_weight(items, b, p);
            let st = weighted_sum(items, p, c);
            let wt = total_weight(items, p, c);
            lemma_sums_split(items, b, p, c);
            lemma_sums_split(items, a, b, p);
            lemma_sums_split(items, a, p, c);
            lemma_sums_bounded(items, b, p);
            lemma_sums_bounded(items, p, c);
            assert(mean_above(items, b, p, c));
            // The rest of the second run lies below it, and so below the merged run.
            lemma_mediant_split(sq, wq, st, wt);
            lemma_above_transitive(sl + sr, wl + wr, sr, wr, st, wt);
            // So the leading part, the merged run less that rest, lies above the merged run.
            assert((sl + sq) * (wl + wr) > (sl + sr) * (wl + wq)) by (nonlinear_arith)
                requires
                    wl + wq > 0,
                    wt > 0,
                    sl + sr == (sl + sq) + st,
                    wl + wr == (wl + wq) + wt,
                    (sl + sr) * wt > st * (wl + wr),
            ;
        }
    }
}

/// The fit of a sorted row into blocks: each position starts a block of its own, and while a
/// block's mean target lies above the next one's, the two are merged.
pub fn isotonic_blocks(items: &Vec<RowItem>) -> (blocks: Vec<IsotonicBlock>)
    requires
        packable(items@),
    ensures
        isotonic(items@, blocks@),
{
    let mut blocks: Vec<IsotonicBlock> = Vec::new();
    for k in 0..items.len()
        invariant
            packable(items@),
            isotonic_upto(items@, blocks@, k as int, blocks@.len() as int),
    {
        let item = items[k];
        proof {
            assert(-536870912 <= item.column - k <= 536870912);
        }
        let target: i128 = item.column as i128 - k as i128;
        let weight = item.weight as i128;
        assert(-17179869184 <= weight * target <= 17179869184) by (nonlinear_arith)
            requires
                1 <= weight <= 32,
                -536870912 <= target <= 536870912,
        ;
        assert(weighted_sum(items@, k as int, k + 1) == weight * target) by {
            reveal_with_fuel(weighted_sum, 2);
        }
        assert(total_weight(items@, k as int, k + 1) == weight) by {
            reveal_with_fuel(total_weight, 2);
        }
        blocks.push(IsotonicBlock { start: k, end: k + 1, weight, weighted_sum: weight * target });
        assert(tight(items@, k as int, k + 1));
        while blocks.len() >= 2
            invariant
                packable(items@),
                k < items@.len(),
                blocks@.len() >= 1,
                isotonic_upto(items@, blocks@, k + 1, blocks@.len() - 2),
            ensures
                isotonic_upto(items@, blocks@, k + 1, blocks@.len() as int),
            decreases blocks.len(),
        {
            let n = blocks.len();
            let left = blocks[n - 2];
            let right = blocks[n - 1];
            proof {
                lemma_sums_bounded(items@, left.start as int, left.end as int);
                lemma_sums_bounded(items@, right.start as int, right.end as int);
                lemma_product_bounded(left.weighted_sum as int, right.weight as int);
                lemma_product_bounded(right.weighted_sum as int, left.weight as int);
            }
            if left.weighted_sum * right.weight <= right.weighted_sum * left.weight {
                break;
            }
            proof {
                lemma_merge_tight(items@, left.start as int, left.end as int, right.end as int);
                lemma_sums_split(items@, left.start as int, left.end as int, right.end as int);
            }
            blocks.pop();
            blocks.pop();
            blocks.push(
                IsotonicBlock {
                    start: left.start,
                    end: right.end,
                    weight: left.weight + right.weight,
                    weighted_sum: left.weighted_sum + right.weighted_sum,
                },
            );
        }
    }
    blocks
}

/// The layout order keys of the notes.
pub open spec fn note_order_keys(notes: Seq<NoteRecord>) -> Seq<Seq<u64>> {
    notes.map_values(|n: NoteRecord| note_order_key(n))
}

/// The weight of a note by whether it keeps its place.
pub open spec fn weight_of(kept: bool) -> u64 {
    if kept {
        PRESERVED_WEIGHT
    } else {
        NEW_WEIGHT
    }
}

/// The row item of the note at `i`.
pub open spec fn row_item(notes: Seq<NoteRecord>, desired: Seq<(i32, i32)>, unchanged: Seq<bool>, i: int) -> RowItem {
    RowItem {
        note: i as usize,
        column: desired[i].0,
        weight: weight_of(unchanged[i]),
        name_rank: rank_in(note_order_keys(notes), i, notes.len() as int) as usize,
    }
}

/// The row items of all notes, in note order.
pub open spec fn all_row_items(notes: Seq<NoteRecord>, desired: Seq<(i32, i32)>, unchanged: Seq<bool>) -> Seq<RowItem> {
    Seq::new(notes.len(), |i: int| row_item(notes, desired, unchanged, i))
}

/// The item belongs to the note of a note that wants a slot in `row`.
pub open spec fn in_row(desired: Seq<(i32, i32)>, row: i32) -> spec_fn(RowItem) -> bool {
    |it: RowItem| desired[it.note as int].1 == row
}

/// The items of the notes that want a slot in `row`, in note order.
pub open spec fn row_items(notes: Seq<NoteRecord>, desired: Seq<(i32, i32)>, unchanged: Seq<bool>, row: i32) -> Seq<RowItem> {
    all_row_items(notes, desired, unchanged).filter(in_row(desired, row))
}

/// The mean `sum / weight` rounded to the nearest integer, halves away from zero.
pub open spec fn rounded_mean(sum: int, weight: int) -> int {
    if sum >= 0 {
        (2 * sum + weight) / (2 * weight)
    } else {
        -((-2 * sum + weight) / (2 * weight))
    }
}

/// The notes wanting `row` are packed by the blocks of `sorted`: `sorted` is their stable sort
/// by [`RowItem`] key, `blocks` the isotonic fit of that order, and the note at position `k` of
/// a block stands at column `k` plus the block's rounded mean target.
pub open spec fn packs_row(
    notes: Seq<NoteRecord>,
    desired: Seq<(i32, i32)>,
    unchanged: Seq<bool>,
    row: i32,
    sorted: Seq<RowItem>,
    blocks: Seq<IsotonicBlock>,
    packed: Seq<(i32, i32)>,
) -> bool {
    &&& stably_sorted(row_items(notes, desired, unchanged, row), sorted)
    &&& sorted.len() == row_items(notes, desired, unchanged, row).len()
    &&& isotonic(sorted, blocks)
    &&& forall|t: int, k: int|
        #![trigger blocks[t], sorted[k]]
        0 <= t < blocks.len() && blocks[t].start <= k < blocks[t].end ==> packed[sorted[k].note as int].0
            == rounded_mean(blocks[t].weighted_sum as int, blocks[t].weight as int) + k && packed[sorted[k].note as int].1
            == row
}

/// The notes wanting `row` are packed in `packed` by some stable sort of the row and some
/// isotonic fit of it.
pub open spec fn row_is_packed(
    notes: Seq<NoteRecord>,
    desired: Seq<(i32, i32)>,
    unchanged: Seq<bool>,
    row: i32,
    packed: Seq<(i32, i32)>,
) -> bool {
    exists|sorted: Seq<RowItem>, blocks: Seq<IsotonicBlock>|
        #[trigger] packs_row(notes, desired, unchanged, row, sorted, blocks, packed)
}

/// A filter keeps a sequence free of repeats.
proof fn lemma_filter_no_dup<T>(s: Seq<T>, p: spec_fn(T) -> bool)
    requires
        s.no_duplicates(),
    ensures
        s.filter(p).no_duplicates(),
    decreases s.len(),
{
    reveal(Seq::filter);
    if s.len() > 0 {
        let rest = s.drop_last();
        assert(rest.no_duplicates());
        lemma_filter_no_dup(rest, p);
        if p(s.last()) {
            if rest.filter(p).contains(s.last()) {
                lemma_filter_members(rest, p, s.last());
                let k = choose|k: int| 0 <= k < rest.len() && rest[k] == s.last();
                assert(s[k] == s[s.len() - 1]);
            }
            assert(s.filter(p) == rest.filter(p).push(s.last()));
        }
    }
}

/// An item of a sorted row is the item of a note that wants that row.
proof fn lemma_row_member(
    notes: Seq<NoteRecord>,
    desired: Seq<(i32, i32)>,
    unchanged: Seq<bool>,
    row: i32,
    sorted: Seq<RowItem>,
    k: int,
)
    requires
        desired.len() == notes.len(),
        notes.len() <= PACK_LIMIT,
        stably_sorted(row_items(notes, desired, unchanged, row), sorted),
        0 <= k < sorted.len(),
    ensures
        0 <= sorted[k].note < notes.len(),
        sorted[k] == row_item(notes, desired, unchanged, sorted[k].note as int),
        desired[sorted[k].note as int].1 == row,
{
    let all = all_row_items(notes, desired, unchanged);
    let p = in_row(desired, row);
    lemma_sorted_members(row_items(notes, desired, unchanged, row), sorted, k);
    let x = sorted[k];
    let idx = choose|idx: int| 0 <= idx < all.filter(p).len() && all.filter(p)[idx] == x;
    all.filter_lemma(p);
    assert(p(all.filter(p)[idx]));
    lemma_filter_members(all, p, x);
    let i = choose|i: int| 0 <= i < all.len() && all[i] == x;
    assert(all[i] == row_item(notes, desired, unchanged, i));
}

/// The items of a row have distinct keys.
proof fn lemma_row_distinct_keys(notes: Seq<NoteRecord>, desired: Seq<(i32, i32)>, unchanged: Seq<bool>, row: i32)
    requires
        desired.len() == notes.len(),
        notes.len() <= PACK_LIMIT,
    ensures
        distinct_keys(row_items(notes, desired, unchanged, row)),
        row_items(notes, desired, unchanged, row).no_duplicates(),
{
    let all = all_row_items(notes, desired, unchanged);
    let p = in_row(desired, row);
    let keys = note_order_keys(notes);
    let n = notes.len() as int;
    assert forall|i: int, j: int| 0 <= i < j < all.len() implies all[i] != all[j] by {
        assert(all[i].note == i);
        assert(all[j].note == j);
    }
    assert(all.no_duplicates());
    lemma_filter_no_dup(all, p);
    let rows = all.filter(p);
    assert forall|i: int, j: int| 0 <= i < j < rows.len() implies !key_eq(
        (#[trigger] rows[i]).sort_key(),
        (#[trigger] rows[j]).sort_key(),
    ) by {
        rows.lemma_filter_contains(p, 0);
        all.filter_lemma(p);
        assert(rows.contains(rows[i]));
        assert(rows.contains(rows[j]));
        lemma_filter_members(all, p, rows[i]);
        lemma_filter_members(all, p, rows[j]);
        let a = choose|a: int| 0 <= a < all.len() && all[a] == rows[i];
        let b = choose|b: int| 0 <= b < all.len() && all[b] == rows[j];
        if key_eq(rows[i].sort_key(), rows[j].sort_key()) {
            lemma_key_eq_equal(rows[i].sort_key(), rows[j].sort_key());
            assert(rows[i].sort_key()[2] == rows[j].sort_key()[2]);
            if a != b {
                lemma_rank_distinct(keys, a, b, n);
                lemma_rank_bound(keys, a, n);
                lemma_rank_bound(keys, b, n);
            }
            assert(rows[i] == rows[j]);
        }
    }
}

proof fn lemma_rounded_mean_bounded(sum: int, weight: int)
    requires
        weight >= 1,
        -536870912 * weight <= sum <= 536870912 * weight,
    ensures
        -536870912 <= rounded_mean(sum, weight) <= 536870912,
{
    let top = 536870912 * (2 * weight) + weight;
    vstd::arithmetic::div_mod::lemma_fundamental_div_mod_converse(top, 2 * weight, 536870912, weight);
    if sum >= 0 {
        vstd::arithmetic::div_mod::lemma_div_is_ordered(2 * sum + weight, top, 2 * weight);
        vstd::arithmetic::div_mod::lemma_div_pos_is_pos(2 * sum + weight, 2 * weight);
    } else {
        vstd::arithmetic::div_mod::lemma_div_is_ordered(-2 * sum + weight, top, 2 * weight);
        vstd::arithmetic::div_mod::lemma_div_pos_is_pos(-2 * sum + weight, 2 * weight);
    }
}

/// The mean `sum / weight` rounded to the nearest integer, halves away from zero.
fn rounded_mean_exec(sum: i128, weight: i128) -> (mean: i128)
    requires
        weight >= 1,
        -536870912 * weight <= sum <= 536870912 * weight,
        weight <= 32 * PACK_LIMIT,
    ensures
        mean == rounded_mean(sum as int, weight as int),
        -536870912 <= mean <= 536870912,
{
    proof {
        lemma_rounded_mean_bounded(sum as int, weight as int);
    }
    if sum >= 0 {
        (2 * sum + weight) / (2 * weight)
    } else {
        -((-2 * sum + weight) / (2 * weight))
    }
}

/// The rank of every note in the layout order of notes.
fn note_order_ranks(notes: &Vec<NoteRecord>) -> (ranks: Vec<usize>)
    requires
        notes@.len() <= PACK_LIMIT,
    ensures
        ranks@.len() == notes@.len(),
        forall|i: int| 0 <= i < notes@.len() ==> (#[trigger] ranks@[i]) == rank_in(note_order_keys(notes@), i, notes@.len() as int),
{
    let n = notes.len();
    let ghost keys_spec = note_order_keys(notes@);
    let mut keys: Vec<Vec<u64>> = Vec::new();
    for j in 0..n
        invariant
            n == notes@.len(),
            keys_spec == note_order_keys(notes@),
            keys@.len() == j,
            forall|k: int| 0 <= k < j ==> (#[trigger] keys@[k])@ == keys_spec[k],
    {
        keys.push(note_order_key_exec(&notes[j]));
    }
    let mut ranks: Vec<usize> = Vec::new();
    for i in 0..n
        invariant
            n == notes@.len(),
            n <= PACK_LIMIT,
            keys_spec == note_order_keys(notes@),
            keys@.len() == n,
            forall|k: int| 0 <= k < n ==> (#[trigger] keys@[k])@ == keys_spec[k],
            ranks@.len() == i,
            forall|k: int| 0 <= k < i ==> (#[trigger] ranks@[k]) == rank_in(keys_spec, k, n as int),
    {
        let mut count: usize = 0;
        for j in 0..n
            invariant
                n == notes@.len(),
                n <= PACK_LIMIT,
                i < n,
                keys@.len() == n,
                forall|k: int| 0 <= k < n ==> (#[trigger] keys@[k])@ == keys_spec[k],
                count == rank_in(keys_spec, i as int, j as int),
                count <= j,
        {
            let after = SortKey::le(&keys[i], &keys[j]);
            let before = SortKey::le(&keys[j], &keys[i]);
            if !after || (before && j < i) {
                count += 1;
            }
        }
        ranks.push(count);
    }
    ranks
}

/// Packs the notes of each row: within a row (the notes wanting slots with the same row) the
/// notes are ordered by wanted column, then heavier first (a note that keeps its place weighs
/// [`PRESERVED_WEIGHT`], any other [`NEW_WEIGHT`]), then in the layout order of notes; the
/// columns they get are consecutive positions shifted by the rounded means of an isotonic fit,
/// so that in every row the notes stand on distinct columns as near their wanted ones as the
/// order allows. Means are compared and rounded exactly.
pub fn pack_rows(notes: &Vec<NoteRecord>, desired: &Vec<(i32, i32)>, unchanged: &Vec<bool>) -> (packed: Vec<(i32, i32)>)
    requires
        desired@.len() == notes@.len(),
        unchanged@.len() == notes@.len(),
        notes@.len() <= PACK_LIMIT,
        forall|i: int| 0 <= i < desired@.len() ==> -COLUMN_LIMIT <= (#[trigger] desired@[i]).0 <= COLUMN_LIMIT,
    ensures
        packed@.len() == notes@.len(),
        forall|i: int|
            #![trigger row_is_packed(notes@, desired@, unchanged@, desired@[i].1, packed@)]
            0 <= i < notes@.len() ==> row_is_packed(notes@, desired@, unchanged@, desired@[i].1, packed@),
{
    let n = notes.len();
    let ranks = note_order_ranks(notes);
    let mut packed: Vec<(i32, i32)> = Vec::new();
    for i in 0..n
        invariant
            packed@.len() == i,
    {
        packed.push((0, 0));
    }
    for cur in 0..n
        invariant
            n == notes@.len(),
            desired@.len() == n,
            unchanged@.len() == n,
            n <= PACK_LIMIT,
            forall|i: int| 0 <= i < desired@.len() ==> -COLUMN_LIMIT <= (#[trigger] desired@[i]).0 <= COLUMN_LIMIT,
            ranks@.len() == n,
            forall|k: int| 0 <= k < n ==> (#[trigger] ranks@[k]) == rank_in(note_order_keys(notes@), k, n as int),
            packed@.len() == n,
            forall|i: int|
                #![trigger row_is_packed(notes@, desired@, unchanged@, desired@[i].1, packed@)]
                0 <= i < n && (exists|j: int| 0 <= j < cur && (#[trigger] desired@[j]).1 == desired@[i].1)
                    ==> row_is_packed(notes@, desired@, unchanged@, desired@[i].1, packed@),
    {
        let row = desired[cur].1;
        let mut seen = false;
        for j in 0..cur
            invariant
                cur < n,
                desired@.len() == n,
                row == desired@[cur as int].1,
                seen == exists|k: int| 0 <= k < j && (#[trigger] desired@[k]).1 == row,
        {
            if desired[j].1 == row {
                seen = true;
            }
        }
        if !seen {
            let ghost before = packed@;
            let ghost all = all_row_items(notes@, desired@, unchanged@);
            let ghost p = in_row(desired@, row);
            let mut items: Vec<RowItem> = Vec::new();
            for j in 0..n
                invariant
                    n == notes@.len(),
                    desired@.len() == n,
                    unchanged@.len() == n,
                    n <= PACK_LIMIT,
                    ranks@.len() == n,
                    forall|k: int| 0 <= k < n ==> (#[trigger] ranks@[k]) == rank_in(note_order_keys(notes@), k, n as int),
                    all == all_row_items(notes@, desired@, unchanged@),
                    p == in_row(desired@, row),
                    items@ == all.take(j as int).filter(p),
            {
                let item = RowItem {
                    note: j,
                    column: desired[j].0,
                    weight: if unchanged[j] {
                        PRESERVED_WEIGHT
                    } else {
                        NEW_WEIGHT
                    },
                    name_rank: ranks[j],
                };
                assert(item == all[j as int]);
                proof {
                    all.take(j as int).lemma_filter_push(item, p);
                    assert(all.take(j + 1) =~= all.take(j as int).push(item));
                }
                if desired[j].1 == row {
                    items.push(item);
                }
            }
            assert(all.take(n as int) =~= all);
            let ghost input = items@;
            assert(input == row_items(notes@, desired@, unchanged@, row));
            let sorted = stable_sort(items);
            proof {
                lemma_row_distinct_keys(notes@, desired@, unchanged@, row);
                assert forall|k: int| 0 <= k < sorted@.len() implies -COLUMN_LIMIT <= (#[trigger] sorted@[k]).column
                    <= COLUMN_LIMIT && 1 <= sorted@[k].weight <= PRESERVED_WEIGHT by {
                    lemma_row_member(notes@, desired@, unchanged@, row, sorted@, k);
                }
                input.filter_lemma(p);
                assert(input.len() <= all.len()) by {
                    all.lemma_filter_len(p);
                }
            }
            let blocks = isotonic_blocks(&sorted);
            proof {
                assert forall|k: int| 0 <= k < sorted@.len() implies 0 <= (#[trigger] sorted@[k]).note < n by {
                    lemma_row_member(notes@, desired@, unchanged@, row, sorted@, k);
                }
            }
            let ghost sv = sorted@;
            let ghost bv = blocks@;
            place_row(&mut packed, notes, desired, unchanged, row, &sorted, &blocks);
            proof {
                assert(packs_row(notes@, desired@, unchanged@, row, sv, bv, packed@));
                assert forall|i: int|
                    #![trigger row_is_packed(notes@, desired@, unchanged@, desired@[i].1, packed@)]
                    0 <= i < n && (exists|j: int| 0 <= j < cur + 1 && (#[trigger] desired@[j]).1 == desired@[i].1)
                        implies row_is_packed(notes@, desired@, unchanged@, desired@[i].1, packed@) by {
                    if desired@[i].1 != row {
                        let j = choose|j: int| 0 <= j < cur + 1 && (#[trigger] desired@[j]).1 == desired@[i].1;
                        assert(j < cur);
                        assert(row_is_packed(notes@, desired@, unchanged@, desired@[i].1, before));
                        let (s2, b2) = choose|s2: Seq<RowItem>, b2: Seq<IsotonicBlock>|
                            #[trigger] packs_row(notes@, desired@, unchanged@, desired@[i].1, s2, b2, before);
                        lemma_packs_row_frame(notes@, desired@, unchanged@, desired@[i].1, s2, b2, before, packed@);
                    }
                }
            }
        }
    }
    proof {
        assert forall|i: int|
            #![trigger row_is_packed(notes@, desired@, unchanged@, desired@[i].1, packed@)]
            0 <= i < notes@.len() implies row_is_packed(notes@, desired@, unchanged@, desired@[i].1, packed@) by {
            let j = i;
            assert(0 <= j < n && desired@[j].1 == desired@[i].1);
            assert(exists|j: int| 0 <= j < n && (#[trigger] desired@[j]).1 == desired@[i].1);
        }
    }
    packed
}

/// Writes the columns of one packed row: the note at position `k` of a block gets column `k`
/// plus the block's rounded mean target; the other notes keep their slots.
fn place_row(
    packed: &mut Vec<(i32, i32)>,
    notes: &Vec<NoteRecord>,
    desired: &Vec<(i32, i32)>,
    unchanged: &Vec<bool>,
    row: i32,
    sorted: &Vec<RowItem>,
    blocks: &Vec<IsotonicBlock>,
)
    requires
        desired@.len() == notes@.len(),
        unchanged@.len() == notes@.len(),
        notes@.len() <= PACK_LIMIT,
        old(packed)@.len() == notes@.len(),
        stably_sorted(row_items(notes@, desired@, unchanged@, row), sorted@),
        isotonic(sorted@, blocks@),
        packable(sorted@),
    ensures
        final(packed)@.len() == notes@.len(),
        forall|j: int| 0 <= j < notes@.len() && desired@[j].1 != row ==> final(packed)@[j] == old(packed)@[j],
        forall|t: int, k: int|
            #![trigger blocks@[t], sorted@[k]]
            0 <= t < blocks@.len() && blocks@[t].start <= k < blocks@[t].end ==> final(packed)@[sorted@[k].note as int].0
                == rounded_mean(blocks@[t].weighted_sum as int, blocks@[t].weight as int) + k
                && final(packed)@[sorted@[k].note as int].1 == row,
{
    let n = notes.len();
    let ghost before = packed@;
    let ghost sv = sorted@;
    let ghost bv = blocks@;
    proof {
        assert forall|k: int| 0 <= k < sv.len() implies 0 <= (#[trigger] sv[k]).note < n && desired@[sv[k].note as int].1
            == row by {
            lemma_row_member(notes@, desired@, unchanged@, row, sv, k);
        }
        assert forall|k1: int, k2: int| 0 <= k1 < k2 < sv.len() implies (#[trigger] sv[k1]).note != (#[trigger] sv[k2]).note by {
            lemma_sorted_notes_distinct(notes@, desired@, unchanged@, row, sv, k1, k2);
        }
        assert forall|t1: int, t2: int| 0 <= t1 < t2 < bv.len() implies (#[trigger] bv[t1]).end <= (#[trigger] bv[t2]).start by {
            lemma_blocks_in_order(sv, bv, t1, t2);
        }
    }
    for t in 0..blocks.len()
        invariant
            n == notes@.len(),
            n <= PACK_LIMIT,
            desired@.len() == n,
            sv == sorted@,
            bv == blocks@,
            isotonic(sv, bv),
            packable(sv),
            forall|k: int| 0 <= k < sv.len() ==> 0 <= (#[trigger] sv[k]).note < n && desired@[sv[k].note as int].1 == row,
            forall|k1: int, k2: int| 0 <= k1 < k2 < sv.len() ==> (#[trigger] sv[k1]).note != (#[trigger] sv[k2]).note,
            forall|t1: int, t2: int| 0 <= t1 < t2 < bv.len() ==> (#[trigger] bv[t1]).end <= (#[trigger] bv[t2]).start,
            packed@.len() == n,
            before.len() == n,
            forall|j: int| 0 <= j < n && desired@[j].1 != row ==> packed@[j] == before[j],
            forall|t2: int, k: int|
                #![trigger bv[t2], sv[k]]
                0 <= t2 < t && bv[t2].start <= k < bv[t2].end ==> packed@[sv[k].note as int].0 == rounded_mean(
                    bv[t2].weighted_sum as int,
                    bv[t2].weight as int,
                ) + k && packed@[sv[k].note as int].1 == row,
    {
        let block = blocks[t];
        proof {
            assert(block_fits(sv, block));
            lemma_sums_bounded(sv, block.start as int, block.end as int);
        }
        let fitted = rounded_mean_exec(block.weighted_sum, block.weight);
        write_block(packed, sorted, blocks, t, fitted, row, Ghost(before), Ghost(desired@));
    }
}

/// Writes the columns of the notes of block `t`.
fn write_block(
    packed: &mut Vec<(i32, i32)>,
    sorted: &Vec<RowItem>,
    blocks: &Vec<IsotonicBlock>,
    t: usize,
    fitted: i128,
    row: i32,
    Ghost(before): Ghost<Seq<(i32, i32)>>,
    Ghost(desired): Ghost<Seq<(i32, i32)>>,
)
    requires
        t < blocks@.len(),
        old(packed)@.len() == before.len(),
        desired.len() == before.len(),
        before.len() <= PACK_LIMIT,
        sorted@.len() <= PACK_LIMIT,
        blocks@[t as int].start < blocks@[t as int].end <= sorted@.len(),
        fitted == rounded_mean(blocks@[t as int].weighted_sum as int, blocks@[t as int].weight as int),
        -536870912 <= fitted <= 536870912,
        forall|k: int|
            0 <= k < sorted@.len() ==> 0 <= (#[trigger] sorted@[k]).note < before.len() && desired[sorted@[k].note as int].1
                == row,
        forall|k1: int, k2: int| 0 <= k1 < k2 < sorted@.len() ==> (#[trigger] sorted@[k1]).note != (#[trigger] sorted@[k2]).note,
        forall|t1: int, t2: int| 0 <= t1 < t2 < blocks@.len() ==> (#[trigger] blocks@[t1]).end <= (#[trigger] blocks@[t2]).start,
        forall|j: int| 0 <= j < before.len() && desired[j].1 != row ==> old(packed)@[j] == before[j],
        forall|t2: int, k: int|
            #![trigger blocks@[t2], sorted@[k]]
            0 <= t2 < t && blocks@[t2].start <= k < blocks@[t2].end ==> old(packed)@[sorted@[k].note as int].0
                == rounded_mean(blocks@[t2].weighted_sum as int, blocks@[t2].weight as int) + k
                && old(packed)@[sorted@[k].note as int].1 == row,
    ensures
        final(packed)@.len() == before.len(),
        forall|j: int| 0 <= j < before.len() && desired[j].1 != row ==> final(packed)@[j] == before[j],
        forall|t2: int, k: int|
            #![trigger blocks@[t2], sorted@[k]]
            0 <= t2 < t + 1 && blocks@[t2].start <= k < blocks@[t2].end ==> final(packed)@[sorted@[k].note as int].0
                == rounded_mean(blocks@[t2].weighted_sum as int, blocks@[t2].weight as int) + k
                && final(packed)@[sorted@[k].note as int].1 == row,
{
    let block = blocks[t];
    let ghost start = packed@;
    for k in block.start..block.end
        invariant
            t < blocks@.len(),
            block == blocks@[t as int],
            block.start < block.end <= sorted@.len(),
            sorted@.len() <= PACK_LIMIT,
            before.len() <= PACK_LIMIT,
            desired.len() == before.len(),
            fitted == rounded_mean(block.weighted_sum as int, block.weight as int),
            -536870912 <= fitted <= 536870912,
            forall|k: int|
                0 <= k < sorted@.len() ==> 0 <= (#[trigger] sorted@[k]).note < before.len() && desired[sorted@[k].note as int].1
                    == row,
            forall|k1: int, k2: int| 0 <= k1 < k2 < sorted@.len() ==> (#[trigger] sorted@[k1]).note != (#[trigger] sorted@[k2]).note,
            packed@.len() == before.len(),
            start.len() == before.len(),
            forall|j: int| 0 <= j < before.len() && desired[j].1 != row ==> packed@[j] == start[j],
            forall|k2: int|
                0 <= k2 < sorted@.len() && (k2 < block.start || k <= k2) ==> packed@[(#[trigger] sorted@[k2]).note as int]
                    == start[sorted@[k2].note as int],
            forall|k2: int|
                block.start <= k2 < k ==> packed@[(#[trigger] sorted@[k2]).note as int].0 == fitted + k2
                    && packed@[sorted@[k2].note as int].1 == row,
    {
        let note = sorted[k].note;
        let ghost prev = packed@;
        assert(0 <= note < before.len() && desired[note as int].1 == row);
        let column = (fitted + k as i128) as i32;
        packed.set(note, (column, row));
        proof {
            assert(packed@ == prev.update(note as int, (column, row)));
            assert forall|k2: int| 0 <= k2 < sorted@.len() && k2 != k implies packed@[(#[trigger] sorted@[k2]).note as int]
                == prev[sorted@[k2].note as int] by {
                if k2 < k {
                    assert(sorted@[k2].note != sorted@[k as int].note);
                } else {
                    assert(sorted@[k as int].note != sorted@[k2].note);
                }
            }
        }
    }
}

/// Blocks of an isotonic fit come in order: an earlier block ends before a later one starts.
proof fn lemma_blocks_in_order(items: Seq<RowItem>, blocks: Seq<IsotonicBlock>, s: int, t: int)
    requires
        isotonic(items, blocks),
        0 <= s < t < blocks.len(),
    ensures
        blocks[s].end <= blocks[t].start,
    decreases t - s,
{
    assert(block_fits(items, blocks[t - 1]));
    if s < t - 1 {
        lemma_blocks_in_order(items, blocks, s, t - 1);
    }
}

/// Different positions of a sorted row hold different notes.
proof fn lemma_sorted_notes_distinct(
    notes: Seq<NoteRecord>,
    desired: Seq<(i32, i32)>,
    unchanged: Seq<bool>,
    row: i32,
    sorted: Seq<RowItem>,
    a: int,
    b: int,
)
    requires
        desired.len() == notes.len(),
        notes.len() <= PACK_LIMIT,
        stably_sorted(row_items(notes, desired, unchanged, row), sorted),
        0 <= a < sorted.len(),
        0 <= b < sorted.len(),
        a != b,
    ensures
        sorted[a].note != sorted[b].note,
{
    lemma_row_distinct_keys(notes, desired, unchanged, row);
    if a < b {
        lemma_sorted_once(row_items(notes, desired, unchanged, row), sorted, a, b);
    } else {
        lemma_sorted_once(row_items(notes, desired, unchanged, row), sorted, b, a);
    }
    lemma_row_member(notes, desired, unchanged, row, sorted, a);
    lemma_row_member(notes, desired, unchanged, row, sorted, b);
}

/// Packing a row reads only the slots of the notes wanting that row.
proof fn lemma_packs_row_frame(
    notes: Seq<NoteRecord>,
    desired: Seq<(i32, i32)>,
    unchanged: Seq<bool>,
    row: i32,
    sorted: Seq<RowItem>,
    blocks: Seq<IsotonicBlock>,
    p1: Seq<(i32, i32)>,
    p2: Seq<(i32, i32)>,
)
    requires
        desired.len() == notes.len(),
        notes.len() <= PACK_LIMIT,
        packs_row(notes, desired, unchanged, row, sorted, blocks, p1),
        forall|j: int| 0 <= j < notes.len() && desired[j].1 == row ==> p1[j] == p2[j],
    ensures
        packs_row(notes, desired, unchanged, row, sorted, blocks, p2),
{
    assert forall|t: int, k: int|
        #![trigger blocks[t], sorted[k]]
        0 <= t < blocks.len() && blocks[t].start <= k < blocks[t].end implies p2[sorted[k].note as int].0
            == rounded_mean(blocks[t].weighted_sum as int, blocks[t].weight as int) + k && p2[sorted[k].note as int].1
            == row by {
        assert(block_fits(sorted, blocks[t]));
        lemma_row_member(notes, desired, unchanged, row, sorted, k);
    }
}

/// `q` is at most `x / d` when `q * d` is at most `x`.
proof fn lemma_below_quotient(q: int, d: int, x: int)
    requires
        d > 0,
        q * d <= x,
    ensures
        q <= x / d,
{
    vstd::arithmetic::div_mod::lemma_fundamental_div_mod_converse(q * d, d, q, 0);
    vstd::arithmetic::div_mod::lemma_div_is_ordered(q * d, x, d);
}

/// `x / d` times `d` is at most `x`.
proof fn lemma_quotient_below(d: int, x: int)
    requires
        d > 0,
    ensures
        (x / d) * d <= x,
{
    vstd::arithmetic::div_mod::lemma_fundamental_div_mod(x, d);
    vstd::arithmetic::div_mod::lemma_mod_bound(x, d);
    assert((x / d) * d == d * (x / d)) by (nonlinear_arith);
}

/// Rounding means keeps their order.
proof fn lemma_rounded_mean_monotone(s1: int, w1: int, s2: int, w2: int)
    requires
        w1 > 0,
        w2 > 0,
        s1 * w2 <= s2 * w1,
    ensures
        rounded_mean(s1, w1) <= rounded_mean(s2, w2),
{
    if s1 >= 0 {
        let q1 = (2 * s1 + w1) / (2 * w1);
        lemma_quotient_below(2 * w1, 2 * s1 + w1);
        assert(s2 >= 0) by (nonlinear_arith)
            requires
                w1 > 0,
                w2 > 0,
                s1 >= 0,
                s1 * w2 <= s2 * w1,
        ;
        assert(q1 * (2 * w2) <= 2 * s2 + w2) by (nonlinear_arith)
            requires
                w1 > 0,
                w2 > 0,
                q1 * (2 * w1) <= 2 * s1 + w1,
                s1 * w2 <= s2 * w1,
        ;
        lemma_below_quotient(q1, 2 * w2, 2 * s2 + w2);
    } else if s2 < 0 {
        // Both below zero: rounding is the negated rounding of the negated means.
        let q2 = (-2 * s2 + w2) / (2 * w2);
        lemma_quotient_below(2 * w2, -2 * s2 + w2);
        assert(q2 * (2 * w1) <= -2 * s1 + w1) by (nonlinear_arith)
            requires
                w1 > 0,
                w2 > 0,
                q2 * (2 * w2) <= -2 * s2 + w2,
                s1 * w2 <= s2 * w1,
        ;
        lemma_below_quotient(q2, 2 * w1, -2 * s1 + w1);
    } else {
        vstd::arithmetic::div_mod::lemma_div_pos_is_pos(-2 * s1 + w1, 2 * w1);
        vstd::arithmetic::div_mod::lemma_div_pos_is_pos(2 * s2 + w2, 2 * w2);
    }
}

/// Fitted offsets do not decrease from block to block.
proof fn lemma_fitted_ordered(items: Seq<RowItem>, blocks: Seq<IsotonicBlock>, t1: int, t2: int)
    requires
        isotonic(items, blocks),
        packable(items),
        0 <= t1 <= t2 < blocks.len(),
    ensures
        rounded_mean(blocks[t1].weighted_sum as int, blocks[t1].weight as int) <= rounded_mean(
            blocks[t2].weighted_sum as int,
            blocks[t2].weight as int,
        ),
    decreases t2 - t1,
{
    if t1 < t2 {
        lemma_fitted_ordered(items, blocks, t1 + 1, t2);
        let a = blocks[t1];
        let b = blocks[t1 + 1];
        assert(block_fits(items, a));
        assert(block_fits(items, b));
        assert(a.end == b.start);
        assert(means_ordered(items, a.start as int, a.end as int, b.end as int));
        lemma_sums_bounded(items, a.start as int, a.end as int);
        lemma_sums_bounded(items, b.start as int, b.end as int);
        lemma_rounded_mean_monotone(a.weighted_sum as int, a.weight as int, b.weighted_sum as int, b.weight as int);
    }
}

/// The block at or before `t` holding position `k` of a row fitted by `blocks`.
proof fn lemma_block_of(items: Seq<RowItem>, blocks: Seq<IsotonicBlock>, k: int, t: int) -> (found: int)
    requires
        isotonic(items, blocks),
        0 <= k,
        0 <= t < blocks.len(),
        k < blocks[t].end,
    ensures
        0 <= found <= t,
        blocks[found].start <= k < blocks[found].end,
    decreases t,
{
    assert(block_fits(items, blocks[t]));
    if blocks[t].start <= k {
        t
    } else {
        assert(t > 0);
        assert(blocks[t - 1].end == blocks[t].start);
        lemma_block_of(items, blocks, k, t - 1)
    }
}

proof fn lemma_packed_row_packable(
    notes: Seq<NoteRecord>,
    desired: Seq<(i32, i32)>,
    unchanged: Seq<bool>,
    row: i32,
    sorted: Seq<RowItem>,
    blocks: Seq<IsotonicBlock>,
    packed: Seq<(i32, i32)>,
)
    requires
        desired.len() == notes.len(),
        notes.len() <= PACK_LIMIT,
        forall|i: int| 0 <= i < desired.len() ==> -COLUMN_LIMIT <= (#[trigger] desired[i]).0 <= COLUMN_LIMIT,
        packs_row(notes, desired, unchanged, row, sorted, blocks, packed),
    ensures
        packable(sorted),
{
    assert forall|k: int| 0 <= k < sorted.len() implies -COLUMN_LIMIT <= (#[trigger] sorted[k]).column <= COLUMN_LIMIT
        && 1 <= sorted[k].weight <= PRESERVED_WEIGHT by {
        lemma_row_member(notes, desired, unchanged, row, sorted, k);
    }
    all_row_items(notes, desired, unchanged).lemma_filter_len(in_row(desired, row));
}

/// No two notes of a packed row share a column: along the row's order the columns increase.
pub proof fn law_packed_columns_increase(
    notes: Seq<NoteRecord>,
    desired: Seq<(i32, i32)>,
    unchanged: Seq<bool>,
    row: i32,
    sorted: Seq<RowItem>,
    blocks: Seq<IsotonicBlock>,
    packed: Seq<(i32, i32)>,
    k1: int,
    k2: int,
)
    requires
        desired.len() == notes.len(),
        notes.len() <= PACK_LIMIT,
        forall|i: int| 0 <= i < desired.len() ==> -COLUMN_LIMIT <= (#[trigger] desired[i]).0 <= COLUMN_LIMIT,
        packs_row(notes, desired, unchanged, row, sorted, blocks, packed),
        0 <= k1 < k2 < sorted.len(),
    ensures
        packed[sorted[k1].note as int].0 < packed[sorted[k2].note as int].0,
{
    lemma_packed_row_packable(notes, desired, unchanged, row, sorted, blocks, packed);
    let last = blocks.len() - 1;
    assert(blocks.len() > 0 && blocks[last].end == sorted.len());
    let t1 = lemma_block_of(sorted, blocks, k1, last);
    let t2 = lemma_block_of(sorted, blocks, k2, last);
    if t2 < t1 {
        crate::board::rows::lemma_blocks_in_order(sorted, blocks, t2, t1);
        assert(block_fits(sorted, blocks[t2]));
    }
    lemma_fitted_ordered(sorted, blocks, t1, t2);
}

} // verus!
