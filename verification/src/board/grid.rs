//! The coarse grid of slots that notes and tag clusters are placed on.
use vstd::prelude::*;

use crate::sort::{
    distinct_keys, key_eq, lemma_sorted_keeps, lemma_sorted_members, lemma_sorted_once,
    lemma_stable_sort_unique, stable_sort, stably_sorted, Keyed,
};

verus! {

broadcast use vstd::seq_lib::group_seq_properties;

/// Rings are searched around centers up to this far from the origin and with radii up to
/// this size: the largest radius whose corner slots' squared distance, twice its square, is
/// still an `i32`.
pub const RING_LIMIT: i32 = 32767;

/// Footprints reach at most this far from their center.
pub const FOOTPRINT_LIMIT: i32 = 4096;

/// Occupied slots and wanted slots lie within this distance of the origin on each axis: the
/// search for a free block then ends on a ring within [`RING_LIMIT`].
pub const PLACEMENT_LIMIT: i32 = (RING_LIMIT - FOOTPRINT_LIMIT - 1) >> 1;

/// The value of [`PLACEMENT_LIMIT`]: half of what [`RING_LIMIT`] leaves beyond a footprint.
pub proof fn lemma_placement_limit()
    ensures
        PLACEMENT_LIMIT == 14335,
        2 * PLACEMENT_LIMIT + FOOTPRINT_LIMIT + 1 <= RING_LIMIT,
{
    assert(PLACEMENT_LIMIT == 14335i32) by (bit_vector);
}

/// The slot is within `limit` of the origin on both axes.
pub open spec fn within(slot: (i32, i32), limit: int) -> bool {
    -limit <= slot.0 <= limit && -limit <= slot.1 <= limit
}

/// The Chebyshev distance between two slots.
pub open spec fn ring_distance(a: (i32, i32), b: (i32, i32)) -> int {
    let dx = if a.0 >= b.0 {
        a.0 - b.0
    } else {
        b.0 - a.0
    };
    let dy = if a.1 >= b.1 {
        a.1 - b.1
    } else {
        b.1 - a.1
    };
    if dx >= dy {
        dx
    } else {
        dy
    }
}

/// The top and bottom rows of the ring, for the first `k` columns from the left, column by
/// column, top before bottom.
pub open spec fn ring_rows(origin: (i32, i32), radius: int, k: int) -> Seq<(i32, i32)>
    decreases k,
{
    if k <= 0 {
        Seq::empty()
    } else {
        let x = origin.0 + (-radius + k - 1);
        ring_rows(origin, radius, k - 1) + seq![(x as i32, (origin.1 - radius) as i32), (x as i32, (origin.1 + radius) as i32)]
    }
}

/// The left and right sides of the ring without its corners, for the first `k` rows from the
/// top, row by row, left before right.
pub open spec fn ring_sides(origin: (i32, i32), radius: int, k: int) -> Seq<(i32, i32)>
    decreases k,
{
    if k <= 0 {
        Seq::empty()
    } else {
        let y = origin.1 + (-radius + k);
        ring_sides(origin, radius, k - 1) + seq![((origin.0 - radius) as i32, y as i32), ((origin.0 + radius) as i32, y as i32)]
    }
}

/// The slots at Chebyshev distance `radius` from `origin`: the origin itself for radius 0;
/// otherwise the top and bottom rows, then the two sides.
pub open spec fn ring(origin: (i32, i32), radius: int) -> Seq<(i32, i32)> {
    if radius == 0 {
        seq![origin]
    } else {
        ring_rows(origin, radius, 2 * radius + 1) + ring_sides(origin, radius, 2 * radius - 1)
    }
}

proof fn lemma_ring_rows(origin: (i32, i32), radius: int, k: int)
    requires
        within(origin, RING_LIMIT as int),
        1 <= radius <= RING_LIMIT,
        0 <= k <= 2 * radius + 1,
    ensures
        ring_rows(origin, radius, k).len() == 2 * k,
        forall|i: int|
            0 <= i < 2 * k ==> ring_distance(#[trigger] ring_rows(origin, radius, k)[i], origin)
                == radius,
    decreases k,
{
    if k > 0 {
        lemma_ring_rows(origin, radius, k - 1);
        let before = ring_rows(origin, radius, k - 1);
        let x = origin.0 + (-radius + k - 1);
        let extra = seq![(x as i32, (origin.1 - radius) as i32), (x as i32, (origin.1 + radius) as i32)];
        assert forall|i: int| 0 <= i < 2 * k implies ring_distance(
            #[trigger] ring_rows(origin, radius, k)[i],
            origin,
        ) == radius by {
            if i < 2 * (k - 1) {
                assert(ring_rows(origin, radius, k)[i] == before[i]);
            } else {
                assert(ring_rows(origin, radius, k)[i] == extra[i - 2 * (k - 1)]);
            }
        }
    }
}

proof fn lemma_ring_sides(origin: (i32, i32), radius: int, k: int)
    requires
        within(origin, RING_LIMIT as int),
        1 <= radius <= RING_LIMIT,
        0 <= k <= 2 * radius - 1,
    ensures
        ring_sides(origin, radius, k).len() == 2 * k,
        forall|i: int|
            0 <= i < 2 * k ==> ring_distance(#[trigger] ring_sides(origin, radius, k)[i], origin)
                == radius,
    decreases k,
{
    if k > 0 {
        lemma_ring_sides(origin, radius, k - 1);
        let before = ring_sides(origin, radius, k - 1);
        let y = origin.1 + (-radius + k);
        let extra = seq![((origin.0 - radius) as i32, y as i32), ((origin.0 + radius) as i32, y as i32)];
        assert forall|i: int| 0 <= i < 2 * k implies ring_distance(
            #[trigger] ring_sides(origin, radius, k)[i],
            origin,
        ) == radius by {
            if i < 2 * (k - 1) {
                assert(ring_sides(origin, radius, k)[i] == before[i]);
            } else {
                assert(ring_sides(origin, radius, k)[i] == extra[i - 2 * (k - 1)]);
            }
        }
    }
}

/// Every slot of the ring lies at its radius, and a ring of radius `r` has `8r` slots.
pub proof fn lemma_ring(origin: (i32, i32), radius: int)
    requires
        within(origin, RING_LIMIT as int),
        0 <= radius <= RING_LIMIT,
    ensures
        ring(origin, radius).len() == (if radius == 0 {
            1
        } else {
            8 * radius
        }),
        forall|i: int|
            0 <= i < ring(origin, radius).len() ==> ring_distance(
                #[trigger] ring(origin, radius)[i],
                origin,
            ) == radius,
{
    if radius > 0 {
        lemma_ring_rows(origin, radius, 2 * radius + 1);
        lemma_ring_sides(origin, radius, 2 * radius - 1);
        let rows = ring_rows(origin, radius, 2 * radius + 1);
        let sides = ring_sides(origin, radius, 2 * radius - 1);
        assert forall|i: int| 0 <= i < ring(origin, radius).len() implies ring_distance(
            #[trigger] ring(origin, radius)[i],
            origin,
        ) == radius by {
            if i < rows.len() {
                assert(ring(origin, radius)[i] == rows[i]);
            } else {
                assert(ring(origin, radius)[i] == sides[i - rows.len()]);
            }
        }
    }
}

/// The slots on the square ring of `radius` around `origin`.
pub fn square_ring(origin: (i32, i32), radius: i32) -> (slots: Vec<(i32, i32)>)
    requires
        within(origin, RING_LIMIT as int),
        0 <= radius <= RING_LIMIT,
    ensures
        slots@ == ring(origin, radius as int),
{
    if radius == 0 {
        let slots = vec![origin];
        assert(slots@ =~= seq![origin]);
        return slots;
    }
    let r = radius;
    let mut slots: Vec<(i32, i32)> = Vec::new();
    let mut x: i32 = -r;
    while x <= r
        invariant
            within(origin, RING_LIMIT as int),
            1 <= r <= RING_LIMIT,
            -r <= x <= r + 1,
            slots@ == ring_rows(origin, r as int, x + r),
        decreases r + 1 - x,
    {
        let ghost before = slots@;
        slots.push((origin.0 + x, origin.1 - r));
        slots.push((origin.0 + x, origin.1 + r));
        assert(slots@ =~= ring_rows(origin, r as int, x + r + 1));
        x += 1;
    }
    let ghost rows = slots@;
    let mut y: i32 = -r + 1;
    while y < r
        invariant
            within(origin, RING_LIMIT as int),
            1 <= r <= RING_LIMIT,
            -r + 1 <= y <= r,
            rows == ring_rows(origin, r as int, 2 * r + 1),
            slots@ == rows + ring_sides(origin, r as int, y + r - 1),
        decreases r - y,
    {
        slots.push((origin.0 - r, origin.1 + y));
        slots.push((origin.0 + r, origin.1 + y));
        assert(slots@ =~= rows + ring_sides(origin, r as int, y + r));
        y += 1;
    }
    slots
}

/// A ring slot with its squared distance from the ring's origin.
#[derive(Clone, Copy, Debug, PartialEq, Eq)]
pub struct RingSlot {
    pub slot: (i32, i32),
    pub distance: i32,
}

/// A signed coordinate as an unsigned number of the same order.
pub open spec fn order_code(v: i32) -> u64 {
    (v + 2147483648int) as u64
}

pub fn order_code_exec(v: i32) -> (code: u64)
    ensures
        code == order_code(v),
{
    (v as i64 + 2147483648i64) as u64
}

impl Keyed for RingSlot {
    /// Nearer slots first, then by row, then by column.
    open spec fn sort_key(&self) -> Seq<u64> {
        seq![order_code(self.distance), order_code(self.slot.1), order_code(self.slot.0)]
    }

    fn sort_key_exec(&self) -> (key: Vec<u64>) {
        let a = order_code_exec(self.distance);
        let b = order_code_exec(self.slot.1);
        let c = order_code_exec(self.slot.0);
        let key = vec![a, b, c];
        assert(key@ =~= seq![a, b, c]);
        key
    }
}

/// The squared distance between two slots.
pub open spec fn squared_distance(a: (i32, i32), b: (i32, i32)) -> int {
    (a.0 - b.0) * (a.0 - b.0) + (a.1 - b.1) * (a.1 - b.1)
}

/// The slots with their squared distances from `origin`.
pub open spec fn with_distances(slots: Seq<(i32, i32)>, origin: (i32, i32)) -> Seq<RingSlot> {
    slots.map_values(|s: (i32, i32)| RingSlot { slot: s, distance: squared_distance(s, origin) as i32 })
}

/// The slots of the ring ordered by (squared distance, row, column).
pub open spec fn ordered_ring(sorted: Seq<RingSlot>) -> Seq<(i32, i32)> {
    sorted.map_values(|s: RingSlot| s.slot)
}

proof fn lemma_squared_distance_bound(a: (i32, i32), b: (i32, i32), radius: int)
    requires
        ring_distance(a, b) <= radius,
        0 <= radius <= RING_LIMIT,
    ensures
        0 <= squared_distance(a, b) <= 2 * RING_LIMIT * RING_LIMIT,
        0 <= (a.0 - b.0) * (a.0 - b.0) <= RING_LIMIT * RING_LIMIT,
        0 <= (a.1 - b.1) * (a.1 - b.1) <= RING_LIMIT * RING_LIMIT,
{
    let dx = a.0 - b.0;
    let dy = a.1 - b.1;
    assert(dx * dx <= RING_LIMIT * RING_LIMIT) by (nonlinear_arith)
        requires
            -RING_LIMIT <= dx <= RING_LIMIT,
    ;
    assert(dy * dy <= RING_LIMIT * RING_LIMIT) by (nonlinear_arith)
        requires
            -RING_LIMIT <= dy <= RING_LIMIT,
    ;
    assert(0 <= dx * dx) by (nonlinear_arith);
    assert(0 <= dy * dy) by (nonlinear_arith);
}

/// The ring of `radius` around `origin`, nearest slots first, then by row, then by column.
pub fn ring_by_distance(origin: (i32, i32), radius: i32) -> (slots: Vec<(i32, i32)>)
    requires
        within(origin, RING_LIMIT as int),
        0 <= radius <= RING_LIMIT,
    ensures
        exists|sorted: Seq<RingSlot>|
            stably_sorted(with_distances(ring(origin, radius as int), origin), sorted) && slots@
                == #[trigger] ordered_ring(sorted),
        slots@.len() == ring(origin, radius as int).len(),
        forall|i: int| 0 <= i < slots@.len() ==> ring(origin, radius as int).contains(#[trigger] slots@[i]),
{
    let plain = square_ring(origin, radius);
    proof {
        lemma_ring(origin, radius as int);
    }
    let mut keyed: Vec<RingSlot> = Vec::new();
    for i in 0..plain.len()
        invariant
            plain@ == ring(origin, radius as int),
            within(origin, RING_LIMIT as int),
            0 <= radius <= RING_LIMIT,
            forall|t: int| 0 <= t < plain@.len() ==> ring_distance(#[trigger] plain@[t], origin) == radius,
            keyed@ == with_distances(plain@.take(i as int), origin),
    {
        let s = plain[i];
        proof {
            lemma_squared_distance_bound(s, origin, radius as int);
        }
        let dx = s.0 - origin.0;
        let dy = s.1 - origin.1;
        assert(dx * dx + dy * dy == squared_distance(s, origin));
        keyed.push(RingSlot { slot: s, distance: dx * dx + dy * dy });
        assert(keyed@ =~= with_distances(plain@.take(i + 1), origin));
    }
    assert(plain@.take(plain@.len() as int) =~= plain@);
    let ghost input = keyed@;
    let sorted = stable_sort(keyed);
    let mut slots: Vec<(i32, i32)> = Vec::new();
    for i in 0..sorted.len()
        invariant
            slots@ == ordered_ring(sorted@.take(i as int)),
    {
        slots.push(sorted[i].slot);
        assert(slots@ =~= ordered_ring(sorted@.take(i + 1)));
    }
    assert(sorted@.take(sorted@.len() as int) =~= sorted@);
    proof {
        assert forall|i: int| 0 <= i < slots@.len() implies ring(origin, radius as int).contains(
            #[trigger] slots@[i],
        ) by {
            lemma_sorted_members(input, sorted@, i);
            let j = choose|j: int| 0 <= j < input.len() && input[j] == sorted@[i];
            assert(input[j].slot == plain@[j]);
        }
    }
    slots
}

/// A set of occupied slots.
pub struct OccupiedSlots {
    slots: Vec<(i32, i32)>,
}

impl View for OccupiedSlots {
    type V = Set<(i32, i32)>;

    closed spec fn view(&self) -> Set<(i32, i32)> {
        self.slots@.to_set()
    }
}

impl OccupiedSlots {
    pub fn new() -> (occupied: Self)
        ensures
            occupied@ == Set::<(i32, i32)>::empty(),
    {
        let occupied = OccupiedSlots { slots: Vec::new() };
        assert(occupied@ =~= Set::<(i32, i32)>::empty());
        occupied
    }

    pub fn contains(&self, slot: (i32, i32)) -> (r: bool)
        ensures
            r == self@.contains(slot),
    {
        for i in 0..self.slots.len()
            invariant
                forall|k: int| 0 <= k < i ==> self.slots@[k] != slot,
        {
            let here = self.slots[i];
            if here.0 == slot.0 && here.1 == slot.1 {
                assert(self.slots@[i as int] == slot);
                return true;
            }
        }
        false
    }

    pub fn insert(&mut self, slot: (i32, i32))
        ensures
            final(self)@ == old(self)@.insert(slot),
    {
        if !self.contains(slot) {
            let ghost before = self.slots@;
            self.slots.push(slot);
            assert(self.slots@ =~= before.push(slot));
        }
        assert(self@ =~= old(self)@.insert(slot));
    }
}

/// The square block of slots within `radius` of `center` on both axes.
pub open spec fn block(center: (i32, i32), radius: int) -> Set<(i32, i32)> {
    Set::new(|p: (i32, i32)| ring_distance(p, center) <= radius)
}

/// No slot of the block is occupied.
pub open spec fn block_free(center: (i32, i32), radius: int, occupied: Set<(i32, i32)>) -> bool {
    forall|p: (i32, i32)| #[trigger] occupied.contains(p) ==> ring_distance(p, center) > radius
}

/// Whether the block of `radius` around `center` is free.
pub fn block_is_free(center: (i32, i32), radius: i32, occupied: &OccupiedSlots) -> (free: bool)
    requires
        within(center, 2 * RING_LIMIT),
        0 <= radius <= FOOTPRINT_LIMIT,
    ensures
        free == block_free(center, radius as int, occupied@),
{
    let mut dy: i32 = -radius;
    while dy <= radius
        invariant
            within(center, 2 * RING_LIMIT),
            0 <= radius <= FOOTPRINT_LIMIT,
            -radius <= dy <= radius + 1,
            forall|p: (i32, i32)|
                #[trigger] occupied@.contains(p) && ring_distance(p, center) <= radius ==> p.1 - center.1 >= dy,
        decreases radius + 1 - dy,
    {
        let mut dx: i32 = -radius;
        while dx <= radius
            invariant
                within(center, 2 * RING_LIMIT),
                0 <= radius <= FOOTPRINT_LIMIT,
                -radius <= dy <= radius,
                -radius <= dx <= radius + 1,
                forall|p: (i32, i32)|
                    #[trigger] occupied@.contains(p) && ring_distance(p, center) <= radius ==> p.1
                        - center.1 > dy || (p.1 - center.1 == dy && p.0 - center.0 >= dx),
            decreases radius + 1 - dx,
        {
            let probe: (i32, i32) = (center.0 + dx, center.1 + dy);
            if occupied.contains(probe) {
                assert(ring_distance(probe, center) <= radius);
                return false;
            }
            dx += 1;
        }
        dy += 1;
    }
    true
}

/// Marks every slot of the block of `radius` around `center` as occupied.
pub fn reserve_coarse_block(occupied: &mut OccupiedSlots, center: (i32, i32), radius: i32)
    requires
        within(center, 2 * RING_LIMIT),
        0 <= radius <= FOOTPRINT_LIMIT,
    ensures
        final(occupied)@ == old(occupied)@.union(block(center, radius as int)),
{
    let ghost start = occupied@;
    let mut dy: i32 = -radius;
    while dy <= radius
        invariant
            within(center, 2 * RING_LIMIT),
            0 <= radius <= FOOTPRINT_LIMIT,
            -radius <= dy <= radius + 1,
            occupied@ == start.union(
                Set::new(|p: (i32, i32)| ring_distance(p, center) <= radius && p.1 - center.1 < dy),
            ),
        decreases radius + 1 - dy,
    {
        let mut dx: i32 = -radius;
        while dx <= radius
            invariant
                within(center, 2 * RING_LIMIT),
                0 <= radius <= FOOTPRINT_LIMIT,
                -radius <= dy <= radius,
                -radius <= dx <= radius + 1,
                occupied@ == start.union(
                    Set::new(
                        |p: (i32, i32)|
                            ring_distance(p, center) <= radius && (p.1 - center.1 < dy || (p.1
                                - center.1 == dy && p.0 - center.0 < dx)),
                    ),
                ),
            decreases radius + 1 - dx,
        {
            let ghost before = occupied@;
            occupied.insert((center.0 + dx, center.1 + dy));
            assert(occupied@ =~= start.union(
                Set::new(
                    |p: (i32, i32)|
                        ring_distance(p, center) <= radius && (p.1 - center.1 < dy || (p.1
                            - center.1 == dy && p.0 - center.0 < dx + 1)),
                ),
            ));
            dx += 1;
        }
        assert(occupied@ =~= start.union(
            Set::new(|p: (i32, i32)| ring_distance(p, center) <= radius && p.1 - center.1 < dy + 1),
        ));
        dy += 1;
    }
    assert(occupied@ =~= start.union(block(center, radius as int)));
}


/// The largest cluster whose side is computed; beyond it the floating-point square root the
/// side stands for no longer rounds up exactly.
pub const SIDE_LIMIT: usize = 4194304;

/// The least `s` at or above `from` with `s * s >= n`.
pub open spec fn ceil_sqrt_from(n: nat, from: nat) -> nat
    decreases n - from,
{
    if from >= n || from * from >= n {
        from
    } else {
        ceil_sqrt_from(n, from + 1)
    }
}

/// The side of the smallest odd square of slots that holds `n` notes: the ceiling of the
/// square root of `n` (at least 1), made odd by adding one.
pub open spec fn compact_side(n: nat) -> int {
    let s = ceil_sqrt_from(n, 1);
    if s % 2 == 0 {
        s + 1int
    } else {
        s as int
    }
}

/// The least `s` at or above `from` with `s * s >= n` stays within 2048 when `n` is at most
/// [`SIDE_LIMIT`].
pub proof fn lemma_ceil_sqrt_bound(n: nat, from: nat)
    requires
        n <= SIDE_LIMIT,
        1 <= from <= 2048,
    ensures
        from <= ceil_sqrt_from(n, from) <= 2048,
    decreases n - from,
{
    if !(from >= n || from * from >= n) {
        assert(from < 2048) by (nonlinear_arith)
            requires
                1 <= from <= 2048,
                from * from < n,
                n <= 4194304,
        ;
        lemma_ceil_sqrt_bound(n, from + 1);
    }
}

/// The ceiling of the square root of `n`, and 1 when `n` is 0.
pub fn ceil_sqrt(n: usize) -> (root: usize)
    requires
        n <= SIDE_LIMIT,
    ensures
        root == ceil_sqrt_from(n as nat, 1),
        1 <= root <= 2048,
{
    proof {
        lemma_ceil_sqrt_bound(n as nat, 1);
    }
    let mut s: usize = 1;
    loop
        invariant
            1 <= s <= 2048,
            n <= SIDE_LIMIT,
            ceil_sqrt_from(n as nat, s as nat) == ceil_sqrt_from(n as nat, 1),
        ensures
            1 <= s <= 2048,
            s as nat == ceil_sqrt_from(n as nat, 1),
        decreases 2048 - s,
    {
        assert(s * s <= 4194304) by (nonlinear_arith)
            requires
                1 <= s <= 2048,
        ;
        if s >= n || s * s >= n {
            break;
        }
        assert(s < 2048) by (nonlinear_arith)
            requires
                1 <= s <= 2048,
                s * s < 4194304,
        ;
        s += 1;
    }
    s
}

/// The side of the square footprint of a cluster of `member_count` notes.
pub fn compact_side_length(member_count: usize) -> (side: i32)
    requires
        member_count <= SIDE_LIMIT,
    ensures
        side == compact_side(member_count as nat),
        1 <= side <= 2049,
{
    let side = ceil_sqrt(member_count) as i32;
    if side % 2 == 0 {
        side + 1
    } else {
        side
    }
}

/// The largest index that [`compact_offset`] places.
pub const COMPACT_LIMIT: usize = 4294705152;

/// `slot` is the one at `index` of the compact order: rings around the origin from radius 1
/// outwards, each ordered by (squared distance, row, column), `sorted` being the ordered ring
/// of `radius`.
pub open spec fn compact_position(index: int, radius: int, sorted: Seq<RingSlot>, slot: (i32, i32)) -> bool {
    &&& 1 <= radius <= RING_LIMIT
    &&& 4 * radius * (radius - 1) < index <= 4 * radius * (radius + 1)
    &&& stably_sorted(with_distances(ring((0i32, 0i32), radius), (0i32, 0i32)), sorted)
    &&& sorted.len() == 8 * radius
    &&& slot == sorted[index - 4 * radius * (radius - 1) - 1].slot
}

/// The offset of the `index`-th note from the center of a compact cluster: the center first,
/// then the slots of each ring outwards, nearest first.
pub fn compact_offset(index: usize) -> (offset: (i32, i32))
    requires
        index <= COMPACT_LIMIT,
    ensures
        index == 0 ==> offset == (0i32, 0i32),
        index > 0 ==> exists|radius: int, sorted: Seq<RingSlot>|
            #[trigger] compact_position(index as int, radius, sorted, offset),
{
    if index == 0 {
        return (0, 0);
    }
    let mut remaining: usize = index;
    let mut radius: i32 = 1;
    loop
        invariant
            1 <= radius <= RING_LIMIT,
            index <= COMPACT_LIMIT,
            1 <= remaining,
            remaining == index - 4 * radius * (radius - 1),
        decreases RING_LIMIT - radius,
    {
        let slots = ring_by_distance((0, 0), radius);
        proof {
            lemma_ring((0i32, 0i32), radius as int);
        }
        if remaining <= slots.len() {
            let ghost sorted = choose|sorted: Seq<RingSlot>|
                stably_sorted(with_distances(ring((0i32, 0i32), radius as int), (0i32, 0i32)), sorted)
                    && slots@ == #[trigger] ordered_ring(sorted);
            let offset = slots[remaining - 1];
            assert(sorted.len() == slots@.len());
            assert(ordered_ring(sorted)[remaining - 1] == sorted[remaining - 1].slot);
            assert(compact_position(index as int, radius as int, sorted, offset)) by {
                assert(4 * radius * (radius + 1) == 4 * radius * (radius - 1) + 8 * radius) by (nonlinear_arith);
            }
            return offset;
        }
        assert(4 * radius * (radius + 1) == 4 * radius * (radius - 1) + 8 * radius) by (nonlinear_arith);
        assert(radius < RING_LIMIT) by (nonlinear_arith)
            requires
                index > 4 * radius * (radius + 1),
                index <= 4 * 32767 * 32768,
                1 <= radius,
        ;
        remaining -= slots.len();
        radius += 1;
        assert(4 * radius * (radius - 1) == 4 * (radius - 1) * ((radius - 1) + 1)) by (nonlinear_arith);
    }
}

/// `slot` is the nearest free block center around `desired`: `sorted` orders the ring of
/// `radius`, `slot` is its first entry whose block is free, and no block on a smaller ring is
/// free.
pub open spec fn nearest_choice(
    desired: (i32, i32),
    occupied: Set<(i32, i32)>,
    footprint: int,
    radius: int,
    sorted: Seq<RingSlot>,
    slot: (i32, i32),
) -> bool {
    &&& 0 <= radius <= RING_LIMIT
    &&& stably_sorted(with_distances(ring(desired, radius), desired), sorted)
    &&& exists|j: int|
        0 <= j < sorted.len() && #[trigger] sorted[j].slot == slot && forall|k: int|
            0 <= k < j ==> !block_free((#[trigger] sorted[k]).slot, footprint, occupied)
    &&& forall|r: int, k: int|
        0 <= r < radius && 0 <= k < ring(desired, r).len() ==> !block_free(
            #[trigger] ring(desired, r)[k],
            footprint,
            occupied,
        )
}

proof fn lemma_far_block_is_free(
    desired: (i32, i32),
    occupied: Set<(i32, i32)>,
    footprint: int,
    center: (i32, i32),
)
    requires
        within(desired, PLACEMENT_LIMIT as int),
        forall|p: (i32, i32)| #[trigger] occupied.contains(p) ==> within(p, PLACEMENT_LIMIT as int),
        0 <= footprint,
        ring_distance(center, desired) == 2 * PLACEMENT_LIMIT + footprint + 1,
    ensures
        block_free(center, footprint, occupied),
{
    lemma_placement_limit();
}

/// The center nearest `desired` whose block of `footprint_radius` is free: rings outwards,
/// each nearest first.
pub fn nearest_free_coarse_block(desired: (i32, i32), occupied: &OccupiedSlots, footprint_radius: i32) -> (slot: (i32, i32))
    requires
        within(desired, PLACEMENT_LIMIT as int),
        forall|p: (i32, i32)| #[trigger] occupied@.contains(p) ==> within(p, PLACEMENT_LIMIT as int),
        0 <= footprint_radius <= FOOTPRINT_LIMIT,
    ensures
        block_free(slot, footprint_radius as int, occupied@),
        exists|radius: int, sorted: Seq<RingSlot>|
            #[trigger] nearest_choice(desired, occupied@, footprint_radius as int, radius, sorted, slot),
{
    proof {
        lemma_placement_limit();
    }
    let far: i32 = 2 * PLACEMENT_LIMIT + footprint_radius + 1;
    let mut radius: i32 = 0;
    loop
        invariant
            within(desired, PLACEMENT_LIMIT as int),
            forall|p: (i32, i32)| #[trigger] occupied@.contains(p) ==> within(p, PLACEMENT_LIMIT as int),
            0 <= footprint_radius <= FOOTPRINT_LIMIT,
            far == 2 * PLACEMENT_LIMIT + footprint_radius + 1,
            PLACEMENT_LIMIT == 14335,
            0 <= radius <= far,
            forall|r: int, k: int|
                0 <= r < radius && 0 <= k < ring(desired, r).len() ==> !block_free(
                    #[trigger] ring(desired, r)[k],
                    footprint_radius as int,
                    occupied@,
                ),
        decreases far - radius,
    {
        let slots = ring_by_distance(desired, radius);
        proof {
            lemma_ring(desired, radius as int);
        }
        let ghost sorted = choose|sorted: Seq<RingSlot>|
            stably_sorted(with_distances(ring(desired, radius as int), desired), sorted) && slots@
                == #[trigger] ordered_ring(sorted);
        let mut j: usize = 0;
        while j < slots.len()
            invariant
                within(desired, PLACEMENT_LIMIT as int),
                0 <= footprint_radius <= FOOTPRINT_LIMIT,
                0 <= radius <= far,
                far == 2 * PLACEMENT_LIMIT + footprint_radius + 1,
                PLACEMENT_LIMIT == 14335,
                j <= slots@.len(),
                forall|p: (i32, i32)| #[trigger] occupied@.contains(p) ==> within(p, PLACEMENT_LIMIT as int),
                forall|r: int, k: int|
                    0 <= r < radius && 0 <= k < ring(desired, r).len() ==> !block_free(
                        #[trigger] ring(desired, r)[k],
                        footprint_radius as int,
                        occupied@,
                    ),
                stably_sorted(with_distances(ring(desired, radius as int), desired), sorted),
                slots@ == ordered_ring(sorted),
                slots@.len() == sorted.len(),
                forall|i: int| 0 <= i < slots@.len() ==> ring(desired, radius as int).contains(#[trigger] slots@[i]),
                forall|i: int|
                    0 <= i < ring(desired, radius as int).len() ==> ring_distance(
                        #[trigger] ring(desired, radius as int)[i],
                        desired,
                    ) == radius,
                forall|k: int| 0 <= k < j ==> !block_free((#[trigger] sorted[k]).slot, footprint_radius as int, occupied@),
            decreases slots@.len() - j,
        {
            let candidate = slots[j];
            assert(ordered_ring(sorted)[j as int] == sorted[j as int].slot);
            assert(ring(desired, radius as int).contains(candidate));
            let free = block_is_free(candidate, footprint_radius, occupied);
            if free {
                assert(sorted[j as int].slot == candidate);
                assert(nearest_choice(desired, occupied@, footprint_radius as int, radius as int, sorted, candidate));
                return candidate;
            }
            j += 1;
        }
        proof {
            assert forall|k: int| 0 <= k < ring(desired, radius as int).len() implies !block_free(
                #[trigger] ring(desired, radius as int)[k],
                footprint_radius as int,
                occupied@,
            ) by {
                let input = with_distances(ring(desired, radius as int), desired);
                lemma_sorted_keeps(input, sorted, k);
                let m = choose|m: int| 0 <= m < sorted.len() && sorted[m] == input[k];
                assert(sorted[m].slot == ring(desired, radius as int)[k]);
            }
            if radius == far {
                let first = ring(desired, radius as int)[0];
                lemma_far_block_is_free(desired, occupied@, footprint_radius as int, first);
                assert(false);
            }
        }
        radius += 1;
    }
}

/// The nearest free slot around `desired`.
pub fn nearest_free_coarse_slot(desired: (i32, i32), occupied: &OccupiedSlots) -> (slot: (i32, i32))
    requires
        within(desired, PLACEMENT_LIMIT as int),
        forall|p: (i32, i32)| #[trigger] occupied@.contains(p) ==> within(p, PLACEMENT_LIMIT as int),
    ensures
        !occupied@.contains(slot),
        exists|radius: int, sorted: Seq<RingSlot>|
            #[trigger] nearest_choice(desired, occupied@, 0, radius, sorted, slot),
{
    let slot = nearest_free_coarse_block(desired, occupied, 0);
    proof {
        if occupied@.contains(slot) {
            assert(ring_distance(slot, slot) == 0);
        }
    }
    slot
}


/// A compact offset lies on its ring: at Chebyshev distance `radius` from the center.
pub proof fn law_compact_offset_on_its_ring(index: int, radius: int, sorted: Seq<RingSlot>, slot: (i32, i32))
    requires
        compact_position(index, radius, sorted, slot),
    ensures
        ring_distance(slot, (0i32, 0i32)) == radius,
{
    let input = with_distances(ring((0i32, 0i32), radius), (0i32, 0i32));
    let p = index - 4 * radius * (radius - 1) - 1;
    assert(0 <= p < sorted.len()) by (nonlinear_arith)
        requires
            4 * radius * (radius - 1) < index <= 4 * radius * (radius + 1),
            sorted.len() == 8 * radius,
            p == index - 4 * radius * (radius - 1) - 1,
    ;
    lemma_sorted_members(input, sorted, p);
    let j = choose|j: int| 0 <= j < input.len() && input[j] == sorted[p];
    lemma_ring((0i32, 0i32), radius);
    assert(input[j].slot == ring((0i32, 0i32), radius)[j]);
}

/// Offsets of indices on different rings differ, and only index 0 is the center.
pub proof fn law_compact_offsets_on_different_rings_differ(
    i: int,
    ri: int,
    si: Seq<RingSlot>,
    a: (i32, i32),
    j: int,
    rj: int,
    sj: Seq<RingSlot>,
    b: (i32, i32),
)
    requires
        compact_position(i, ri, si, a),
        compact_position(j, rj, sj, b),
        ri != rj,
    ensures
        a != b,
        a != (0i32, 0i32),
{
    law_compact_offset_on_its_ring(i, ri, si, a);
    law_compact_offset_on_its_ring(j, rj, sj, b);
}


proof fn lemma_ring_rows_shape(origin: (i32, i32), radius: int, k: int)
    requires
        within(origin, RING_LIMIT as int),
        1 <= radius <= RING_LIMIT,
        0 <= k <= 2 * radius + 1,
    ensures
        ring_rows(origin, radius, k).no_duplicates(),
        forall|i: int|
            0 <= i < ring_rows(origin, radius, k).len() ==> {
                let p = #[trigger] ring_rows(origin, radius, k)[i];
                &&& origin.0 - radius <= p.0 < origin.0 - radius + k
                &&& (p.1 == origin.1 - radius || p.1 == origin.1 + radius)
            },
    decreases k,
{
    lemma_ring_rows(origin, radius, k);
    if k > 0 {
        lemma_ring_rows_shape(origin, radius, k - 1);
        let before = ring_rows(origin, radius, k - 1);
        let all = ring_rows(origin, radius, k);
        assert forall|i: int| 0 <= i < all.len() implies {
            let p = #[trigger] all[i];
            &&& origin.0 - radius <= p.0 < origin.0 - radius + k
            &&& (p.1 == origin.1 - radius || p.1 == origin.1 + radius)
        } by {
            if i < before.len() {
                assert(all[i] == before[i]);
            }
        }
        assert forall|i: int, j: int| 0 <= i < all.len() && 0 <= j < all.len() && i != j implies all[i] != all[j] by {
            if i < before.len() && j < before.len() {
                assert(all[i] == before[i] && all[j] == before[j]);
            } else if i < before.len() {
                assert(all[i] == before[i]);
            } else if j < before.len() {
                assert(all[j] == before[j]);
            }
        }
    }
}

proof fn lemma_ring_sides_shape(origin: (i32, i32), radius: int, k: int)
    requires
        within(origin, RING_LIMIT as int),
        1 <= radius <= RING_LIMIT,
        0 <= k <= 2 * radius - 1,
    ensures
        ring_sides(origin, radius, k).no_duplicates(),
        forall|i: int|
            0 <= i < ring_sides(origin, radius, k).len() ==> {
                let p = #[trigger] ring_sides(origin, radius, k)[i];
                &&& origin.1 - radius < p.1 <= origin.1 - radius + k
                &&& (p.0 == origin.0 - radius || p.0 == origin.0 + radius)
            },
    decreases k,
{
    lemma_ring_sides(origin, radius, k);
    if k > 0 {
        lemma_ring_sides_shape(origin, radius, k - 1);
        let before = ring_sides(origin, radius, k - 1);
        let all = ring_sides(origin, radius, k);
        assert forall|i: int| 0 <= i < all.len() implies {
            let p = #[trigger] all[i];
            &&& origin.1 - radius < p.1 <= origin.1 - radius + k
            &&& (p.0 == origin.0 - radius || p.0 == origin.0 + radius)
        } by {
            if i < before.len() {
                assert(all[i] == before[i]);
            }
        }
        assert forall|i: int, j: int| 0 <= i < all.len() && 0 <= j < all.len() && i != j implies all[i] != all[j] by {
            if i < before.len() && j < before.len() {
                assert(all[i] == before[i] && all[j] == before[j]);
            } else if i < before.len() {
                assert(all[i] == before[i]);
            } else if j < before.len() {
                assert(all[j] == before[j]);
            }
        }
    }
}

/// A ring holds each of its slots once.
pub proof fn lemma_ring_no_duplicates(origin: (i32, i32), radius: int)
    requires
        within(origin, RING_LIMIT as int),
        0 <= radius <= RING_LIMIT,
    ensures
        ring(origin, radius).no_duplicates(),
{
    if radius > 0 {
        lemma_ring_rows_shape(origin, radius, 2 * radius + 1);
        lemma_ring_sides_shape(origin, radius, 2 * radius - 1);
        let rows = ring_rows(origin, radius, 2 * radius + 1);
        let sides = ring_sides(origin, radius, 2 * radius - 1);
        let all = ring(origin, radius);
        assert forall|i: int, j: int| 0 <= i < all.len() && 0 <= j < all.len() && i != j implies all[i] != all[j] by {
            if i < rows.len() && j < rows.len() {
                assert(all[i] == rows[i] && all[j] == rows[j]);
            } else if i >= rows.len() && j >= rows.len() {
                assert(all[i] == sides[i - rows.len()] && all[j] == sides[j - rows.len()]);
            } else if i < rows.len() {
                assert(all[i] == rows[i] && all[j] == sides[j - rows.len()]);
            } else {
                assert(all[j] == rows[j] && all[i] == sides[i - rows.len()]);
            }
        }
    }
}

proof fn lemma_ring_keys_distinct(origin: (i32, i32), radius: int)
    requires
        within(origin, RING_LIMIT as int),
        0 <= radius <= RING_LIMIT,
    ensures
        distinct_keys(with_distances(ring(origin, radius), origin)),
{
    lemma_ring_no_duplicates(origin, radius);
    let s = with_distances(ring(origin, radius), origin);
    assert forall|i: int, j: int| 0 <= i < j < s.len() implies !key_eq(
        (#[trigger] s[i]).sort_key(),
        (#[trigger] s[j]).sort_key(),
    ) by {
        let (a, b) = (s[i].sort_key(), s[j].sort_key());
        if key_eq(a, b) {
            crate::sort::lemma_key_eq_equal(a, b);
            assert(a[1] == b[1]);
            assert(a[2] == b[2]);
            assert(s[i].slot == ring(origin, radius)[i]);
            assert(s[j].slot == ring(origin, radius)[j]);
        }
    }
}

/// Different indices have different compact offsets.
pub proof fn law_compact_offsets_differ(
    i: int,
    ri: int,
    si: Seq<RingSlot>,
    a: (i32, i32),
    j: int,
    rj: int,
    sj: Seq<RingSlot>,
    b: (i32, i32),
)
    requires
        compact_position(i, ri, si, a),
        compact_position(j, rj, sj, b),
        i != j,
    ensures
        a != b,
{
    if ri != rj {
        law_compact_offsets_on_different_rings_differ(i, ri, si, a, j, rj, sj, b);
    } else {
        let input = with_distances(ring((0i32, 0i32), ri), (0i32, 0i32));
        lemma_ring((0i32, 0i32), ri);
        lemma_ring_keys_distinct((0i32, 0i32), ri);
        lemma_stable_sort_unique(input, si, sj);
        let pi = i - 4 * ri * (ri - 1) - 1;
        let pj = j - 4 * ri * (ri - 1) - 1;
        assert(0 <= pi < si.len() && 0 <= pj < si.len()) by (nonlinear_arith)
            requires
                4 * ri * (ri - 1) < i <= 4 * ri * (ri + 1),
                4 * ri * (ri - 1) < j <= 4 * ri * (ri + 1),
                si.len() == 8 * ri,
                pi == i - 4 * ri * (ri - 1) - 1,
                pj == j - 4 * ri * (ri - 1) - 1,
        ;
        if a == b {
            lemma_sorted_members(input, si, pi);
            lemma_sorted_members(input, si, pj);
            let x = choose|k: int| 0 <= k < input.len() && input[k] == si[pi];
            let y = choose|k: int| 0 <= k < input.len() && input[k] == si[pj];
            assert(input[x].distance == squared_distance(input[x].slot, (0i32, 0i32)) as i32);
            assert(input[y].distance == squared_distance(input[y].slot, (0i32, 0i32)) as i32);
            assert(si[pi] == si[pj]);
            if pi < pj {
                lemma_sorted_once(input, si, pi, pj);
            } else {
                lemma_sorted_once(input, si, pj, pi);
            }
        }
    }
}


proof fn lemma_ring_rows_at(origin: (i32, i32), radius: int, k: int, m: int)
    requires
        within(origin, RING_LIMIT as int),
        1 <= radius <= RING_LIMIT,
        0 <= m < k <= 2 * radius + 1,
    ensures
        ring_rows(origin, radius, k)[2 * m] == ((origin.0 - radius + m) as i32, (origin.1 - radius) as i32),
        ring_rows(origin, radius, k)[2 * m + 1] == ((origin.0 - radius + m) as i32, (origin.1 + radius) as i32),
    decreases k,
{
    lemma_ring_rows(origin, radius, k - 1);
    if m < k - 1 {
        lemma_ring_rows_at(origin, radius, k - 1, m);
    }
}

proof fn lemma_ring_sides_at(origin: (i32, i32), radius: int, k: int, m: int)
    requires
        within(origin, RING_LIMIT as int),
        1 <= radius <= RING_LIMIT,
        0 <= m < k <= 2 * radius - 1,
    ensures
        ring_sides(origin, radius, k)[2 * m] == ((origin.0 - radius) as i32, (origin.1 - radius + 1 + m) as i32),
        ring_sides(origin, radius, k)[2 * m + 1] == ((origin.0 + radius) as i32, (origin.1 - radius + 1 + m) as i32),
    decreases k,
{
    lemma_ring_sides(origin, radius, k - 1);
    if m < k - 1 {
        lemma_ring_sides_at(origin, radius, k - 1, m);
    }
}

/// Every slot at Chebyshev distance `radius` from `origin` is on the ring.
pub proof fn lemma_ring_complete(origin: (i32, i32), radius: int, p: (i32, i32))
    requires
        within(origin, RING_LIMIT as int),
        0 <= radius <= RING_LIMIT,
        ring_distance(p, origin) == radius,
    ensures
        ring(origin, radius).contains(p),
{
    if radius == 0 {
        assert(ring(origin, 0)[0] == p);
    } else {
        lemma_ring(origin, radius);
        lemma_ring_rows(origin, radius, 2 * radius + 1);
        lemma_ring_sides(origin, radius, 2 * radius - 1);
        let rows = ring_rows(origin, radius, 2 * radius + 1);
        let sides = ring_sides(origin, radius, 2 * radius - 1);
        let all = ring(origin, radius);
        if p.1 == origin.1 - radius || p.1 == origin.1 + radius {
            let m = p.0 - origin.0 + radius;
            lemma_ring_rows_at(origin, radius, 2 * radius + 1, m);
            if p.1 == origin.1 - radius {
                assert(all[2 * m] == rows[2 * m]);
                assert(all[2 * m] == p);
            } else {
                assert(all[2 * m + 1] == rows[2 * m + 1]);
                assert(all[2 * m + 1] == p);
            }
        } else {
            let m = p.1 - origin.1 + radius - 1;
            lemma_ring_sides_at(origin, radius, 2 * radius - 1, m);
            if p.0 == origin.0 - radius {
                assert(all[rows.len() + 2 * m] == sides[2 * m]);
                assert(all[rows.len() + 2 * m] == p);
            } else {
                assert(all[rows.len() + 2 * m + 1] == sides[2 * m + 1]);
                assert(all[rows.len() + 2 * m + 1] == p);
            }
        }
    }
}

/// No block closer to `desired` than the chosen one is free: the choice is nearest in
/// Chebyshev distance.
pub proof fn law_nearest_block_is_nearest(
    desired: (i32, i32),
    occupied: Set<(i32, i32)>,
    footprint: int,
    radius: int,
    sorted: Seq<RingSlot>,
    slot: (i32, i32),
    p: (i32, i32),
)
    requires
        within(desired, PLACEMENT_LIMIT as int),
        nearest_choice(desired, occupied, footprint, radius, sorted, slot),
        ring_distance(p, desired) < radius,
    ensures
        !block_free(p, footprint, occupied),
{
    lemma_placement_limit();
    let r = ring_distance(p, desired);
    lemma_ring_complete(desired, r, p);
    let k = choose|k: int| 0 <= k < ring(desired, r).len() && ring(desired, r)[k] == p;
    assert(!block_free(ring(desired, r)[k], footprint, occupied));
}

} // verus!
