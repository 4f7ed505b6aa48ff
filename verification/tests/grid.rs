use std::collections::HashSet;

use atlas::board::grid::{
    block_is_free, compact_offset, compact_side_length, nearest_free_coarse_block,
    nearest_free_coarse_slot, reserve_coarse_block, ring_by_distance, square_ring, OccupiedSlots,
};
use atlas::board::MAX_CONNECTIVITY_PASSES;

#[test]
fn compact_offsets_do_not_repeat() {
    let offsets: HashSet<_> = (0..1_000).map(compact_offset).collect();
    assert_eq!(offsets.len(), 1_000);
}

#[test]
fn connectivity_refinement_is_bounded() {
    assert_eq!(MAX_CONNECTIVITY_PASSES, 32);
}

#[test]
fn shelf_footprints_match_center_out_note_packing() {
    assert_eq!(compact_side_length(1), 1);
    assert_eq!(compact_side_length(9), 3);
    assert_eq!(compact_side_length(10), 5);
    assert_eq!(compact_side_length(64), 9);
    assert_eq!(compact_side_length(100), 11);
}

#[test]
fn nearest_free_block_skips_a_reserved_footprint() {
    let mut occupied = OccupiedSlots::new();
    reserve_coarse_block(&mut occupied, (0, 0), 2);

    let slot = nearest_free_coarse_block((0, 0), &occupied, 1);
    assert!(!occupied.contains(slot));
    for dy in -1..=1 {
        for dx in -1..=1 {
            assert!(!occupied.contains((slot.0 + dx, slot.1 + dy)));
        }
    }
}

#[test]
fn the_first_compact_offsets_circle_the_center() {
    assert_eq!(compact_offset(0), (0, 0));
    assert_eq!(compact_offset(1), (0, -1));
    assert_eq!(compact_offset(2), (-1, 0));
    assert_eq!(compact_offset(3), (1, 0));
    assert_eq!(compact_offset(4), (0, 1));
    assert_eq!(compact_offset(5), (-1, -1));
    assert_eq!(compact_offset(9), (0, -2));
}

#[test]
fn rings_hold_every_slot_at_their_radius_once() {
    assert_eq!(square_ring((3, 4), 0), vec![(3, 4)]);
    let ring = square_ring((0, 0), 2);
    assert_eq!(ring.len(), 16);
    let distinct: HashSet<_> = ring.iter().copied().collect();
    assert_eq!(distinct.len(), 16);
    assert!(ring.iter().all(|slot| slot.0.abs().max(slot.1.abs()) == 2));
    let ordered = ring_by_distance((0, 0), 1);
    assert_eq!(
        ordered,
        vec![(0, -1), (-1, 0), (1, 0), (0, 1), (-1, -1), (1, -1), (-1, 1), (1, 1)]
    );
}

#[test]
fn free_slots_and_blocks() {
    let mut occupied = OccupiedSlots::new();
    assert!(block_is_free((0, 0), 3, &occupied));
    assert_eq!(nearest_free_coarse_slot((5, 5), &occupied), (5, 5));
    occupied.insert((5, 5));
    assert!(!block_is_free((4, 4), 1, &occupied));
    assert!(block_is_free((7, 7), 1, &occupied));
    assert_eq!(nearest_free_coarse_slot((5, 5), &occupied), (5, 4));
}

#[test]
fn compact_sides_are_odd() {
    assert_eq!(compact_side_length(0), 1);
    assert_eq!(compact_side_length(2), 3);
    assert_eq!(compact_side_length(4), 3);
    assert_eq!(compact_side_length(26), 7);
}
