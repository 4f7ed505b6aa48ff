use atlas::board::rows::{isotonic_blocks, pack_rows, IsotonicBlock, RowItem};
use atlas::vault::{NoteId, NoteRecord};

fn note(name: &str) -> NoteRecord {
    let path = format!("{name}.md");
    NoteRecord {
        id: NoteId(path.clone()),
        relative_path: path,
        title: name.to_owned(),
        markdown_body: String::new(),
        aliases: Vec::new(),
        tags: Vec::new(),
        references: Vec::new(),
        backlinks: Vec::new(),
        citations: Vec::new(),
        diagnostics: Vec::new(),
    }
}

fn item(note: usize, column: i32, weight: u64) -> RowItem {
    RowItem {
        note,
        column,
        weight,
        name_rank: note,
    }
}

#[test]
fn crowded_slots_spread_evenly_around_their_column() {
    let notes = vec![note("a"), note("b"), note("c")];
    let packed = pack_rows(&notes, &vec![(0, 0); 3], &vec![false; 3]);
    assert_eq!(packed, vec![(-1, 0), (0, 0), (1, 0)]);
}

#[test]
fn halves_round_away_from_zero() {
    let notes = vec![note("a"), note("b")];
    let packed = pack_rows(&notes, &vec![(0, 4); 2], &vec![false; 2]);
    // The mean target is -1/2, which rounds to -1.
    assert_eq!(packed, vec![(-1, 4), (0, 4)]);
}

#[test]
fn kept_notes_hold_their_column() {
    let notes = vec![note("b"), note("a")];
    let packed = pack_rows(&notes, &vec![(5, 2), (5, 2)], &vec![true, false]);
    // The kept note weighs 32 and goes first; the mean target 164/33 rounds to 5.
    assert_eq!(packed, vec![(5, 2), (6, 2)]);
}

#[test]
fn notes_already_apart_keep_their_slots() {
    let notes = vec![note("a"), note("b"), note("c")];
    let desired = vec![(0, 0), (10, 0), (3, 1)];
    assert_eq!(pack_rows(&notes, &desired, &vec![false; 3]), desired);
}

#[test]
fn the_layout_order_of_notes_breaks_column_ties() {
    let notes = vec![note("zeta"), note("Alpha"), note("beta")];
    let packed = pack_rows(&notes, &vec![(7, 0); 3], &vec![false; 3]);
    // "alpha" < "beta" < "zeta" once lower-cased.
    assert_eq!(packed, vec![(8, 0), (6, 0), (7, 0)]);
}

#[test]
fn packed_rows_never_share_a_slot() {
    let notes: Vec<NoteRecord> = (0..100).map(|index| note(&format!("Note {index:04}"))).collect();
    let desired: Vec<(i32, i32)> = (0..100).map(|index| ((index % 10) as i32, (index / 50) as i32)).collect();
    let packed = pack_rows(&notes, &desired, &vec![false; 100]);
    for (index, slot) in packed.iter().enumerate() {
        for other in packed.iter().skip(index + 1) {
            assert_ne!(slot, other);
        }
    }
}

#[test]
fn isotonic_blocks_merge_falling_targets() {
    let items = vec![item(0, 0, 1), item(1, 0, 1), item(2, 0, 1)];
    assert_eq!(
        isotonic_blocks(&items),
        vec![IsotonicBlock {
            start: 0,
            end: 3,
            weight: 3,
            weighted_sum: -3
        }]
    );
}

#[test]
fn isotonic_blocks_keep_rising_targets_apart() {
    let items = vec![item(0, 0, 1), item(1, 5, 32)];
    assert_eq!(
        isotonic_blocks(&items),
        vec![
            IsotonicBlock {
                start: 0,
                end: 1,
                weight: 1,
                weighted_sum: 0
            },
            IsotonicBlock {
                start: 1,
                end: 2,
                weight: 32,
                weighted_sum: 128
            },
        ]
    );
}
