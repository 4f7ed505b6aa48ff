use atlas::jobs::{is_current_generation, retained_selection, ScanGenerations};
use atlas::vault::{NoteId, NoteRecord, VaultIndex};

fn record(path: &str, title: &str) -> NoteRecord {
    NoteRecord {
        id: NoteId(path.to_owned()),
        relative_path: path.to_owned(),
        title: title.to_owned(),
        markdown_body: String::new(),
        aliases: Vec::new(),
        tags: Vec::new(),
        references: Vec::new(),
        backlinks: Vec::new(),
        citations: Vec::new(),
        diagnostics: Vec::new(),
    }
}

#[test]
fn superseded_scan_generations_are_rejected() {
    assert!(is_current_generation(4, 4));
    assert!(!is_current_generation(5, 4));
}

#[test]
fn same_vault_selection_is_kept_only_while_the_note_exists() {
    let note_id = NoteId("kept.md".to_owned());
    let index = VaultIndex {
        root: String::new(),
        notes: vec![record("kept.md", "kept")],
        diagnostics: Vec::new(),
        scan_duration_micros: 0,
    };
    assert_eq!(
        retained_selection(Some(note_id.clone()), &index, true),
        Some(note_id.clone())
    );
    assert_eq!(
        retained_selection(Some(NoteId("deleted.md".to_owned())), &index, true),
        None
    );
    assert_eq!(retained_selection(Some(note_id), &index, false), None);
}

#[test]
fn a_cancelled_scan_result_is_not_taken() {
    let mut generations = ScanGenerations { current: 0 };
    let started = generations.start();
    assert_eq!(started, 1);
    assert!(generations.accepts(started));
    generations.cancel();
    assert!(!generations.accepts(started));
    assert!(generations.accepts(2));
}

#[test]
fn generations_wrap_at_the_end_of_the_range() {
    let mut generations = ScanGenerations { current: u64::MAX };
    assert_eq!(generations.start(), 0);
    assert!(!generations.accepts(u64::MAX));
}
