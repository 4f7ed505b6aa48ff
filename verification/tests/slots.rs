use atlas::board::slots::spread_shared_anchors;
use atlas::board::tags::{normalized_tags, TagEntry};
use atlas::vault::{NoteId, NoteRecord};

fn note(name: &str, tags: &[&str], references: &[&str]) -> NoteRecord {
    let path = format!("{name}.md");
    NoteRecord {
        id: NoteId(path.clone()),
        relative_path: path,
        title: name.to_owned(),
        markdown_body: String::new(),
        aliases: Vec::new(),
        tags: tags.iter().map(|tag| (*tag).to_owned()).collect(),
        references: references.iter().map(|r| NoteId(format!("{r}.md"))).collect(),
        backlinks: Vec::new(),
        citations: Vec::new(),
        diagnostics: Vec::new(),
    }
}

fn tags_of(notes: &[NoteRecord]) -> Vec<Vec<TagEntry>> {
    notes.iter().map(normalized_tags).collect()
}

#[test]
fn notes_alone_on_their_slot_keep_it() {
    let notes = vec![note("a", &["x"], &[]), note("b", &["y"], &[])];
    let desired = vec![(0, 0), (3, -2)];
    let spread = spread_shared_anchors(&notes, &tags_of(&notes), &desired, &vec![false, false]);
    assert_eq!(spread, desired);
}

#[test]
fn shared_slots_spread_by_tags_then_links_then_name() {
    let notes = vec![
        note("c", &["x"], &[]),
        note("a", &["x"], &[]),
        note("b", &["x"], &["a"]),
        note("d", &["x", "y"], &[]),
    ];
    let desired = vec![(5, 5); 4];
    let spread = spread_shared_anchors(&notes, &tags_of(&notes), &desired, &vec![false; 4]);
    // "d" has two tags, "b" a reference, then "a" before "c" by name.
    assert_eq!(spread, vec![(6, 5), (4, 5), (5, 4), (5, 5)]);
}

#[test]
fn a_kept_note_holds_the_shared_slot() {
    let notes = vec![note("a", &["x"], &[]), note("b", &["x"], &[]), note("c", &["x"], &[])];
    let desired = vec![(0, 0); 3];
    let unchanged = vec![false, true, false];
    let spread = spread_shared_anchors(&notes, &tags_of(&notes), &desired, &unchanged);
    assert_eq!(spread, vec![(0, -1), (0, 0), (-1, 0)]);
}

#[test]
fn kept_notes_never_move() {
    let notes = vec![note("a", &[], &[]), note("b", &[], &[])];
    let desired = vec![(2, 2), (2, 2)];
    let spread = spread_shared_anchors(&notes, &tags_of(&notes), &desired, &vec![true, true]);
    assert_eq!(spread, desired);
}
