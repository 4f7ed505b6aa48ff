use atlas::board::{board_links, note_title, related_note_ids, BoardOutput, SelectionRequest};
use atlas::vault::{NoteId, NoteRecord, VaultIndex};

fn note(name: &str) -> NoteRecord {
    let path = format!("{name}.md");
    NoteRecord {
        id: NoteId(path.clone()),
        relative_path: path,
        title: name.to_owned(),
        markdown_body: format!("# {name}\n\nBody for {name}."),
        aliases: Vec::new(),
        tags: Vec::new(),
        references: Vec::new(),
        backlinks: Vec::new(),
        citations: Vec::new(),
        diagnostics: Vec::new(),
    }
}

#[test]
fn isolation_keeps_only_direct_note_relationships() {
    let mut selected = note("Selected");
    selected.references.push(NoteId("Reference.md".to_owned()));
    selected.backlinks.push(NoteId("Backlink.md".to_owned()));
    let related = related_note_ids(&selected);
    assert!(related.contains(&selected.id));
    assert!(related.contains(&NoteId("Reference.md".to_owned())));
    assert!(related.contains(&NoteId("Backlink.md".to_owned())));
    assert!(!related.contains(&NoteId("Unrelated.md".to_owned())));
}

#[test]
fn clicking_the_selected_note_requests_deselection() {
    let selected = note("Selected");
    let selected_id = selected.id.clone();

    assert!(matches!(
        SelectionRequest::toggled(Some(selected_id.clone()), Some(&selected_id)),
        SelectionRequest::Clear
    ));
    assert!(matches!(
        SelectionRequest::toggled(Some(selected_id.clone()), None),
        SelectionRequest::Select(id) if id == selected_id
    ));
}

#[test]
fn clicking_empty_board_clears_and_another_note_selects() {
    let selected = NoteId("a.md".to_owned());
    let other = NoteId("b.md".to_owned());
    assert_eq!(SelectionRequest::toggled(None, Some(&selected)), SelectionRequest::Clear);
    assert_eq!(
        SelectionRequest::toggled(Some(other.clone()), Some(&selected)),
        SelectionRequest::Select(other)
    );
    assert!(BoardOutput::default().selection_request.is_none());
}

#[test]
fn related_ids_are_listed_once() {
    let mut selected = note("Selected");
    selected.references.push(NoteId("Other.md".to_owned()));
    selected.backlinks.push(NoteId("Other.md".to_owned()));
    selected.references.push(selected.id.clone());
    assert_eq!(related_note_ids(&selected).len(), 2);
}

#[test]
fn note_titles_fall_back_to_untitled() {
    let index = VaultIndex {
        root: String::new(),
        notes: vec![note("Known")],
        diagnostics: Vec::new(),
        scan_duration_micros: 0,
    };
    assert_eq!(note_title(&index, &NoteId("Known.md".to_owned())), "Known");
    assert_eq!(note_title(&index, &NoteId("Missing.md".to_owned())), "Untitled");
}

#[test]
fn links_go_to_references_that_are_notes_of_the_board() {
    let mut a = note("A");
    let mut b = note("B");
    let c = note("C");
    a.references = vec![
        NoteId("C.md".to_owned()),
        NoteId("Missing.md".to_owned()),
        NoteId("B.md".to_owned()),
    ];
    b.references = vec![NoteId("A.md".to_owned())];
    let links: Vec<(String, String)> = board_links(&vec![a, b, c])
        .into_iter()
        .map(|(source, target)| (source.0, target.0))
        .collect();
    assert_eq!(
        links,
        vec![
            ("A.md".to_owned(), "C.md".to_owned()),
            ("A.md".to_owned(), "B.md".to_owned()),
            ("B.md".to_owned(), "A.md".to_owned()),
        ]
    );
    assert!(board_links(&Vec::new()).is_empty());
}
