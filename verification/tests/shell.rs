use atlas::shell::{decimal_exec, vault_name, vault_summary};
use atlas::vault::{Diagnostic, NoteId, NoteRecord, VaultIndex};

#[test]
fn vault_names_come_from_the_last_folder() {
    assert_eq!(vault_name("/home/me/Research"), "Research");
    assert_eq!(vault_name("/home/me/Research/"), "Research");
    assert_eq!(vault_name("/"), "Vault");
    assert_eq!(vault_name("/home/.."), "Vault");
}

#[test]
fn numbers_are_written_in_decimal() {
    let text: String = decimal_exec(0).into_iter().collect();
    assert_eq!(text, "0");
    let text: String = decimal_exec(1204).into_iter().collect();
    assert_eq!(text, "1204");
}

#[test]
fn the_summary_counts_notes_links_citations_and_issues() {
    let note = NoteRecord {
        id: NoteId("a.md".to_owned()),
        relative_path: "a.md".to_owned(),
        title: "a".to_owned(),
        markdown_body: String::new(),
        aliases: Vec::new(),
        tags: Vec::new(),
        references: vec![NoteId("b.md".to_owned())],
        backlinks: Vec::new(),
        citations: vec!["x".to_owned(), "y".to_owned()],
        diagnostics: vec![Diagnostic::warning(None, "w".to_owned())],
    };
    let mut other = note.clone();
    other.id = NoteId("b.md".to_owned());
    other.references = Vec::new();
    other.backlinks = vec![NoteId("a.md".to_owned())];
    other.citations = vec!["x".to_owned()];
    other.diagnostics = Vec::new();
    let index = VaultIndex {
        root: "/v".to_owned(),
        notes: vec![note, other],
        diagnostics: vec![Diagnostic::error(None, "e".to_owned())],
        scan_duration_micros: 0,
    };
    assert_eq!(
        vault_summary(&index),
        "2 notes  ·  1 references  ·  1 backlinks  ·  2 citations  ·  2 issues"
    );
}
