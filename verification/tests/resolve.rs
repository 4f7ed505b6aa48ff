use atlas::vault::{resolve_graph, ParsedNote, ReferenceKind, ReferenceTarget};

fn note(path: &str, title: &str, aliases: &[&str], references: &[&str]) -> ParsedNote {
    ParsedNote {
        relative_path: path.to_owned(),
        title: title.to_owned(),
        markdown_body: format!("# {title}"),
        aliases: aliases.iter().map(|alias| (*alias).to_owned()).collect(),
        tags: Vec::new(),
        unresolved_references: references
            .iter()
            .map(|reference| ReferenceTarget {
                raw: (*reference).to_owned(),
                kind: ReferenceKind::WikiLink,
            })
            .collect(),
        citations: Vec::new(),
        diagnostics: Vec::new(),
    }
}

#[test]
fn resolves_relative_vault_stem_and_alias_then_builds_backlinks() {
    let index = resolve_graph(vec![
        note("folder/source.md", "Source", &[], &["local", "root", "Unique", "Alias"]),
        note("folder/local.md", "Local", &[], &[]),
        note("root.md", "Root", &[], &[]),
        note("elsewhere/Unique.md", "Unique", &[], &[]),
        note("aliased.md", "Aliased", &["Alias"], &[]),
    ]);

    let source = index.notes.iter().find(|note| note.title == "Source").unwrap();
    assert_eq!(source.references.len(), 4);
    for title in ["Local", "Root", "Unique", "Aliased"] {
        let target = index.notes.iter().find(|note| note.title == title).unwrap();
        assert_eq!(target.backlinks.as_slice(), std::slice::from_ref(&source.id));
    }
}

#[test]
fn unresolved_and_ambiguous_references_are_diagnostics() {
    let index = resolve_graph(vec![
        note("source.md", "Source", &[], &["Missing", "Duplicate"]),
        note("a/Duplicate.md", "First", &[], &[]),
        note("b/Duplicate.md", "Second", &[], &[]),
    ]);
    let source = index.notes.iter().find(|note| note.title == "Source").unwrap();
    assert_eq!(source.references.len(), 0);
    assert_eq!(source.diagnostics.len(), 2);
    assert!(source.diagnostics[0].message.contains("Unresolved"));
    assert!(source.diagnostics[1].message.contains("Ambiguous"));
}

#[test]
fn duplicate_references_create_one_edge() {
    let index = resolve_graph(vec![
        note("source.md", "Source", &[], &["target", "target"]),
        note("target.md", "Target", &[], &[]),
    ]);
    let source = index.notes.iter().find(|note| note.title == "Source").unwrap();
    let target = index.notes.iter().find(|note| note.title == "Target").unwrap();
    assert_eq!(source.references.len(), 1);
    assert_eq!(target.backlinks.len(), 1);
}

#[test]
fn resolves_relative_and_vault_relative_markdown_links() {
    let source = ParsedNote {
        relative_path: "folder/source.md".to_owned(),
        title: "Source".to_owned(),
        markdown_body: "# Source".to_owned(),
        aliases: Vec::new(),
        tags: Vec::new(),
        unresolved_references: ["../target.md", "root.md"]
            .into_iter()
            .map(|raw| ReferenceTarget {
                raw: raw.to_owned(),
                kind: ReferenceKind::MarkdownLink,
            })
            .collect(),
        citations: Vec::new(),
        diagnostics: Vec::new(),
    };
    let index = resolve_graph(vec![
        source,
        note("target.md", "Target", &[], &[]),
        note("root.md", "Root", &[], &[]),
    ]);
    let source = index.notes.iter().find(|note| note.title == "Source").unwrap();
    assert_eq!(source.references.len(), 2);
}

#[test]
fn notes_are_ordered_by_title_then_path() {
    let index = resolve_graph(vec![
        note("b.md", "beta", &[], &[]),
        note("a2.md", "Alpha", &[], &[]),
        note("a1.md", "alpha", &[], &[]),
    ]);
    let paths: Vec<&str> = index.notes.iter().map(|note| note.relative_path.as_str()).collect();
    assert_eq!(paths, ["a1.md", "a2.md", "b.md"]);
}

#[test]
fn messages_name_the_reference_and_the_candidates() {
    let index = resolve_graph(vec![
        note("source.md", "Source", &[], &["Missing", "Duplicate"]),
        note("a/Duplicate.md", "First", &[], &[]),
        note("b/Duplicate.md", "Second", &[], &[]),
    ]);
    let source = index.notes.iter().find(|note| note.title == "Source").unwrap();
    assert_eq!(source.diagnostics[0].message, "Unresolved note reference: Missing");
    assert_eq!(
        source.diagnostics[1].message,
        "Ambiguous note reference `Duplicate` matches: a/Duplicate.md, b/Duplicate.md"
    );
    assert_eq!(source.diagnostics[0].path.as_deref(), Some("source.md"));
}

#[test]
fn a_resolved_vault_has_as_many_backlinks_as_references() {
    let index = resolve_graph(vec![
        note("a.md", "A", &[], &["b", "c", "missing", "b"]),
        note("b.md", "B", &[], &["a", "b"]),
        note("c.md", "C", &["Alias"], &[]),
        note("d.md", "D", &[], &["Alias", "c"]),
    ]);
    assert_eq!(index.reference_count(), 5);
    assert_eq!(index.backlink_count(), index.reference_count());
}
