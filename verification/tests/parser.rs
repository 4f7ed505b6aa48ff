use atlas::vault::parser::{markdown_reference, parse_note, split_frontmatter, Frontmatter};
use atlas::vault::{ParsedNote, ReferenceKind};

fn strings(value: &serde_yaml_ng::Value, key: &str) -> Result<Vec<String>, String> {
    match value.get(key) {
        None | Some(serde_yaml_ng::Value::Null) => Ok(Vec::new()),
        Some(serde_yaml_ng::Value::String(one)) => Ok(vec![one.clone()]),
        Some(serde_yaml_ng::Value::Sequence(many)) => many
            .iter()
            .map(|item| match item {
                serde_yaml_ng::Value::String(text) => Ok(text.clone()),
                _ => Err(format!("{key}: not a string")),
            })
            .collect(),
        Some(_) => Err(format!("{key}: not a string or a list of strings")),
    }
}

fn frontmatter(yaml: &str) -> Result<Frontmatter, String> {
    let value: serde_yaml_ng::Value =
        serde_yaml_ng::from_str(yaml).map_err(|error| error.to_string())?;
    Ok(Frontmatter {
        tags: strings(&value, "tags")?,
        aliases: strings(&value, "aliases")?,
    })
}

fn parse(path: &str, source: &str) -> ParsedNote {
    let split = split_frontmatter(source);
    let parsed = match &split.yaml {
        Some(yaml) => frontmatter(yaml),
        None => Ok(Frontmatter { tags: Vec::new(), aliases: Vec::new() }),
    };
    parse_note("/vault", &format!("/vault/{path}"), source, parsed)
}

#[test]
fn title_is_always_the_filename_without_the_markdown_extension() {
    assert_eq!(parse("file.md", "---\ntitle: Frontmatter\n---\n# Heading").title, "file");
    assert_eq!(parse("Nested Note.MD", "# Heading").title, "Nested Note");
    assert_eq!(parse("file.md", "Body").title, "file");
}

#[test]
fn frontmatter_accepts_scalar_and_list_tags_and_aliases() {
    let scalar = parse("file.md", "---\ntags: '#Methods'\naliases: Alternate\n---\nBody");
    assert_eq!(scalar.tags, ["Methods"]);
    assert_eq!(scalar.aliases, ["Alternate"]);

    let list = parse(
        "file.md",
        "---\ntags: [Methods, evidence]\naliases:\n  - Alternate\n  - Other\n---\nBody",
    );
    assert_eq!(list.tags, ["Methods", "evidence"]);
    assert_eq!(list.aliases, ["Alternate", "Other"]);
}

#[test]
fn inline_tags_are_nested_deduplicated_and_exclude_code() {
    let note = parse(
        "file.md",
        "# Heading\n#Methods #methods #methods/causal `#inline`\n```\n#fenced\n```",
    );
    assert_eq!(note.tags, ["Methods", "methods/causal"]);
}

#[test]
fn wikilinks_strip_aliases_and_headings_and_include_embeds() {
    let note = parse("file.md", "[[Note#Section|Display]] ![[folder/Other]] `[[Ignored]]`");
    let targets: Vec<_> = note
        .unresolved_references
        .iter()
        .map(|reference| reference.raw.as_str())
        .collect();
    assert_eq!(targets, ["Note", "folder/Other"]);
}

#[test]
fn local_markdown_links_are_references_but_external_links_are_not() {
    let note = parse(
        "file.md",
        "[Local](folder/note.md#part) [Web](https://example.com/a.md) [PDF](a.pdf)",
    );
    assert_eq!(note.unresolved_references.len(), 1);
    assert_eq!(note.unresolved_references[0].raw, "folder/note.md");
}

#[test]
fn citations_include_bracketed_multiple_and_narrative_forms() {
    let note = parse(
        "file.md",
        "See [@smith2020; @jones-2021] and @narrative. Ignore me@example.com, `@inline`, and:\n```\n@fenced\n```",
    );
    assert_eq!(note.citations, ["smith2020", "jones-2021", "narrative"]);
}

#[test]
fn malformed_and_unclosed_frontmatter_fall_back_without_panicking() {
    let malformed = parse("fallback.md", "---\ntitle: [broken\n---\n# Body title");
    assert_eq!(malformed.title, "fallback");
    assert_eq!(malformed.diagnostics.len(), 1);

    let unclosed = parse("fallback.md", "---\ntitle: Never closes\n# Body title");
    assert_eq!(unclosed.title, "fallback");
    assert_eq!(unclosed.diagnostics.len(), 1);
}

#[test]
fn retained_markdown_body_excludes_valid_frontmatter() {
    let note = parse("file.md", "---\ntitle: Frontmatter\ntags: test\n---\n# Heading\n\nBody text");
    assert_eq!(note.markdown_body, "# Heading\n\nBody text");
    assert!(!note.markdown_body.contains("title: Frontmatter"));
}

#[test]
fn frontmatter_splits_at_its_closing_line() {
    let split = split_frontmatter("---\r\na: 1\r\n...\r\nrest");
    assert_eq!(split.yaml.as_deref(), Some("a: 1\r\n"));
    assert_eq!(split.body, "rest");
    assert!(!split.unclosed);

    let none = split_frontmatter("text\n---\n");
    assert!(none.yaml.is_none());
    assert_eq!(none.body, "text\n---\n");

    let open = split_frontmatter("---");
    assert!(open.unclosed);
    assert_eq!(open.body, "---");
}

#[test]
fn warnings_name_the_problem_and_the_file() {
    let malformed = parse("sub/fallback.md", "---\ntags: [broken\n---\nBody");
    assert!(malformed.diagnostics[0]
        .message
        .starts_with("Could not parse YAML frontmatter: "));
    assert_eq!(malformed.diagnostics[0].path.as_deref(), Some("sub/fallback.md"));
    let unclosed = parse("u.md", "---\nx: y");
    assert_eq!(
        unclosed.diagnostics[0].message,
        "Frontmatter starts with `---` but has no closing delimiter"
    );
}

#[test]
fn markdown_destinations_are_filtered() {
    let local = markdown_reference(" <notes/a.MD?x=1> ").unwrap();
    assert_eq!(local.raw, "notes/a.MD");
    assert_eq!(local.kind, ReferenceKind::MarkdownLink);
    assert!(markdown_reference("#section").is_none());
    assert!(markdown_reference("//host/a.md").is_none());
    assert!(markdown_reference("mailto:someone@example.com").is_none());
    assert!(markdown_reference("notes/a.txt").is_none());
    assert!(markdown_reference("   ").is_none());
}

#[test]
fn references_are_deduplicated_ignoring_case() {
    let note = parse("file.md", "[[Target]] [[target]] [x](Target.md) [[Other | shown]]");
    let targets: Vec<_> = note
        .unresolved_references
        .iter()
        .map(|reference| (reference.raw.as_str(), reference.kind))
        .collect();
    assert_eq!(
        targets,
        [
            ("Target.md", ReferenceKind::MarkdownLink),
            ("Target", ReferenceKind::WikiLink),
            ("Other", ReferenceKind::WikiLink),
        ]
    );
}

#[test]
fn untitled_notes_and_paths_outside_the_vault() {
    let note = parse_note("/vault", "/elsewhere/ .md", "Body", Ok(Frontmatter { tags: Vec::new(), aliases: Vec::new() }));
    assert_eq!(note.relative_path, "/elsewhere/ .md");
    assert_eq!(note.title, "Untitled");
}

#[test]
fn digit_tags_and_trailing_punctuation_are_dropped() {
    let note = parse("file.md", "#2024 #/nested/ see @key. and @@x");
    assert_eq!(note.tags, ["nested"]);
    assert_eq!(note.citations, ["key", "x"]);
}
