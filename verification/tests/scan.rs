use atlas::vault::scan::{
    finish_scan, is_markdown_path, missing_vault_index, order_markdown_paths, unreadable_file,
    untraversable_entry,
};
use atlas::vault::{DiagnosticSeverity, ParsedNote};

#[test]
fn markdown_files_are_recognised_by_extension_in_any_case() {
    assert!(is_markdown_path("/vault/visible.MD"));
    assert!(is_markdown_path("/vault/dir/note.md"));
    assert!(!is_markdown_path("/vault/attachment.txt"));
    assert!(!is_markdown_path("/vault/.md"));
    assert!(!is_markdown_path("/vault/notes.mdx"));
    assert!(!is_markdown_path("/vault/.."));
}

#[test]
fn files_are_read_in_lower_cased_relative_order() {
    let paths = vec![
        "/v/b.md".to_owned(),
        "/v/A/z.md".to_owned(),
        "/v/a.md".to_owned(),
    ];
    assert_eq!(order_markdown_paths("/v", &paths), ["/v/a.md", "/v/A/z.md", "/v/b.md"]);
}

#[test]
fn missing_vaults_have_one_error() {
    let index = missing_vault_index("/nowhere", 7);
    assert!(index.notes.is_empty());
    assert_eq!(index.diagnostics.len(), 1);
    assert_eq!(index.diagnostics[0].severity, DiagnosticSeverity::Error);
    assert_eq!(
        index.diagnostics[0].message,
        "Vault is missing or is not a directory: /nowhere"
    );
    assert_eq!(index.scan_duration_micros, 7);
}

#[test]
fn unreadable_files_are_vault_wide_errors() {
    let unreadable = unreadable_file("/v", "/v/broken.md", "stream did not contain valid UTF-8");
    assert_eq!(unreadable.path.as_deref(), Some("broken.md"));
    assert!(unreadable.message.contains("UTF-8"));
    let walk = untraversable_entry("permission denied");
    assert_eq!(walk.message, "Could not traverse vault entry: permission denied");
    assert!(walk.path.is_none());
}

#[test]
fn finished_scans_keep_the_vault_diagnostics() {
    let note = ParsedNote {
        relative_path: "valid.md".to_owned(),
        title: "valid".to_owned(),
        markdown_body: "# Valid".to_owned(),
        aliases: Vec::new(),
        tags: Vec::new(),
        unresolved_references: Vec::new(),
        citations: Vec::new(),
        diagnostics: Vec::new(),
    };
    let index = finish_scan(
        "/v".to_owned(),
        vec![note],
        vec![untraversable_entry("x")],
        12,
    );
    assert_eq!(index.notes.len(), 1);
    assert_eq!(index.notes[0].title, "valid");
    assert_eq!(index.diagnostics.len(), 1);
    assert_eq!(index.root, "/v");
}

fn chars(text: &str) -> Vec<char> {
    text.chars().collect()
}

fn relative(root: &str, path: &str) -> String {
    atlas::vault::paths::relative_path_of(&chars(root), &chars(path)).into_iter().collect()
}

#[test]
fn relative_paths_keep_the_text_after_the_vault() {
    assert_eq!(relative("/v", "/v/notes/a.md"), "notes/a.md");
    assert_eq!(relative("/v/", "/v//a/./b/"), "a/./b");
    assert_eq!(relative("/v", "/v"), "");
    assert_eq!(relative("/v", "/w/a.md"), "/w/a.md");
    assert_eq!(relative("/v", "v/a.md"), "v/a.md");
    assert_eq!(relative("./v", "v/a.md"), "v/a.md");
    assert_eq!(relative("./v", "./v/a.md"), "a.md");
    assert_eq!(relative("", "a/b/"), "a/b");
    assert_eq!(relative("", "/"), "/");
}

#[test]
fn same_places_ignore_repeated_separators_and_dots() {
    assert!(atlas::vault::paths::same_path_exec("/a//b/./c/", "/a/b/c"));
    assert!(!atlas::vault::paths::same_path_exec("./a", "a"));
    assert!(!atlas::vault::paths::same_path_exec("/a", "a"));
    assert!(!atlas::vault::paths::same_path_exec("/a/..", "/"));
    assert!(atlas::vault::paths::same_path_exec("a/.", "a"));
}
