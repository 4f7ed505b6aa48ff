//! The parts of scanning a vault folder that decide rather than read: which files are notes,
//! in what order they are read, and how the results make an index.
use vstd::prelude::*;

use super::model::{Diagnostic, DiagnosticSeverity, ParsedNote, VaultIndex};
use super::paths::{file_name, file_name_exec, name_extension, names_of, path_names, relative_path_of, relative_to, views};
use super::resolve::{encode_chars, encode_text, graph_of, resolve_graph};
use crate::sort::{stable_sort, stably_sorted, Keyed};
use crate::text::{chars_of, concat, lowercase, lowercase_of, string_of};

verus! {

/// The file at `path` is a Markdown note: its extension is `md` in any ASCII case.
pub open spec fn is_markdown_name(path: Seq<char>) -> bool {
    match file_name(path_names(path)) {
        Some(name) => match name_extension(name) {
            Some(ext) => ext.len() == 2 && (ext[0] == 'm' || ext[0] == 'M') && (ext[1] == 'd' || ext[1]
                == 'D'),
            None => false,
        },
        None => false,
    }
}

/// Whether the file at `path` is a Markdown note.
pub fn is_markdown_path(path: &str) -> (markdown: bool)
    ensures
        markdown == is_markdown_name(path@),
{
    let names = names_of(&chars_of(path));
    assert(views(names@) == path_names(path@));
    match file_name_exec(&names) {
        None => false,
        Some(name) => {
            if crate::vault::paths::is_parent_name(name) {
                return false;
            }
            proof {
                crate::vault::paths::lemma_last_dot(name@);
            }
            match crate::vault::paths::find_last_dot(name) {
                None => false,
                Some(d) => {
                    if d == 0 {
                        return false;
                    }
                    let ghost ext = name@.skip(d + 1);
                    if name.len() - d - 1 != 2 {
                        assert(ext.len() != 2);
                        return false;
                    }
                    let a = name[d + 1];
                    let b = name[d + 2];
                    assert(ext[0] == a && ext[1] == b);
                    (a == 'm' || a == 'M') && (b == 'd' || b == 'D')
                },
            }
        },
    }
}

/// A note file to read, ordered by its lower-cased path relative to the vault.
pub struct NotePath {
    pub path: String,
    pub order: String,
}

impl Keyed for NotePath {
    open spec fn sort_key(&self) -> Seq<u64> {
        encode_text(self.order@)
    }

    fn sort_key_exec(&self) -> (key: Vec<u64>) {
        encode_chars(&chars_of(self.order.as_str()))
    }
}

/// The order key of a note file: its path relative to the vault, lower-cased.
pub open spec fn read_order(root: Seq<char>, path: Seq<char>) -> Seq<char> {
    lowercase(relative_to(root, path))
}

/// The note files in the order they are read: by lower-cased path relative to the vault,
/// files that compare equal keeping their order.
pub fn order_markdown_paths(root: &str, paths: &Vec<String>) -> (ordered: Vec<String>)
    ensures
        exists|keyed: Seq<NotePath>, sorted: Seq<NotePath>|
            keyed.len() == paths@.len() && (forall|i: int|
                0 <= i < paths@.len() ==> (#[trigger] keyed[i]).path@ == paths@[i]@ && keyed[i].order@
                    == read_order(root@, paths@[i]@)) && #[trigger] stably_sorted(keyed, sorted)
                && ordered@.len() == sorted.len() && forall|i: int|
                0 <= i < sorted.len() ==> (#[trigger] ordered@[i])@ == sorted[i].path@,
{
    let root_chars = chars_of(root);
    let mut keyed: Vec<NotePath> = Vec::new();
    for i in 0..paths.len()
        invariant
            root_chars@ == root@,
            keyed@.len() == i,
            forall|k: int|
                0 <= k < i ==> (#[trigger] keyed@[k]).path@ == paths@[k]@ && keyed@[k].order@
                    == read_order(root@, paths@[k]@),
    {
        let rel = relative_path_of(&root_chars, &chars_of(paths[i].as_str()));
        let order = string_of(lowercase_of(string_of(rel.as_slice()).as_str()).as_slice());
        keyed.push(NotePath { path: paths[i].clone(), order });
    }
    let ghost unsorted = keyed@;
    let sorted = stable_sort(keyed);
    let mut ordered: Vec<String> = Vec::new();
    for i in 0..sorted.len()
        invariant
            ordered@.len() == i,
            forall|k: int| 0 <= k < i ==> (#[trigger] ordered@[k])@ == sorted@[k].path@,
    {
        ordered.push(sorted[i].path.clone());
    }
    assert(stably_sorted(unsorted, sorted@));
    ordered
}

/// The message of a vault folder that cannot be scanned.
pub open spec fn missing_message(root: Seq<char>) -> Seq<char> {
    "Vault is missing or is not a directory: "@ + root
}

/// The index of a vault folder that is missing or is not a directory: no notes and one
/// error.
pub fn missing_vault_index(root: &str, scan_duration_micros: u64) -> (index: VaultIndex)
    ensures
        index.root@ == root@,
        index.notes@.len() == 0,
        index.diagnostics@.len() == 1,
        index.diagnostics@[0].path is None,
        index.diagnostics@[0].severity == DiagnosticSeverity::Error,
        index.diagnostics@[0].message@ == missing_message(root@),
        index.scan_duration_micros == scan_duration_micros,
{
    let message = concat("Vault is missing or is not a directory: ", root);
    VaultIndex {
        root: string_of(chars_of(root).as_slice()),
        notes: Vec::new(),
        diagnostics: vec![Diagnostic::error(None, message)],
        scan_duration_micros,
    }
}

/// The error of a note file that could not be read as text, about its path relative to the
/// vault.
pub fn unreadable_file(root: &str, path: &str, error: &str) -> (diagnostic: Diagnostic)
    ensures
        diagnostic.severity == DiagnosticSeverity::Error,
        diagnostic.path matches Some(p) && p@ == relative_to(root@, path@),
        diagnostic.message@ == "Could not read Markdown file as UTF-8: "@ + error@,
{
    let rel = relative_path_of(&chars_of(root), &chars_of(path));
    Diagnostic::error(
        Some(string_of(rel.as_slice())),
        concat("Could not read Markdown file as UTF-8: ", error),
    )
}

/// The error of a folder entry that could not be visited.
pub fn untraversable_entry(error: &str) -> (diagnostic: Diagnostic)
    ensures
        diagnostic.severity == DiagnosticSeverity::Error,
        diagnostic.path is None,
        diagnostic.message@ == "Could not traverse vault entry: "@ + error@,
{
    Diagnostic::error(None, concat("Could not traverse vault entry: ", error))
}

/// The index of a scanned vault: the parsed notes resolved into a graph, with the vault's
/// own diagnostics and the time the scan took.
pub fn finish_scan(root: String, parsed: Vec<ParsedNote>, diagnostics: Vec<Diagnostic>, scan_duration_micros: u64) -> (index: VaultIndex)
    ensures
        index.root == root,
        index.diagnostics == diagnostics,
        index.scan_duration_micros == scan_duration_micros,
        exists|records: Seq<crate::vault::model::NoteRecord>|
            #[trigger] graph_of(parsed@, records) && stably_sorted(records, index.notes@),
{
    let graph = resolve_graph(parsed);
    VaultIndex { root, notes: graph.notes, diagnostics, scan_duration_micros }
}

} // verus!
