//! The vault: notes parsed from Markdown, and the graph of references between them.
pub mod model;
pub mod paths;
pub mod parser;
pub mod resolve;
pub mod links;
pub mod scan;

pub use model::{
    Diagnostic, DiagnosticSeverity, NoteId, NoteRecord, ParsedNote, ReferenceKind,
    ReferenceTarget, VaultIndex,
};


pub use parser::{parse_note, split_frontmatter, Frontmatter, FrontmatterSplit};
pub use resolve::resolve_graph;
