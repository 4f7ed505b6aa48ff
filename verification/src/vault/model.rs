//! The records that the parser and the resolver produce.
use vstd::prelude::*;

use crate::text::{texts, same_text};

verus! {

/// A note's identity: its vault-relative path, with `/` between names.
#[derive(Clone, Debug, PartialEq, Eq, Hash, PartialOrd, Ord)]
pub struct NoteId(pub String);

impl View for NoteId {
    type V = Seq<char>;

    open spec fn view(&self) -> Seq<char> {
        self.0@
    }
}

impl DeepView for NoteId {
    type V = Seq<char>;

    open spec fn deep_view(&self) -> Seq<char> {
        self.0@
    }
}

/// `text` with every `\` written as `/`.
pub open spec fn forward_slashes(text: Seq<char>) -> Seq<char> {
    text.map_values(|c: char| if c == '\\' { '/' } else { c })
}

/// The views of a sequence of note identities.
pub open spec fn ids(v: Seq<NoteId>) -> Seq<Seq<char>> {
    v.map_values(|id: NoteId| id@)
}

impl NoteId {
    /// The identity as shown to people: the path with forward slashes.
    pub fn display(&self) -> (shown: String)
        ensures
            shown@ == forward_slashes(self@),
    {
        let chars = crate::text::chars_of(self.0.as_str());
        let mut out: Vec<char> = Vec::new();
        for i in 0..chars.len()
            invariant
                chars@ == self@,
                out@ == forward_slashes(chars@.take(i as int)),
        {
            let c = chars[i];
            out.push(if c == '\\' { '/' } else { c });
            assert(forward_slashes(chars@.take(i + 1)) =~= forward_slashes(chars@.take(i as int)).push(
                if c == '\\' { '/' } else { c },
            ));
        }
        assert(chars@.take(chars@.len() as int) =~= chars@);
        crate::text::string_of(out.as_slice())
    }

    /// A copy of this identity.
    pub fn duplicate(&self) -> (copy: NoteId)
        ensures
            copy@ == self@,
    {
        NoteId(self.0.clone())
    }

    /// Whether both name the same note.
    pub fn same(&self, other: &NoteId) -> (r: bool)
        ensures
            r == (self@ == other@),
    {
        same_text(&self.0, &other.0)
    }
}

/// Whether `v` holds an identity equal to `id`.
pub fn contains_id(v: &Vec<NoteId>, id: &NoteId) -> (r: bool)
    ensures
        r == ids(v@).contains(id@),
{
    let mut i: usize = 0;
    while i < v.len()
        invariant
            i <= v.len(),
            forall|j: int| 0 <= j < i ==> v@[j]@ != id@,
        decreases v.len() - i,
    {
        if v[i].same(id) {
            assert(ids(v@)[i as int] == id@);
            return true;
        }
        i += 1;
    }
    assert forall|j: int| 0 <= j < ids(v@).len() implies ids(v@)[j] != id@ by {
        assert(ids(v@)[j] == v@[j]@);
    }
    false
}

#[derive(Clone, Copy, Debug, PartialEq, Eq, Structural)]
pub enum DiagnosticSeverity {
    Warning,
    Error,
}

/// A problem found while scanning or resolving a vault.
#[derive(Clone, Debug, PartialEq, Eq)]
pub struct Diagnostic {
    pub path: Option<String>,
    pub severity: DiagnosticSeverity,
    pub message: String,
}

impl Diagnostic {
    pub fn warning(path: Option<String>, message: String) -> (d: Diagnostic)
        ensures
            d.path == path,
            d.severity == DiagnosticSeverity::Warning,
            d.message == message,
    {
        Diagnostic { path, severity: DiagnosticSeverity::Warning, message }
    }

    pub fn error(path: Option<String>, message: String) -> (d: Diagnostic)
        ensures
            d.path == path,
            d.severity == DiagnosticSeverity::Error,
            d.message == message,
    {
        Diagnostic { path, severity: DiagnosticSeverity::Error, message }
    }
}

#[derive(Clone, Copy, Debug, PartialEq, Eq, Structural)]
pub enum ReferenceKind {
    WikiLink,
    MarkdownLink,
}

/// A reference as written in a note, before it is resolved to a note.
#[derive(Clone, Debug, PartialEq, Eq)]
pub struct ReferenceTarget {
    pub raw: String,
    pub kind: ReferenceKind,
}

/// What the parser reads from one Markdown file.
#[derive(Clone, Debug)]
pub struct ParsedNote {
    pub relative_path: String,
    pub title: String,
    pub markdown_body: String,
    pub aliases: Vec<String>,
    pub tags: Vec<String>,
    pub unresolved_references: Vec<ReferenceTarget>,
    pub citations: Vec<String>,
    pub diagnostics: Vec<Diagnostic>,
}

/// A note with its references resolved to other notes and its backlinks attached.
#[derive(Clone, Debug)]
pub struct NoteRecord {
    pub id: NoteId,
    pub relative_path: String,
    pub title: String,
    pub markdown_body: String,
    pub aliases: Vec<String>,
    pub tags: Vec<String>,
    pub references: Vec<NoteId>,
    pub backlinks: Vec<NoteId>,
    pub citations: Vec<String>,
    pub diagnostics: Vec<Diagnostic>,
}

/// The notes of a vault, with the diagnostics that belong to no single note.
#[derive(Clone, Debug)]
pub struct VaultIndex {
    pub root: String,
    pub notes: Vec<NoteRecord>,
    pub diagnostics: Vec<Diagnostic>,
    pub scan_duration_micros: u64,
}

/// The number of references over all notes.
pub open spec fn total_references(notes: Seq<NoteRecord>) -> int
    decreases notes.len(),
{
    if notes.len() == 0 {
        0
    } else {
        total_references(notes.drop_last()) + notes.last().references@.len()
    }
}

/// The number of backlinks over all notes.
pub open spec fn total_backlinks(notes: Seq<NoteRecord>) -> int
    decreases notes.len(),
{
    if notes.len() == 0 {
        0
    } else {
        total_backlinks(notes.drop_last()) + notes.last().backlinks@.len()
    }
}

/// Every citation key of every note, in note order.
pub open spec fn all_citations(notes: Seq<NoteRecord>) -> Seq<Seq<char>>
    decreases notes.len(),
{
    if notes.len() == 0 {
        Seq::empty()
    } else {
        all_citations(notes.drop_last()) + texts(notes.last().citations@)
    }
}

/// The vault-wide diagnostics followed by those of each note.
pub open spec fn note_diagnostics(notes: Seq<NoteRecord>) -> Seq<Diagnostic>
    decreases notes.len(),
{
    if notes.len() == 0 {
        Seq::empty()
    } else {
        note_diagnostics(notes.drop_last()) + notes.last().diagnostics@
    }
}

/// How many diagnostics have the given severity.
pub open spec fn count_severity(diagnostics: Seq<Diagnostic>, severity: DiagnosticSeverity) -> int
    decreases diagnostics.len(),
{
    if diagnostics.len() == 0 {
        0
    } else {
        count_severity(diagnostics.drop_last(), severity) + if diagnostics.last().severity
            == severity {
            1int
        } else {
            0int
        }
    }
}

pub proof fn lemma_count_severity_bounds(d: Seq<Diagnostic>)
    ensures
        0 <= count_severity(d, DiagnosticSeverity::Warning),
        0 <= count_severity(d, DiagnosticSeverity::Error),
        count_severity(d, DiagnosticSeverity::Warning) + count_severity(d, DiagnosticSeverity::Error)
            == d.len(),
    decreases d.len(),
{
    if d.len() > 0 {
        lemma_count_severity_bounds(d.drop_last());
    }
}

impl VaultIndex {
    /// The first note with the given identity.
    pub fn note(&self, note_id: &NoteId) -> (found: Option<&NoteRecord>)
        ensures
            found is None <==> forall|i: int|
                0 <= i < self.notes@.len() ==> (#[trigger] self.notes@[i]).id@ != note_id@,
            found matches Some(note) ==> exists|i: int|
                0 <= i < self.notes@.len() && *note == self.notes@[i] && note.id@ == note_id@ && (
                forall|j: int| 0 <= j < i ==> (#[trigger] self.notes@[j]).id@ != note_id@),
    {
        let mut i: usize = 0;
        while i < self.notes.len()
            invariant
                i <= self.notes@.len(),
                forall|j: int| 0 <= j < i ==> (#[trigger] self.notes@[j]).id@ != note_id@,
            decreases self.notes.len() - i,
        {
            if self.notes[i].id.same(note_id) {
                return Some(&self.notes[i]);
            }
            i += 1;
        }
        None
    }

    /// The number of resolved references over all notes.
    pub fn reference_count(&self) -> (count: usize)
        requires
            total_references(self.notes@) <= usize::MAX,
        ensures
            count == total_references(self.notes@),
    {
        let mut count: usize = 0;
        let mut i: usize = 0;
        while i < self.notes.len()
            invariant
                i <= self.notes@.len(),
                count == total_references(self.notes@.take(i as int)),
                total_references(self.notes@) <= usize::MAX,
            decreases self.notes.len() - i,
        {
            proof {
                assert(self.notes@.take(i + 1).drop_last() =~= self.notes@.take(i as int));
                lemma_total_references_prefix(self.notes@, i + 1);
            }
            count = count + self.notes[i].references.len();
            i += 1;
        }
        assert(self.notes@.take(i as int) =~= self.notes@);
        count
    }

    /// The number of backlinks over all notes.
    pub fn backlink_count(&self) -> (count: usize)
        requires
            total_backlinks(self.notes@) <= usize::MAX,
        ensures
            count == total_backlinks(self.notes@),
    {
        let mut count: usize = 0;
        let mut i: usize = 0;
        while i < self.notes.len()
            invariant
                i <= self.notes@.len(),
                count == total_backlinks(self.notes@.take(i as int)),
                total_backlinks(self.notes@) <= usize::MAX,
            decreases self.notes.len() - i,
        {
            proof {
                assert(self.notes@.take(i + 1).drop_last() =~= self.notes@.take(i as int));
                lemma_total_backlinks_prefix(self.notes@, i + 1);
            }
            count = count + self.notes[i].backlinks.len();
            i += 1;
        }
        assert(self.notes@.take(i as int) =~= self.notes@);
        count
    }

    /// The number of distinct citation keys over all notes.
    pub fn unique_citation_count(&self) -> (count: usize)
        ensures
            count == all_citations(self.notes@).to_set().len(),
    {
        let mut seen: Vec<Vec<char>> = Vec::new();
        let mut i: usize = 0;
        while i < self.notes.len()
            invariant
                i <= self.notes@.len(),
                seen@.map_values(|c: Vec<char>| c@).no_duplicates(),
                seen@.map_values(|c: Vec<char>| c@).to_set() == all_citations(
                    self.notes@.take(i as int),
                ).to_set(),
            decreases self.notes.len() - i,
        {
            let note = &self.notes[i];
            let ghost before = all_citations(self.notes@.take(i as int));
            assert(self.notes@.take(i + 1).drop_last() =~= self.notes@.take(i as int));
            let mut k: usize = 0;
            while k < note.citations.len()
                invariant
                    k <= note.citations@.len(),
                    seen@.map_values(|c: Vec<char>| c@).no_duplicates(),
                    seen@.map_values(|c: Vec<char>| c@).to_set() == (before + texts(
                        note.citations@.take(k as int),
                    )).to_set(),
                decreases note.citations.len() - k,
            {
                let key = crate::text::chars_of(note.citations[k].as_str());
                let ghost old_seen = seen@.map_values(|c: Vec<char>| c@);
                let mut present = false;
                let mut s: usize = 0;
                while s < seen.len()
                    invariant
                        s <= seen@.len(),
                        present ==> old_seen.contains(key@),
                        !present ==> forall|t: int| 0 <= t < s ==> seen@[t]@ != key@,
                        old_seen == seen@.map_values(|c: Vec<char>| c@),
                    decreases seen.len() - s,
                {
                    if crate::text::same_chars(&seen[s], &key) {
                        assert(old_seen[s as int] == key@);
                        present = true;
                    }
                    s += 1;
                }
                assert(texts(note.citations@.take(k + 1)) =~= texts(note.citations@.take(k as int)).push(
                    key@,
                ));
                assert(before + texts(note.citations@.take(k + 1)) =~= (before + texts(
                    note.citations@.take(k as int),
                )).push(key@));
                if !present {
                    seen.push(key);
                    proof {
                        assert(seen@.map_values(|c: Vec<char>| c@) =~= old_seen.push(key@));
                        assert(!old_seen.contains(key@));
                        old_seen.lemma_push_to_set_commute(key@);
                        (before + texts(note.citations@.take(k as int))).lemma_push_to_set_commute(
                            key@,
                        );
                    }
                } else {
                    proof {
                        (before + texts(note.citations@.take(k as int))).lemma_push_to_set_commute(
                            key@,
                        );
                        assert(old_seen.to_set().contains(key@));
                        assert(old_seen.to_set().insert(key@) =~= old_seen.to_set());
                    }
                }
                k += 1;
            }
            assert(note.citations@.take(k as int) =~= note.citations@);
            i += 1;
        }
        assert(self.notes@.take(i as int) =~= self.notes@);
        proof {
            seen@.map_values(|c: Vec<char>| c@).unique_seq_to_set();
        }
        seen.len()
    }

    /// The number of warnings and of errors, over the vault-wide diagnostics and those of
    /// every note.
    pub fn diagnostic_counts(&self) -> (counts: (usize, usize))
        requires
            self.diagnostics@.len() + note_diagnostics(self.notes@).len() <= usize::MAX,
        ensures
            counts.0 == count_severity(
                self.diagnostics@ + note_diagnostics(self.notes@),
                DiagnosticSeverity::Warning,
            ),
            counts.1 == count_severity(
                self.diagnostics@ + note_diagnostics(self.notes@),
                DiagnosticSeverity::Error,
            ),
    {
        let mut warnings: usize = 0;
        let mut errors: usize = 0;
        let mut i: usize = 0;
        while i < self.diagnostics.len()
            invariant
                i <= self.diagnostics@.len(),
                warnings == count_severity(self.diagnostics@.take(i as int), DiagnosticSeverity::Warning),
                errors == count_severity(self.diagnostics@.take(i as int), DiagnosticSeverity::Error),
                self.diagnostics@.len() + note_diagnostics(self.notes@).len() <= usize::MAX,
            decreases self.diagnostics.len() - i,
        {
            proof {
                assert(self.diagnostics@.take(i + 1).drop_last() =~= self.diagnostics@.take(i as int));
                lemma_count_severity_bounds(self.diagnostics@.take(i as int));
            }
            match self.diagnostics[i].severity {
                DiagnosticSeverity::Warning => warnings = warnings + 1,
                DiagnosticSeverity::Error => errors = errors + 1,
            }
            i += 1;
        }
        assert(self.diagnostics@.take(i as int) =~= self.diagnostics@);
        let mut n: usize = 0;
        while n < self.notes.len()
            invariant
                n <= self.notes@.len(),
                warnings == count_severity(
                    self.diagnostics@ + note_diagnostics(self.notes@.take(n as int)),
                    DiagnosticSeverity::Warning,
                ),
                errors == count_severity(
                    self.diagnostics@ + note_diagnostics(self.notes@.take(n as int)),
                    DiagnosticSeverity::Error,
                ),
                self.diagnostics@.len() + note_diagnostics(self.notes@).len() <= usize::MAX,
            decreases self.notes.len() - n,
        {
            let note = &self.notes[n];
            let ghost prefix = self.diagnostics@ + note_diagnostics(self.notes@.take(n as int));
            proof {
                assert(self.notes@.take(n + 1).drop_last() =~= self.notes@.take(n as int));
                lemma_note_diagnostics_prefix(self.notes@, n + 1);
            }
            let mut k: usize = 0;
            while k < note.diagnostics.len()
                invariant
                    k <= note.diagnostics@.len(),
                    prefix.len() + note.diagnostics@.len() <= usize::MAX,
                    warnings == count_severity(
                        prefix + note.diagnostics@.take(k as int),
                        DiagnosticSeverity::Warning,
                    ),
                    errors == count_severity(
                        prefix + note.diagnostics@.take(k as int),
                        DiagnosticSeverity::Error,
                    ),
                decreases note.diagnostics.len() - k,
            {
                proof {
                    assert((prefix + note.diagnostics@.take(k + 1)).drop_last() =~= prefix
                        + note.diagnostics@.take(k as int));
                    lemma_count_severity_bounds(prefix + note.diagnostics@.take(k as int));
                }
                match note.diagnostics[k].severity {
                    DiagnosticSeverity::Warning => warnings = warnings + 1,
                    DiagnosticSeverity::Error => errors = errors + 1,
                }
                k += 1;
            }
            assert(note.diagnostics@.take(k as int) =~= note.diagnostics@);
            assert(prefix + note.diagnostics@ =~= self.diagnostics@ + note_diagnostics(
                self.notes@.take(n + 1),
            ));
            n += 1;
        }
        assert(self.notes@.take(n as int) =~= self.notes@);
        (warnings, errors)
    }
}

proof fn lemma_total_references_prefix(notes: Seq<NoteRecord>, k: int)
    requires
        0 <= k <= notes.len(),
    ensures
        total_references(notes.take(k)) <= total_references(notes),
        0 <= total_references(notes.take(k)),
    decreases notes.len(),
{
    if k < notes.len() {
        assert(notes.drop_last().take(k) =~= notes.take(k));
        lemma_total_references_prefix(notes.drop_last(), k);
    } else {
        assert(notes.take(k) =~= notes);
        if notes.len() > 0 {
            lemma_total_references_prefix(notes.drop_last(), k - 1);
            assert(notes.drop_last().take(k - 1) =~= notes.drop_last());
        }
    }
}

proof fn lemma_total_backlinks_prefix(notes: Seq<NoteRecord>, k: int)
    requires
        0 <= k <= notes.len(),
    ensures
        total_backlinks(notes.take(k)) <= total_backlinks(notes),
        0 <= total_backlinks(notes.take(k)),
    decreases notes.len(),
{
    if k < notes.len() {
        assert(notes.drop_last().take(k) =~= notes.take(k));
        lemma_total_backlinks_prefix(notes.drop_last(), k);
    } else {
        assert(notes.take(k) =~= notes);
        if notes.len() > 0 {
            lemma_total_backlinks_prefix(notes.drop_last(), k - 1);
            assert(notes.drop_last().take(k - 1) =~= notes.drop_last());
        }
    }
}

proof fn lemma_note_diagnostics_prefix(notes: Seq<NoteRecord>, k: int)
    requires
        0 <= k <= notes.len(),
    ensures
        note_diagnostics(notes.take(k)).len() <= note_diagnostics(notes).len(),
    decreases notes.len(),
{
    if k < notes.len() {
        assert(notes.drop_last().take(k) =~= notes.take(k));
        lemma_note_diagnostics_prefix(notes.drop_last(), k);
    } else {
        assert(notes.take(k) =~= notes);
    }
}

} // verus!
