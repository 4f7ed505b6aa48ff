//! Resolving the references of parsed notes to notes, and attaching backlinks.
use vstd::prelude::*;

use super::model::{
    Diagnostic, DiagnosticSeverity, NoteId, NoteRecord, ParsedNote, ReferenceKind,
    ReferenceTarget, VaultIndex, forward_slashes, ids,
};
use super::paths::{
    copy_chars, file_name, file_name_exec, lemma_views_push, lemma_views_take, has_extension, is_absolute, is_absolute_exec,
    join, join_names, name_extension, name_stem, names_of, normalize, normalize_names,
    note_id_chars, note_id_text, path_names, stem_of, views,
};
use crate::sort::{Keyed, stable_sort, stably_sorted};
use crate::text::{chars_of, clone_strings, extend_chars, join_with, lowercase, lowercase_of, lowercased, string_of, texts};

verus! {

broadcast use vstd::seq_lib::group_seq_lib_default;

/// `.md`.
pub open spec fn md_suffix() -> Seq<char> {
    seq!['.', 'm', 'd']
}

/// The names of a wiki link get a `.md` extension when their file name has none.
pub open spec fn with_markdown_extension(names: Seq<Seq<char>>, kind: ReferenceKind) -> Seq<
    Seq<char>,
> {
    if kind == ReferenceKind::WikiLink {
        match file_name(names) {
            Some(f) => if name_extension(f) is None {
                names.update(names.len() - 1, f + md_suffix())
            } else {
                names
            },
            None => names,
        }
    } else {
        names
    }
}

/// The names a reference points at, with forward slashes and the `.md` rule applied.
pub open spec fn reference_names(raw: Seq<char>, kind: ReferenceKind) -> Seq<Seq<char>> {
    with_markdown_extension(path_names(forward_slashes(raw)), kind)
}

/// The directory of a note identity (`Path::parent`, or the empty path).
pub open spec fn source_dir_names(source_id: Seq<char>) -> Seq<Seq<char>> {
    if path_names(source_id).len() == 0 {
        Seq::empty()
    } else {
        path_names(source_id).drop_last()
    }
}

/// The directory of a note identity is absolute.
pub open spec fn source_dir_absolute(source_id: Seq<char>) -> bool {
    path_names(source_id).len() > 0 && is_absolute(source_id)
}

/// The identity a reference names relative to the directory of its note, if the joined path
/// normalizes.
pub open spec fn relative_candidate(source_id: Seq<char>, raw: Seq<char>, kind: ReferenceKind) -> Option<
    Seq<char>,
> {
    if is_absolute(forward_slashes(raw)) || source_dir_absolute(source_id) {
        None
    } else {
        match normalize_names(source_dir_names(source_id) + reference_names(raw, kind)) {
            Some(n) => Some(join_names(n)),
            None => None,
        }
    }
}

/// The identity a reference names relative to the vault root, if it normalizes.
pub open spec fn root_candidate(raw: Seq<char>, kind: ReferenceKind) -> Option<Seq<char>> {
    if is_absolute(forward_slashes(raw)) {
        None
    } else {
        match normalize_names(reference_names(raw, kind)) {
            Some(n) => Some(join_names(n)),
            None => None,
        }
    }
}

/// The stem by which a reference is looked up, before lower-casing: the file stem of its
/// path, or the raw text when the path has no file name.
pub open spec fn reference_stem(raw: Seq<char>, kind: ReferenceKind) -> Seq<char> {
    match file_name(reference_names(raw, kind)) {
        Some(f) => name_stem(f),
        None => raw,
    }
}

/// The file stem of a parsed note's path, if it has a file name.
pub open spec fn note_stem(rel: Seq<char>) -> Option<Seq<char>> {
    match file_name(path_names(rel)) {
        Some(f) => Some(name_stem(f)),
        None => None,
    }
}

/// The identities of the parsed notes, in order.
pub open spec fn note_ids(notes: Seq<ParsedNote>) -> Seq<Seq<char>> {
    notes.map_values(|n: ParsedNote| note_id_text(n.relative_path@))
}

/// The identities of the notes whose lower-cased file stem is `key`, in note order.
pub open spec fn stem_matches(notes: Seq<ParsedNote>, key: Seq<char>) -> Seq<Seq<char>>
    decreases notes.len(),
{
    if notes.len() == 0 {
        Seq::empty()
    } else {
        let rest = stem_matches(notes.drop_last(), key);
        match note_stem(notes.last().relative_path@) {
            Some(s) => if lowercase(s) == key {
                rest.push(note_id_text(notes.last().relative_path@))
            } else {
                rest
            },
            None => rest,
        }
    }
}

/// `id` once for each alias whose lower-cased text is `key`.
pub open spec fn alias_hits(aliases: Seq<Seq<char>>, id: Seq<char>, key: Seq<char>) -> Seq<
    Seq<char>,
>
    decreases aliases.len(),
{
    if aliases.len() == 0 {
        Seq::empty()
    } else {
        let rest = alias_hits(aliases.drop_last(), id, key);
        if lowercase(aliases.last()) == key {
            rest.push(id)
        } else {
            rest
        }
    }
}

/// The identities of the notes with an alias whose lower-cased text is `key`, once per such
/// alias, in note order.
pub open spec fn alias_matches(notes: Seq<ParsedNote>, key: Seq<char>) -> Seq<Seq<char>>
    decreases notes.len(),
{
    if notes.len() == 0 {
        Seq::empty()
    } else {
        alias_matches(notes.drop_last(), key) + alias_hits(
            texts(notes.last().aliases@),
            note_id_text(notes.last().relative_path@),
            key,
        )
    }
}

/// What a reference resolves to.
pub enum ResolutionView {
    Resolved(Seq<char>),
    Unresolved,
    Ambiguous(Seq<Seq<char>>),
}

/// One match resolves; several are ambiguous.
pub open spec fn unique_or_ambiguous(matches: Seq<Seq<char>>) -> ResolutionView {
    if matches.len() == 1 {
        ResolutionView::Resolved(matches[0])
    } else {
        ResolutionView::Ambiguous(matches)
    }
}

/// How the reference `raw` in the note `source_id` resolves among `notes`: first as a path
/// relative to the note's directory, then relative to the vault root, then by file stem and
/// finally by alias, both without regard to case.
pub open spec fn resolution_of(
    notes: Seq<ParsedNote>,
    source_id: Seq<char>,
    raw: Seq<char>,
    kind: ReferenceKind,
) -> ResolutionView {
    let known = note_ids(notes);
    let relative = relative_candidate(source_id, raw, kind);
    let rooted = root_candidate(raw, kind);
    if relative is Some && known.contains(relative->0) {
        ResolutionView::Resolved(relative->0)
    } else if rooted is Some && known.contains(rooted->0) {
        ResolutionView::Resolved(rooted->0)
    } else {
        let stems = stem_matches(notes, lowercase(reference_stem(raw, kind)));
        let aliases = alias_matches(notes, lowercase(raw));
        if stems.len() > 0 {
            unique_or_ambiguous(stems)
        } else if aliases.len() > 0 {
            unique_or_ambiguous(aliases)
        } else {
            ResolutionView::Unresolved
        }
    }
}

pub open spec fn unresolved_message(raw: Seq<char>) -> Seq<char> {
    "Unresolved note reference: "@ + raw
}

pub open spec fn ambiguous_message(raw: Seq<char>, matches: Seq<Seq<char>>) -> Seq<char> {
    "Ambiguous note reference `"@ + raw + "` matches: "@ + join_with(
        matches.map_values(|m: Seq<char>| forward_slashes(m)),
        ", "@,
    )
}

/// The resolved targets (each once, in order of first reference) and the warning messages
/// of a note's references.
pub open spec fn resolve_references(
    notes: Seq<ParsedNote>,
    source_id: Seq<char>,
    refs: Seq<ReferenceTarget>,
) -> (Seq<Seq<char>>, Seq<Seq<char>>)
    decreases refs.len(),
{
    if refs.len() == 0 {
        (Seq::empty(), Seq::empty())
    } else {
        let (targets, messages) = resolve_references(notes, source_id, refs.drop_last());
        let r = refs.last();
        match resolution_of(notes, source_id, r.raw@, r.kind) {
            ResolutionView::Resolved(c) => if targets.contains(c) {
                (targets, messages)
            } else {
                (targets.push(c), messages)
            },
            ResolutionView::Unresolved => (targets, messages.push(unresolved_message(r.raw@))),
            ResolutionView::Ambiguous(ms) => (
                targets,
                messages.push(ambiguous_message(r.raw@, ms)),
            ),
        }
    }
}

/// `d` is a warning about the file at `path` with the given message.
pub open spec fn is_warning(d: Diagnostic, path: Seq<char>, message: Seq<char>) -> bool {
    &&& d.severity == DiagnosticSeverity::Warning
    &&& d.path matches Some(p) && p@ == path
    &&& d.message@ == message
}

/// `diagnostics` are those of the parsed note followed by one warning per message.
pub open spec fn diagnostics_follow(
    diagnostics: Seq<Diagnostic>,
    parsed: Seq<Diagnostic>,
    path: Seq<char>,
    messages: Seq<Seq<char>>,
) -> bool {
    &&& diagnostics.len() == parsed.len() + messages.len()
    &&& diagnostics.take(parsed.len() as int) == parsed
    &&& forall|i: int|
        0 <= i < messages.len() ==> is_warning(
            #[trigger] diagnostics[parsed.len() + i],
            path,
            messages[i],
        )
}

/// `record` is `note` with its references resolved among `notes`, before backlinks.
pub open spec fn resolves_to(notes: Seq<ParsedNote>, note: ParsedNote, record: NoteRecord) -> bool {
    let id = note_id_text(note.relative_path@);
    let (targets, messages) = resolve_references(notes, id, note.unresolved_references@);
    &&& record.id@ == id
    &&& record.relative_path@ == note.relative_path@
    &&& record.title@ == note.title@
    &&& record.markdown_body@ == note.markdown_body@
    &&& texts(record.aliases@) == texts(note.aliases@)
    &&& texts(record.tags@) == texts(note.tags@)
    &&& texts(record.citations@) == texts(note.citations@)
    &&& ids(record.references@) == targets
    &&& diagnostics_follow(
        record.diagnostics@,
        note.diagnostics@,
        note.relative_path@,
        messages,
    )
}

/// `n` copies of `id`.
pub open spec fn copies(id: Seq<char>, n: nat) -> Seq<Seq<char>> {
    Seq::new(n, |i: int| id)
}

/// The identities of the records that reference `target`, once per reference, in record
/// order.
pub open spec fn sources(records: Seq<NoteRecord>, target: Seq<char>) -> Seq<Seq<char>>
    decreases records.len(),
{
    if records.len() == 0 {
        Seq::empty()
    } else {
        sources(records.drop_last(), target) + copies(
            records.last().id@,
            ids(records.last().references@).filter(|t: Seq<char>| t == target).len(),
        )
    }
}

/// The backlinks the record at `j` gets: the sources of its identity, unless an earlier
/// record has the same identity (then that record takes them).
pub open spec fn backlinks_of(records: Seq<NoteRecord>, j: int) -> Seq<Seq<char>> {
    if exists|k: int| 0 <= k < j && (#[trigger] records[k]).id@ == records[j].id@ {
        Seq::empty()
    } else {
        sources(records, records[j].id@)
    }
}

/// Records compare by lower-cased title, then by path (names compared one by one, an
/// absolute path before a relative one).
impl Keyed for NoteRecord {
    open spec fn sort_key(&self) -> Seq<u64> {
        encode_text(lowercase(self.title@)) + seq![0u64] + path_key(self.relative_path@)
    }

    fn sort_key_exec(&self) -> (key: Vec<u64>) {
        let title = lowercase_of(self.title.as_str());
        let mut key = encode_chars(&title);
        key.push(0);
        let rel = chars_of(self.relative_path.as_str());
        let path = path_key_exec(&rel);
        let ghost before = key@;
        for i in 0..path.len()
            invariant
                key@ == before + path@.take(i as int),
        {
            key.push(path[i]);
            assert(key@ =~= before + path@.take(i + 1));
        }
        assert(path@.take(path@.len() as int) =~= path@);
        key
    }
}

/// Characters as numbers one above their code points, so that 0 orders before all of them.
pub open spec fn encode_text(text: Seq<char>) -> Seq<u64> {
    text.map_values(|c: char| (c as u32 as u64 + 1) as u64)
}

pub fn encode_chars(text: &Vec<char>) -> (code: Vec<u64>)
    ensures
        code@ == encode_text(text@),
{
    let mut code: Vec<u64> = Vec::new();
    for i in 0..text.len()
        invariant
            code@ == encode_text(text@.take(i as int)),
    {
        let c = text[i];
        let u: u32 = c as u32;
        code.push((u as u64) + 1);
        assert(code@ =~= encode_text(text@.take(i + 1)));
    }
    assert(text@.take(text@.len() as int) =~= text@);
    code
}

/// The names of a path, each encoded and followed by 0; an absolute path starts with 0.
pub open spec fn path_key(rel: Seq<char>) -> Seq<u64> {
    (if is_absolute(rel) {
        seq![0u64]
    } else {
        Seq::<u64>::empty()
    }) + encode_names(path_names(rel))
}

pub open spec fn encode_names(names: Seq<Seq<char>>) -> Seq<u64>
    decreases names.len(),
{
    if names.len() == 0 {
        Seq::empty()
    } else {
        encode_names(names.drop_last()) + encode_text(names.last()) + seq![0u64]
    }
}

pub fn path_key_exec(rel: &Vec<char>) -> (key: Vec<u64>)
    ensures
        key@ == path_key(rel@),
{
    let mut key: Vec<u64> = Vec::new();
    if is_absolute_exec(rel) {
        key.push(0);
    }
    let ghost start = key@;
    let names = names_of(rel);
    let ghost all = views(names@);
    for i in 0..names.len()
        invariant
            all == views(names@),
            key@ == start + encode_names(all.take(i as int)),
    {
        assert(all.take(i + 1).drop_last() =~= all.take(i as int));
        assert(all.take(i + 1).last() == names@[i as int]@);
        let code = encode_chars(&names[i]);
        let ghost before = key@;
        for k in 0..code.len()
            invariant
                key@ == before + code@.take(k as int),
        {
            key.push(code[k]);
            assert(key@ =~= before + code@.take(k + 1));
        }
        assert(code@.take(code@.len() as int) =~= code@);
        key.push(0);
        assert(key@ =~= start + encode_names(all.take(i + 1)));
    }
    assert(all.take(names@.len() as int) =~= all);
    proof {
        if !is_absolute(rel@) {
            assert(start =~= Seq::<u64>::empty());
        }
    }
    key
}


/// What a reference resolved to.
pub enum Resolution {
    Resolved(NoteId),
    Unresolved,
    Ambiguous(Vec<NoteId>),
}

impl Resolution {
    pub open spec fn view(self) -> ResolutionView {
        match self {
            Resolution::Resolved(id) => ResolutionView::Resolved(id@),
            Resolution::Unresolved => ResolutionView::Unresolved,
            Resolution::Ambiguous(ms) => ResolutionView::Ambiguous(ids(ms@)),
        }
    }
}

/// The lookup tables of the resolver, one entry per parsed note in note order.
struct NoteLookups {
    note_ids: Vec<Vec<char>>,
    stems: Vec<Option<Vec<char>>>,
    aliases: Vec<Vec<Vec<char>>>,
}

impl NoteLookups {
    /// The tables hold, for each note of `notes`, its identity, its lower-cased stem and
    /// its lower-cased aliases.
    spec fn describes(self, notes: Seq<ParsedNote>) -> bool {
        &&& self.note_ids@.len() == notes.len()
        &&& self.stems@.len() == notes.len()
        &&& self.aliases@.len() == notes.len()
        &&& forall|i: int|
            0 <= i < notes.len() ==> (#[trigger] self.note_ids@[i])@ == note_id_text(
                notes[i].relative_path@,
            )
        &&& forall|i: int|
            0 <= i < notes.len() ==> match note_stem(notes[i].relative_path@) {
                Some(st) => (#[trigger] self.stems@[i]) is Some && self.stems@[i]->0@ == lowercase(
                    st,
                ),
                None => self.stems@[i] is None,
            }
        &&& forall|i: int|
            0 <= i < notes.len() ==> views((#[trigger] self.aliases@[i])@) == lowercased(
                texts(notes[i].aliases@),
            )
    }

    fn new(notes: &Vec<ParsedNote>) -> (lookups: Self)
        ensures
            lookups.describes(notes@),
    {
        let mut note_ids: Vec<Vec<char>> = Vec::new();
        let mut stems: Vec<Option<Vec<char>>> = Vec::new();
        let mut aliases: Vec<Vec<Vec<char>>> = Vec::new();
        for i in 0..notes.len()
            invariant
                (NoteLookups { note_ids, stems, aliases }).describes(notes@.take(i as int)),
        {
            let note = &notes[i];
            let rel = chars_of(note.relative_path.as_str());
            note_ids.push(note_id_chars(&rel));
            let names = names_of(&rel);
            let stem = match file_name_exec(&names) {
                Some(f) => {
                    let st = stem_of(f);
                    Some(crate::text::lowercase_span(&st, 0, st.len()))
                },
                None => None,
            };
            proof {
                if stem is Some {
                    let f = file_name(views(names@))->0;
                    assert(name_stem(f).subrange(0, name_stem(f).len() as int) =~= name_stem(f));
                }
            }
            stems.push(stem);
            let mut lowered: Vec<Vec<char>> = Vec::new();
            for k in 0..note.aliases.len()
                invariant
                    views(lowered@) == lowercased(texts(note.aliases@.take(k as int))),
            {
                let ghost before = lowered@;
                let lower = lowercase_of(note.aliases[k].as_str());
                lowered.push(lower);
                proof {
                    lemma_views_push(before, lower);
                    assert(lowercased(texts(note.aliases@.take(k + 1))) =~= lowercased(
                        texts(note.aliases@.take(k as int)),
                    ).push(lowercase(note.aliases@[k as int]@)));
                }
            }
            assert(note.aliases@.take(note.aliases@.len() as int) =~= note.aliases@);
            aliases.push(lowered);
            proof {
                let l = NoteLookups { note_ids, stems, aliases };
                let ns = notes@.take(i + 1);
                assert forall|j: int| 0 <= j < ns.len() implies (#[trigger] l.note_ids@[j])@
                    == note_id_text(ns[j].relative_path@) by {
                    if j < i {
                        assert(ns[j] == notes@.take(i as int)[j]);
                    }
                }
                assert forall|j: int| 0 <= j < ns.len() implies match note_stem(
                    ns[j].relative_path@,
                ) {
                    Some(st) => (#[trigger] l.stems@[j]) is Some && l.stems@[j]->0@ == lowercase(
                        st,
                    ),
                    None => l.stems@[j] is None,
                } by {
                    if j < i {
                        assert(ns[j] == notes@.take(i as int)[j]);
                    }
                }
                assert forall|j: int| 0 <= j < ns.len() implies views(
                    (#[trigger] l.aliases@[j])@,
                ) == lowercased(texts(ns[j].aliases@)) by {
                    if j < i {
                        assert(ns[j] == notes@.take(i as int)[j]);
                    }
                }
            }
        }
        assert(notes@.take(notes@.len() as int) =~= notes@);
        NoteLookups { note_ids, stems, aliases }
    }

    /// Whether some note has the identity `id`.
    fn knows(&self, Ghost(notes): Ghost<Seq<ParsedNote>>, id: &Vec<char>) -> (r: bool)
        requires
            self.describes(notes),
        ensures
            r == note_ids(notes).contains(id@),
    {
        let mut i: usize = 0;
        while i < self.note_ids.len()
            invariant
                self.describes(notes),
                i <= self.note_ids@.len(),
                forall|j: int| 0 <= j < i ==> note_ids(notes)[j] != id@,
            decreases self.note_ids.len() - i,
        {
            if crate::text::same_chars(&self.note_ids[i], id) {
                assert(note_ids(notes)[i as int] == id@);
                return true;
            }
            i += 1;
        }
        false
    }

    /// The notes whose lower-cased stem is `key`.
    fn stem_lookup(&self, Ghost(notes): Ghost<Seq<ParsedNote>>, key: &Vec<char>) -> (found: Vec<
        NoteId,
    >)
        requires
            self.describes(notes),
        ensures
            ids(found@) == stem_matches(notes, key@),
    {
        let mut found: Vec<NoteId> = Vec::new();
        let mut i: usize = 0;
        while i < self.stems.len()
            invariant
                self.describes(notes),
                i <= self.stems@.len(),
                ids(found@) == stem_matches(notes.take(i as int), key@),
            decreases self.stems.len() - i,
        {
            assert(notes.take(i + 1).drop_last() =~= notes.take(i as int));
            let ghost before = found@;
            match &self.stems[i] {
                Some(st) => {
                    if crate::text::same_chars(st, key) {
                        found.push(NoteId(string_of(self.note_ids[i].as_slice())));
                        assert(ids(found@) =~= ids(before).push(self.note_ids@[i as int]@));
                    }
                },
                None => {},
            }
            i += 1;
        }
        assert(notes.take(i as int) =~= notes);
        found
    }

    /// The notes with an alias whose lower-cased text is `key`, once per alias.
    fn alias_lookup(&self, Ghost(notes): Ghost<Seq<ParsedNote>>, key: &Vec<char>) -> (found: Vec<
        NoteId,
    >)
        requires
            self.describes(notes),
        ensures
            ids(found@) == alias_matches(notes, key@),
    {
        let mut found: Vec<NoteId> = Vec::new();
        let mut i: usize = 0;
        while i < self.aliases.len()
            invariant
                self.describes(notes),
                i <= self.aliases@.len(),
                ids(found@) == alias_matches(notes.take(i as int), key@),
            decreases self.aliases.len() - i,
        {
            assert(notes.take(i + 1).drop_last() =~= notes.take(i as int));
            let ghost start = ids(found@);
            let ghost id = self.note_ids@[i as int]@;
            let ghost al = texts(notes[i as int].aliases@);
            let note_aliases = &self.aliases[i];
            assert(views(note_aliases@) == lowercased(al));
            assert(views(note_aliases@).len() == note_aliases@.len());
            let mut k: usize = 0;
            while k < note_aliases.len()
                invariant
                    self.describes(notes),
                    i < notes.len(),
                    note_aliases == self.aliases@[i as int],
                    id == self.note_ids@[i as int]@,
                    al == texts(notes[i as int].aliases@),
                    views(note_aliases@) == lowercased(al),
                    al.len() == note_aliases@.len(),
                    k <= note_aliases@.len(),
                    ids(found@) == start + alias_hits(al.take(k as int), id, key@),
                decreases note_aliases.len() - k,
            {
                assert(al.take(k + 1).drop_last() =~= al.take(k as int));
                assert(views(note_aliases@)[k as int] == lowercase(al[k as int]));
                let ghost before = found@;
                if crate::text::same_chars(&note_aliases[k], key) {
                    found.push(NoteId(string_of(self.note_ids[i].as_slice())));
                    assert(ids(found@) =~= ids(before).push(id));
                }
                k += 1;
            }
            assert(al.take(k as int) =~= al);
            i += 1;
        }
        assert(notes.take(i as int) =~= notes);
        found
    }
}

/// The text with every `\` written as `/`.
pub fn forward_slash_chars(text: &Vec<char>) -> (out: Vec<char>)
    ensures
        out@ == forward_slashes(text@),
{
    let mut out: Vec<char> = Vec::new();
    for i in 0..text.len()
        invariant
            out@ == forward_slashes(text@.take(i as int)),
    {
        let c = text[i];
        out.push(if c == '\\' { '/' } else { c });
        assert(out@ =~= forward_slashes(text@.take(i + 1)));
    }
    assert(text@.take(text@.len() as int) =~= text@);
    out
}

/// Gives a wiki link's file name a `.md` extension when it has none.
pub fn markdown_extension(names: Vec<Vec<char>>, kind: ReferenceKind) -> (out: Vec<Vec<char>>)
    ensures
        views(out@) == with_markdown_extension(views(names@), kind),
{
    if kind != ReferenceKind::WikiLink {
        return names;
    }
    let needs = match file_name_exec(&names) {
        Some(f) => !has_extension(f),
        None => false,
    };
    if !needs {
        return names;
    }
    let mut names = names;
    let last = names.len() - 1;
    let mut name = copy_chars(&names[last]);
    name.push('.');
    name.push('m');
    name.push('d');
    let ghost before = views(names@);
    assert(name@ =~= before.last() + md_suffix());
    names.set(last, name);
    assert(views(names@) =~= before.update(before.len() - 1, before.last() + md_suffix()));
    names
}

/// Joins names, normalizes the result and gives its identity text.
fn candidate_id(names: &Vec<Vec<char>>) -> (id: Option<Vec<char>>)
    ensures
        id matches Some(c) ==> normalize_names(views(names@)) matches Some(n) && c@ == join_names(
            n,
        ),
        id is None ==> normalize_names(views(names@)) is None,
{
    match normalize(names) {
        Some(n) => Some(join(&n)),
        None => None,
    }
}

/// How the reference `raw` of the note `source_id` resolves.
fn resolve_reference(
    lookups: &NoteLookups,
    Ghost(notes): Ghost<Seq<ParsedNote>>,
    source_id: &Vec<char>,
    raw: &String,
    kind: ReferenceKind,
) -> (resolution: Resolution)
    requires
        lookups.describes(notes),
    ensures
        resolution.view() == resolution_of(notes, source_id@, raw@, kind),
{
    let raw_chars = chars_of(raw.as_str());
    let forward = forward_slash_chars(&raw_chars);
    let absolute = is_absolute_exec(&forward);
    let names = markdown_extension(names_of(&forward), kind);
    assert(views(names@) == reference_names(raw@, kind));
    let source_names = names_of(source_id);
    if !absolute && !(source_names.len() > 0 && is_absolute_exec(source_id)) {
        let mut joined: Vec<Vec<char>> = Vec::new();
        let dir_len: usize = if source_names.len() == 0 {
            0
        } else {
            source_names.len() - 1
        };
        for i in 0..dir_len
            invariant
                dir_len <= source_names@.len(),
                views(joined@) == views(source_names@).take(i as int),
        {
            let ghost before = joined@;
            let piece = copy_chars(&source_names[i]);
            joined.push(piece);
            proof {
                lemma_views_push(before, piece);
                lemma_views_take(source_names@, i as int);
            }
        }
        let ghost dir = views(joined@);
        assert(dir == source_dir_names(source_id@));
        for i in 0..names.len()
            invariant
                views(joined@) == dir + views(names@).take(i as int),
        {
            let ghost before = joined@;
            let piece = copy_chars(&names[i]);
            joined.push(piece);
            proof {
                lemma_views_push(before, piece);
                lemma_views_take(names@, i as int);
                assert(views(joined@) =~= dir + views(names@).take(i + 1));
            }
        }
        assert(views(names@).take(names@.len() as int) =~= views(names@));
        if let Some(c) = candidate_id(&joined) {
            if lookups.knows(Ghost(notes), &c) {
                return Resolution::Resolved(NoteId(string_of(c.as_slice())));
            }
        }
    }
    if !absolute {
        if let Some(c) = candidate_id(&names) {
            if lookups.knows(Ghost(notes), &c) {
                return Resolution::Resolved(NoteId(string_of(c.as_slice())));
            }
        }
    }
    let stem = match file_name_exec(&names) {
        Some(f) => stem_of(f),
        None => copy_chars(&raw_chars),
    };
    let stem_key = crate::text::lowercase_span(&stem, 0, stem.len());
    assert(stem@.subrange(0, stem@.len() as int) =~= stem@);
    let stems = lookups.stem_lookup(Ghost(notes), &stem_key);
    if stems.len() > 0 {
        return unique_or_ambiguous_exec(stems);
    }
    let alias_key = lowercase_of(raw.as_str());
    let aliases = lookups.alias_lookup(Ghost(notes), &alias_key);
    if aliases.len() > 0 {
        return unique_or_ambiguous_exec(aliases);
    }
    Resolution::Unresolved
}

fn unique_or_ambiguous_exec(matches: Vec<NoteId>) -> (resolution: Resolution)
    ensures
        resolution.view() == unique_or_ambiguous(ids(matches@)),
{
    if matches.len() == 1 {
        Resolution::Resolved(matches[0].duplicate())
    } else {
        Resolution::Ambiguous(matches)
    }
}


/// A copy of a diagnostic.
pub fn clone_diagnostic(d: &Diagnostic) -> (copy: Diagnostic)
    ensures
        copy == *d,
{
    Diagnostic {
        path: match &d.path {
            Some(p) => Some(p.clone()),
            None => None,
        },
        severity: d.severity,
        message: d.message.clone(),
    }
}

/// A copy of each diagnostic.
pub fn clone_diagnostics(v: &Vec<Diagnostic>) -> (copy: Vec<Diagnostic>)
    ensures
        copy@ == v@,
{
    let mut copy: Vec<Diagnostic> = Vec::new();
    for i in 0..v.len()
        invariant
            copy@ == v@.take(i as int),
    {
        copy.push(clone_diagnostic(&v[i]));
        assert(copy@ =~= v@.take(i + 1));
    }
    assert(v@.take(v@.len() as int) =~= v@);
    copy
}

fn unresolved_message_exec(raw: &String) -> (message: String)
    ensures
        message@ == unresolved_message(raw@),
{
    crate::text::concat("Unresolved note reference: ", raw.as_str())
}

fn ambiguous_message_exec(raw: &String, matches: &Vec<NoteId>) -> (message: String)
    ensures
        message@ == ambiguous_message(raw@, ids(matches@)),
{
    let mut text = chars_of("Ambiguous note reference `");
    extend_chars(&mut text, &chars_of(raw.as_str()));
    extend_chars(&mut text, &chars_of("` matches: "));
    let ghost start = text@;
    let ghost shown = ids(matches@).map_values(|m: Seq<char>| forward_slashes(m));
    let separator = chars_of(", ");
    for i in 0..matches.len()
        invariant
            shown == ids(matches@).map_values(|m: Seq<char>| forward_slashes(m)),
            separator@ == ", "@,
            text@ == start + join_with(shown.take(i as int), ", "@),
    {
        assert(shown.take(i + 1).drop_last() =~= shown.take(i as int));
        if i > 0 {
            extend_chars(&mut text, &separator);
        }
        let one = matches[i].display();
        extend_chars(&mut text, &chars_of(one.as_str()));
        proof {
            assert(shown[i as int] == forward_slashes(matches@[i as int]@));
            if i == 0 {
                assert(shown.take(1) =~= seq![shown[0]]);
            }
            assert(text@ =~= start + join_with(shown.take(i + 1), ", "@));
        }
    }
    assert(shown.take(matches@.len() as int) =~= shown);
    string_of(text.as_slice())
}

/// Resolves the references of the note at `j`; its backlinks are left empty.
fn resolve_note(notes: &Vec<ParsedNote>, lookups: &NoteLookups, j: usize) -> (record: NoteRecord)
    requires
        lookups.describes(notes@),
        j < notes@.len(),
    ensures
        resolves_to(notes@, notes@[j as int], record),
        record.backlinks@.len() == 0,
{
    let note = &notes[j];
    let id_chars = note_id_chars(&chars_of(note.relative_path.as_str()));
    let ghost id = id_chars@;
    let mut references: Vec<NoteId> = Vec::new();
    let mut diagnostics = clone_diagnostics(&note.diagnostics);
    let ghost parsed = note.diagnostics@;
    let ghost mut messages: Seq<Seq<char>> = Seq::empty();
    let refs = &note.unresolved_references;
    proof {
        assert(diagnostics@.take(parsed.len() as int) =~= parsed);
        assert(refs@.take(0) =~= Seq::<ReferenceTarget>::empty());
    }
    for i in 0..refs.len()
        invariant
            lookups.describes(notes@),
            j < notes@.len(),
            note == notes@[j as int],
            refs == note.unresolved_references,
            id == note_id_text(note.relative_path@),
            id_chars@ == id,
            parsed == note.diagnostics@,
            (ids(references@), messages) == resolve_references(notes@, id, refs@.take(i as int)),
            diagnostics_follow(diagnostics@, parsed, note.relative_path@, messages),
    {
        assert(refs@.take(i + 1).drop_last() =~= refs@.take(i as int));
        let r = &refs[i];
        let ghost before = diagnostics@;
        match resolve_reference(lookups, Ghost(notes@), &id_chars, &r.raw, r.kind) {
            Resolution::Resolved(target) => {
                if !crate::vault::model::contains_id(&references, &target) {
                    let ghost old_refs = references@;
                    references.push(target);
                    assert(ids(references@) =~= ids(old_refs).push(target@));
                }
            },
            Resolution::Unresolved => {
                let message = unresolved_message_exec(&r.raw);
                diagnostics.push(Diagnostic::warning(Some(note.relative_path.clone()), message));
                proof {
                    messages = messages.push(unresolved_message(r.raw@));
                    assert(diagnostics@.take(parsed.len() as int) =~= before.take(
                        parsed.len() as int,
                    ));
                    assert forall|k: int| 0 <= k < messages.len() implies is_warning(
                        #[trigger] diagnostics@[parsed.len() + k],
                        note.relative_path@,
                        messages[k],
                    ) by {
                        if k < messages.len() - 1 {
                            assert(diagnostics@[parsed.len() + k] == before[parsed.len() + k]);
                        }
                    }
                }
            },
            Resolution::Ambiguous(matches) => {
                let message = ambiguous_message_exec(&r.raw, &matches);
                diagnostics.push(Diagnostic::warning(Some(note.relative_path.clone()), message));
                proof {
                    messages = messages.push(ambiguous_message(r.raw@, ids(matches@)));
                    assert(diagnostics@.take(parsed.len() as int) =~= before.take(
                        parsed.len() as int,
                    ));
                    assert forall|k: int| 0 <= k < messages.len() implies is_warning(
                        #[trigger] diagnostics@[parsed.len() + k],
                        note.relative_path@,
                        messages[k],
                    ) by {
                        if k < messages.len() - 1 {
                            assert(diagnostics@[parsed.len() + k] == before[parsed.len() + k]);
                        }
                    }
                }
            },
        }
    }
    assert(refs@.take(refs@.len() as int) =~= refs@);
    NoteRecord {
        id: NoteId(string_of(id_chars.as_slice())),
        relative_path: note.relative_path.clone(),
        title: note.title.clone(),
        markdown_body: note.markdown_body.clone(),
        aliases: clone_strings(&note.aliases),
        tags: clone_strings(&note.tags),
        references,
        backlinks: Vec::new(),
        citations: clone_strings(&note.citations),
        diagnostics,
    }
}


/// The records that reference `target`, once per reference.
fn sources_exec(records: &Vec<NoteRecord>, target: &NoteId) -> (found: Vec<NoteId>)
    ensures
        ids(found@) == sources(records@, target@),
{
    let mut found: Vec<NoteId> = Vec::new();
    let ghost pred = |t: Seq<char>| t == target@;
    for i in 0..records.len()
        invariant
            pred == (|t: Seq<char>| t == target@),
            ids(found@) == sources(records@.take(i as int), target@),
    {
        assert(records@.take(i + 1).drop_last() =~= records@.take(i as int));
        let record = &records[i];
        let ghost start = ids(found@);
        let ghost refs = ids(record.references@);
        for k in 0..record.references.len()
            invariant
                pred == (|t: Seq<char>| t == target@),
                refs == ids(record.references@),
                ids(found@) == start + copies(record.id@, refs.take(k as int).filter(pred).len()),
        {
            assert(refs.take(k + 1) =~= refs.take(k as int).push(refs[k as int]));
            proof {
                refs.take(k as int).lemma_filter_push(refs[k as int], pred);
            }
            let ghost before = found@;
            if record.references[k].same(target) {
                found.push(record.id.duplicate());
                assert(ids(found@) =~= ids(before).push(record.id@));
                assert(copies(record.id@, refs.take(k + 1).filter(pred).len()) =~= copies(
                    record.id@,
                    refs.take(k as int).filter(pred).len(),
                ).push(record.id@));
                assert(ids(found@) =~= start + copies(
                    record.id@,
                    refs.take(k + 1).filter(pred).len(),
                ));
            }
        }
        assert(refs.take(record.references@.len() as int) =~= refs);
    }
    assert(records@.take(records@.len() as int) =~= records@);
    found
}

/// `b` is `a` with other backlinks.
pub open spec fn same_but_backlinks(a: NoteRecord, b: NoteRecord) -> bool {
    &&& a.id == b.id
    &&& a.relative_path == b.relative_path
    &&& a.title == b.title
    &&& a.markdown_body == b.markdown_body
    &&& a.aliases == b.aliases
    &&& a.tags == b.tags
    &&& a.references == b.references
    &&& a.citations == b.citations
    &&& a.diagnostics == b.diagnostics
}

/// Gives every record its backlinks.
fn attach_backlinks(records: Vec<NoteRecord>) -> (attached: Vec<NoteRecord>)
    ensures
        attached@.len() == records@.len(),
        forall|j: int|
            0 <= j < records@.len() ==> same_but_backlinks(records@[j], #[trigger] attached@[j])
                && ids(attached@[j].backlinks@) == backlinks_of(records@, j),
{
    let n = records.len();
    let mut backs: Vec<Vec<NoteId>> = Vec::new();
    for j in 0..n
        invariant
            n == records@.len(),
            backs@.len() == j,
            forall|t: int| 0 <= t < j ==> ids((#[trigger] backs@[t])@) == backlinks_of(records@, t),
    {
        let mut earlier = false;
        let mut k: usize = 0;
        while k < j
            invariant
                j < n,
                n == records@.len(),
                k <= j,
                earlier ==> exists|q: int| 0 <= q < j && (#[trigger] records@[q]).id@ == records@[j as int].id@,
                !earlier ==> forall|q: int| 0 <= q < k ==> (#[trigger] records@[q]).id@ != records@[j as int].id@,
            decreases j - k,
        {
            if records[k].id.same(&records[j].id) {
                earlier = true;
            }
            k += 1;
        }
        let mine = if earlier {
            Vec::new()
        } else {
            sources_exec(&records, &records[j].id)
        };
        proof {
            if earlier {
                assert(ids(mine@) =~= Seq::<Seq<char>>::empty());
            }
        }
        backs.push(mine);
    }
    let ghost given = records@;
    let ghost all_backs = backs@;
    let mut rest = records;
    let mut reversed: Vec<NoteRecord> = Vec::new();
    while rest.len() > 0
        invariant
            n == given.len(),
            all_backs.len() == n,
            rest@ == given.take(rest@.len() as int),
            backs@ == all_backs.take(rest@.len() as int),
            reversed@.len() == n - rest@.len(),
            forall|t: int|
                0 <= t < reversed@.len() ==> same_but_backlinks(
                    given[n - 1 - t],
                    #[trigger] reversed@[t],
                ) && reversed@[t].backlinks == all_backs[n - 1 - t],
        decreases rest.len(),
    {
        let mut record = rest.pop().unwrap();
        let links = backs.pop().unwrap();
        record.backlinks = links;
        reversed.push(record);
    }
    let mut attached: Vec<NoteRecord> = Vec::new();
    while reversed.len() > 0
        invariant
            n == given.len(),
            all_backs.len() == n,
            attached@.len() + reversed@.len() == n,
            forall|t: int|
                0 <= t < reversed@.len() ==> same_but_backlinks(
                    given[n - 1 - t],
                    #[trigger] reversed@[t],
                ) && reversed@[t].backlinks == all_backs[n - 1 - t],
            forall|t: int|
                0 <= t < attached@.len() ==> same_but_backlinks(
                    given[t],
                    #[trigger] attached@[t],
                ) && attached@[t].backlinks == all_backs[t],
        decreases reversed.len(),
    {
        let record = reversed.pop().unwrap();
        attached.push(record);
    }
    proof {
        assert forall|j: int| 0 <= j < given.len() implies same_but_backlinks(
            given[j],
            #[trigger] attached@[j],
        ) && ids(attached@[j].backlinks@) == backlinks_of(given, j) by {
            assert(ids(all_backs[j]@) == backlinks_of(given, j));
        }
    }
    attached
}

/// `records` are `notes` resolved among themselves, with backlinks attached.
pub open spec fn graph_of(notes: Seq<ParsedNote>, records: Seq<NoteRecord>) -> bool {
    &&& records.len() == notes.len()
    &&& forall|j: int|
        0 <= j < notes.len() ==> resolves_to(notes, notes[j], #[trigger] records[j]) && ids(
            records[j].backlinks@,
        ) == backlinks_of(records, j)
}

proof fn lemma_backlinks_of_depends_on_references(a: Seq<NoteRecord>, b: Seq<NoteRecord>, j: int)
    requires
        a.len() == b.len(),
        0 <= j < a.len(),
        forall|i: int| 0 <= i < a.len() ==> (#[trigger] a[i]).id == b[i].id && a[i].references == b[i].references,
    ensures
        backlinks_of(a, j) == backlinks_of(b, j),
{
    lemma_sources_depend_on_references(a, b, a[j].id@);
    if exists|k: int| 0 <= k < j && (#[trigger] a[k]).id@ == a[j].id@ {
        let k = choose|k: int| 0 <= k < j && (#[trigger] a[k]).id@ == a[j].id@;
        assert(b[k].id@ == b[j].id@);
    }
    if exists|k: int| 0 <= k < j && (#[trigger] b[k]).id@ == b[j].id@ {
        let k = choose|k: int| 0 <= k < j && (#[trigger] b[k]).id@ == b[j].id@;
        assert(a[k].id@ == a[j].id@);
    }
}

proof fn lemma_sources_depend_on_references(a: Seq<NoteRecord>, b: Seq<NoteRecord>, target: Seq<char>)
    requires
        a.len() == b.len(),
        forall|i: int| 0 <= i < a.len() ==> (#[trigger] a[i]).id == b[i].id && a[i].references == b[i].references,
    ensures
        sources(a, target) == sources(b, target),
    decreases a.len(),
{
    if a.len() > 0 {
        lemma_sources_depend_on_references(a.drop_last(), b.drop_last(), target);
        assert(a.last() == a[a.len() - 1]);
    }
}

/// Resolves the references of every note, attaches backlinks, and orders the notes by
/// lower-cased title, then by path.
pub fn resolve_graph(notes: Vec<ParsedNote>) -> (index: VaultIndex)
    ensures
        index.root@.len() == 0,
        index.diagnostics@.len() == 0,
        index.scan_duration_micros == 0,
        exists|records: Seq<NoteRecord>| #[trigger]
            graph_of(notes@, records) && stably_sorted(records, index.notes@),
{
    let lookups = NoteLookups::new(&notes);
    let mut records: Vec<NoteRecord> = Vec::new();
    for j in 0..notes.len()
        invariant
            lookups.describes(notes@),
            records@.len() == j,
            forall|t: int|
                0 <= t < j ==> resolves_to(notes@, notes@[t], #[trigger] records@[t]),
    {
        records.push(resolve_note(&notes, &lookups, j));
    }
    let ghost unattached = records@;
    let attached = attach_backlinks(records);
    proof {
        assert forall|j: int| 0 <= j < notes@.len() implies resolves_to(
            notes@,
            notes@[j],
            #[trigger] attached@[j],
        ) && ids(attached@[j].backlinks@) == backlinks_of(attached@, j) by {
            assert(same_but_backlinks(unattached[j], attached@[j]));
            assert forall|i: int| 0 <= i < unattached.len() implies (#[trigger] unattached[i]).id
                == attached@[i].id && unattached[i].references == attached@[i].references by {
                assert(same_but_backlinks(unattached[i], attached@[i]));
            }
            lemma_backlinks_of_depends_on_references(unattached, attached@, j);
        }
        assert(graph_of(notes@, attached@));
    }
    let sorted = stable_sort(attached);
    VaultIndex { root: String::new(), notes: sorted, diagnostics: Vec::new(), scan_duration_micros: 0 }
}


/// A reference resolves to the note its path names from the folder of the note that makes
/// it, when such a note exists, whatever a path from the vault root would name.
pub proof fn law_folder_relative_first(
    notes: Seq<ParsedNote>,
    source_id: Seq<char>,
    raw: Seq<char>,
    kind: ReferenceKind,
    joined: Seq<Seq<char>>,
)
    requires
        !is_absolute(forward_slashes(raw)),
        !(path_names(source_id).len() > 0 && is_absolute(source_id)),
        normalize_names(source_dir_names(source_id) + reference_names(raw, kind)) == Some(joined),
        note_ids(notes).contains(join_names(joined)),
    ensures
        resolution_of(notes, source_id, raw, kind) == ResolutionView::Resolved(join_names(joined)),
{
}

/// When the path from the note's folder names no note but the path from the vault root
/// does, the reference resolves to the latter.
pub proof fn law_vault_root_second(
    notes: Seq<ParsedNote>,
    source_id: Seq<char>,
    raw: Seq<char>,
    kind: ReferenceKind,
    rooted: Seq<Seq<char>>,
)
    requires
        !is_absolute(forward_slashes(raw)),
        relative_candidate(source_id, raw, kind) matches Some(c) ==> !note_ids(notes).contains(c),
        normalize_names(reference_names(raw, kind)) == Some(rooted),
        note_ids(notes).contains(join_names(rooted)),
    ensures
        resolution_of(notes, source_id, raw, kind) == ResolutionView::Resolved(join_names(rooted)),
{
}

} // verus!
