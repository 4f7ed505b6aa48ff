//! Reading one Markdown note: frontmatter, code spans, links, tags and citations.
use pulldown_cmark::{Event, Options, Parser, Tag, TagEnd};
use vstd::prelude::*;

use super::model::{Diagnostic, ParsedNote, ReferenceKind, ReferenceTarget};
use super::paths::{
    file_name, file_name_exec, name_stem, names_of, path_names, relative_path_of, relative_to,
    stem_of, views,
};
use super::resolve::{diagnostics_follow, is_warning};
use crate::sort::{Keyed, stable_sort, stably_sorted};
use crate::text::{
    alphanumeric, append_strings, contains_chars, before_class, byte_len, char_at_byte, char_at_byte_exec,
    lemma_char_at_byte_bounds, char_is_alphanumeric, chars_of, contains_text, copy_span,
    find_class, find_from, find_in, first_in_class, in_class, is_ascii_digit, is_in_class,
    lemma_find_from_is_first, lemma_first_in_class, lowercase, lowercase_of, lowercased,
    occurs_at, occurs_at_exec, same_chars, skip_class_backward, string_of, string_of_span,
    strip_both, strip_end, texts, trim, trimmed_span, CharClass,
};

verus! {

broadcast use vstd::seq_lib::group_seq_lib_default;

/// The tags and aliases a note's YAML frontmatter declares; each key takes one string or a
/// list of strings.
pub struct Frontmatter {
    pub tags: Vec<String>,
    pub aliases: Vec<String>,
}

/// A note's source cut at its frontmatter.
pub struct FrontmatterSplit {
    /// The YAML between the delimiters, when the frontmatter is closed.
    pub yaml: Option<String>,
    /// The Markdown after the frontmatter, or the whole source when there is none.
    pub body: String,
    /// The first line opens frontmatter that no later line closes.
    pub unclosed: bool,
}

/// The index of the first `\n` at or after `from`, or the length of `s`.
pub open spec fn line_end(s: Seq<char>, from: int) -> int
    decreases s.len() - from,
{
    if from >= s.len() {
        s.len() as int
    } else if s[from] == '\n' {
        from
    } else {
        line_end(s, from + 1)
    }
}

pub proof fn lemma_line_end(s: Seq<char>, from: int)
    requires
        0 <= from <= s.len(),
    ensures
        from <= line_end(s, from) <= s.len(),
        line_end(s, from) < s.len() ==> s[line_end(s, from)] == '\n',
        forall|k: int| from <= k < line_end(s, from) ==> s[k] != '\n',
    decreases s.len() - from,
{
    if from < s.len() && s[from] != '\n' {
        lemma_line_end(s, from + 1);
    }
}

/// `---` or `...`, once trailing carriage returns are dropped.
pub open spec fn is_closing_line(line: Seq<char>) -> bool {
    let l = strip_end(line, CharClass::CarriageReturn);
    l == seq!['-', '-', '-'] || l == seq!['.', '.', '.']
}

/// `---`, once trailing carriage returns are dropped.
pub open spec fn is_opening_line(line: Seq<char>) -> bool {
    strip_end(line, CharClass::CarriageReturn) == seq!['-', '-', '-']
}

/// The start of the first line at or after `cursor` that closes frontmatter.
pub open spec fn closing_line_from(s: Seq<char>, cursor: int) -> Option<int>
    decreases s.len() - cursor,
{
    if cursor < 0 || cursor > s.len() {
        None
    } else {
        let e = line_end(s, cursor);
        if is_closing_line(s.subrange(cursor, e)) {
            Some(cursor)
        } else if e >= s.len() {
            None
        } else {
            proof {
                lemma_line_end(s, cursor);
            }
            closing_line_from(s, e + 1)
        }
    }
}

/// How a source splits into YAML frontmatter, body and whether the frontmatter is unclosed.
pub open spec fn frontmatter_split(s: Seq<char>) -> (Option<Seq<char>>, Seq<char>, bool) {
    let first = line_end(s, 0);
    if !is_opening_line(s.subrange(0, first)) {
        (None, s, false)
    } else if first >= s.len() {
        (None, s, true)
    } else {
        match closing_line_from(s, first + 1) {
            Some(c) => {
                let e = line_end(s, c);
                let body_start = if e < s.len() {
                    e + 1
                } else {
                    e
                };
                (Some(s.subrange(first + 1, c)), s.subrange(body_start, s.len() as int), false)
            },
            None => (None, s, true),
        }
    }
}

impl FrontmatterSplit {
    pub open spec fn describes(&self, source: Seq<char>) -> bool {
        let (yaml, body, unclosed) = frontmatter_split(source);
        &&& match self.yaml {
            Some(y) => yaml == Some(y@),
            None => yaml is None,
        }
        &&& self.body@ == body
        &&& self.unclosed == unclosed
    }
}

fn line_end_exec(s: &Vec<char>, from: usize) -> (e: usize)
    requires
        from <= s.len(),
    ensures
        e == line_end(s@, from as int),
{
    proof {
        lemma_line_end(s@, from as int);
    }
    let mut i = from;
    while i < s.len() && s[i] != '\n'
        invariant
            from <= i <= s.len(),
            line_end(s@, i as int) == line_end(s@, from as int),
        decreases s.len() - i,
    {
        i += 1;
    }
    i
}

fn is_closing_span(s: &Vec<char>, start: usize, end: usize, also_dots: bool) -> (r: bool)
    requires
        start <= end <= s.len(),
    ensures
        also_dots ==> r == is_closing_line(s@.subrange(start as int, end as int)),
        !also_dots ==> r == is_opening_line(s@.subrange(start as int, end as int)),
{
    let last = skip_class_backward(s, start, end, CharClass::CarriageReturn);
    let ghost l = s@.subrange(start as int, last as int);
    if last - start != 3 {
        assert(l.len() != 3);
        return false;
    }
    let a = s[start];
    let b = s[start + 1];
    let c = s[start + 2];
    assert(l[0] == a && l[1] == b && l[2] == c);
    if a == '-' && b == '-' && c == '-' {
        assert(l =~= seq!['-', '-', '-']);
        true
    } else if also_dots && a == '.' && b == '.' && c == '.' {
        assert(l =~= seq!['.', '.', '.']);
        true
    } else {
        assert(l != seq!['-', '-', '-'] && (also_dots ==> l != seq!['.', '.', '.'])) by {
            if l == seq!['-', '-', '-'] {
                assert(l[0] == '-' && l[1] == '-' && l[2] == '-');
            }
            if l == seq!['.', '.', '.'] {
                assert(l[0] == '.' && l[1] == '.' && l[2] == '.');
            }
        }
        false
    }
}

/// Cuts `source` at its frontmatter: a first line `---`, then YAML, then a line `---` or `...`.
pub fn split_frontmatter(source: &str) -> (split: FrontmatterSplit)
    ensures
        split.describes(source@),
{
    let s = chars_of(source);
    let n = s.len();
    proof {
        lemma_line_end(s@, 0);
        assert(s@.subrange(0, n as int) =~= s@);
    }
    let first = line_end_exec(&s, 0);
    if !is_closing_span(&s, 0, first, false) {
        return FrontmatterSplit { yaml: None, body: string_of_span(&s, 0, n), unclosed: false };
    }
    if first >= n {
        return FrontmatterSplit { yaml: None, body: string_of_span(&s, 0, n), unclosed: true };
    }
    let yaml_start = first + 1;
    let mut cursor = yaml_start;
    while cursor <= n
        invariant
            n == s@.len(),
            s@ == source@,
            first == line_end(s@, 0),
            first < n,
            yaml_start == first + 1,
            is_opening_line(s@.subrange(0, first as int)),
            yaml_start <= cursor <= n,
            closing_line_from(s@, cursor as int) == closing_line_from(s@, yaml_start as int),
        ensures
            closing_line_from(s@, yaml_start as int) is None,
        decreases n - cursor,
    {
        proof {
            lemma_line_end(s@, cursor as int);
        }
        let line_end = line_end_exec(&s, cursor);
        if is_closing_span(&s, cursor, line_end, true) {
            assert(closing_line_from(s@, cursor as int) == Some(cursor as int));
            let body_start = if line_end < n {
                line_end + 1
            } else {
                line_end
            };
            return FrontmatterSplit {
                yaml: Some(string_of_span(&s, yaml_start, cursor)),
                body: string_of_span(&s, body_start, n),
                unclosed: false,
            };
        }
        if line_end == n {
            break;
        }
        cursor = line_end + 1;
    }
    FrontmatterSplit { yaml: None, body: string_of_span(&s, 0, n), unclosed: true }
}

/// `s` starts with `prefix`.
pub open spec fn starts_with(s: Seq<char>, prefix: Seq<char>) -> bool {
    occurs_at(s, prefix, 0)
}

/// The last three characters of `p` are `.md` in any ASCII case.
pub open spec fn ends_with_md(p: Seq<char>) -> bool {
    &&& p.len() >= 3
    &&& p[p.len() - 3] == '.'
    &&& (p[p.len() - 2] == 'm' || p[p.len() - 2] == 'M')
    &&& (p[p.len() - 1] == 'd' || p[p.len() - 1] == 'D')
}

/// The note path a Markdown link destination names: the destination trimmed of white space
/// and angle brackets, cut at `#` or `?`, trimmed again, when it ends with `.md`; none for
/// empty, fragment-only, protocol-relative, URL and `mailto:` destinations.
pub open spec fn markdown_link_path(destination: Seq<char>) -> Option<Seq<char>> {
    let d = strip_both(trim(destination), CharClass::AngleBracket);
    if d.len() == 0 || d[0] == '#' || starts_with(d, seq!['/', '/']) || contains_text(
        d,
        seq![':', '/', '/'],
    ) || starts_with(d, seq!['m', 'a', 'i', 'l', 't', 'o', ':']) {
        None
    } else {
        let p = trim(before_class(d, CharClass::Fragment));
        if ends_with_md(p) {
            Some(p)
        } else {
            None
        }
    }
}

/// The reference a Markdown link destination makes, if it names a local note.
pub fn markdown_reference(destination: &str) -> (target: Option<ReferenceTarget>)
    ensures
        match target {
            Some(t) => markdown_link_path(destination@) == Some(t.raw@) && t.kind
                == ReferenceKind::MarkdownLink,
            None => markdown_link_path(destination@) is None,
        },
{
    let text = chars_of(destination);
    let (a, b) = trimmed_span(&text, 0, text.len(), CharClass::WhiteSpace);
    assert(text@.subrange(0, text@.len() as int) =~= text@);
    let (c, d) = trimmed_span(&text, a, b, CharClass::AngleBracket);
    let dv = copy_span(&text, c, d);
    let slashes = vec!['/', '/'];
    let scheme = vec![':', '/', '/'];
    let mailto = vec!['m', 'a', 'i', 'l', 't', 'o', ':'];
    assert(slashes@ == seq!['/', '/']);
    assert(scheme@ == seq![':', '/', '/']);
    assert(mailto@ == seq!['m', 'a', 'i', 'l', 't', 'o', ':']);
    if dv.len() == 0 || dv[0] == '#' || occurs_at_exec(&dv, &slashes, 0) || contains_chars(
        &dv,
        &scheme,
    ) || occurs_at_exec(&dv, &mailto, 0) {
        return None;
    }
    let cut = find_class(&dv, 0, CharClass::Fragment);
    let (p0, p1) = trimmed_span(&dv, 0, cut, CharClass::WhiteSpace);
    assert(dv@.subrange(0, cut as int) == before_class(dv@, CharClass::Fragment));
    let ghost p = dv@.subrange(p0 as int, p1 as int);
    let n = p1 - p0;
    if n >= 3 && dv[p1 - 3] == '.' && (dv[p1 - 2] == 'm' || dv[p1 - 2] == 'M') && (dv[p1 - 1]
        == 'd' || dv[p1 - 1] == 'D') {
        assert(ends_with_md(p));
        Some(ReferenceTarget { raw: string_of_span(&dv, p0, p1), kind: ReferenceKind::MarkdownLink })
    } else {
        assert(!ends_with_md(p));
        None
    }
}

/// The target a wikilink's content names: the part before `|`, then before `#`, trimmed.
pub open spec fn wikilink_target(content: Seq<char>) -> Seq<char> {
    trim(before_class(before_class(content, CharClass::Pipe), CharClass::Hash))
}

/// The wikilink targets in `t` from index `cursor` on: each `[[` up to the next `]]`,
/// skipping empty targets; an unclosed `[[` ends the scan.
pub open spec fn wikilinks_from(t: Seq<char>, cursor: int) -> Seq<Seq<char>>
    decreases t.len() - cursor,
{
    if cursor < 0 {
        Seq::empty()
    } else {
        match find_from(t, seq!['[', '['], cursor) {
            None => Seq::empty(),
            Some(s) => match find_from(t, seq![']', ']'], s + 2) {
                None => Seq::empty(),
                Some(e) => {
                    proof {
                        lemma_find_from_is_first(t, seq!['[', '['], cursor);
                        lemma_find_from_is_first(t, seq![']', ']'], s + 2);
                    }
                    let raw = wikilink_target(t.subrange(s + 2, e));
                    let rest = wikilinks_from(t, e + 2);
                    if raw.len() > 0 {
                        seq![raw] + rest
                    } else {
                        rest
                    }
                },
            },
        }
    }
}

/// The wikilink target of `content`.
fn wikilink_target_exec(content: &Vec<char>) -> (raw: Vec<char>)
    ensures
        raw@ == wikilink_target(content@),
{
    let p = find_class(content, 0, CharClass::Pipe);
    let piece = copy_span(content, 0, p);
    let h = find_class(&piece, 0, CharClass::Hash);
    let (a, b) = trimmed_span(&piece, 0, h, CharClass::WhiteSpace);
    assert(piece@.subrange(0, h as int) == before_class(piece@, CharClass::Hash));
    copy_span(&piece, a, b)
}

/// The views of references: their raw text and kind.
pub open spec fn reference_views(refs: Seq<ReferenceTarget>) -> Seq<(Seq<char>, ReferenceKind)> {
    refs.map_values(|r: ReferenceTarget| (r.raw@, r.kind))
}

/// Wikilinks as references.
pub open spec fn as_wikilinks(raws: Seq<Seq<char>>) -> Seq<(Seq<char>, ReferenceKind)> {
    raws.map_values(|raw: Seq<char>| (raw, ReferenceKind::WikiLink))
}

/// The wikilinks written in `t`, in order.
pub fn scan_wikilinks(t: &Vec<char>) -> (found: Vec<ReferenceTarget>)
    ensures
        reference_views(found@) == as_wikilinks(wikilinks_from(t@, 0)),
{
    let open = vec!['[', '['];
    let close = vec![']', ']'];
    assert(open@ == seq!['[', '[']);
    assert(close@ == seq![']', ']']);
    assert(t@.subrange(0, t@.len() as int) =~= t@);
    let mut found: Vec<ReferenceTarget> = Vec::new();
    let mut cursor: usize = 0;
    while cursor <= t.len()
        invariant
            open@ == seq!['[', '['],
            close@ == seq![']', ']'],
            t@.subrange(0, t@.len() as int) == t@,
            cursor <= t.len(),
            reference_views(found@) + as_wikilinks(wikilinks_from(t@, cursor as int)) == as_wikilinks(
                wikilinks_from(t@, 0),
            ),
        decreases t.len() - cursor,
    {
        proof {
            lemma_find_from_is_first(t@, open@, cursor as int);
        }
        let start = match find_in(t, &open, cursor, t.len()) {
            Some(s) => s,
            None => {
                assert(wikilinks_from(t@, cursor as int) =~= Seq::<Seq<char>>::empty());
                assert(reference_views(found@) =~= as_wikilinks(wikilinks_from(t@, 0)));
                return found;
            },
        };
        let content_start = start + 2;
        proof {
            lemma_find_from_is_first(t@, close@, content_start as int);
        }
        let content_end = match find_in(t, &close, content_start, t.len()) {
            Some(e) => e,
            None => {
                assert(wikilinks_from(t@, cursor as int) =~= Seq::<Seq<char>>::empty());
                assert(reference_views(found@) =~= as_wikilinks(wikilinks_from(t@, 0)));
                return found;
            },
        };
        let content = copy_span(t, content_start, content_end);
        let raw = wikilink_target_exec(&content);
        let ghost rest = wikilinks_from(t@, content_end + 2);
        let ghost before = reference_views(found@);
        if raw.len() > 0 {
            found.push(ReferenceTarget { raw: string_of(raw.as_slice()), kind: ReferenceKind::WikiLink });
            assert(reference_views(found@) =~= before.push((raw@, ReferenceKind::WikiLink)));
            assert(as_wikilinks(seq![raw@] + rest) =~= seq![(raw@, ReferenceKind::WikiLink)] + as_wikilinks(rest));
            assert(reference_views(found@) + as_wikilinks(rest) =~= before + as_wikilinks(seq![raw@] + rest));
        }
        cursor = content_end + 2;
    }
    assert(false);
    found
}

/// `#` for tags, `@` for citations.
#[derive(Clone, Copy, Debug, PartialEq, Eq)]
pub enum Sigil {
    Tag,
    Citation,
}

/// A character of a tag: alphanumeric, `_`, `-` or `/`.
pub open spec fn is_tag_char(c: char) -> bool {
    alphanumeric(c) || c == '_' || c == '-' || c == '/'
}

/// A character before `@` that makes it part of a word (an e-mail address) rather than a
/// citation.
pub open spec fn attaches_to_citation(c: char) -> bool {
    alphanumeric(c) || c == '_' || c == '.' || c == '+' || c == '-' || c == '%' || c == '/'
}

/// A character of a citation key.
pub open spec fn is_citation_char(c: char) -> bool {
    ||| alphanumeric(c)
    ||| c == '_' || c == '-' || c == ':' || c == '.' || c == '/' || c == '+'
    ||| c == '?' || c == '$' || c == '%' || c == '&' || c == '~' || c == '#'
}

pub open spec fn sigil_char(kind: Sigil) -> char {
    match kind {
        Sigil::Tag => '#',
        Sigil::Citation => '@',
    }
}

/// A character before the sigil that keeps it from starting a token.
pub open spec fn attaches(kind: Sigil, c: char) -> bool {
    match kind {
        Sigil::Tag => is_tag_char(c),
        Sigil::Citation => attaches_to_citation(c),
    }
}

/// A character a token is made of.
pub open spec fn in_token(kind: Sigil, c: char) -> bool {
    match kind {
        Sigil::Tag => is_tag_char(c),
        Sigil::Citation => is_citation_char(c),
    }
}

fn attaches_exec(kind: Sigil, c: char) -> (r: bool)
    ensures
        r == attaches(kind, c),
{
    match kind {
        Sigil::Tag => char_is_alphanumeric(c) || c == '_' || c == '-' || c == '/',
        Sigil::Citation => char_is_alphanumeric(c) || c == '_' || c == '.' || c == '+' || c == '-'
            || c == '%' || c == '/',
    }
}

fn in_token_exec(kind: Sigil, c: char) -> (r: bool)
    ensures
        r == in_token(kind, c),
{
    match kind {
        Sigil::Tag => char_is_alphanumeric(c) || c == '_' || c == '-' || c == '/',
        Sigil::Citation => char_is_alphanumeric(c) || c == '_' || c == '-' || c == ':' || c == '.'
            || c == '/' || c == '+' || c == '?' || c == '$' || c == '%' || c == '&' || c == '~'
            || c == '#',
    }
}

/// The end of the token that starts at `from`: the first character not of the token.
pub open spec fn token_end(t: Seq<char>, from: int, kind: Sigil) -> int
    decreases t.len() - from,
{
    if from >= t.len() {
        t.len() as int
    } else if !in_token(kind, t[from]) {
        from
    } else {
        token_end(t, from + 1, kind)
    }
}

proof fn lemma_token_end(t: Seq<char>, from: int, kind: Sigil)
    requires
        0 <= from <= t.len(),
    ensures
        from <= token_end(t, from, kind) <= t.len(),
    decreases t.len() - from,
{
    if from < t.len() && in_token(kind, t[from]) {
        lemma_token_end(t, from + 1, kind);
    }
}

/// What a token gives: a tag is trimmed of `/` and must not be empty or start with a digit;
/// a citation loses trailing `.`, `:` and `?` and must not be empty.
pub open spec fn token_value(token: Seq<char>, kind: Sigil) -> Option<Seq<char>> {
    match kind {
        Sigil::Tag => {
            let tag = strip_both(token, CharClass::Slash);
            if tag.len() > 0 && !is_ascii_digit(tag[0]) {
                Some(tag)
            } else {
                None
            }
        },
        Sigil::Citation => {
            let citation = strip_end(token, CharClass::CitationTail);
            if citation.len() > 0 {
                Some(citation)
            } else {
                None
            }
        },
    }
}

/// The tags (or citations) written in `t` from index `i` on: each sigil not attached to the
/// character before it starts a token of the characters after it.
pub open spec fn sigil_values_from(t: Seq<char>, i: int, kind: Sigil) -> Seq<Seq<char>>
    decreases t.len() - i,
{
    if i < 0 || i >= t.len() {
        Seq::empty()
    } else {
        let rest = sigil_values_from(t, i + 1, kind);
        if t[i] == sigil_char(kind) && (i == 0 || !attaches(kind, t[i - 1])) {
            let e = token_end(t, i + 1, kind);
            if e > i + 1 {
                match token_value(t.subrange(i + 1, e), kind) {
                    Some(v) => seq![v] + rest,
                    None => rest,
                }
            } else {
                rest
            }
        } else {
            rest
        }
    }
}

fn token_value_exec(t: &Vec<char>, start: usize, end: usize, kind: Sigil) -> (value: Option<Vec<char>>)
    requires
        start <= end <= t.len(),
    ensures
        match value {
            Some(v) => token_value(t@.subrange(start as int, end as int), kind) == Some(v@),
            None => token_value(t@.subrange(start as int, end as int), kind) is None,
        },
{
    match kind {
        Sigil::Tag => {
            let (a, b) = trimmed_span(t, start, end, CharClass::Slash);
            if a < b && !('0' <= t[a] && t[a] <= '9') {
                assert(t@.subrange(a as int, b as int)[0] == t@[a as int]);
                Some(copy_span(t, a, b))
            } else {
                assert(b > a ==> t@.subrange(a as int, b as int)[0] == t@[a as int]);
                None
            }
        },
        Sigil::Citation => {
            let b = skip_class_backward(t, start, end, CharClass::CitationTail);
            if start < b {
                Some(copy_span(t, start, b))
            } else {
                None
            }
        },
    }
}

/// The tags (or citations) written in `t`, in order.
pub fn scan_sigil_values(t: &Vec<char>, kind: Sigil) -> (values: Vec<String>)
    ensures
        texts(values@) == sigil_values_from(t@, 0, kind),
{
    let sigil = match kind {
        Sigil::Tag => '#',
        Sigil::Citation => '@',
    };
    let mut values: Vec<String> = Vec::new();
    let mut i: usize = 0;
    while i < t.len()
        invariant
            sigil == sigil_char(kind),
            i <= t.len(),
            texts(values@) + sigil_values_from(t@, i as int, kind) == sigil_values_from(t@, 0, kind),
        decreases t.len() - i,
    {
        let ghost rest = sigil_values_from(t@, i + 1, kind);
        let ghost before = texts(values@);
        if t[i] == sigil && (i == 0 || !attaches_exec(kind, t[i - 1])) {
            proof {
                lemma_token_end(t@, i + 1, kind);
            }
            let mut e = i + 1;
            while e < t.len() && in_token_exec(kind, t[e])
                invariant
                    i + 1 <= e <= t.len(),
                    token_end(t@, e as int, kind) == token_end(t@, i + 1, kind),
                decreases t.len() - e,
            {
                e += 1;
            }
            if e > i + 1 {
                match token_value_exec(t, i + 1, e, kind) {
                    Some(v) => {
                        values.push(string_of(v.as_slice()));
                        assert(texts(values@) =~= before.push(v@));
                        assert(texts(values@) + rest =~= before + (seq![v@] + rest));
                    },
                    None => {},
                }
            }
        }
        i += 1;
    }
    assert(sigil_values_from(t@, i as int, kind) =~= Seq::<Seq<char>>::empty());
    assert(texts(values@) =~= sigil_values_from(t@, 0, kind));
    values
}

/// A value trimmed, and for tags without one leading `#`.
pub open spec fn clean_value(v: Seq<char>, strip_hash: bool) -> Seq<char> {
    let t = trim(v);
    if strip_hash && t.len() > 0 && t[0] == '#' {
        t.drop_first()
    } else {
        t
    }
}

/// The cleaned values, without empty ones and without later ones equal to an earlier one
/// apart from case.
pub open spec fn dedup_texts(values: Seq<Seq<char>>, strip_hash: bool) -> Seq<Seq<char>>
    decreases values.len(),
{
    if values.len() == 0 {
        Seq::empty()
    } else {
        let kept = dedup_texts(values.drop_last(), strip_hash);
        let v = clean_value(values.last(), strip_hash);
        if v.len() == 0 || lowercased(kept).contains(lowercase(v)) {
            kept
        } else {
            kept.push(v)
        }
    }
}

/// Whether `lowered` holds `key`.
fn holds_chars(lowered: &Vec<Vec<char>>, key: &Vec<char>) -> (r: bool)
    ensures
        r == crate::vault::paths::views(lowered@).contains(key@),
{
    let ghost vs = crate::vault::paths::views(lowered@);
    let mut i: usize = 0;
    while i < lowered.len()
        invariant
            vs == crate::vault::paths::views(lowered@),
            i <= lowered.len(),
            forall|k: int| 0 <= k < i ==> vs[k] != key@,
        decreases lowered.len() - i,
    {
        if same_chars(&lowered[i], key) {
            assert(vs[i as int] == key@);
            return true;
        }
        i += 1;
    }
    false
}

/// Cleans `values` and keeps the first of each case-insensitive duplicate.
pub fn deduplicate_strings(values: &Vec<String>, strip_hash: bool) -> (kept: Vec<String>)
    ensures
        texts(kept@) == dedup_texts(texts(values@), strip_hash),
{
    let ghost all = texts(values@);
    let mut kept: Vec<String> = Vec::new();
    let mut seen: Vec<Vec<char>> = Vec::new();
    for i in 0..values.len()
        invariant
            all == texts(values@),
            texts(kept@) == dedup_texts(all.take(i as int), strip_hash),
            crate::vault::paths::views(seen@) == lowercased(texts(kept@)),
    {
        assert(all.take(i + 1).drop_last() =~= all.take(i as int));
        assert(all.take(i + 1).last() == values@[i as int]@);
        let text = chars_of(values[i].as_str());
        let (a, b) = trimmed_span(&text, 0, text.len(), CharClass::WhiteSpace);
        assert(text@.subrange(0, text@.len() as int) =~= text@);
        let start = if strip_hash && a < b && text[a] == '#' {
            assert(text@.subrange(a as int, b as int).drop_first() =~= text@.subrange(a + 1, b as int));
            a + 1
        } else {
            a
        };
        let value = copy_span(&text, start, b);
        assert(value@ == clean_value(values@[i as int]@, strip_hash));
        if value.len() > 0 {
            let lower = lowercase_of(string_of(value.as_slice()).as_str());
            if !holds_chars(&seen, &lower) {
                let ghost before = texts(kept@);
                let ghost before_seen = crate::vault::paths::views(seen@);
                kept.push(string_of(value.as_slice()));
                seen.push(lower);
                assert(texts(kept@) =~= before.push(value@));
                assert(crate::vault::paths::views(seen@) =~= before_seen.push(lower@));
                assert(lowercased(texts(kept@)) =~= lowercased(before).push(lowercase(value@)));
            }
        }
    }
    assert(all.take(values@.len() as int) =~= all);
    kept
}

/// The references without later ones whose raw text equals an earlier one's apart from case.
pub open spec fn dedup_references(refs: Seq<(Seq<char>, ReferenceKind)>) -> Seq<(Seq<char>, ReferenceKind)>
    decreases refs.len(),
{
    if refs.len() == 0 {
        Seq::empty()
    } else {
        let kept = dedup_references(refs.drop_last());
        let raws = kept.map_values(|r: (Seq<char>, ReferenceKind)| lowercase(r.0));
        if raws.contains(lowercase(refs.last().0)) {
            kept
        } else {
            kept.push(refs.last())
        }
    }
}

/// Keeps the first reference of each case-insensitive raw text.
pub fn deduplicate_references(refs: &Vec<ReferenceTarget>) -> (kept: Vec<ReferenceTarget>)
    ensures
        reference_views(kept@) == dedup_references(reference_views(refs@)),
{
    let ghost all = reference_views(refs@);
    let mut kept: Vec<ReferenceTarget> = Vec::new();
    let mut seen: Vec<Vec<char>> = Vec::new();
    for i in 0..refs.len()
        invariant
            all == reference_views(refs@),
            reference_views(kept@) == dedup_references(all.take(i as int)),
            crate::vault::paths::views(seen@) == reference_views(kept@).map_values(
                |r: (Seq<char>, ReferenceKind)| lowercase(r.0),
            ),
    {
        assert(all.take(i + 1).drop_last() =~= all.take(i as int));
        assert(all.take(i + 1).last() == all[i as int]);
        let r = ReferenceTarget { raw: refs[i].raw.clone(), kind: refs[i].kind };
        assert((r.raw@, r.kind) == all[i as int]);
        let lower = lowercase_of(r.raw.as_str());
        if !holds_chars(&seen, &lower) {
            let ghost before = reference_views(kept@);
            let ghost before_seen = crate::vault::paths::views(seen@);
            kept.push(r);
            seen.push(lower);
            assert(reference_views(kept@) =~= before.push(all[i as int]));
            assert(crate::vault::paths::views(seen@) =~= before_seen.push(lower@));
            assert(reference_views(kept@).map_values(|r: (Seq<char>, ReferenceKind)| lowercase(r.0))
                =~= before.map_values(|r: (Seq<char>, ReferenceKind)| lowercase(r.0)).push(lower@));
        }
    }
    assert(all.take(refs@.len() as int) =~= all);
    kept
}

/// What the note reader takes from one event of the Markdown parser; offsets are bytes of the
/// body's UTF-8 encoding.
pub enum MarkdownEvent {
    /// A code block opens at this offset.
    CodeBlockStart(usize),
    /// A code block closes; it ends at this offset.
    CodeBlockEnd(usize),
    /// Inline code spans these offsets.
    Code(usize, usize),
    /// A link opens, with this destination.
    Link(String),
    /// Anything else.
    Other,
}

/// A [`MarkdownEvent`] with its destination as characters.
pub enum MarkdownEventView {
    CodeBlockStart(usize),
    CodeBlockEnd(usize),
    Code(usize, usize),
    Link(Seq<char>),
    Other,
}

impl View for MarkdownEvent {
    type V = MarkdownEventView;

    open spec fn view(&self) -> MarkdownEventView {
        match self {
            MarkdownEvent::CodeBlockStart(s) => MarkdownEventView::CodeBlockStart(*s),
            MarkdownEvent::CodeBlockEnd(e) => MarkdownEventView::CodeBlockEnd(*e),
            MarkdownEvent::Code(s, e) => MarkdownEventView::Code(*s, *e),
            MarkdownEvent::Link(d) => MarkdownEventView::Link(d@),
            MarkdownEvent::Other => MarkdownEventView::Other,
        }
    }
}

/// The events that pulldown-cmark gives for `body` with strikethrough enabled, each with
/// the byte range of its source.
pub uninterp spec fn markdown_events(body: Seq<char>) -> Seq<MarkdownEventView>;

/// `pulldown_cmark::Parser::new_ext(body, ENABLE_STRIKETHROUGH).into_offset_iter()`, each
/// event reduced to what the note reader uses: the start of a code block, the end of one,
/// an inline code span, the destination of a link, or nothing.
#[verifier::external_body]
fn markdown_events_of(body: &str) -> (events: Vec<MarkdownEvent>)
    ensures
        events@.map_values(|e: MarkdownEvent| e@) == markdown_events(body@),
{
    let mut events = Vec::new();
    for (event, range) in Parser::new_ext(body, Options::ENABLE_STRIKETHROUGH).into_offset_iter() {
        events.push(match event {
            Event::Start(Tag::CodeBlock(_)) => MarkdownEvent::CodeBlockStart(range.start),
            Event::End(TagEnd::CodeBlock) => MarkdownEvent::CodeBlockEnd(range.end),
            Event::Code(_) => MarkdownEvent::Code(range.start, range.end),
            Event::Start(Tag::Link { dest_url, .. }) => MarkdownEvent::Link(dest_url.into_string()),
            _ => MarkdownEvent::Other,
        });
    }
    events
}

/// A half-open range of character indices.
#[derive(Clone, Copy, Debug, PartialEq, Eq)]
pub struct CodeSpan {
    pub start: usize,
    pub end: usize,
}

impl Keyed for CodeSpan {
    open spec fn sort_key(&self) -> Seq<u64> {
        seq![self.start as u64]
    }

    fn sort_key_exec(&self) -> (key: Vec<u64>) {
        let key = vec![self.start as u64];
        assert(key@ =~= seq![self.start as u64]);
        key
    }
}

/// The spans as pairs of integers.
pub open spec fn span_views(spans: Seq<CodeSpan>) -> Seq<(int, int)> {
    spans.map_values(|c: CodeSpan| (c.start as int, c.end as int))
}

/// The state of reading events in order: the start of an open code block, the byte ranges of
/// the code seen, and the destinations of links outside code blocks.
pub open spec fn event_state(events: Seq<MarkdownEventView>) -> (Option<int>, Seq<(int, int)>, Seq<Seq<char>>)
    decreases events.len(),
{
    if events.len() == 0 {
        (None, Seq::empty(), Seq::empty())
    } else {
        let (open, ranges, links) = event_state(events.drop_last());
        match events.last() {
            MarkdownEventView::CodeBlockStart(s) => (Some(s as int), ranges, links),
            MarkdownEventView::CodeBlockEnd(e) => match open {
                Some(s) => (None, ranges.push((s, e as int)), links),
                None => (open, ranges, links),
            },
            MarkdownEventView::Code(s, e) => (open, ranges.push((s as int, e as int)), links),
            MarkdownEventView::Link(d) => if open is None {
                (open, ranges, links.push(d))
            } else {
                (open, ranges, links)
            },
            MarkdownEventView::Other => (open, ranges, links),
        }
    }
}

/// The code of a body in character indices: the code ranges of its events, and a code block
/// left open runs to the end.
pub open spec fn code_spans(body: Seq<char>, events: Seq<MarkdownEventView>) -> Seq<CodeSpan> {
    let (open, ranges, links) = event_state(events);
    let spans = ranges.map_values(
        |r: (int, int)|
            CodeSpan {
                start: char_at_byte(body, r.0) as usize,
                end: char_at_byte(body, r.1) as usize,
            },
    );
    match open {
        Some(s) => spans.push(CodeSpan { start: char_at_byte(body, s) as usize, end: body.len() as usize }),
        None => spans,
    }
}

/// The note paths that the link destinations name.
pub open spec fn link_paths(links: Seq<Seq<char>>) -> Seq<Seq<char>>
    decreases links.len(),
{
    if links.len() == 0 {
        Seq::empty()
    } else {
        let before = link_paths(links.drop_last());
        match markdown_link_path(links.last()) {
            Some(p) => before.push(p),
            None => before,
        }
    }
}

/// Markdown links as references.
pub open spec fn as_markdown_links(raws: Seq<Seq<char>>) -> Seq<(Seq<char>, ReferenceKind)> {
    raws.map_values(|raw: Seq<char>| (raw, ReferenceKind::MarkdownLink))
}

/// Walking sorted code ranges over a text of length `len`: where the walk stands, and the
/// stretches between code passed so far.
pub open spec fn segment_walk(len: int, ranges: Seq<(int, int)>) -> (int, Seq<(int, int)>)
    decreases ranges.len(),
{
    if ranges.len() == 0 {
        (0, Seq::empty())
    } else {
        let (cursor, segments) = segment_walk(len, ranges.drop_last());
        let r = ranges.last();
        let clamped_start = if r.0 < len {
            r.0
        } else {
            len
        };
        let start = if clamped_start > cursor {
            clamped_start
        } else {
            cursor
        };
        let clamped_end = if r.1 < len {
            r.1
        } else {
            len
        };
        let end = if clamped_end > start {
            clamped_end
        } else {
            start
        };
        (
            if end > cursor {
                end
            } else {
                cursor
            },
            if cursor < start {
                segments.push((cursor, start))
            } else {
                segments
            },
        )
    }
}

/// The stretches of a text of length `len` outside the code ranges, which are sorted by start.
pub open spec fn non_code_stretches(len: int, ranges: Seq<(int, int)>) -> Seq<(int, int)> {
    let (cursor, segments) = segment_walk(len, ranges);
    if cursor < len {
        segments.push((cursor, len))
    } else {
        segments
    }
}

/// Stretches lie in order inside a text of length `len` and are not empty.
pub open spec fn valid_stretches(len: int, segments: Seq<(int, int)>) -> bool {
    forall|k: int| 0 <= k < segments.len() ==> 0 <= (#[trigger] segments[k]).0 < segments[k].1 <= len
}

/// The stretches of a body outside the code that its events mark: the code spans sorted
/// stably by start, then walked.
pub open spec fn body_segments(body: Seq<char>, events: Seq<MarkdownEventView>, segments: Seq<(int, int)>) -> bool {
    exists|sorted: Seq<CodeSpan>|
        stably_sorted(code_spans(body, events), sorted) && segments == non_code_stretches(
            body.len() as int,
            #[trigger] span_views(sorted),
        )
}

/// The stretches of a text of length `len` outside the spans in `excluded`.
pub fn non_code_segments(len: usize, excluded: Vec<CodeSpan>) -> (segments: Vec<CodeSpan>)
    ensures
        exists|sorted: Seq<CodeSpan>|
            stably_sorted(excluded@, sorted) && span_views(segments@) == non_code_stretches(
                len as int,
                #[trigger] span_views(sorted),
            ),
        valid_stretches(len as int, span_views(segments@)),
{
    let ghost input = excluded@;
    let sorted = stable_sort(excluded);
    let ghost sv = span_views(sorted@);
    let mut segments: Vec<CodeSpan> = Vec::new();
    let mut cursor: usize = 0;
    for i in 0..sorted.len()
        invariant
            sv == span_views(sorted@),
            (cursor as int, span_views(segments@)) == segment_walk(len as int, sv.take(i as int)),
            cursor <= len,
            valid_stretches(len as int, span_views(segments@)),
            forall|k: int| 0 <= k < segments@.len() ==> (#[trigger] segments@[k]).end <= cursor,
    {
        assert(sv.take(i + 1).drop_last() =~= sv.take(i as int));
        assert(sv.take(i + 1).last() == sv[i as int]);
        let r = sorted[i];
        let clamped_start = if r.start < len {
            r.start
        } else {
            len
        };
        let start = if clamped_start > cursor {
            clamped_start
        } else {
            cursor
        };
        let clamped_end = if r.end < len {
            r.end
        } else {
            len
        };
        let end = if clamped_end > start {
            clamped_end
        } else {
            start
        };
        let ghost before = span_views(segments@);
        if cursor < start {
            segments.push(CodeSpan { start: cursor, end: start });
            assert(span_views(segments@) =~= before.push((cursor as int, start as int)));
        }
        if end > cursor {
            cursor = end;
        }
    }
    assert(sv.take(sorted@.len() as int) =~= sv);
    let ghost before = span_views(segments@);
    if cursor < len {
        segments.push(CodeSpan { start: cursor, end: len });
        assert(span_views(segments@) =~= before.push((cursor as int, len as int)));
    }
    segments
}

/// The tags (or citations) of the stretches, in order.
pub open spec fn stretch_values(body: Seq<char>, segments: Seq<(int, int)>, kind: Sigil) -> Seq<Seq<char>>
    decreases segments.len(),
{
    if segments.len() == 0 {
        Seq::empty()
    } else {
        stretch_values(body, segments.drop_last(), kind) + sigil_values_from(
            body.subrange(segments.last().0, segments.last().1),
            0,
            kind,
        )
    }
}

/// The wikilink targets of the stretches, in order.
pub open spec fn stretch_wikilinks(body: Seq<char>, segments: Seq<(int, int)>) -> Seq<Seq<char>>
    decreases segments.len(),
{
    if segments.len() == 0 {
        Seq::empty()
    } else {
        stretch_wikilinks(body, segments.drop_last()) + wikilinks_from(
            body.subrange(segments.last().0, segments.last().1),
            0,
        )
    }
}

/// The title of the note at `rel`: its file stem, or `Untitled` when that is blank or absent.
pub open spec fn note_title(rel: Seq<char>) -> Seq<char> {
    match file_name(path_names(rel)) {
        Some(n) => if trim(name_stem(n)).len() > 0 {
            name_stem(n)
        } else {
            "Untitled"@
        },
        None => "Untitled"@,
    }
}

fn note_title_exec(rel: &Vec<char>) -> (title: Vec<char>)
    ensures
        title@ == note_title(rel@),
{
    let names = names_of(rel);
    assert(views(names@) == path_names(rel@));
    match file_name_exec(&names) {
        Some(n) => {
            let stem = stem_of(n);
            let (a, b) = trimmed_span(&stem, 0, stem.len(), CharClass::WhiteSpace);
            assert(stem@.subrange(0, stem@.len() as int) =~= stem@);
            if a < b {
                stem
            } else {
                chars_of("Untitled")
            }
        },
        None => chars_of("Untitled"),
    }
}

pub open spec fn unclosed_message() -> Seq<char> {
    "Frontmatter starts with `---` but has no closing delimiter"@
}

pub open spec fn yaml_error_message(error: Seq<char>) -> Seq<char> {
    "Could not parse YAML frontmatter: "@ + error
}

/// The warnings of a note: unclosed frontmatter, then frontmatter that did not parse.
pub open spec fn parse_messages(source: Seq<char>, frontmatter: Result<Frontmatter, String>) -> Seq<Seq<char>> {
    let (yaml, body, unclosed) = frontmatter_split(source);
    let first = if unclosed {
        seq![unclosed_message()]
    } else {
        Seq::empty()
    };
    let second = match frontmatter {
        Err(e) => if yaml is Some {
            seq![yaml_error_message(e@)]
        } else {
            Seq::empty()
        },
        Ok(f) => Seq::empty(),
    };
    first + second
}

/// The frontmatter's tags and aliases, when the source has frontmatter and it parsed.
pub open spec fn declared(source: Seq<char>, frontmatter: Result<Frontmatter, String>) -> (Seq<Seq<char>>, Seq<Seq<char>>) {
    let (yaml, body, unclosed) = frontmatter_split(source);
    match frontmatter {
        Ok(f) => if yaml is Some {
            (texts(f.tags@), texts(f.aliases@))
        } else {
            (Seq::empty(), Seq::empty())
        },
        Err(e) => (Seq::empty(), Seq::empty()),
    }
}

/// `note` is what the file at `path` under `root` with text `source` reads as, given the
/// outcome of parsing its YAML frontmatter and the Markdown events of its body.
pub open spec fn parses_to(
    root: Seq<char>,
    path: Seq<char>,
    source: Seq<char>,
    frontmatter: Result<Frontmatter, String>,
    events: Seq<MarkdownEventView>,
    note: ParsedNote,
) -> bool {
    let rel = relative_to(root, path);
    let (yaml, body, unclosed) = frontmatter_split(source);
    let (tags, aliases) = declared(source, frontmatter);
    let (open, ranges, links) = event_state(events);
    &&& note.relative_path@ == rel
    &&& note.title@ == note_title(rel)
    &&& note.markdown_body@ == body
    &&& texts(note.aliases@) == dedup_texts(aliases, false)
    &&& exists|segments: Seq<(int, int)>|
        #[trigger] body_segments(body, events, segments) && {
            &&& texts(note.tags@) == dedup_texts(tags + stretch_values(body, segments, Sigil::Tag), true)
            &&& reference_views(note.unresolved_references@) == dedup_references(
                as_markdown_links(link_paths(links)) + as_wikilinks(stretch_wikilinks(body, segments)),
            )
            &&& texts(note.citations@) == dedup_texts(stretch_values(body, segments, Sigil::Citation), false)
        }
    &&& diagnostics_follow(note.diagnostics@, Seq::empty(), rel, parse_messages(source, frontmatter))
}

/// Appends copies of the references of `src` to `dst`.
fn append_references(dst: &mut Vec<ReferenceTarget>, src: &Vec<ReferenceTarget>)
    ensures
        reference_views(final(dst)@) == reference_views(old(dst)@) + reference_views(src@),
{
    let ghost start = reference_views(dst@);
    let ghost all = reference_views(src@);
    for i in 0..src.len()
        invariant
            all == reference_views(src@),
            reference_views(dst@) == start + all.take(i as int),
    {
        let ghost before = dst@;
        let x = ReferenceTarget { raw: src[i].raw.clone(), kind: src[i].kind };
        dst.push(x);
        assert(reference_views(dst@) =~= reference_views(before).push((x.raw@, x.kind)));
        assert(all.take(i + 1) =~= all.take(i as int).push((x.raw@, x.kind)));
        assert(reference_views(dst@) =~= start + all.take(i + 1));
    }
    assert(all.take(src@.len() as int) =~= all);
}

/// Reads a note from its text and the Markdown events of its body; `frontmatter` is the
/// outcome of parsing the YAML that [`split_frontmatter`] finds, and is not read when it finds
/// none.
pub fn parse_note_with_events(
    root: &str,
    path: &str,
    source: &str,
    frontmatter: Result<Frontmatter, String>,
    events: &Vec<MarkdownEvent>,
) -> (note: ParsedNote)
    ensures
        parses_to(root@, path@, source@, frontmatter, events@.map_values(|e: MarkdownEvent| e@), note),
{
    let ghost ev = events@.map_values(|e: MarkdownEvent| e@);
    let rel = relative_path_of(&chars_of(root), &chars_of(path));
    let split = split_frontmatter(source);
    let body = chars_of(split.body.as_str());
    let n = body.len();
    let ghost rel_v = relative_to(root@, path@);
    let ghost messages = parse_messages(source@, frontmatter);
    let mut diagnostics: Vec<Diagnostic> = Vec::new();
    if split.unclosed {
        diagnostics.push(Diagnostic::warning(
            Some(string_of(rel.as_slice())),
            string_of(chars_of("Frontmatter starts with `---` but has no closing delimiter").as_slice()),
        ));
    }
    assert(diagnostics@.len() == (if split.unclosed { 1int } else { 0int }));
    assert(split.unclosed ==> is_warning(diagnostics@[0], rel_v, unclosed_message()));
    let mut declared_tags: Vec<String> = Vec::new();
    let mut declared_aliases: Vec<String> = Vec::new();
    let ghost d0 = diagnostics@;
    match (&split.yaml, frontmatter) {
        (Some(_), Ok(f)) => {
            declared_tags = f.tags;
            declared_aliases = f.aliases;
        },
        (Some(_), Err(e)) => {
            let d = Diagnostic::warning(
                Some(string_of(rel.as_slice())),
                crate::text::concat("Could not parse YAML frontmatter: ", e.as_str()),
            );
            assert(is_warning(d, rel_v, yaml_error_message(e@)));
            diagnostics.push(d);
        },
        _ => {},
    }
    assert(diagnostics_follow(diagnostics@, Seq::empty(), rel_v, messages)) by {
        assert(diagnostics@.take(0) =~= Seq::<Diagnostic>::empty());
        assert(forall|i: int| 0 <= i < d0.len() ==> diagnostics@[i] == d0[i]);
    }
    let mut open: Option<usize> = None;
    let mut spans: Vec<CodeSpan> = Vec::new();
    let mut references: Vec<ReferenceTarget> = Vec::new();
    for i in 0..events.len()
        invariant
            ev == events@.map_values(|e: MarkdownEvent| e@),
            body@ == split.body@,
            n == body@.len(),
            ({
                let (o, ranges, links) = event_state(ev.take(i as int));
                &&& (match open {
                    Some(s) => o == Some(s as int),
                    None => o is None,
                })
                &&& spans@ == ranges.map_values(
                    |r: (int, int)|
                        CodeSpan {
                            start: char_at_byte(body@, r.0) as usize,
                            end: char_at_byte(body@, r.1) as usize,
                        },
                )
                &&& reference_views(references@) == as_markdown_links(link_paths(links))
            }),
    {
        assert(ev.take(i + 1).drop_last() =~= ev.take(i as int));
        assert(ev.take(i + 1).last() == events@[i as int]@);
        let ghost (o0, ranges0, links0) = event_state(ev.take(i as int));
        let ghost spans0 = spans@;
        let ghost refs0 = reference_views(references@);
        match &events[i] {
            MarkdownEvent::CodeBlockStart(s) => {
                open = Some(*s);
            },
            MarkdownEvent::CodeBlockEnd(e) => {
                if let Some(s) = open {
                    spans.push(CodeSpan { start: char_at_byte_exec(&body, s), end: char_at_byte_exec(&body, *e) });
                    assert(spans@ =~= ranges0.push((s as int, *e as int)).map_values(
                        |r: (int, int)|
                            CodeSpan {
                                start: char_at_byte(body@, r.0) as usize,
                                end: char_at_byte(body@, r.1) as usize,
                            },
                    ));
                    open = None;
                }
            },
            MarkdownEvent::Code(s, e) => {
                spans.push(CodeSpan { start: char_at_byte_exec(&body, *s), end: char_at_byte_exec(&body, *e) });
                assert(spans@ =~= ranges0.push((*s as int, *e as int)).map_values(
                    |r: (int, int)|
                        CodeSpan {
                            start: char_at_byte(body@, r.0) as usize,
                            end: char_at_byte(body@, r.1) as usize,
                        },
                ));
            },
            MarkdownEvent::Link(d) => {
                if open.is_none() {
                    match markdown_reference(d.as_str()) {
                        Some(t) => {
                            let ghost tv = (t.raw@, t.kind);
                            references.push(t);
                            assert(reference_views(references@) =~= refs0.push(tv));
                            assert(link_paths(links0.push(d@)) == link_paths(links0).push(t.raw@)) by {
                                assert(links0.push(d@).drop_last() =~= links0);
                            }
                            assert(as_markdown_links(link_paths(links0).push(t.raw@)) =~= as_markdown_links(
                                link_paths(links0),
                            ).push(tv));
                        },
                        None => {
                            assert(link_paths(links0.push(d@)) == link_paths(links0)) by {
                                assert(links0.push(d@).drop_last() =~= links0);
                            }
                        },
                    }
                }
            },
            MarkdownEvent::Other => {},
        }
    }
    assert(ev.take(events@.len() as int) =~= ev);
    let ghost (o_end, ranges_end, links_end) = event_state(ev);
    proof {
        lemma_char_at_byte_bounds(body@, 0);
    }
    if let Some(s) = open {
        spans.push(CodeSpan { start: char_at_byte_exec(&body, s), end: n });
    }
    assert(spans@ == code_spans(body@, ev));
    let segments = non_code_segments(n, spans);
    let ghost sv = span_views(segments@);
    assert(body_segments(body@, ev, sv));
    let mut inline_tags: Vec<String> = Vec::new();
    let mut citations: Vec<String> = Vec::new();
    let ghost link_refs = reference_views(references@);
    for k in 0..segments.len()
        invariant
            sv == span_views(segments@),
            valid_stretches(n as int, sv),
            n == body@.len(),
            texts(inline_tags@) == stretch_values(body@, sv.take(k as int), Sigil::Tag),
            texts(citations@) == stretch_values(body@, sv.take(k as int), Sigil::Citation),
            reference_views(references@) == link_refs + as_wikilinks(stretch_wikilinks(body@, sv.take(k as int))),
    {
        assert(sv.take(k + 1).drop_last() =~= sv.take(k as int));
        assert(sv.take(k + 1).last() == sv[k as int]);
        assert(0 <= sv[k as int].0 < sv[k as int].1 <= n);
        let seg = segments[k];
        let text = copy_span(&body, seg.start, seg.end);
        let tags_here = scan_sigil_values(&text, Sigil::Tag);
        let cites_here = scan_sigil_values(&text, Sigil::Citation);
        let links_here = scan_wikilinks(&text);
        let ghost t0 = texts(inline_tags@);
        let ghost c0 = texts(citations@);
        let ghost r0 = reference_views(references@);
        append_strings(&mut inline_tags, &tags_here);
        append_strings(&mut citations, &cites_here);
        append_references(&mut references, &links_here);
        assert(as_wikilinks(stretch_wikilinks(body@, sv.take(k + 1))) =~= as_wikilinks(
            stretch_wikilinks(body@, sv.take(k as int)),
        ) + as_wikilinks(wikilinks_from(text@, 0)));
        assert(reference_views(references@) =~= link_refs + as_wikilinks(stretch_wikilinks(body@, sv.take(k + 1))));
    }
    assert(sv.take(segments@.len() as int) =~= sv);
    append_strings(&mut declared_tags, &inline_tags);
    let title = note_title_exec(&rel);
    let note = ParsedNote {
        relative_path: string_of(rel.as_slice()),
        title: string_of(title.as_slice()),
        markdown_body: split.body,
        aliases: deduplicate_strings(&declared_aliases, false),
        tags: deduplicate_strings(&declared_tags, true),
        unresolved_references: deduplicate_references(&references),
        citations: deduplicate_strings(&citations, false),
        diagnostics,
    };
    note
}

/// Reads the note at `path` under `root` with text `source`. `frontmatter` is the outcome of
/// parsing the YAML that [`split_frontmatter`] finds in `source`; it is not read when there
/// is none.
pub fn parse_note(root: &str, path: &str, source: &str, frontmatter: Result<Frontmatter, String>) -> (note: ParsedNote)
    ensures
        parses_to(root@, path@, source@, frontmatter, markdown_events(frontmatter_split(source@).1), note),
{
    let split = split_frontmatter(source);
    let events = markdown_events_of(split.body.as_str());
    parse_note_with_events(root, path, source, frontmatter, &events)
}


/// Deduplicated values are pairwise different even ignoring case, and none is empty.
pub proof fn law_deduplicated_values_are_distinct(values: Seq<Seq<char>>, strip_hash: bool)
    ensures
        forall|i: int, j: int|
            0 <= i < j < dedup_texts(values, strip_hash).len() ==> lowercase(
                #[trigger] dedup_texts(values, strip_hash)[i],
            ) != lowercase(#[trigger] dedup_texts(values, strip_hash)[j]),
        forall|i: int|
            0 <= i < dedup_texts(values, strip_hash).len() ==> (#[trigger] dedup_texts(values, strip_hash)[i]).len() > 0,
    decreases values.len(),
{
    if values.len() > 0 {
        law_deduplicated_values_are_distinct(values.drop_last(), strip_hash);
        let kept = dedup_texts(values.drop_last(), strip_hash);
        let v = clean_value(values.last(), strip_hash);
        if !(v.len() == 0 || lowercased(kept).contains(lowercase(v))) {
            let out = kept.push(v);
            assert forall|i: int, j: int| 0 <= i < j < out.len() implies lowercase(#[trigger] out[i])
                != lowercase(#[trigger] out[j]) by {
                if j == out.len() - 1 {
                    assert(lowercased(kept)[i] == lowercase(kept[i]));
                }
            }
        }
    }
}

/// Deduplicated references have pairwise different raw texts, even ignoring case.
pub proof fn law_deduplicated_references_are_distinct(refs: Seq<(Seq<char>, ReferenceKind)>)
    ensures
        forall|i: int, j: int|
            0 <= i < j < dedup_references(refs).len() ==> lowercase(
                (#[trigger] dedup_references(refs)[i]).0,
            ) != lowercase((#[trigger] dedup_references(refs)[j]).0),
    decreases refs.len(),
{
    if refs.len() > 0 {
        law_deduplicated_references_are_distinct(refs.drop_last());
        let kept = dedup_references(refs.drop_last());
        let raws = kept.map_values(|r: (Seq<char>, ReferenceKind)| lowercase(r.0));
        if !raws.contains(lowercase(refs.last().0)) {
            let out = kept.push(refs.last());
            assert forall|i: int, j: int| 0 <= i < j < out.len() implies lowercase(
                (#[trigger] out[i]).0,
            ) != lowercase((#[trigger] out[j]).0) by {
                if j == out.len() - 1 {
                    assert(raws[i] == lowercase(kept[i].0));
                }
            }
        }
    }
}


/// A character that continues an inline tag: alphanumeric, `_`, `-` or `/`.
pub open spec fn continues_tag(c: char) -> bool {
    alphanumeric(c) || c == '_' || c == '-' || c == '/'
}

proof fn lemma_tag_token_runs_to(t: Seq<char>, k: int, e: int)
    requires
        0 <= k <= e <= t.len(),
        forall|m: int| k <= m < e ==> continues_tag(#[trigger] t[m]),
        e == t.len() || !continues_tag(t[e]),
    ensures
        token_end(t, k, Sigil::Tag) == e,
    decreases e - k,
{
    if k < e {
        lemma_tag_token_runs_to(t, k + 1, e);
    }
}

/// An inline tag runs over every character after its `#` that is alphanumeric, `_`, `-` or
/// `/`, up to the first that is not: a `#` that no such character precedes gives the tag
/// made of all of them (without `/` at its ends), ahead of the tags written after it.
pub proof fn law_tag_takes_every_tag_character(t: Seq<char>, i: int, e: int)
    requires
        0 <= i < e <= t.len(),
        t[i] == '#',
        i == 0 || !continues_tag(t[i - 1]),
        forall|m: int| i < m < e ==> continues_tag(#[trigger] t[m]),
        e == t.len() || !continues_tag(t[e]),
        strip_both(t.subrange(i + 1, e), CharClass::Slash).len() > 0,
        !is_ascii_digit(strip_both(t.subrange(i + 1, e), CharClass::Slash)[0]),
    ensures
        sigil_values_from(t, i, Sigil::Tag) == seq![strip_both(t.subrange(i + 1, e), CharClass::Slash)]
            + sigil_values_from(t, i + 1, Sigil::Tag),
{
    lemma_tag_token_runs_to(t, i + 1, e);
}

/// A `#` right after a character that continues a tag (alphanumeric, `_`, `-` or `/`), as in
/// `a#b`, starts no tag.
pub proof fn law_attached_hash_starts_no_tag(t: Seq<char>, i: int)
    requires
        0 < i < t.len(),
        continues_tag(t[i - 1]),
    ensures
        sigil_values_from(t, i, Sigil::Tag) == sigil_values_from(t, i + 1, Sigil::Tag),
{
}

} // verus!
