//! Character-level text helpers shared by the parser, the resolver and search.
//!
//! Text is handled as sequences of `char`; spans into such sequences are
//! half-open index ranges.
use vstd::prelude::*;

verus! {

/// The characters of `s`, in order.
pub fn chars_of(s: &str) -> (chars: Vec<char>)
    ensures
        chars@ == s@,
{
    broadcast use vstd::string::group_string_axioms;

    let mut chars: Vec<char> = Vec::new();
    for c in it: s.chars()
        invariant
            it.seq() == s@,
            chars@ == it.seq().take(it.index() as int),
    {
        chars.push(c);
    }
    chars
}


/// Appends `c` to `s`: `String::push`.
#[verifier::external_body]
pub(crate) fn push_char(s: &mut String, c: char)
    ensures
        final(s)@ == old(s)@.push(c),
{
    s.push(c);
}

/// The string made of `chars`.
pub fn string_of(chars: &[char]) -> (s: String)
    ensures
        s@ == chars@,
{
    let mut s = String::new();
    for i in 0..chars.len()
        invariant
            s@ == chars@.take(i as int),
    {
        push_char(&mut s, chars[i]);
        assert(chars@.take(i + 1) == chars@.take(i as int).push(chars@[i as int]));
    }
    assert(chars@.take(chars@.len() as int) == chars@);
    s
}

/// The string made of `chars[start..end]`.
pub fn string_of_span(chars: &Vec<char>, start: usize, end: usize) -> (s: String)
    requires
        start <= end <= chars.len(),
    ensures
        s@ == chars@.subrange(start as int, end as int),
{
    let mut s = String::new();
    let mut i: usize = start;
    while i < end
        invariant
            start <= i <= end <= chars.len(),
            s@ == chars@.subrange(start as int, i as int),
        decreases end - i,
    {
        push_char(&mut s, chars[i]);
        assert(chars@.subrange(start as int, i + 1) == chars@.subrange(start as int, i as int).push(
            chars@[i as int],
        ));
        i += 1;
    }
    s
}

/// Unicode `White_Space`, the property that `char::is_whitespace` and `str::trim` use.
pub open spec fn is_white_space(c: char) -> bool {
    let u = c as u32;
    ||| 0x09 <= u <= 0x0D
    ||| u == 0x20
    ||| u == 0x85
    ||| u == 0xA0
    ||| u == 0x1680
    ||| 0x2000 <= u <= 0x200A
    ||| u == 0x2028
    ||| u == 0x2029
    ||| u == 0x202F
    ||| u == 0x205F
    ||| u == 0x3000
}

/// The character sets that the parser trims or scans by.
#[derive(Clone, Copy, Debug, PartialEq, Eq)]
pub enum CharClass {
    /// Unicode white space.
    WhiteSpace,
    /// `/`.
    Slash,
    /// `.`, `:` and `?`, which end a sentence rather than a citation key.
    CitationTail,
    /// `\r` and `\n`.
    LineBreak,
    /// ` `, `\t`, `\r` and `\n`.
    Blank,
    /// `<` and `>`.
    AngleBracket,
    /// `\r`.
    CarriageReturn,
    /// `#`.
    Hash,
    /// `|`.
    Pipe,
    /// `#` and `?`, which start the fragment or the query of a link.
    Fragment,
}

pub open spec fn in_class(c: char, class: CharClass) -> bool {
    match class {
        CharClass::WhiteSpace => is_white_space(c),
        CharClass::Slash => c == '/',
        CharClass::CitationTail => c == '.' || c == ':' || c == '?',
        CharClass::LineBreak => c == '\r' || c == '\n',
        CharClass::Blank => c == ' ' || c == '\t' || c == '\r' || c == '\n',
        CharClass::AngleBracket => c == '<' || c == '>',
        CharClass::CarriageReturn => c == '\r',
        CharClass::Hash => c == '#',
        CharClass::Pipe => c == '|',
        CharClass::Fragment => c == '#' || c == '?',
    }
}

pub fn is_in_class(c: char, class: CharClass) -> (r: bool)
    ensures
        r == in_class(c, class),
{
    match class {
        CharClass::WhiteSpace => {
            let u = c as u32;
            (0x09 <= u && u <= 0x0D) || u == 0x20 || u == 0x85 || u == 0xA0 || u == 0x1680 || (
            0x2000 <= u && u <= 0x200A) || u == 0x2028 || u == 0x2029 || u == 0x202F || u == 0x205F
                || u == 0x3000
        },
        CharClass::Slash => c == '/',
        CharClass::CitationTail => c == '.' || c == ':' || c == '?',
        CharClass::LineBreak => c == '\r' || c == '\n',
        CharClass::Blank => c == ' ' || c == '\t' || c == '\r' || c == '\n',
        CharClass::AngleBracket => c == '<' || c == '>',
        CharClass::CarriageReturn => c == '\r',
        CharClass::Hash => c == '#',
        CharClass::Pipe => c == '|',
        CharClass::Fragment => c == '#' || c == '?',
    }
}

/// `s` without its leading characters of `class`.
pub open spec fn strip_start(s: Seq<char>, class: CharClass) -> Seq<char>
    decreases s.len(),
{
    if s.len() > 0 && in_class(s[0], class) {
        strip_start(s.drop_first(), class)
    } else {
        s
    }
}

/// `s` without its trailing characters of `class`.
pub open spec fn strip_end(s: Seq<char>, class: CharClass) -> Seq<char>
    decreases s.len(),
{
    if s.len() > 0 && in_class(s.last(), class) {
        strip_end(s.drop_last(), class)
    } else {
        s
    }
}

/// `s` without leading and trailing characters of `class` (`str::trim_matches`).
pub open spec fn strip_both(s: Seq<char>, class: CharClass) -> Seq<char> {
    strip_end(strip_start(s, class), class)
}

/// `str::trim`.
pub open spec fn trim(s: Seq<char>) -> Seq<char> {
    strip_both(s, CharClass::WhiteSpace)
}

/// The first index at or after `start` (and before `end`) whose character is not of `class`.
pub fn skip_class_forward(text: &Vec<char>, start: usize, end: usize, class: CharClass) -> (first: usize)
    requires
        start <= end <= text.len(),
    ensures
        start <= first <= end,
        text@.subrange(first as int, end as int) == strip_start(
            text@.subrange(start as int, end as int),
            class,
        ),
{
    let mut i: usize = start;
    while i < end && is_in_class(text[i], class)
        invariant
            start <= i <= end <= text.len(),
            strip_start(text@.subrange(i as int, end as int), class) == strip_start(
                text@.subrange(start as int, end as int),
                class,
            ),
        decreases end - i,
    {
        assert(text@.subrange(i as int, end as int).drop_first() == text@.subrange(
            i + 1,
            end as int,
        ));
        i += 1;
    }
    i
}

/// The end of `text[start..end]` once its trailing characters of `class` are dropped.
pub fn skip_class_backward(text: &Vec<char>, start: usize, end: usize, class: CharClass) -> (last: usize)
    requires
        start <= end <= text.len(),
    ensures
        start <= last <= end,
        text@.subrange(start as int, last as int) == strip_end(
            text@.subrange(start as int, end as int),
            class,
        ),
{
    let mut j: usize = end;
    while j > start && is_in_class(text[j - 1], class)
        invariant
            start <= j <= end <= text.len(),
            strip_end(text@.subrange(start as int, j as int), class) == strip_end(
                text@.subrange(start as int, end as int),
                class,
            ),
        decreases j - start,
    {
        assert(text@.subrange(start as int, j as int).drop_last() == text@.subrange(
            start as int,
            j - 1,
        ));
        j -= 1;
    }
    j
}

/// The span of `text[start..end]` once characters of `class` are dropped from both ends.
pub fn trimmed_span(text: &Vec<char>, start: usize, end: usize, class: CharClass) -> (span: (usize, usize))
    requires
        start <= end <= text.len(),
    ensures
        start <= span.0 <= span.1 <= end,
        text@.subrange(span.0 as int, span.1 as int) == strip_both(
            text@.subrange(start as int, end as int),
            class,
        ),
{
    let first = skip_class_forward(text, start, end, class);
    let last = skip_class_backward(text, first, end, class);
    (first, last)
}

/// The first index at or after `from` whose character is of `class`, or the length of `s`.
pub open spec fn first_in_class(s: Seq<char>, from: int, class: CharClass) -> int
    decreases s.len() - from,
{
    if from >= s.len() {
        s.len() as int
    } else if in_class(s[from], class) {
        from
    } else {
        first_in_class(s, from + 1, class)
    }
}

pub proof fn lemma_first_in_class(s: Seq<char>, from: int, class: CharClass)
    requires
        0 <= from <= s.len(),
    ensures
        from <= first_in_class(s, from, class) <= s.len(),
        first_in_class(s, from, class) < s.len() ==> in_class(s[first_in_class(s, from, class)], class),
        forall|k: int| from <= k < first_in_class(s, from, class) ==> !in_class(s[k], class),
    decreases s.len() - from,
{
    if from < s.len() && !in_class(s[from], class) {
        lemma_first_in_class(s, from + 1, class);
    }
}

/// The part of `s` before its first character of `class` (`split(..).next()`).
pub open spec fn before_class(s: Seq<char>, class: CharClass) -> Seq<char> {
    s.take(first_in_class(s, 0, class))
}

/// The first index at or after `from` whose character is of `class`, or the length.
pub fn find_class(s: &Vec<char>, from: usize, class: CharClass) -> (k: usize)
    requires
        from <= s.len(),
    ensures
        k == first_in_class(s@, from as int, class),
        from <= k <= s.len(),
{
    proof {
        lemma_first_in_class(s@, from as int, class);
    }
    let mut i = from;
    while i < s.len() && !is_in_class(s[i], class)
        invariant
            from <= i <= s.len(),
            first_in_class(s@, i as int, class) == first_in_class(s@, from as int, class),
        decreases s.len() - i,
    {
        i += 1;
    }
    i
}

/// A copy of `text[start..end]`.
pub fn copy_span(text: &Vec<char>, start: usize, end: usize) -> (piece: Vec<char>)
    requires
        start <= end <= text.len(),
    ensures
        piece@ == text@.subrange(start as int, end as int),
{
    let mut piece: Vec<char> = Vec::new();
    let mut i = start;
    while i < end
        invariant
            start <= i <= end <= text.len(),
            piece@ == text@.subrange(start as int, i as int),
        decreases end - i,
    {
        piece.push(text[i]);
        assert(piece@ =~= text@.subrange(start as int, i + 1));
        i += 1;
    }
    piece
}

/// `needle` occurs in `haystack` at index `at`.
pub open spec fn occurs_at(haystack: Seq<char>, needle: Seq<char>, at: int) -> bool {
    0 <= at && at + needle.len() <= haystack.len() && haystack.subrange(at, at + needle.len())
        == needle
}

/// The first index at or after `from` where `needle` occurs in `haystack` (`str::find`).
pub open spec fn find_from(haystack: Seq<char>, needle: Seq<char>, from: int) -> Option<int>
    decreases haystack.len() + 1 - from,
{
    if from < 0 || from + needle.len() > haystack.len() {
        None
    } else if occurs_at(haystack, needle, from) {
        Some(from)
    } else {
        find_from(haystack, needle, from + 1)
    }
}

/// `needle` occurs somewhere in `haystack` (`str::contains`).
pub open spec fn contains_text(haystack: Seq<char>, needle: Seq<char>) -> bool {
    exists|at: int| occurs_at(haystack, needle, at)
}

pub proof fn lemma_find_from_is_first(haystack: Seq<char>, needle: Seq<char>, from: int)
    requires
        0 <= from,
    ensures
        find_from(haystack, needle, from) matches Some(at) ==> from <= at && occurs_at(
            haystack,
            needle,
            at,
        ),
        find_from(haystack, needle, from) is None ==> forall|at: int|
            from <= at ==> !occurs_at(haystack, needle, at),
        forall|at: int|
            from <= at && occurs_at(haystack, needle, at) ==> find_from(haystack, needle, from)
                is Some && find_from(haystack, needle, from)->0 <= at,
    decreases haystack.len() + 1 - from,
{
    if from + needle.len() > haystack.len() {
    } else if occurs_at(haystack, needle, from) {
    } else {
        lemma_find_from_is_first(haystack, needle, from + 1);
        assert forall|at: int| from <= at && occurs_at(haystack, needle, at) implies at
            >= from + 1 by {
            if at == from {
            }
        }
    }
}

/// Whether `text[at..]` starts with `needle`.
pub fn occurs_at_exec(text: &Vec<char>, needle: &Vec<char>, at: usize) -> (r: bool)
    ensures
        r == occurs_at(text@, needle@, at as int),
{
    if at > text.len() || needle.len() > text.len() - at {
        return false;
    }
    let mut k: usize = 0;
    while k < needle.len()
        invariant
            at + needle.len() <= text.len(),
            k <= needle.len(),
            forall|j: int| 0 <= j < k ==> text@[at + j] == needle@[j],
        decreases needle.len() - k,
    {
        if text[at + k] != needle[k] {
            assert(text@.subrange(at as int, at + needle.len())[k as int] != needle@[k as int]);
            return false;
        }
        k += 1;
    }
    assert(text@.subrange(at as int, at + needle.len()) == needle@);
    true
}

/// The first occurrence of `needle` in `text` at or after `from` and ending by `end`.
pub fn find_in(text: &Vec<char>, needle: &Vec<char>, from: usize, end: usize) -> (found: Option<usize>)
    requires
        from <= end <= text.len(),
    ensures
        found == (match find_from(text@.subrange(0, end as int), needle@, from as int) {
            Some(at) => Some(at as usize),
            None => None,
        }),
{
    let ghost hay = text@.subrange(0, end as int);
    let mut i: usize = from;
    while needle.len() <= end - i
        invariant
            from <= i,
            i <= end,
            end <= text.len(),
            hay == text@.subrange(0, end as int),
            find_from(hay, needle@, i as int) == find_from(hay, needle@, from as int),
        decreases end + 1 - i,
    {
        if occurs_at_exec(text, needle, i) {
            assert(occurs_at(hay, needle@, i as int)) by {
                assert(hay.subrange(i as int, i + needle@.len()) == text@.subrange(
                    i as int,
                    i + needle@.len(),
                ));
            }
            return Some(i);
        }
        assert(!occurs_at(hay, needle@, i as int)) by {
            assert(hay.subrange(i as int, i + needle@.len()) == text@.subrange(
                i as int,
                i + needle@.len(),
            ));
        }
        if needle.len() == 0 {
            assert(occurs_at(hay, needle@, i as int)) by {
                assert(hay.subrange(i as int, i as int) =~= needle@);
            }
        }
        i = i + 1;
    }
    None
}


/// What `str::to_lowercase` returns for a text (Unicode lower-casing, with its
/// context rules such as the final sigma).
pub uninterp spec fn lowercase(text: Seq<char>) -> Seq<char>;

/// `str::to_lowercase`: each character replaced by its lower-case mapping, of one or more
/// characters, so the result is empty exactly when the text is.
#[verifier::external_body]
pub(crate) fn str_to_lowercase(text: &str) -> (lower: String)
    ensures
        lower@ == lowercase(text@),
        lower@.len() == 0 <==> text@.len() == 0,
{
    text.to_lowercase()
}

/// The lower-cased texts.
pub open spec fn lowercased(texts: Seq<Seq<char>>) -> Seq<Seq<char>> {
    texts.map_values(|t: Seq<char>| lowercase(t))
}

/// The lower-cased characters of `text[start..end]`.
pub fn lowercase_span(text: &Vec<char>, start: usize, end: usize) -> (lower: Vec<char>)
    requires
        start <= end <= text.len(),
    ensures
        lower@ == lowercase(text@.subrange(start as int, end as int)),
{
    let piece = string_of_span(text, start, end);
    let lower = str_to_lowercase(piece.as_str());
    chars_of(lower.as_str())
}

/// The lower-cased characters of `text`.
pub fn lowercase_of(text: &str) -> (lower: Vec<char>)
    ensures
        lower@ == lowercase(text@),
        lower@.len() == 0 <==> text@.len() == 0,
{
    let lower = str_to_lowercase(text);
    chars_of(lower.as_str())
}

/// What `char::is_alphanumeric` returns for a character (Unicode `Alphabetic` or `Numeric`).
pub uninterp spec fn alphanumeric(c: char) -> bool;

/// `char::is_alphanumeric`.
#[verifier::external_body]
pub(crate) fn char_is_alphanumeric(c: char) -> (r: bool)
    ensures
        r == alphanumeric(c),
{
    c.is_alphanumeric()
}

/// `char::is_ascii_digit`.
pub open spec fn is_ascii_digit(c: char) -> bool {
    '0' <= c && c <= '9'
}

/// Whether two character sequences are equal.
pub fn same_chars(a: &Vec<char>, b: &Vec<char>) -> (r: bool)
    ensures
        r == (a@ == b@),
{
    if a.len() != b.len() {
        return false;
    }
    let mut i: usize = 0;
    while i < a.len()
        invariant
            a.len() == b.len(),
            i <= a.len(),
            forall|j: int| 0 <= j < i ==> a@[j] == b@[j],
        decreases a.len() - i,
    {
        if a[i] != b[i] {
            return false;
        }
        i += 1;
    }
    assert(a@ =~= b@);
    true
}

/// Whether two strings are equal.
pub fn same_text(a: &String, b: &String) -> (r: bool)
    ensures
        r == (a@ == b@),
{
    String::eq(a, b)
}

/// A copy of each string.
pub fn clone_strings(v: &Vec<String>) -> (copy: Vec<String>)
    ensures
        copy@ == v@,
{
    let mut copy: Vec<String> = Vec::new();
    for i in 0..v.len()
        invariant
            copy@ == v@.take(i as int),
    {
        copy.push(v[i].clone());
        assert(copy@ =~= v@.take(i + 1));
    }
    assert(v@.take(v@.len() as int) =~= v@);
    copy
}

/// The views of a sequence of strings.
pub open spec fn texts(v: Seq<String>) -> Seq<Seq<char>> {
    v.map_values(|s: String| s@)
}


pub proof fn lemma_texts_push(v: Seq<String>, x: String)
    ensures
        texts(v.push(x)) == texts(v).push(x@),
{
    assert(texts(v.push(x)) =~= texts(v).push(x@));
}

/// Appends copies of the strings of `src` to `dst`.
pub fn append_strings(dst: &mut Vec<String>, src: &Vec<String>)
    ensures
        texts(final(dst)@) == texts(old(dst)@) + texts(src@),
{
    let ghost start = texts(dst@);
    let ghost all = texts(src@);
    for i in 0..src.len()
        invariant
            all == texts(src@),
            texts(dst@) == start + all.take(i as int),
    {
        let ghost before = dst@;
        let x = src[i].clone();
        dst.push(x);
        proof {
            lemma_texts_push(before, x);
            assert(all.take(i + 1) =~= all.take(i as int).push(x@));
        }
        assert(texts(dst@) =~= start + all.take(i + 1));
    }
    assert(all.take(src@.len() as int) =~= all);
}

/// `a` followed by `b`.
pub fn concat(a: &str, b: &str) -> (joined: String)
    ensures
        joined@ == a@ + b@,
{
    let mut chars = chars_of(a);
    let tail = chars_of(b);
    let ghost start = chars@;
    for i in 0..tail.len()
        invariant
            chars@ == start + tail@.take(i as int),
    {
        chars.push(tail[i]);
        assert(chars@ =~= start + tail@.take(i + 1));
    }
    assert(tail@.take(tail@.len() as int) =~= tail@);
    string_of(chars.as_slice())
}

/// `chars` followed by `tail`.
pub fn extend_chars(chars: &mut Vec<char>, tail: &Vec<char>)
    ensures
        final(chars)@ == old(chars)@ + tail@,
{
    let ghost start = chars@;
    for i in 0..tail.len()
        invariant
            chars@ == start + tail@.take(i as int),
    {
        chars.push(tail[i]);
        assert(chars@ =~= start + tail@.take(i + 1));
    }
    assert(tail@.take(tail@.len() as int) =~= tail@);
}


/// Texts joined with a separator.
pub open spec fn join_with(parts: Seq<Seq<char>>, separator: Seq<char>) -> Seq<char>
    decreases parts.len(),
{
    if parts.len() == 0 {
        Seq::empty()
    } else if parts.len() == 1 {
        parts[0]
    } else {
        join_with(parts.drop_last(), separator) + separator + parts.last()
    }
}

/// The number of bytes `c` takes in UTF-8.
pub open spec fn utf8_len(c: char) -> int {
    let u = c as u32;
    if u < 0x80 {
        1
    } else if u < 0x800 {
        2
    } else if u < 0x10000 {
        3
    } else {
        4
    }
}

/// The number of characters of `s` that start before byte `b` of its UTF-8 encoding: the
/// character index of a byte offset, and the length of `s` past its end.
pub open spec fn char_at_byte(s: Seq<char>, b: int) -> int
    decreases s.len(),
{
    if s.len() == 0 || b <= 0 {
        0
    } else {
        1 + char_at_byte(s.drop_first(), b - utf8_len(s[0]))
    }
}

pub proof fn lemma_char_at_byte_bounds(s: Seq<char>, b: int)
    ensures
        0 <= char_at_byte(s, b) <= s.len(),
    decreases s.len(),
{
    if s.len() > 0 && b > 0 {
        lemma_char_at_byte_bounds(s.drop_first(), b - utf8_len(s[0]));
    }
}

/// The length of the UTF-8 encoding of `s`.
pub open spec fn byte_len(s: Seq<char>) -> int
    decreases s.len(),
{
    if s.len() == 0 {
        0
    } else {
        utf8_len(s[0]) + byte_len(s.drop_first())
    }
}

pub fn utf8_len_exec(c: char) -> (n: usize)
    ensures
        n == utf8_len(c),
{
    let u = c as u32;
    if u < 0x80 {
        1
    } else if u < 0x800 {
        2
    } else if u < 0x10000 {
        3
    } else {
        4
    }
}

/// The character index of byte offset `b` in `s`.
pub fn char_at_byte_exec(s: &Vec<char>, b: usize) -> (i: usize)
    ensures
        i == char_at_byte(s@, b as int),
        i <= s.len(),
{
    let mut i: usize = 0;
    let mut rem = b;
    assert(s@.skip(0) =~= s@);
    while i < s.len() && rem > 0
        invariant
            i <= s.len(),
            char_at_byte(s@, b as int) == i + char_at_byte(s@.skip(i as int), rem as int),
        decreases s.len() - i,
    {
        let w = utf8_len_exec(s[i]);
        assert(s@.skip(i as int).drop_first() =~= s@.skip(i + 1));
        assert(s@.skip(i as int)[0] == s@[i as int]);
        assert(char_at_byte(s@.skip(i as int), rem as int) == 1 + char_at_byte(
            s@.skip(i + 1),
            rem - w,
        ));
        assert(char_at_byte(s@.skip(i + 1), 0) == 0);
        rem = if rem > w {
            rem - w
        } else {
            0
        };
        i += 1;
    }
    proof {
        if i == s.len() {
            assert(s@.skip(i as int).len() == 0);
        }
    }
    i
}

/// Whether `needle` occurs in `text`.
pub fn contains_chars(text: &Vec<char>, needle: &Vec<char>) -> (r: bool)
    ensures
        r == contains_text(text@, needle@),
{
    proof {
        lemma_find_from_is_first(text@, needle@, 0);
        assert(text@.subrange(0, text@.len() as int) =~= text@);
    }
    match find_in(text, needle, 0, text.len()) {
        Some(at) => {
            assert(occurs_at(text@, needle@, at as int));
            true
        },
        None => false,
    }
}


/// The parts of `s` between white space characters, empty ones included.
pub open spec fn split_white(s: Seq<char>) -> Seq<Seq<char>>
    decreases s.len(),
{
    if s.len() == 0 {
        seq![Seq::<char>::empty()]
    } else {
        let rest = split_white(s.drop_last());
        if is_white_space(s.last()) {
            rest.push(Seq::<char>::empty())
        } else {
            rest.update(rest.len() - 1, rest.last().push(s.last()))
        }
    }
}

proof fn lemma_split_white_nonempty(s: Seq<char>)
    ensures
        split_white(s).len() >= 1,
    decreases s.len(),
{
    if s.len() > 0 {
        lemma_split_white_nonempty(s.drop_last());
    }
}

/// The words of `s`: its maximal runs of characters that are not white space
/// (`str::split_whitespace`).
pub open spec fn words(s: Seq<char>) -> Seq<Seq<char>> {
    split_white(s).filter(|w: Seq<char>| w.len() > 0)
}

/// The words of `s` joined with single spaces.
pub open spec fn collapse_white_space(s: Seq<char>) -> Seq<char> {
    join_with(words(s), seq![' '])
}

/// The words of `s`.
pub fn words_of(s: &Vec<char>) -> (found: Vec<Vec<char>>)
    ensures
        found@.map_values(|w: Vec<char>| w@) == words(s@),
{
    let mut found: Vec<Vec<char>> = Vec::new();
    let mut current: Vec<char> = Vec::new();
    let ghost pred = |w: Seq<char>| w.len() > 0;
    for i in 0..s.len()
        invariant
            pred == (|w: Seq<char>| w.len() > 0),
            split_white(s@.take(i as int)).len() >= 1,
            current@ == split_white(s@.take(i as int)).last(),
            found@.map_values(|w: Vec<char>| w@) == split_white(s@.take(i as int)).drop_last().filter(
                pred,
            ),
    {
        let ghost pieces = split_white(s@.take(i as int));
        assert(s@.take(i + 1).drop_last() =~= s@.take(i as int));
        let c = s[i];
        if is_in_class(c, CharClass::WhiteSpace) {
            let ghost old_found = found@.map_values(|w: Vec<char>| w@);
            let finished = current;
            if finished.len() > 0 {
                found.push(finished);
                assert(found@.map_values(|w: Vec<char>| w@) =~= old_found.push(pieces.last()));
            }
            current = Vec::new();
            proof {
                let next = split_white(s@.take(i + 1));
                assert(next == pieces.push(Seq::<char>::empty()));
                assert(next.drop_last() =~= pieces);
                assert(pieces =~= pieces.drop_last().push(pieces.last()));
                pieces.drop_last().lemma_filter_push(pieces.last(), pred);
                assert(current@ =~= next.last());
            }
        } else {
            current.push(c);
            proof {
                let next = split_white(s@.take(i + 1));
                assert(next == pieces.update(pieces.len() - 1, pieces.last().push(c)));
                assert(next.drop_last() =~= pieces.drop_last());
            }
        }
    }
    proof {
        assert(s@.take(s@.len() as int) =~= s@);
        lemma_split_white_nonempty(s@);
    }
    let ghost pieces = split_white(s@);
    let ghost old_found = found@.map_values(|w: Vec<char>| w@);
    let last_piece = current;
    if last_piece.len() > 0 {
        found.push(last_piece);
        assert(found@.map_values(|w: Vec<char>| w@) =~= old_found.push(pieces.last()));
    }
    proof {
        assert(pieces =~= pieces.drop_last().push(pieces.last()));
        pieces.drop_last().lemma_filter_push(pieces.last(), pred);
    }
    found
}

/// The parts joined with `separator`.
pub fn join_chars(parts: &Vec<Vec<char>>, separator: &Vec<char>) -> (joined: Vec<char>)
    ensures
        joined@ == join_with(parts@.map_values(|p: Vec<char>| p@), separator@),
{
    let ghost all = parts@.map_values(|p: Vec<char>| p@);
    let mut joined: Vec<char> = Vec::new();
    for i in 0..parts.len()
        invariant
            all == parts@.map_values(|p: Vec<char>| p@),
            joined@ == join_with(all.take(i as int), separator@),
    {
        assert(all.take(i + 1).drop_last() =~= all.take(i as int));
        assert(all.take(i + 1).last() == parts@[i as int]@);
        if i > 0 {
            extend_chars(&mut joined, separator);
        }
        extend_chars(&mut joined, &parts[i]);
        proof {
            if i == 0 {
                assert(all.take(1) =~= seq![all[0]]);
                assert(joined@ =~= all.take(1)[0]);
            }
        }
    }
    assert(all.take(parts@.len() as int) =~= all);
    joined
}

/// The words of `s` joined with single spaces.
pub fn collapse_white_space_exec(s: &Vec<char>) -> (collapsed: Vec<char>)
    ensures
        collapsed@ == collapse_white_space(s@),
{
    let found = words_of(s);
    let space = vec![' '];
    assert(space@ == seq![' ']);
    join_chars(&found, &space)
}

pub proof fn lemma_byte_len_bound(s: Seq<char>)
    ensures
        0 <= byte_len(s) <= 4 * s.len(),
    decreases s.len(),
{
    if s.len() > 0 {
        lemma_byte_len_bound(s.drop_first());
    }
}

} // verus!
