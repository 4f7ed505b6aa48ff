//! Finding notes by title, tag or body text, and the state of the search box.
use vstd::prelude::*;

use crate::sort::{lemma_sorted_members, stable_sort, stably_sorted, Keyed};
use crate::text::{
    byte_len, char_at_byte, chars_of, collapse_white_space, collapse_white_space_exec,
    contains_chars, contains_text, copy_span, find_from, find_in, lemma_byte_len_bound,
    lowercase, lowercase_of, string_of, string_of_span, trim, trimmed_span, utf8_len,
    utf8_len_exec, CharClass,
};
use crate::vault::model::{NoteId, NoteRecord, VaultIndex};

verus! {

broadcast use vstd::seq_lib::group_seq_lib_default;

/// At most this many hits are shown.
pub const MAX_RESULTS: usize = 8;

/// A snippet holds at most this many characters of the body before white space is collapsed.
pub const SNIPPET_CHARS: usize = 92;

/// The search box: whether it is open, what is typed, which hit is highlighted, and whether
/// the text field should take the keyboard focus.
pub struct SearchState {
    pub open: bool,
    pub query: String,
    pub active: usize,
    pub focus_requested: bool,
}

impl Default for SearchState {
    fn default() -> (state: Self)
        ensures
            !state.open,
            state.query@.len() == 0,
            state.active == 0,
            !state.focus_requested,
    {
        SearchState { open: false, query: String::new(), active: 0, focus_requested: false }
    }
}

impl SearchState {
    pub fn is_open(&self) -> (open: bool)
        ensures
            open == self.open,
    {
        self.open
    }

    /// Opens the box and asks for the keyboard focus.
    pub fn open(&mut self)
        ensures
            final(self).open,
            final(self).focus_requested,
            final(self).query == old(self).query,
            final(self).active == old(self).active,
    {
        self.open = true;
        self.focus_requested = true;
    }

    /// Closes the box, forgetting the query and the highlighted hit.
    pub fn close(&mut self)
        ensures
            !final(self).open,
            final(self).query@.len() == 0,
            final(self).active == 0,
            final(self).focus_requested == old(self).focus_requested,
    {
        self.open = false;
        self.query = String::new();
        self.active = 0;
    }

    /// Follows the keys pressed in a frame among `hit_count` hits: the highlight is first
    /// kept on a hit, then moved down and up one hit, wrapping around; Enter chooses the
    /// highlighted hit. With no hits nothing moves and nothing is chosen.
    pub fn navigate(&mut self, hit_count: usize, down: bool, up: bool, enter: bool) -> (chosen: Option<usize>)
        ensures
            final(self).open == old(self).open,
            final(self).query == old(self).query,
            final(self).focus_requested == old(self).focus_requested,
            hit_count == 0 ==> final(self).active == old(self).active && chosen is None,
            hit_count > 0 ==> final(self).active == navigated(old(self).active as int, hit_count as int, down, up)
                && chosen == (if enter {
                Some(final(self).active)
            } else {
                None
            }),
    {
        if hit_count == 0 {
            return None;
        }
        let mut active = if self.active < hit_count - 1 {
            self.active
        } else {
            hit_count - 1
        };
        if down {
            active = if active + 1 == hit_count {
                0
            } else {
                active + 1
            };
        }
        if up {
            active = if active == 0 {
                hit_count - 1
            } else {
                active - 1
            };
        }
        self.active = active;
        if enter {
            Some(active)
        } else {
            None
        }
    }
}

/// The hit after `active` among `n`, wrapping from the last to the first.
pub open spec fn next_hit(active: int, n: int) -> int {
    if active + 1 == n {
        0
    } else {
        active + 1
    }
}

/// The hit before `active` among `n`, wrapping from the first to the last.
pub open spec fn previous_hit(active: int, n: int) -> int {
    if active == 0 {
        n - 1
    } else {
        active - 1
    }
}

/// Where the highlight ends among `n` hits: kept on a hit, then moved down, then up.
pub open spec fn navigated(active: int, n: int, down: bool, up: bool) -> int {
    let kept = if active < n - 1 {
        active
    } else {
        n - 1
    };
    let moved = if down {
        next_hit(kept, n)
    } else {
        kept
    };
    if up {
        previous_hit(moved, n)
    } else {
        moved
    }
}

/// A note that matches a query: its identity, title, a snippet of its body and its score.
pub struct Hit {
    pub id: NoteId,
    pub title: String,
    pub snippet: String,
    pub score: u8,
}

/// Some tag of the note contains the (lower-cased) needle, ignoring case.
pub open spec fn tag_hit(tags: Seq<String>, needle: Seq<char>) -> bool {
    exists|j: int| 0 <= j < tags.len() && contains_text(lowercase(#[trigger] tags[j]@), needle)
}

/// How well a note matches: 4 when its title contains the needle, plus 2 when a tag does,
/// plus 1 when its body does, all ignoring case.
pub open spec fn score_of(note: NoteRecord, needle: Seq<char>) -> int {
    (if contains_text(lowercase(note.title@), needle) {
        4int
    } else {
        0int
    }) + (if tag_hit(note.tags@, needle) {
        2int
    } else {
        0int
    }) + (if contains_text(lowercase(note.markdown_body@), needle) {
        1int
    } else {
        0int
    })
}

/// A matching note, by its position among the vault's notes, with its score.
#[derive(Clone, Copy, Debug, PartialEq, Eq)]
pub struct Ranked {
    pub note: usize,
    pub score: u8,
}

impl Keyed for Ranked {
    /// Higher scores first.
    open spec fn sort_key(&self) -> Seq<u64> {
        seq![(255 - self.score) as u64]
    }

    fn sort_key_exec(&self) -> (key: Vec<u64>) {
        let rank = (255 - self.score) as u64;
        let key = vec![rank];
        assert(key@ =~= seq![(255 - self.score) as u64]);
        key
    }
}

/// The notes that match the needle, in vault order, with their scores.
pub open spec fn ranked(notes: Seq<NoteRecord>, needle: Seq<char>) -> Seq<Ranked>
    decreases notes.len(),
{
    if notes.len() == 0 {
        Seq::empty()
    } else {
        let before = ranked(notes.drop_last(), needle);
        let score = score_of(notes.last(), needle);
        if score > 0 {
            before.push(Ranked { note: (notes.len() - 1) as usize, score: score as u8 })
        } else {
            before
        }
    }
}

proof fn lemma_ranked_bounds(notes: Seq<NoteRecord>, needle: Seq<char>)
    requires
        notes.len() <= usize::MAX,
    ensures
        forall|i: int|
            0 <= i < ranked(notes, needle).len() ==> (#[trigger] ranked(notes, needle)[i]).note
                < notes.len() && ranked(notes, needle)[i].score == score_of(
                notes[ranked(notes, needle)[i].note as int],
                needle,
            ),
    decreases notes.len(),
{
    if notes.len() > 0 {
        lemma_ranked_bounds(notes.drop_last(), needle);
        let before = ranked(notes.drop_last(), needle);
        assert forall|i: int| 0 <= i < before.len() implies notes[before[i].note as int]
            == notes.drop_last()[before[i].note as int] by {}
    }
}

/// Where the snippet of `body` starts: at the first match of the needle in the lower-cased
/// body, taken as a byte offset of the lower-cased text and applied to the body itself; at
/// the start when there is no match or that offset is not a character boundary of the body.
pub open spec fn snippet_start(body: Seq<char>, needle: Seq<char>) -> int {
    let lower = lowercase(body);
    let at = match find_from(lower, needle, 0) {
        Some(i) => i,
        None => 0,
    };
    let b = byte_len(lower.take(at));
    let k = char_at_byte(body, b);
    if byte_len(body.take(k)) == b {
        k
    } else {
        0
    }
}

/// The snippet of `body` for the needle: up to [`SNIPPET_CHARS`] characters from
/// [`snippet_start`], with white space collapsed to single spaces.
pub open spec fn snippet_text(body: Seq<char>, needle: Seq<char>) -> Seq<char> {
    let clipped = body.skip(snippet_start(body, needle));
    let n = if clipped.len() < SNIPPET_CHARS {
        clipped.len() as int
    } else {
        SNIPPET_CHARS as int
    };
    collapse_white_space(clipped.take(n))
}

proof fn lemma_byte_len_push(s: Seq<char>, c: char)
    ensures
        byte_len(s.push(c)) == byte_len(s) + utf8_len(c),
    decreases s.len(),
{
    if s.len() > 0 {
        lemma_byte_len_push(s.drop_first(), c);
        assert(s.push(c).drop_first() =~= s.drop_first().push(c));
        assert(s.push(c)[0] == s[0]);
        assert(byte_len(s.push(c)) == utf8_len(s[0]) + byte_len(s.drop_first().push(c)));
        assert(byte_len(s) == utf8_len(s[0]) + byte_len(s.drop_first()));
    } else {
        assert(s.push(c).drop_first() =~= Seq::<char>::empty());
        assert(s.push(c)[0] == c);
        assert(byte_len(s.push(c)) == utf8_len(c) + byte_len(Seq::<char>::empty()));
    }
}

/// The UTF-8 length of `s[..n]`.
fn prefix_bytes(s: &Vec<char>, n: usize) -> (b: u128)
    requires
        n <= s.len(),
    ensures
        b == byte_len(s@.take(n as int)),
{
    let mut b: u128 = 0;
    let mut i: usize = 0;
    while i < n
        invariant
            i <= n <= s.len(),
            b == byte_len(s@.take(i as int)),
        decreases n - i,
    {
        proof {
            lemma_byte_len_push(s@.take(i as int), s@[i as int]);
            assert(s@.take(i + 1) =~= s@.take(i as int).push(s@[i as int]));
            lemma_byte_len_bound(s@.take(i + 1));
        }
        b = b + utf8_len_exec(s[i]) as u128;
        i += 1;
    }
    b
}

/// The snippet of `body` around the first match of `needle`, which is lower-case.
pub fn snippet(body: &str, needle: &str) -> (text: String)
    ensures
        text@ == snippet_text(body@, needle@),
{
    let chars = chars_of(body);
    let lower = lowercase_of(body);
    let needle_chars = chars_of(needle);
    assert(lower@.subrange(0, lower@.len() as int) =~= lower@);
    let at = match find_in(&lower, &needle_chars, 0, lower.len()) {
        Some(i) => i,
        None => 0,
    };
    proof {
        crate::text::lemma_find_from_is_first(lower@, needle@, 0);
    }
    let b = prefix_bytes(&lower, at);
    let mut k: usize = 0;
    let mut pos: u128 = 0;
    assert(chars@.skip(0) =~= chars@);
    while k < chars.len() && pos < b
        invariant
            k <= chars.len(),
            pos == byte_len(chars@.take(k as int)),
            char_at_byte(chars@, b as int) == k + char_at_byte(chars@.skip(k as int), b - pos),
        decreases chars.len() - k,
    {
        let w = utf8_len_exec(chars[k]);
        proof {
            assert(chars@.skip(k as int).drop_first() =~= chars@.skip(k + 1));
            assert(chars@.skip(k as int)[0] == chars@[k as int]);
            lemma_byte_len_push(chars@.take(k as int), chars@[k as int]);
            assert(chars@.take(k + 1) =~= chars@.take(k as int).push(chars@[k as int]));
            lemma_byte_len_bound(chars@.take(k + 1));
        }
        pos = pos + w as u128;
        k += 1;
    }
    assert(char_at_byte(chars@, b as int) == k);
    let start = if pos == b {
        k
    } else {
        0
    };
    let end = if chars.len() - start < SNIPPET_CHARS {
        chars.len()
    } else {
        start + SNIPPET_CHARS
    };
    let piece = copy_span(&chars, start, end);
    assert(piece@ =~= chars@.skip(start as int).take(end - start));
    string_of(collapse_white_space_exec(&piece).as_slice())
}

/// Whether some tag contains the needle, ignoring case.
fn any_tag_hit(tags: &Vec<String>, needle: &Vec<char>) -> (hit: bool)
    ensures
        hit == tag_hit(tags@, needle@),
{
    for j in 0..tags.len()
        invariant
            forall|t: int| 0 <= t < j ==> !contains_text(lowercase(#[trigger] tags@[t]@), needle@),
    {
        let lower = lowercase_of(tags[j].as_str());
        if contains_chars(&lower, needle) {
            return true;
        }
    }
    false
}

/// A hit shows the note at the ranked position, with its snippet.
pub open spec fn shows(notes: Seq<NoteRecord>, needle: Seq<char>, ranked: Ranked, hit: Hit) -> bool {
    let note = notes[ranked.note as int];
    &&& hit.id@ == note.id@
    &&& hit.title@ == note.title@
    &&& hit.score == ranked.score
    &&& hit.snippet@ == snippet_text(note.markdown_body@, needle)
}

/// The needle of a query: trimmed and lower-cased.
pub open spec fn needle_of(query: Seq<char>) -> Seq<char> {
    lowercase(trim(query))
}

/// The notes of `index` that match `query`, best first, at most [`MAX_RESULTS`] of them; a
/// blank query matches nothing.
pub fn search(index: &VaultIndex, query: &str) -> (hits: Vec<Hit>)
    ensures
        trim(query@).len() == 0 ==> hits@.len() == 0,
        needle_of(query@).len() == 0 ==> hits@.len() == 0,
        needle_of(query@).len() > 0 ==> exists|sorted: Seq<Ranked>|
            #[trigger] stably_sorted(ranked(index.notes@, needle_of(query@)), sorted) && hits@.len()
                == (if sorted.len() < MAX_RESULTS {
                sorted.len() as int
            } else {
                MAX_RESULTS as int
            }) && forall|i: int|
                0 <= i < hits@.len() ==> shows(
                    index.notes@,
                    needle_of(query@),
                    sorted[i],
                    #[trigger] hits@[i],
                ),
{
    let text = chars_of(query);
    let (a, b) = trimmed_span(&text, 0, text.len(), CharClass::WhiteSpace);
    assert(text@.subrange(0, text@.len() as int) =~= text@);
    let trimmed = string_of_span(&text, a, b);
    let needle = lowercase_of(trimmed.as_str());
    let ghost nv = needle_of(query@);
    assert(trimmed@ == trim(query@));
    if needle.len() == 0 {
        return Vec::new();
    }
    let notes = &index.notes;
    let mut matches: Vec<Ranked> = Vec::new();
    for i in 0..notes.len()
        invariant
            needle@ == nv,
            matches@ == ranked(notes@.take(i as int), nv),
    {
        assert(notes@.take(i + 1).drop_last() =~= notes@.take(i as int));
        assert(notes@.take(i + 1).last() == notes@[i as int]);
        let note = &notes[i];
        let title_hit = contains_chars(&lowercase_of(note.title.as_str()), &needle);
        let tag = any_tag_hit(&note.tags, &needle);
        let body_hit = contains_chars(&lowercase_of(note.markdown_body.as_str()), &needle);
        let score: u8 = (if title_hit {
            4u8
        } else {
            0u8
        }) + (if tag {
            2u8
        } else {
            0u8
        }) + (if body_hit {
            1u8
        } else {
            0u8
        });
        if score > 0 {
            matches.push(Ranked { note: i, score });
        }
    }
    assert(notes@.take(notes@.len() as int) =~= notes@);
    proof {
        lemma_ranked_bounds(notes@, nv);
    }
    let ghost all = matches@;
    let sorted = stable_sort(matches);
    let count = if sorted.len() < MAX_RESULTS {
        sorted.len()
    } else {
        MAX_RESULTS
    };
    let mut hits: Vec<Hit> = Vec::new();
    for i in 0..count
        invariant
            count <= sorted@.len(),
            stably_sorted(all, sorted@),
            all == ranked(notes@, nv),
            needle@ == nv,
            forall|t: int|
                0 <= t < all.len() ==> (#[trigger] all[t]).note < notes@.len() && all[t].score
                    == score_of(notes@[all[t].note as int], nv),
            hits@.len() == i,
            forall|t: int| 0 <= t < i ==> shows(notes@, nv, sorted@[t], #[trigger] hits@[t]),
    {
        let r = sorted[i];
        proof {
            lemma_sorted_members(all, sorted@, i as int);
        }
        let note = &notes[r.note];
        let snippet_chars = snippet(note.markdown_body.as_str(), string_of(needle.as_slice()).as_str());
        hits.push(Hit {
            id: note.id.duplicate(),
            title: note.title.clone(),
            snippet: snippet_chars,
            score: r.score,
        });
    }
    hits
}


/// Hits come best first: along a sequence sorted by rank, scores never increase.
pub proof fn law_ranked_best_first(sorted: Seq<Ranked>, i: int, j: int)
    requires
        crate::sort::sorted_by_key(sorted),
        0 <= i < j < sorted.len(),
    ensures
        sorted[i].score >= sorted[j].score,
{
    let a = sorted[i].sort_key();
    let b = sorted[j].sort_key();
    assert(crate::sort::key_le(a, b));
    assert(a[0] == (255 - sorted[i].score) as u64);
    assert(b[0] == (255 - sorted[j].score) as u64);
    if sorted[i].score < sorted[j].score {
        assert(a[0] > b[0]);
        assert(!crate::sort::same_key(a[0], b[0]));
    }
}


/// A note scores 2 for its tags exactly when one of its tags, whichever its place in the
/// list, contains the needle once lower-cased: the score is the title's 4 (when the title
/// contains the needle), plus that 2, plus the body's 1.
pub proof fn law_any_tag_scores(note: NoteRecord, needle: Seq<char>, j: int)
    requires
        0 <= j < note.tags@.len(),
        contains_text(lowercase(note.tags@[j]@), needle),
    ensures
        score_of(note, needle) == (if contains_text(lowercase(note.title@), needle) {
            4int
        } else {
            0int
        }) + 2 + (if contains_text(lowercase(note.markdown_body@), needle) {
            1int
        } else {
            0int
        }),
{
}

/// A note none of whose tags contains the needle gets nothing for its tags.
pub proof fn law_no_tag_scores_nothing(note: NoteRecord, needle: Seq<char>)
    requires
        forall|j: int| 0 <= j < note.tags@.len() ==> !contains_text(lowercase(#[trigger] note.tags@[j]@), needle),
    ensures
        score_of(note, needle) == (if contains_text(lowercase(note.title@), needle) {
            4int
        } else {
            0int
        }) + (if contains_text(lowercase(note.markdown_body@), needle) {
            1int
        } else {
            0int
        }),
{
}

} // verus!
