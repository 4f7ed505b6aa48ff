//! Preparing a note's Markdown for display on its card.
use pulldown_cmark::Event::{Code, End, FootnoteReference, Html, InlineHtml, Start, Text};
use pulldown_cmark::Tag::FootnoteDefinition;
use pulldown_cmark::{Options, Parser};
use vstd::prelude::*;

use crate::text::{
    chars_of, concat, copy_span, find_from, find_in, lemma_find_from_is_first, occurs_at, occurs_at_exec,
    same_chars, skip_class_backward, skip_class_forward, string_of, string_of_span, strip_end, strip_start,
    trim, trimmed_span, CharClass,
};

verus! {

/// `line` is `# ` followed by a heading equal to `title` once both are trimmed.
pub open spec fn is_title_heading(line: Seq<char>, title: Seq<char>) -> bool {
    &&& line.len() >= 2
    &&& line[0] == '#'
    &&& line[1] == ' '
    &&& trim(line.skip(2)) == trim(title)
}

/// The Markdown shown below a note's title: when the first line after leading blank
/// characters is `# ` and the title, the text after that line without the line breaks that
/// follow it; otherwise the Markdown unchanged.
pub open spec fn body_below_title(markdown: Seq<char>, title: Seq<char>) -> Seq<char> {
    let t = strip_start(markdown, CharClass::Blank);
    match find_from(t, seq!['\n'], 0) {
        None => if is_title_heading(t, title) {
            Seq::empty()
        } else {
            markdown
        },
        Some(e) => if is_title_heading(strip_end(t.take(e), CharClass::CarriageReturn), title) {
            strip_start(t.skip(e + 1), CharClass::LineBreak)
        } else {
            markdown
        },
    }
}

fn is_title_heading_exec(text: &Vec<char>, start: usize, end: usize, title: &Vec<char>) -> (r: bool)
    requires
        start <= end <= text.len(),
    ensures
        r == is_title_heading(text@.subrange(start as int, end as int), title@),
{
    let ghost line = text@.subrange(start as int, end as int);
    if end - start < 2 || text[start] != '#' || text[start + 1] != ' ' {
        return false;
    }
    let (a, b) = trimmed_span(text, start + 2, end, CharClass::WhiteSpace);
    assert(line.skip(2) =~= text@.subrange(start + 2, end as int));
    let (c, d) = trimmed_span(title, 0, title.len(), CharClass::WhiteSpace);
    assert(title@.subrange(0, title@.len() as int) =~= title@);
    let heading = copy_span(text, a, b);
    let wanted = copy_span(title, c, d);
    crate::text::same_chars(&heading, &wanted)
}

/// `markdown` without a leading `# ` heading that repeats `title`.
pub fn without_duplicate_title(markdown: &str, title: &str) -> (shown: String)
    ensures
        shown@ == body_below_title(markdown@, title@),
{
    let text = chars_of(markdown);
    let title_chars = chars_of(title);
    let n = text.len();
    assert(text@.subrange(0, n as int) =~= text@);
    let start = skip_class_forward(&text, 0, n, CharClass::Blank);
    let ghost t = text@.subrange(start as int, n as int);
    let newline = vec!['\n'];
    assert(newline@ == seq!['\n']);
    let rest = copy_span(&text, start, n);
    assert(rest@.subrange(0, rest@.len() as int) =~= rest@);
    match find_in(&rest, &newline, 0, rest.len()) {
        None => {
            if is_title_heading_exec(&rest, 0, rest.len(), &title_chars) {
                String::new()
            } else {
                string_of(text.as_slice())
            }
        },
        Some(e) => {
            proof {
                lemma_find_from_is_first(rest@, newline@, 0);
            }
            let line_end = skip_class_backward(&rest, 0, e, CharClass::CarriageReturn);
            assert(rest@.take(e as int) =~= rest@.subrange(0, e as int));
            if is_title_heading_exec(&rest, 0, line_end, &title_chars) {
                let after = skip_class_forward(&rest, e + 1, rest.len(), CharClass::LineBreak);
                assert(rest@.skip(e + 1) =~= rest@.subrange(e + 1, rest@.len() as int));
                string_of_span(&rest, after, rest.len())
            } else {
                string_of(text.as_slice())
            }
        },
    }
}

/// A block or inline element of a card's Markdown, as far as styling it goes.
#[derive(Clone, Copy, Debug, PartialEq, Eq, Structural)]
pub enum CardTag {
    Paragraph,
    /// A heading of this level, 1 to 6.
    Heading(u8),
    CodeBlock,
    BlockQuote,
    Item,
    TableRow,
    TableCell,
    Emphasis,
    Strong,
    Strikethrough,
    Link,
    /// Any other element.
    Other,
}

/// One event of a card's Markdown, in the order the parser gives them.
#[derive(Clone, Debug)]
pub enum CardEvent {
    /// An element opens.
    Start(CardTag),
    /// An element closes.
    End(CardTag),
    /// A footnote definition opens, with this label.
    Footnote(String),
    Text(String),
    /// Inline code.
    Code(String),
    /// Inline or display math.
    Math(String),
    /// Inline or block HTML.
    Html(String),
    /// A reference to the footnote with this label.
    FootnoteReference(String),
    SoftBreak,
    HardBreak,
    Rule,
    /// A task list checkbox, checked or not.
    TaskListMarker(bool),
}

/// A [`CardEvent`] with its texts as characters.
pub enum CardEventView {
    Start(CardTag),
    End(CardTag),
    Footnote(Seq<char>),
    Text(Seq<char>),
    Code(Seq<char>),
    Math(Seq<char>),
    Html(Seq<char>),
    FootnoteReference(Seq<char>),
    SoftBreak,
    HardBreak,
    Rule,
    TaskListMarker(bool),
}

impl View for CardEvent {
    type V = CardEventView;

    open spec fn view(&self) -> CardEventView {
        match self {
            CardEvent::Start(t) => CardEventView::Start(*t),
            CardEvent::End(t) => CardEventView::End(*t),
            CardEvent::Footnote(l) => CardEventView::Footnote(l@),
            CardEvent::Text(t) => CardEventView::Text(t@),
            CardEvent::Code(t) => CardEventView::Code(t@),
            CardEvent::Math(t) => CardEventView::Math(t@),
            CardEvent::Html(t) => CardEventView::Html(t@),
            CardEvent::FootnoteReference(l) => CardEventView::FootnoteReference(l@),
            CardEvent::SoftBreak => CardEventView::SoftBreak,
            CardEvent::HardBreak => CardEventView::HardBreak,
            CardEvent::Rule => CardEventView::Rule,
            CardEvent::TaskListMarker(c) => CardEventView::TaskListMarker(*c),
        }
    }
}

/// How a run of text is set apart from the body text.
#[derive(Clone, Copy, Debug, PartialEq, Eq, Structural)]
pub enum RunKind {
    Plain,
    /// Inline code: monospace on a tinted background.
    InlineCode,
    /// Math: monospace.
    Math,
}

/// The style of a run of card text.
#[derive(Clone, Copy, Debug, PartialEq, Eq, Structural)]
pub struct RunStyle {
    /// The level of the heading the run is in, or 0 outside headings.
    pub heading: u8,
    pub italic: bool,
    pub strong: bool,
    pub strike: bool,
    pub code_block: bool,
    pub quote: bool,
    pub link: bool,
    pub kind: RunKind,
    /// The run's size, as a percentage of the body size.
    pub percent: u8,
}

/// A run of card text with its style.
#[derive(Clone, Debug)]
pub struct StyledRun {
    pub text: String,
    pub style: RunStyle,
}

/// How deep the styling elements are nested while a card's events are read.
#[derive(Clone, Copy, Debug, PartialEq, Eq, Structural)]
pub struct CardStyle {
    pub heading: u8,
    pub emphasis: usize,
    pub strong: usize,
    pub strike: usize,
    pub code_block: usize,
    pub quote: usize,
    pub link: usize,
}

/// No element open.
pub open spec fn card_style_start() -> CardStyle {
    CardStyle { heading: 0, emphasis: 0, strong: 0, strike: 0, code_block: 0, quote: 0, link: 0 }
}

/// One fewer, but not below zero.
pub open spec fn less(d: usize) -> usize {
    if d == 0 {
        0
    } else {
        (d - 1) as usize
    }
}

/// The style of a run written in state `s`, at `percent` of the body size.
pub open spec fn run_style(s: CardStyle, kind: RunKind, percent: u8) -> RunStyle {
    RunStyle {
        heading: s.heading,
        italic: s.emphasis > 0,
        strong: s.strong > 0,
        strike: s.strike > 0,
        code_block: s.code_block > 0,
        quote: s.quote > 0,
        link: s.link > 0,
        kind,
        percent,
    }
}

/// A plain run at the body size.
pub open spec fn plain(s: CardStyle, text: Seq<char>) -> Seq<(Seq<char>, RunStyle)> {
    seq![(text, run_style(s, RunKind::Plain, 100))]
}

/// The text written so far ends a line or is empty.
pub open spec fn at_line_start(text: Seq<char>) -> bool {
    text.len() == 0 || text.last() == '\n'
}

/// A line break unless the text written so far is empty or already ends a line.
pub open spec fn block_break(s: CardStyle, text: Seq<char>) -> Seq<(Seq<char>, RunStyle)> {
    if at_line_start(text) {
        Seq::empty()
    } else {
        plain(s, "\n"@)
    }
}

/// The runs one event writes, with the state before it and the text written so far, and the
/// state after it.
pub open spec fn card_step(s: CardStyle, text: Seq<char>, event: CardEventView) -> (CardStyle, Seq<(Seq<char>, RunStyle)>) {
    match event {
        CardEventView::Start(tag) => match tag {
            CardTag::Heading(level) => (CardStyle { heading: level, ..s }, Seq::empty()),
            CardTag::Emphasis => (CardStyle { emphasis: (s.emphasis + 1) as usize, ..s }, Seq::empty()),
            CardTag::Strong => (CardStyle { strong: (s.strong + 1) as usize, ..s }, Seq::empty()),
            CardTag::Strikethrough => (CardStyle { strike: (s.strike + 1) as usize, ..s }, Seq::empty()),
            CardTag::CodeBlock => {
                let n = CardStyle { code_block: (s.code_block + 1) as usize, ..s };
                (n, block_break(n, text))
            },
            CardTag::BlockQuote => {
                let n = CardStyle { quote: (s.quote + 1) as usize, ..s };
                (n, block_break(n, text) + plain(n, "│ "@))
            },
            CardTag::Item => (s, plain(s, "• "@)),
            CardTag::Link => (CardStyle { link: (s.link + 1) as usize, ..s }, Seq::empty()),
            CardTag::TableCell => if text.len() > 0 && (text.last() == '\n' || text.last() == ' ') {
                (s, Seq::empty())
            } else {
                (s, plain(s, "  ·  "@))
            },
            _ => (s, Seq::empty()),
        },
        CardEventView::End(tag) => match tag {
            CardTag::Paragraph => (s, plain(s, "\n\n"@)),
            CardTag::Heading(_) => (CardStyle { heading: 0, ..s }, plain(s, "\n\n"@)),
            CardTag::CodeBlock => (CardStyle { code_block: less(s.code_block), ..s }, plain(s, "\n\n"@)),
            CardTag::Item => (s, plain(s, "\n"@)),
            CardTag::TableRow => (s, plain(s, "\n"@)),
            CardTag::BlockQuote => {
                let n = CardStyle { quote: less(s.quote), ..s };
                (n, plain(n, "\n"@))
            },
            CardTag::Emphasis => (CardStyle { emphasis: less(s.emphasis), ..s }, Seq::empty()),
            CardTag::Strong => (CardStyle { strong: less(s.strong), ..s }, Seq::empty()),
            CardTag::Strikethrough => (CardStyle { strike: less(s.strike), ..s }, Seq::empty()),
            CardTag::Link => (CardStyle { link: less(s.link), ..s }, Seq::empty()),
            _ => (s, Seq::empty()),
        },
        CardEventView::Footnote(label) => (s, seq![("["@ + label + "] "@, run_style(s, RunKind::Plain, 90))]),
        CardEventView::Text(t) => (s, plain(s, t)),
        CardEventView::Code(t) => (s, seq![(t, run_style(s, RunKind::InlineCode, 100))]),
        CardEventView::Math(t) => (s, seq![(t, run_style(s, RunKind::Math, 100))]),
        CardEventView::Html(t) => (s, seq![(t, run_style(s, RunKind::Plain, 90))]),
        CardEventView::FootnoteReference(label) => (s, seq![("["@ + label + "]"@, run_style(s, RunKind::Plain, 85))]),
        CardEventView::SoftBreak => (s, plain(s, " "@)),
        CardEventView::HardBreak => (s, plain(s, "\n"@)),
        CardEventView::Rule => (s, plain(s, "\n────────────────────────\n"@)),
        CardEventView::TaskListMarker(checked) => (s, plain(s, if checked { "☑ "@ } else { "☐ "@ })),
    }
}

/// The text of the runs, joined.
pub open spec fn run_text(runs: Seq<(Seq<char>, RunStyle)>) -> Seq<char>
    decreases runs.len(),
{
    if runs.len() == 0 {
        Seq::empty()
    } else {
        run_text(runs.drop_last()) + runs.last().0
    }
}

/// The state after the events and the runs they write.
pub open spec fn card_fold(events: Seq<CardEventView>) -> (CardStyle, Seq<(Seq<char>, RunStyle)>)
    decreases events.len(),
{
    if events.len() == 0 {
        (card_style_start(), Seq::empty())
    } else {
        let (s, runs) = card_fold(events.drop_last());
        let (next, more) = card_step(s, run_text(runs), events.last());
        (next, runs + more)
    }
}

/// The styled runs of a card's events: the text of each text, code, math and HTML event in
/// the styles of the elements open around it, with the markup itself dropped; a bullet
/// before each list item, a bar before a quote, breaks after paragraphs, headings, code
/// blocks, items and table rows, separators between table cells, and labels for footnotes.
pub open spec fn styled_runs(events: Seq<CardEventView>) -> Seq<(Seq<char>, RunStyle)> {
    card_fold(events).1
}

/// The runs as their texts and styles.
pub open spec fn run_views(runs: Seq<StyledRun>) -> Seq<(Seq<char>, RunStyle)> {
    runs.map_values(|r: StyledRun| (r.text@, r.style))
}

fn style_of(s: CardStyle, kind: RunKind, percent: u8) -> (style: RunStyle)
    ensures
        style == run_style(s, kind, percent),
{
    RunStyle {
        heading: s.heading,
        italic: s.emphasis > 0,
        strong: s.strong > 0,
        strike: s.strike > 0,
        code_block: s.code_block > 0,
        quote: s.quote > 0,
        link: s.link > 0,
        kind,
        percent,
    }
}

fn less_exec(d: usize) -> (r: usize)
    ensures
        r == less(d),
{
    if d == 0 {
        0
    } else {
        d - 1
    }
}

/// Appends a run, keeping the last character of the text written so far.
fn write_run(
    runs: &mut Vec<StyledRun>,
    last: &mut Option<char>,
    text: String,
    style: RunStyle,
)
    requires
        *old(last) == last_char(old(runs)@),
    ensures
        run_views(final(runs)@) == run_views(old(runs)@).push((text@, style)),
        *final(last) == last_char(final(runs)@),
{
    let chars = chars_of(text.as_str());
    if chars.len() > 0 {
        *last = Some(chars[chars.len() - 1]);
    }
    let ghost before = run_views(runs@);
    runs.push(StyledRun { text, style });
    proof {
        assert(run_views(runs@) =~= before.push((chars@, style)));
        assert(run_views(runs@).drop_last() =~= before);
    }
}

fn literal(text: &str) -> (s: String)
    ensures
        s@ == text@,
{
    string_of(chars_of(text).as_slice())
}

/// The last character of the runs' text, if any.
pub open spec fn last_char(runs: Seq<StyledRun>) -> Option<char> {
    if run_text(run_views(runs)).len() > 0 {
        Some(run_text(run_views(runs)).last())
    } else {
        None
    }
}

/// The counters of the state stay below `bound`.
pub open spec fn depths_below(s: CardStyle, bound: int) -> bool {
    s.emphasis < bound && s.strong < bound && s.strike < bound && s.code_block < bound && s.quote < bound && s.link
        < bound
}

/// Follows an element opening.
fn open_tag(tag: CardTag, s: CardStyle, runs: &mut Vec<StyledRun>, last: &mut Option<char>) -> (next: CardStyle)
    requires
        *old(last) == last_char(old(runs)@),
        depths_below(s, usize::MAX as int),
    ensures
        ({
            let (n, more) = card_step(s, run_text(run_views(old(runs)@)), CardEventView::Start(tag));
            next == n && run_views(final(runs)@) == run_views(old(runs)@) + more
        }),
        *final(last) == last_char(final(runs)@),
{
    let ghost before = run_views(runs@);
    let ghost text = run_text(before);
    let ghost s0 = s;
    let mut s = s;
    match tag {
        CardTag::Heading(level) => {
            s.heading = level;
        },
        CardTag::Emphasis => {
            s.emphasis = s.emphasis + 1;
        },
        CardTag::Strong => {
            s.strong = s.strong + 1;
        },
        CardTag::Strikethrough => {
            s.strike = s.strike + 1;
        },
        CardTag::CodeBlock => {
            s.code_block = s.code_block + 1;
            if !(last.is_none() || *last == Some('\n')) {
                write_run(runs, last, literal("\n"), style_of(s, RunKind::Plain, 100));
            }
        },
        CardTag::BlockQuote => {
            s.quote = s.quote + 1;
            if !(last.is_none() || *last == Some('\n')) {
                write_run(runs, last, literal("\n"), style_of(s, RunKind::Plain, 100));
            }
            let ghost middle = run_views(runs@);
            assert(middle == before + block_break(s, text));
            write_run(runs, last, literal("│ "), style_of(s, RunKind::Plain, 100));
            assert(run_views(runs@) =~= before + (block_break(s, text) + plain(s, "│ "@)));
        },
        CardTag::Item => {
            write_run(runs, last, literal("• "), style_of(s, RunKind::Plain, 100));
        },
        CardTag::Link => {
            s.link = s.link + 1;
        },
        CardTag::TableCell => {
            if !(*last == Some('\n') || *last == Some(' ')) {
                write_run(runs, last, literal("  ·  "), style_of(s, RunKind::Plain, 100));
            }
        },
        _ => {},
    }
    proof {
        assert(run_views(runs@) =~= before + card_step(s0, text, CardEventView::Start(tag)).1) by {
            assert(before + Seq::<(Seq<char>, RunStyle)>::empty() =~= before);
        }
    }
    s
}

/// Follows an element closing.
fn close_tag(tag: CardTag, s: CardStyle, runs: &mut Vec<StyledRun>, last: &mut Option<char>) -> (next: CardStyle)
    requires
        *old(last) == last_char(old(runs)@),
    ensures
        ({
            let (n, more) = card_step(s, run_text(run_views(old(runs)@)), CardEventView::End(tag));
            next == n && run_views(final(runs)@) == run_views(old(runs)@) + more
        }),
        *final(last) == last_char(final(runs)@),
{
    let ghost before = run_views(runs@);
    let mut s = s;
    match tag {
        CardTag::Paragraph => {
            write_run(runs, last, literal("\n\n"), style_of(s, RunKind::Plain, 100));
        },
        CardTag::Heading(_) => {
            write_run(runs, last, literal("\n\n"), style_of(s, RunKind::Plain, 100));
            s.heading = 0;
        },
        CardTag::CodeBlock => {
            write_run(runs, last, literal("\n\n"), style_of(s, RunKind::Plain, 100));
            s.code_block = less_exec(s.code_block);
        },
        CardTag::Item | CardTag::TableRow => {
            write_run(runs, last, literal("\n"), style_of(s, RunKind::Plain, 100));
        },
        CardTag::BlockQuote => {
            s.quote = less_exec(s.quote);
            write_run(runs, last, literal("\n"), style_of(s, RunKind::Plain, 100));
        },
        CardTag::Emphasis => {
            s.emphasis = less_exec(s.emphasis);
        },
        CardTag::Strong => {
            s.strong = less_exec(s.strong);
        },
        CardTag::Strikethrough => {
            s.strike = less_exec(s.strike);
        },
        CardTag::Link => {
            s.link = less_exec(s.link);
        },
        _ => {},
    }
    proof {
        assert(before + Seq::<(Seq<char>, RunStyle)>::empty() =~= before);
    }
    s
}

/// Writes the run of an event that is no element's start or end.
fn write_leaf(event: &CardEvent, s: CardStyle, runs: &mut Vec<StyledRun>, last: &mut Option<char>)
    requires
        *old(last) == last_char(old(runs)@),
        !(event@ is Start),
        !(event@ is End),
    ensures
        run_views(final(runs)@) == run_views(old(runs)@) + card_step(s, run_text(run_views(old(runs)@)), event@).1,
        card_step(s, run_text(run_views(old(runs)@)), event@).0 == s,
        *final(last) == last_char(final(runs)@),
{
    match event {
        CardEvent::Footnote(label) => {
            let open = concat("[", label.as_str());
            let text = concat(open.as_str(), "] ");
            write_run(runs, last, text, style_of(s, RunKind::Plain, 90));
        },
        CardEvent::Text(t) => {
            write_run(runs, last, t.clone(), style_of(s, RunKind::Plain, 100));
        },
        CardEvent::Code(t) => {
            write_run(runs, last, t.clone(), style_of(s, RunKind::InlineCode, 100));
        },
        CardEvent::Math(t) => {
            write_run(runs, last, t.clone(), style_of(s, RunKind::Math, 100));
        },
        CardEvent::Html(t) => {
            write_run(runs, last, t.clone(), style_of(s, RunKind::Plain, 90));
        },
        CardEvent::FootnoteReference(label) => {
            let open = concat("[", label.as_str());
            let text = concat(open.as_str(), "]");
            write_run(runs, last, text, style_of(s, RunKind::Plain, 85));
        },
        CardEvent::SoftBreak => {
            write_run(runs, last, literal(" "), style_of(s, RunKind::Plain, 100));
        },
        CardEvent::HardBreak => {
            write_run(runs, last, literal("\n"), style_of(s, RunKind::Plain, 100));
        },
        CardEvent::Rule => {
            write_run(runs, last, literal("\n────────────────────────\n"), style_of(s, RunKind::Plain, 100));
        },
        CardEvent::TaskListMarker(checked) => {
            let mark = if *checked {
                literal("☑ ")
            } else {
                literal("☐ ")
            };
            write_run(runs, last, mark, style_of(s, RunKind::Plain, 100));
        },
        CardEvent::Start(_) | CardEvent::End(_) => {},
    }
}

/// One event of pulldown-cmark's parser, as far as a card reads it. The kinds of elements and
/// the events without text come as the parser's own names for them, the `Debug` forms of its
/// `TagEnd` and `Event` values, such as `Heading(H2)` or `TaskListMarker(true)`.
pub enum ParserEvent {
    /// An element of the named kind opens.
    Start(String),
    /// An element of the named kind closes.
    End(String),
    /// A footnote definition opens, with this label.
    FootnoteDefinition(String),
    Text(String),
    /// Inline code.
    Code(String),
    /// Inline or block HTML.
    Html(String),
    /// A reference to the footnote with this label.
    FootnoteReference(String),
    /// Any other event, by its name.
    Other(String),
}

/// A [`ParserEvent`] with its texts as characters.
pub enum ParserEventView {
    Start(Seq<char>),
    End(Seq<char>),
    FootnoteDefinition(Seq<char>),
    Text(Seq<char>),
    Code(Seq<char>),
    Html(Seq<char>),
    FootnoteReference(Seq<char>),
    Other(Seq<char>),
}

impl View for ParserEvent {
    type V = ParserEventView;

    open spec fn view(&self) -> ParserEventView {
        match self {
            ParserEvent::Start(n) => ParserEventView::Start(n@),
            ParserEvent::End(n) => ParserEventView::End(n@),
            ParserEvent::FootnoteDefinition(l) => ParserEventView::FootnoteDefinition(l@),
            ParserEvent::Text(t) => ParserEventView::Text(t@),
            ParserEvent::Code(t) => ParserEventView::Code(t@),
            ParserEvent::Html(t) => ParserEventView::Html(t@),
            ParserEvent::FootnoteReference(l) => ParserEventView::FootnoteReference(l@),
            ParserEvent::Other(n) => ParserEventView::Other(n@),
        }
    }
}

/// The events that pulldown-cmark gives for `body` with strikethrough, tables, task lists and
/// footnotes enabled.
pub uninterp spec fn card_events(body: Seq<char>) -> Seq<ParserEventView>;

/// `pulldown_cmark::Parser::new_ext(body, options)` with strikethrough, tables, task lists and
/// footnotes enabled, each event converted one for one: the kind of an opening or closing
/// element as the `Debug` form of its `TagEnd`, the label of a footnote definition, texts,
/// inline code, HTML and footnote references as strings, and any other event as its `Debug`
/// form.
#[verifier::external_body]
fn card_events_of(body: &str) -> (events: Vec<ParserEvent>)
    ensures
        events@.map_values(|e: ParserEvent| e@) == card_events(body@),
{
    let options = Options::ENABLE_STRIKETHROUGH | Options::ENABLE_TABLES | Options::ENABLE_TASKLISTS | Options::ENABLE_FOOTNOTES;
    Parser::new_ext(body, options).map(|event| match event {
        Start(FootnoteDefinition(label)) => ParserEvent::FootnoteDefinition(label.into_string()),
        Start(tag) => ParserEvent::Start(format!("{:?}", tag.to_end())),
        End(tag) => ParserEvent::End(format!("{:?}", tag)),
        Text(text) => ParserEvent::Text(text.into_string()),
        Code(code) => ParserEvent::Code(code.into_string()),
        InlineHtml(html) | Html(html) => ParserEvent::Html(html.into_string()),
        FootnoteReference(label) => ParserEvent::FootnoteReference(label.into_string()),
        other => ParserEvent::Other(format!("{:?}", other)),
    }).collect()
}

/// The element kind that the parser names `name`.
pub open spec fn tag_named(name: Seq<char>) -> CardTag {
    if name == "Paragraph"@ {
        CardTag::Paragraph
    } else if name == "Heading(H1)"@ {
        CardTag::Heading(1)
    } else if name == "Heading(H2)"@ {
        CardTag::Heading(2)
    } else if name == "Heading(H3)"@ {
        CardTag::Heading(3)
    } else if name == "Heading(H4)"@ {
        CardTag::Heading(4)
    } else if name == "Heading(H5)"@ {
        CardTag::Heading(5)
    } else if name == "Heading(H6)"@ {
        CardTag::Heading(6)
    } else if name == "CodeBlock"@ {
        CardTag::CodeBlock
    } else if occurs_at(name, "BlockQuote("@, 0) {
        CardTag::BlockQuote
    } else if name == "Item"@ {
        CardTag::Item
    } else if name == "TableRow"@ {
        CardTag::TableRow
    } else if name == "TableCell"@ {
        CardTag::TableCell
    } else if name == "Emphasis"@ {
        CardTag::Emphasis
    } else if name == "Strong"@ {
        CardTag::Strong
    } else if name == "Strikethrough"@ {
        CardTag::Strikethrough
    } else if name == "Link"@ {
        CardTag::Link
    } else {
        CardTag::Other
    }
}

/// The card event of a parser event. A named event the card has no rule for counts as the
/// opening of an element it does not style.
pub open spec fn card_event_of(event: ParserEventView) -> CardEventView {
    match event {
        ParserEventView::Start(n) => CardEventView::Start(tag_named(n)),
        ParserEventView::End(n) => CardEventView::End(tag_named(n)),
        ParserEventView::FootnoteDefinition(l) => CardEventView::Footnote(l),
        ParserEventView::Text(t) => CardEventView::Text(t),
        ParserEventView::Code(t) => CardEventView::Code(t),
        ParserEventView::Html(t) => CardEventView::Html(t),
        ParserEventView::FootnoteReference(l) => CardEventView::FootnoteReference(l),
        ParserEventView::Other(n) => if n == "SoftBreak"@ {
            CardEventView::SoftBreak
        } else if n == "HardBreak"@ {
            CardEventView::HardBreak
        } else if n == "Rule"@ {
            CardEventView::Rule
        } else if n == "TaskListMarker(true)"@ {
            CardEventView::TaskListMarker(true)
        } else if n == "TaskListMarker(false)"@ {
            CardEventView::TaskListMarker(false)
        } else {
            CardEventView::Start(CardTag::Other)
        },
    }
}

fn is_named(name: &String, text: &str) -> (r: bool)
    ensures
        r == (name@ == text@),
{
    same_chars(&chars_of(name.as_str()), &chars_of(text))
}

fn tag_of(name: &String) -> (tag: CardTag)
    ensures
        tag == tag_named(name@),
{
    if is_named(name, "Paragraph") {
        CardTag::Paragraph
    } else if is_named(name, "Heading(H1)") {
        CardTag::Heading(1)
    } else if is_named(name, "Heading(H2)") {
        CardTag::Heading(2)
    } else if is_named(name, "Heading(H3)") {
        CardTag::Heading(3)
    } else if is_named(name, "Heading(H4)") {
        CardTag::Heading(4)
    } else if is_named(name, "Heading(H5)") {
        CardTag::Heading(5)
    } else if is_named(name, "Heading(H6)") {
        CardTag::Heading(6)
    } else if is_named(name, "CodeBlock") {
        CardTag::CodeBlock
    } else if occurs_at_exec(&chars_of(name.as_str()), &chars_of("BlockQuote("), 0) {
        CardTag::BlockQuote
    } else if is_named(name, "Item") {
        CardTag::Item
    } else if is_named(name, "TableRow") {
        CardTag::TableRow
    } else if is_named(name, "TableCell") {
        CardTag::TableCell
    } else if is_named(name, "Emphasis") {
        CardTag::Emphasis
    } else if is_named(name, "Strong") {
        CardTag::Strong
    } else if is_named(name, "Strikethrough") {
        CardTag::Strikethrough
    } else if is_named(name, "Link") {
        CardTag::Link
    } else {
        CardTag::Other
    }
}

fn card_event(event: &ParserEvent) -> (card: CardEvent)
    ensures
        card@ == card_event_of(event@),
{
    match event {
        ParserEvent::Start(n) => CardEvent::Start(tag_of(n)),
        ParserEvent::End(n) => CardEvent::End(tag_of(n)),
        ParserEvent::FootnoteDefinition(l) => CardEvent::Footnote(l.clone()),
        ParserEvent::Text(t) => CardEvent::Text(t.clone()),
        ParserEvent::Code(t) => CardEvent::Code(t.clone()),
        ParserEvent::Html(t) => CardEvent::Html(t.clone()),
        ParserEvent::FootnoteReference(l) => CardEvent::FootnoteReference(l.clone()),
        ParserEvent::Other(n) => if is_named(n, "SoftBreak") {
            CardEvent::SoftBreak
        } else if is_named(n, "HardBreak") {
            CardEvent::HardBreak
        } else if is_named(n, "Rule") {
            CardEvent::Rule
        } else if is_named(n, "TaskListMarker(true)") {
            CardEvent::TaskListMarker(true)
        } else if is_named(n, "TaskListMarker(false)") {
            CardEvent::TaskListMarker(false)
        } else {
            CardEvent::Start(CardTag::Other)
        },
    }
}

/// The card events of the parser's events, one for each (see [`card_event_of`]).
pub fn card_events_from(parsed: &Vec<ParserEvent>) -> (events: Vec<CardEvent>)
    ensures
        events@.map_values(|e: CardEvent| e@) == parsed@.map_values(|e: ParserEvent| card_event_of(e@)),
{
    let mut events: Vec<CardEvent> = Vec::new();
    for i in 0..parsed.len()
        invariant
            events@.map_values(|e: CardEvent| e@) == parsed@.take(i as int).map_values(
                |e: ParserEvent| card_event_of(e@),
            ),
    {
        let ghost before = events@.map_values(|e: CardEvent| e@);
        let card = card_event(&parsed[i]);
        events.push(card);
        assert(events@.map_values(|e: CardEvent| e@) =~= before.push(card@));
        assert(parsed@.take(i + 1).map_values(|e: ParserEvent| card_event_of(e@)) =~= parsed@.take(
            i as int,
        ).map_values(|e: ParserEvent| card_event_of(e@)).push(card_event_of(parsed@[i as int]@)));
    }
    assert(parsed@.take(parsed@.len() as int) =~= parsed@);
    events
}

/// The styled runs of a card's events (see [`styled_runs`]).
pub fn card_runs(events: &Vec<CardEvent>) -> (runs: Vec<StyledRun>)
    ensures
        run_views(runs@) == styled_runs(events@.map_values(|e: CardEvent| e@)),
{
    let ghost all = events@.map_values(|e: CardEvent| e@);
    let mut runs: Vec<StyledRun> = Vec::new();
    let mut last: Option<char> = None;
    let mut s = CardStyle { heading: 0, emphasis: 0, strong: 0, strike: 0, code_block: 0, quote: 0, link: 0 };
    assert(all.take(0) =~= Seq::<CardEventView>::empty());
    assert(run_views(runs@) =~= Seq::<(Seq<char>, RunStyle)>::empty());
    for i in 0..events.len()
        invariant
            all == events@.map_values(|e: CardEvent| e@),
            card_fold(all.take(i as int)) == (s, run_views(runs@)),
            last == last_char(runs@),
            depths_below(s, i + 1),
    {
        let ghost before = run_views(runs@);
        assert(all.take(i + 1).drop_last() =~= all.take(i as int));
        assert(all.take(i + 1).last() == events@[i as int]@);
        match &events[i] {
            CardEvent::Start(tag) => {
                s = open_tag(*tag, s, &mut runs, &mut last);
            },
            CardEvent::End(tag) => {
                s = close_tag(*tag, s, &mut runs, &mut last);
            },
            event => {
                write_leaf(event, s, &mut runs, &mut last);
            },
        }
        assert(card_fold(all.take(i + 1)) == (s, run_views(runs@)));
    }
    assert(all.take(events@.len() as int) =~= all);
    runs
}

/// The styled runs of a card's Markdown `body`: those of the card events of what the parser
/// finds in it.
pub fn card_markup(body: &str) -> (runs: Vec<StyledRun>)
    ensures
        run_views(runs@) == styled_runs(card_events(body@).map_values(|e: ParserEventView| card_event_of(e))),
{
    let parsed = card_events_of(body);
    let events = card_events_from(&parsed);
    proof {
        assert(events@.map_values(|e: CardEvent| e@) =~= card_events(body@).map_values(
            |e: ParserEventView| card_event_of(e),
        ));
    }
    card_runs(&events)
}

} // verus!
