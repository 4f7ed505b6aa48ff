use atlas::markdown::{
    card_events_from, card_markup, card_runs, without_duplicate_title, CardEvent, CardTag, ParserEvent,
    RunKind, StyledRun,
};

#[test]
fn duplicate_leading_h1_is_not_rendered_below_the_note_title() {
    assert_eq!(without_duplicate_title("# Note title\n\nBody", "Note title"), "Body");
    assert_eq!(
        without_duplicate_title("# Different\n\nBody", "Note title"),
        "# Different\n\nBody"
    );
}

#[test]
fn a_lone_title_heading_leaves_nothing() {
    assert_eq!(without_duplicate_title("\n  # Note title  ", " Note title"), "");
    assert_eq!(without_duplicate_title("# Note title\r\n\r\nBody", "Note title"), "Body");
    assert_eq!(without_duplicate_title("#Note title\nBody", "Note title"), "#Note title\nBody");
}

fn text_of(runs: &[StyledRun]) -> String {
    runs.iter().map(|run| run.text.as_str()).collect()
}

#[test]
fn card_runs_keep_the_text_and_drop_the_markup() {
    // The events of "# Heading\n\n**Strong** and `code`."
    let events = vec![
        CardEvent::Start(CardTag::Heading(1)),
        CardEvent::Text("Heading".to_owned()),
        CardEvent::End(CardTag::Heading(1)),
        CardEvent::Start(CardTag::Paragraph),
        CardEvent::Start(CardTag::Strong),
        CardEvent::Text("Strong".to_owned()),
        CardEvent::End(CardTag::Strong),
        CardEvent::Text(" and ".to_owned()),
        CardEvent::Code("code".to_owned()),
        CardEvent::Text(".".to_owned()),
        CardEvent::End(CardTag::Paragraph),
    ];
    let runs = card_runs(&events);
    assert_eq!(text_of(&runs), "Heading\n\nStrong and code.\n\n");
    assert_eq!(runs[0].style.heading, 1);
    assert_eq!(runs[1].style.heading, 1);
    assert_eq!(runs[2].style.heading, 0);
    assert!(runs[2].style.strong);
    assert!(!runs[3].style.strong);
    assert_eq!(runs[4].style.kind, RunKind::InlineCode);
}

#[test]
fn card_runs_mark_items_quotes_cells_and_footnotes() {
    let events = vec![
        CardEvent::Text("Intro".to_owned()),
        CardEvent::Start(CardTag::BlockQuote),
        CardEvent::Text("Quoted".to_owned()),
        CardEvent::End(CardTag::BlockQuote),
        CardEvent::Start(CardTag::Item),
        CardEvent::TaskListMarker(true),
        CardEvent::Text("Done".to_owned()),
        CardEvent::End(CardTag::Item),
        CardEvent::Start(CardTag::TableCell),
        CardEvent::Text("a".to_owned()),
        CardEvent::Start(CardTag::TableCell),
        CardEvent::Text("b".to_owned()),
        CardEvent::End(CardTag::TableRow),
        CardEvent::FootnoteReference("1".to_owned()),
        CardEvent::Footnote("1".to_owned()),
        CardEvent::Rule,
    ];
    let runs = card_runs(&events);
    assert_eq!(
        text_of(&runs),
        "Intro\n│ Quoted\n• ☑ Done\na  ·  b\n[1][1] \n────────────────────────\n"
    );
    assert!(runs[2].style.quote);
    assert!(!runs[4].style.quote);
    let reference = runs.iter().find(|run| run.text == "[1]").unwrap();
    assert_eq!(reference.style.percent, 85);
    let definition = runs.iter().find(|run| run.text == "[1] ").unwrap();
    assert_eq!(definition.style.percent, 90);
}

#[test]
fn markdown_layout_preserves_content_and_removes_markup_tokens() {
    let text = text_of(&card_markup("# Heading\n\n**Strong** and `code`."));
    assert!(text.contains("Heading"));
    assert!(text.contains("Strong and code."));
    assert!(!text.contains("**"));
}

#[test]
fn card_markup_styles_what_the_parser_finds() {
    let runs = card_markup("# Title\n\n> *quoted* ~~gone~~\n\n- [x] done\n\n| a | b |\n|---|---|\n| c | d |\n\nSee[^n].\n\n[^n]: Note.\n");
    let text = text_of(&runs);
    assert!(text.starts_with("Title\n\n│ quoted gone"));
    assert!(text.contains("• ☑ done"));
    assert!(text.contains("a  ·  b  ·  c  ·  d\n"));
    assert!(text.contains("See[n]."));
    assert!(text.contains("[n] Note."));
    assert!(!text.contains('*') && !text.contains('~') && !text.contains('|') && !text.contains('#'));
    assert_eq!(runs[0].style.heading, 1);
    let quoted = runs.iter().find(|run| run.text == "quoted").unwrap();
    assert!(quoted.style.italic && quoted.style.quote);
    let gone = runs.iter().find(|run| run.text == "gone").unwrap();
    assert!(gone.style.strike);
}

#[test]
fn card_markup_of_plain_text_is_one_paragraph() {
    let runs = card_markup("plain words");
    assert_eq!(text_of(&runs), "plain words\n\n");
    assert_eq!(runs[0].style.kind, RunKind::Plain);
    assert_eq!(runs[0].style.percent, 100);
    assert!(card_markup("").is_empty());
}

#[test]
fn parser_names_become_card_events() {
    let parsed = vec![
        ParserEvent::Start("Heading(H2)".to_owned()),
        ParserEvent::End("Heading(H6)".to_owned()),
        ParserEvent::Start("BlockQuote(Some(Note))".to_owned()),
        ParserEvent::End("List(false)".to_owned()),
        ParserEvent::Other("TaskListMarker(false)".to_owned()),
        ParserEvent::Other("SoftBreak".to_owned()),
        ParserEvent::Other("InlineMath(Borrowed(\"x\"))".to_owned()),
        ParserEvent::FootnoteDefinition("n".to_owned()),
        ParserEvent::Html("<b>".to_owned()),
    ];
    let events = card_events_from(&parsed);
    assert_eq!(events.len(), parsed.len());
    assert!(matches!(events[0], CardEvent::Start(CardTag::Heading(2))));
    assert!(matches!(events[1], CardEvent::End(CardTag::Heading(6))));
    assert!(matches!(events[2], CardEvent::Start(CardTag::BlockQuote)));
    assert!(matches!(events[3], CardEvent::End(CardTag::Other)));
    assert!(matches!(events[4], CardEvent::TaskListMarker(false)));
    assert!(matches!(events[5], CardEvent::SoftBreak));
    assert!(matches!(events[6], CardEvent::Start(CardTag::Other)));
    assert!(matches!(&events[7], CardEvent::Footnote(label) if label == "n"));
    assert!(matches!(&events[8], CardEvent::Html(html) if html == "<b>"));
}
