use atlas::search::{search, snippet, SearchState, MAX_RESULTS};
use atlas::vault::{NoteId, NoteRecord, VaultIndex};

fn note(name: &str, body: &str, tags: &[&str]) -> NoteRecord {
    let path = format!("{name}.md");
    NoteRecord {
        id: NoteId(path.clone()),
        relative_path: path,
        title: name.to_owned(),
        markdown_body: body.to_owned(),
        aliases: Vec::new(),
        tags: tags.iter().map(|tag| (*tag).to_owned()).collect(),
        references: Vec::new(),
        backlinks: Vec::new(),
        citations: Vec::new(),
        diagnostics: Vec::new(),
    }
}

fn index(notes: Vec<NoteRecord>) -> VaultIndex {
    VaultIndex {
        root: "/vault".to_owned(),
        notes,
        diagnostics: Vec::new(),
        scan_duration_micros: 0,
    }
}

#[test]
fn title_matches_rank_above_body_only_matches() {
    let vault = index(vec![
        note("Body note", "the target-trial protocol appears here", &[]),
        note("Target trial emulation", "unrelated content", &[]),
    ]);
    let hits = search(&vault, "target-trial");
    assert_eq!(hits.len(), 1);
    assert_eq!(hits[0].title, "Body note");
}

#[test]
fn title_matches_outrank_body_matches_when_both_present() {
    let vault = index(vec![
        note("Unrelated", "mentions causal in passing", &[]),
        note("Causal representation", "distinct body content", &[]),
    ]);
    let hits = search(&vault, "causal");
    assert_eq!(hits.len(), 2);
    assert_eq!(hits[0].title, "Causal representation");
}

#[test]
fn tag_matches_are_found() {
    let vault = index(vec![note("Note", "nothing relevant", &["causal/g-methods"])]);
    let hits = search(&vault, "g-methods");
    assert_eq!(hits.len(), 1);
}

#[test]
fn empty_query_returns_no_hits() {
    let vault = index(vec![note("Note", "body", &[])]);
    assert!(search(&vault, "").is_empty());
    assert!(search(&vault, "   ").is_empty());
}

#[test]
fn results_are_capped() {
    let notes = (0..MAX_RESULTS + 5)
        .map(|index| note(&format!("Match {index}"), "shared", &[]))
        .collect();
    let vault = index(notes);
    let hits = search(&vault, "shared");
    assert_eq!(hits.len(), MAX_RESULTS);
}

#[test]
fn snippet_starts_near_the_match() {
    let body = "a very long preamble that goes on for a while before the actual keyword shows up";
    let result = snippet(body, "keyword");
    assert!(result.starts_with("keyword"));
}

#[test]
fn scores_add_title_tag_and_body_matches() {
    let vault = index(vec![
        note("Alpha", "alpha body", &["alpha-tag"]),
        note("Beta", "mentions alpha", &[]),
        note("Gamma", "nothing", &["alpha"]),
    ]);
    let hits = search(&vault, "  ALPHA ");
    let scores: Vec<u8> = hits.iter().map(|hit| hit.score).collect();
    let titles: Vec<&str> = hits.iter().map(|hit| hit.title.as_str()).collect();
    assert_eq!(scores, [7, 2, 1]);
    assert_eq!(titles, ["Alpha", "Gamma", "Beta"]);
}

#[test]
fn equal_scores_keep_vault_order() {
    let vault = index(vec![
        note("First", "shared", &[]),
        note("Second", "shared", &[]),
    ]);
    let hits = search(&vault, "shared");
    assert_eq!(hits[0].title, "First");
    assert_eq!(hits[1].title, "Second");
}

#[test]
fn snippet_collapses_white_space_and_is_clipped() {
    assert_eq!(snippet("one   two\n\tthree", "two"), "two three");
    let long = "x".repeat(200);
    assert_eq!(snippet(&long, "missing").chars().count(), 92);
    assert_eq!(snippet("no match here", "zzz"), "no match here");
}

#[test]
fn the_search_box_opens_and_closes() {
    let mut state = SearchState::default();
    assert!(!state.is_open());
    state.open();
    assert!(state.is_open());
    assert!(state.focus_requested);
    state.query = "draft".to_owned();
    state.active = 3;
    state.close();
    assert!(!state.is_open());
    assert!(state.query.is_empty());
    assert_eq!(state.active, 0);
}

#[test]
fn arrow_keys_wrap_the_highlight_and_enter_chooses_it() {
    let mut state = SearchState::default();
    assert_eq!(state.navigate(3, true, false, false), None);
    assert_eq!(state.active, 1);
    assert_eq!(state.navigate(3, true, false, true), Some(2));
    assert_eq!(state.navigate(3, true, false, false), None);
    assert_eq!(state.active, 0);
    assert_eq!(state.navigate(3, false, true, true), Some(2));
    state.active = 7;
    assert_eq!(state.navigate(2, false, false, true), Some(1));
    assert_eq!(state.navigate(0, true, true, true), None);
    assert_eq!(state.active, 1);
}

#[test]
fn a_blank_query_finds_nothing() {
    let vault = index(vec![note("Note", "body", &[])]);
    assert!(search(&vault, " \t\n").is_empty());
}
