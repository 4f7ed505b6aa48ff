use atlas::board::tags::{
    add_tag_weight, checked_tag_relationship_weights, cluster_members, exact_rescan, keeps_place, cluster_names, next_tag_by_affinity, normalized_tags,
    note_sort_key, placed_weight, placement_fingerprint, tag_relationship_weights, tag_weight,
    weight_key, weighted_degree, Cluster, TagWeights,
};
use atlas::vault::{NoteId, NoteRecord};

fn note(name: &str, tags: &[&str], references: &[&str]) -> NoteRecord {
    let path = format!("{name}.md");
    NoteRecord {
        id: NoteId(path.clone()),
        relative_path: path,
        title: name.to_owned(),
        markdown_body: String::new(),
        aliases: Vec::new(),
        tags: tags.iter().map(|tag| (*tag).to_owned()).collect(),
        references: references.iter().map(|r| NoteId(format!("{r}.md"))).collect(),
        backlinks: Vec::new(),
        citations: Vec::new(),
        diagnostics: Vec::new(),
    }
}

fn keys_and_names(note: &NoteRecord) -> Vec<(String, String)> {
    normalized_tags(note)
        .into_iter()
        .map(|entry| (entry.key, entry.name))
        .collect()
}

#[test]
fn tags_are_normalized_per_lower_cased_name() {
    let n = note("a", &[" #Beta", "alpha", "BETA", "##", "  "], &[]);
    assert_eq!(
        keys_and_names(&n),
        vec![
            ("alpha".to_owned(), "alpha".to_owned()),
            ("beta".to_owned(), "Beta".to_owned())
        ]
    );
    let untagged = note("b", &[], &[]);
    assert_eq!(
        keys_and_names(&untagged),
        vec![("\0atlas-untagged".to_owned(), "Untagged".to_owned())]
    );
}

#[test]
fn fingerprints_list_tag_keys_and_related_notes_once() {
    let mut n = note("a", &["X", "y"], &["c", "b"]);
    n.backlinks = vec![NoteId("b.md".to_owned()), NoteId("d.md".to_owned())];
    let tags = normalized_tags(&n);
    let fingerprint = placement_fingerprint(&n, &tags);
    assert_eq!(fingerprint.tags, ["x", "y"]);
    let related: Vec<&str> = fingerprint.related.iter().map(|id| id.0.as_str()).collect();
    assert_eq!(related, ["b.md", "c.md", "d.md"]);
}

#[test]
fn notes_sort_by_their_lower_cased_identity() {
    let n = note("Folder\\Note", &[], &[]);
    let (lower, shown) = note_sort_key(&n);
    assert_eq!(shown, "Folder/Note.md");
    assert_eq!(lower, "folder/note.md");
}

#[test]
fn weights_are_kept_per_unordered_pair() {
    let (a, b) = ("beta".to_owned(), "alpha".to_owned());
    assert_eq!(weight_key(&a, &b), ("alpha".to_owned(), "beta".to_owned()));
    let mut weights = TagWeights::new();
    add_tag_weight(&mut weights, &a, &b, 4);
    add_tag_weight(&mut weights, &b, &a, 1);
    assert_eq!(weights.entries.len(), 1);
    assert_eq!(tag_weight(&a, &b, &weights), 5);
    assert_eq!(tag_weight(&a, &a, &weights), 0);
    assert_eq!(weighted_degree(&a, &weights), 5);
    let placed = vec!["alpha".to_owned(), "gamma".to_owned()];
    assert_eq!(placed_weight(&a, &placed, &weights), 5);
}

#[test]
fn relationship_weights_count_shared_notes_and_references() {
    let notes = vec![
        note("one", &["a", "b"], &["two", "two", "missing"]),
        note("two", &["c"], &[]),
    ];
    let tags: Vec<_> = notes.iter().map(normalized_tags).collect();
    let weights = tag_relationship_weights(&notes, &tags);
    let (a, b, c) = ("a".to_owned(), "b".to_owned(), "c".to_owned());
    assert_eq!(tag_weight(&a, &b, &weights), 4);
    assert_eq!(tag_weight(&a, &c, &weights), 1);
    assert_eq!(tag_weight(&b, &c, &weights), 1);
}

#[test]
fn clusters_gather_members_in_note_order() {
    let notes = vec![
        note("one", &["Zed", "a"], &[]),
        note("two", &["zed"], &[]),
        note("three", &[], &[]),
    ];
    let tags: Vec<_> = notes.iter().map(normalized_tags).collect();
    let clusters = cluster_members(&notes, &tags);
    let view: Vec<(String, Vec<String>)> = clusters
        .iter()
        .map(|c| (c.key.clone(), c.members.iter().map(|id| id.0.clone()).collect()))
        .collect();
    assert_eq!(
        view,
        vec![
            ("\0atlas-untagged".to_owned(), vec!["three.md".to_owned()]),
            ("a".to_owned(), vec!["one.md".to_owned()]),
            ("zed".to_owned(), vec!["one.md".to_owned(), "two.md".to_owned()]),
        ]
    );
    let names: Vec<(String, String)> = cluster_names(&notes, &tags)
        .into_iter()
        .map(|entry| (entry.key, entry.name))
        .collect();
    assert_eq!(names[2], ("zed".to_owned(), "Zed".to_owned()));
}

#[test]
fn the_next_cluster_is_the_one_most_drawn_to_the_placed() {
    let cluster = |key: &str, size: usize| Cluster {
        key: key.to_owned(),
        members: (0..size).map(|i| NoteId(format!("{key}{i}.md"))).collect(),
    };
    let clusters = vec![cluster("a", 1), cluster("b", 3), cluster("c", 3)];
    let mut weights = TagWeights::new();
    assert_eq!(next_tag_by_affinity(&clusters, &Vec::new(), &weights), Some("b".to_owned()));
    add_tag_weight(&mut weights, &"a".to_owned(), &"c".to_owned(), 2);
    let placed = vec!["a".to_owned()];
    assert_eq!(next_tag_by_affinity(&clusters, &placed, &weights), Some("c".to_owned()));
    let all = vec!["a".to_owned(), "b".to_owned(), "c".to_owned()];
    assert_eq!(next_tag_by_affinity(&clusters, &all, &weights), None);
}

#[test]
fn exact_normalized_and_nested_tags_are_distinct_memberships() {
    let notes = vec![note("Tagged", &["#Methods", " methods ", "methods/stats"], &[])];
    let note_tags: Vec<_> = notes.iter().map(normalized_tags).collect();
    let clusters = cluster_members(&notes, &note_tags);
    assert_eq!(clusters.len(), 2);
    let names: Vec<String> = cluster_names(&notes, &note_tags)
        .into_iter()
        .map(|entry| entry.name)
        .collect();
    assert_eq!(names, vec!["Methods", "methods/stats"]);
    let fingerprint = placement_fingerprint(&notes[0], &note_tags[0]);
    assert_eq!(fingerprint.tags, vec!["methods", "methods/stats"]);
}

#[test]
fn notes_keep_their_places_only_when_unchanged_and_placed() {
    let n = note("a", &["x"], &["b"]);
    let tags = normalized_tags(&n);
    let now = placement_fingerprint(&n, &tags);
    let same = placement_fingerprint(&n, &tags);
    let retagged_note = note("a", &["y"], &["b"]);
    let retagged = placement_fingerprint(&retagged_note, &normalized_tags(&retagged_note));
    assert!(keeps_place(&now, Some(&same), true));
    assert!(!keeps_place(&now, Some(&same), false));
    assert!(!keeps_place(&now, Some(&retagged), true));
    assert!(!keeps_place(&now, None, true));
    assert!(exact_rescan(2, &vec![true, true]));
    assert!(!exact_rescan(3, &vec![true, true]));
    assert!(!exact_rescan(2, &vec![true, false]));
}

#[test]
fn checked_weights_match_the_plain_ones_when_they_fit() {
    let notes = vec![
        note("one", &["a", "b"], &["two"]),
        note("two", &["c"], &[]),
    ];
    let tags: Vec<_> = notes.iter().map(normalized_tags).collect();
    let weights = checked_tag_relationship_weights(&notes, &tags).expect("small weights fit");
    let (a, b, c) = ("a".to_owned(), "b".to_owned(), "c".to_owned());
    assert_eq!(tag_weight(&a, &b, &weights), 4);
    assert_eq!(tag_weight(&a, &c, &weights), 1);
    assert_eq!(tag_weight(&b, &c, &weights), 1);
    assert!(checked_tag_relationship_weights(&Vec::new(), &Vec::new()).is_some());
}
