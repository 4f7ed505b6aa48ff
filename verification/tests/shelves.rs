use atlas::board::shelves::{cold_side_by_side_centers, relationship_order};
use atlas::board::tags::{add_tag_weight, Cluster, TagWeights};
use atlas::vault::NoteId;

fn cluster(key: &str, size: usize) -> Cluster {
    Cluster {
        key: key.to_owned(),
        members: (0..size)
            .map(|index| NoteId(format!("{key}-{index}.md")))
            .collect(),
    }
}

fn center_of(centers: &[(String, (i128, i128))], key: &str) -> (i128, i128) {
    centers
        .iter()
        .find(|(name, _)| name == key)
        .map(|(_, center)| *center)
        .expect("every cluster has a centre")
}

#[test]
fn static_shelves_place_small_clusters_beside_large_clusters() {
    let clusters = vec![cluster("large", 100), cluster("small", 1)];
    let centers = cold_side_by_side_centers(&clusters, &TagWeights::new());
    let large = center_of(&centers, "large");
    let small = center_of(&centers, "small");

    // Centres are in half slots.
    assert_eq!((small.0 - large.0) as f32 / 2.0, 7.0);
    assert_eq!((small.1 - large.1) as f32 / 2.0, -5.0);
}

#[test]
fn shelf_centres_are_centred_on_the_origin() {
    let clusters = vec![cluster("large", 100), cluster("small", 1)];
    let centers = cold_side_by_side_centers(&clusters, &TagWeights::new());
    // The shelf is 13 slots wide and 11 high; the large square spans columns 0..11, the small
    // one column 12.
    assert_eq!(
        centers,
        vec![
            ("large".to_owned(), (-2, 0)),
            ("small".to_owned(), (12, -10)),
        ]
    );
}

#[test]
fn a_full_shelf_opens_the_next_one_below() {
    let clusters = vec![cluster("a", 1), cluster("b", 1), cluster("c", 1)];
    let centers = cold_side_by_side_centers(&clusters, &TagWeights::new());
    // Padded area 12 gives shelves 4 slots wide: two clusters on the first, one below.
    assert_eq!(
        centers,
        vec![
            ("a".to_owned(), (-2, -2)),
            ("b".to_owned(), (2, -2)),
            ("c".to_owned(), (-2, 2)),
        ]
    );
}

#[test]
fn no_clusters_have_no_centres() {
    assert!(cold_side_by_side_centers(&Vec::new(), &TagWeights::new()).is_empty());
}

#[test]
fn relationship_order_follows_affinity_until_every_cluster_is_placed() {
    let clusters = vec![cluster("a", 1), cluster("b", 3), cluster("c", 2)];
    let mut weights = TagWeights::new();
    add_tag_weight(&mut weights, &"b".to_owned(), &"a".to_owned(), 5);
    // "b" is largest; then "a" is drawn to it by weight although "c" is larger.
    assert_eq!(
        relationship_order(&clusters, &weights),
        vec!["b".to_owned(), "a".to_owned(), "c".to_owned()]
    );
}

#[test]
fn relationship_order_breaks_ties_by_key() {
    let clusters = vec![cluster("x", 1), cluster("y", 1), cluster("z", 1)];
    assert_eq!(
        relationship_order(&clusters, &TagWeights::new()),
        vec!["x".to_owned(), "y".to_owned(), "z".to_owned()]
    );
}
