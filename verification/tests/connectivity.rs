use atlas::board::connectivity::{bucket_lower_bound, distance_to_interval, BUCKET_SIZE};

#[test]
fn distances_to_an_interval() {
    assert_eq!(distance_to_interval(3, 5, 9), 2);
    assert_eq!(distance_to_interval(12, 5, 9), 3);
    assert_eq!(distance_to_interval(7, 5, 9), 0);
    assert_eq!(distance_to_interval(i32::MIN, i32::MAX, i32::MAX), (1i64 << 32) - 1);
}

#[test]
fn bucket_bounds_measure_to_the_nearest_slot_of_the_bucket() {
    assert_eq!(BUCKET_SIZE, 8);
    assert_eq!(bucket_lower_bound((3, 3), (0, 0)), 0);
    assert_eq!(bucket_lower_bound((10, 3), (0, 0)), 9);
    assert_eq!(bucket_lower_bound((-2, -3), (0, 0)), 13);
    assert_eq!(bucket_lower_bound((0, 0), (1, 1)), 128);
}

use atlas::board::connectivity::{closest_pair, cluster_pulls, connected_components, root_component, SlotBuckets};
use atlas::board::rejoin::{rejoin_requests, stepped_slots};
use atlas::vault::model::NoteId;

fn ids(names: &[&str]) -> Vec<NoteId> {
    names.iter().map(|name| NoteId(name.to_string())).collect()
}

fn names(components: &[Vec<NoteId>]) -> Vec<Vec<String>> {
    components.iter().map(|component| component.iter().map(|id| id.0.clone()).collect()).collect()
}

#[test]
fn touching_notes_form_one_component() {
    let members = ids(&["d", "a", "c", "b"]);
    let slots = vec![(6, 5), (0, 0), (5, 5), (1, 1)];
    let components = connected_components(&members, &slots);
    assert_eq!(names(&components), vec![vec!["a", "b"], vec!["c", "d"]]);

    let single = connected_components(&ids(&["x"]), &vec![(3, -4)]);
    assert_eq!(names(&single), vec![vec!["x"]]);
    assert!(connected_components(&Vec::new(), &Vec::new()).is_empty());
}

#[test]
fn the_root_holds_the_most_kept_notes_then_the_most_notes() {
    let components = vec![ids(&["a", "b"]), ids(&["c", "d", "e"])];
    assert_eq!(root_component(&components, &ids(&["a"])), 0);
    assert_eq!(root_component(&components, &Vec::new()), 1);
    let even = vec![ids(&["a"]), ids(&["b"])];
    assert_eq!(root_component(&even, &Vec::new()), 0);
}

#[test]
fn buckets_list_every_slot_once_in_its_bucket() {
    let slots = vec![(0, 0), (7, 7), (8, 0), (-1, -9)];
    let grouped = SlotBuckets::new(&slots);
    let mut listed: Vec<(usize, (i32, i32))> = Vec::new();
    for (bucket, members) in &grouped.buckets {
        for &index in members {
            listed.push((index, *bucket));
        }
    }
    listed.sort();
    assert_eq!(listed, vec![(0, (0, 0)), (1, (0, 0)), (2, (1, 0)), (3, (-1, -2))]);
}

#[test]
fn the_closest_pair_breaks_ties_by_layout_order() {
    let right = ids(&["q", "p", "far"]);
    let right_slots = vec![(0, 3), (3, 0), (100, 100)];
    let buckets = SlotBuckets::new(&right_slots);
    assert_eq!(closest_pair(&ids(&["x"]), &vec![(0, 0)], &right, &right_slots, &buckets), (0, 1));

    let left = ids(&["m", "k"]);
    let left_slots = vec![(90, 90), (99, 99)];
    assert_eq!(closest_pair(&left, &left_slots, &right, &right_slots, &buckets), (1, 2));
}

#[test]
fn a_split_cluster_is_pulled_towards_its_root() {
    let members = ids(&["a", "b", "c"]);
    let slots = vec![(0, 0), (1, 0), (5, 0)];
    let pulls = cluster_pulls(&members, &slots, &Vec::new());
    assert_eq!(pulls.len(), 1);
    assert_eq!((pulls[0].left, pulls[0].right, pulls[0].step), (2, 1, (-1, 0)));

    let joined = cluster_pulls(&members, &vec![(0, 0), (1, 0), (2, 1)], &Vec::new());
    assert!(joined.is_empty());

    let kept_far = cluster_pulls(&members, &slots, &ids(&["c"]));
    assert_eq!(kept_far.len(), 1);
    assert_eq!((kept_far[0].left, kept_far[0].right, kept_far[0].step), (1, 2, (1, 0)));
}

#[test]
fn requests_sum_the_steps_of_every_split_cluster() {
    let notes = ids(&["a", "b", "c", "d"]);
    let slots = vec![(0, 0), (1, 0), (5, 0), (5, 3)];
    let clusters = vec![vec![0, 1, 2], vec![2, 3]];
    let requests = rejoin_requests(&notes, &slots, &clusters, &Vec::new());
    assert_eq!(requests, Some(vec![(0, 0), (1, 0), (-1, 1), (0, -1)]));

    let joined = rejoin_requests(&notes, &slots, &vec![vec![0, 1]], &Vec::new());
    assert_eq!(joined, None);
    assert_eq!(rejoin_requests(&notes, &slots, &Vec::new(), &Vec::new()), None);
}

#[test]
fn slots_step_once_towards_their_requests() {
    let stepped = stepped_slots(&vec![(0, 0), (5, 5), (-2, 7)], &vec![(3, -2), (0, 0), (-1, 0)]);
    assert_eq!(stepped, vec![(1, -1), (5, 5), (-3, 7)]);
}
