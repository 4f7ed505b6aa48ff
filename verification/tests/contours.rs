use atlas::board::contours::{canonicalize_loop, join_contours, EdgeKey, PointKey};

fn p(x: i64, y: i64) -> PointKey {
    PointKey(x, y)
}

#[test]
fn a_square_of_edges_is_one_closed_contour() {
    let mut edges = vec![
        EdgeKey::new(p(0, 1), p(0, 0)),
        EdgeKey::new(p(0, 0), p(1, 0)),
        EdgeKey::new(p(1, 1), p(0, 1)),
        EdgeKey::new(p(1, 0), p(1, 1)),
    ];
    edges.sort();
    let (contours, open) = join_contours(edges);
    assert_eq!(open, 0);
    assert_eq!(contours.len(), 1);
    assert_eq!(contours[0].points, vec![p(0, 0), p(0, 1), p(1, 1), p(1, 0)]);
}

#[test]
fn a_dangling_edge_is_an_open_walk() {
    let (contours, open) = join_contours(vec![EdgeKey::new(p(0, 0), p(0, 1))]);
    assert!(contours.is_empty());
    assert_eq!(open, 1);
}

#[test]
fn contours_are_ordered_by_their_first_point() {
    let mut edges = Vec::new();
    for (x, y) in [(10, 10), (0, 0)] {
        edges.push(EdgeKey::new(p(x, y), p(x + 1, y)));
        edges.push(EdgeKey::new(p(x + 1, y), p(x, y + 1)));
        edges.push(EdgeKey::new(p(x, y + 1), p(x, y)));
    }
    edges.sort();
    let (contours, open) = join_contours(edges);
    assert_eq!(open, 0);
    assert_eq!(contours.len(), 2);
    assert_eq!(contours[0].points[0], p(0, 0));
    assert_eq!(contours[1].points[0], p(10, 10));
}

#[test]
fn loops_start_at_their_least_point_towards_the_smaller_neighbor() {
    let mut points = vec![p(1, 1), p(0, 0), p(1, 0), p(0, 1)];
    canonicalize_loop(&mut points);
    assert_eq!(points, vec![p(0, 0), p(1, 0), p(0, 1), p(1, 1)]);

    let mut points = vec![p(0, 0), p(2, 2), p(1, 1)];
    canonicalize_loop(&mut points);
    assert_eq!(points, vec![p(0, 0), p(1, 1), p(2, 2)]);

    let mut empty: Vec<PointKey> = Vec::new();
    canonicalize_loop(&mut empty);
    assert!(empty.is_empty());
}

#[test]
fn edges_put_the_smaller_point_first() {
    assert_eq!(EdgeKey::new(p(3, 1), p(2, 9)), EdgeKey(p(2, 9), p(3, 1)));
    assert_eq!(EdgeKey::new(p(2, 1), p(2, 9)), EdgeKey(p(2, 1), p(2, 9)));
}
