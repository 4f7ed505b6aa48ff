//! Joining the edges of a cluster's outline into closed contours.
//!
//! Points are quantized positions; an edge joins two different points and is written with
//! the smaller point first.
use vstd::prelude::*;

use crate::sort::{stable_sort, stably_sorted, Keyed};

verus! {

broadcast use vstd::seq_lib::group_seq_lib_default;

/// A quantized point.
#[derive(Clone, Copy, Debug, PartialEq, Eq, Structural, Hash, PartialOrd, Ord)]
pub struct PointKey(pub i64, pub i64);

/// An edge between two points, the smaller first.
#[derive(Clone, Copy, Debug, PartialEq, Eq, Structural, Hash, PartialOrd, Ord)]
pub struct EdgeKey(pub PointKey, pub PointKey);

/// Points are ordered by their first coordinate, then their second.
pub open spec fn point_lt(a: PointKey, b: PointKey) -> bool {
    a.0 < b.0 || (a.0 == b.0 && a.1 < b.1)
}

/// Edges are ordered by their first point, then their second.
pub open spec fn edge_lt(a: EdgeKey, b: EdgeKey) -> bool {
    point_lt(a.0, b.0) || (a.0 == b.0 && point_lt(a.1, b.1))
}

/// The edge between two points, the smaller first.
pub open spec fn edge_between(left: PointKey, right: PointKey) -> EdgeKey {
    if point_lt(right, left) {
        EdgeKey(right, left)
    } else {
        EdgeKey(left, right)
    }
}

fn point_less(a: PointKey, b: PointKey) -> (r: bool)
    ensures
        r == point_lt(a, b),
{
    a.0 < b.0 || (a.0 == b.0 && a.1 < b.1)
}

impl EdgeKey {
    /// The edge between `left` and `right`, the smaller point first.
    pub fn new(left: PointKey, right: PointKey) -> (edge: EdgeKey)
        ensures
            edge == edge_between(left, right),
    {
        if point_less(right, left) {
            EdgeKey(right, left)
        } else {
            EdgeKey(left, right)
        }
    }
}

/// The edges are sorted without repeats, and each joins two points, the smaller first.
pub open spec fn edge_list(edges: Seq<EdgeKey>) -> bool {
    &&& forall|i: int, j: int| 0 <= i < j < edges.len() ==> edge_lt(#[trigger] edges[i], #[trigger] edges[j])
    &&& forall|i: int| 0 <= i < edges.len() ==> point_lt((#[trigger] edges[i]).0, edges[i].1)
}

/// The other end of `edge` when it touches `p`.
pub open spec fn other_end(edge: EdgeKey, p: PointKey) -> Option<PointKey> {
    if edge.0 == p {
        Some(edge.1)
    } else if edge.1 == p {
        Some(edge.0)
    } else {
        None
    }
}

/// The least point joined to `p` by one of the edges, `avoid` excepted.
pub open spec fn least_neighbor(edges: Seq<EdgeKey>, p: PointKey, avoid: Option<PointKey>) -> Option<PointKey>
    decreases edges.len(),
{
    if edges.len() == 0 {
        None
    } else {
        let best = least_neighbor(edges.drop_last(), p, avoid);
        match other_end(edges.last(), p) {
            Some(q) => if Some(q) == avoid {
                best
            } else {
                match best {
                    Some(b) => if point_lt(q, b) {
                        Some(q)
                    } else {
                        Some(b)
                    },
                    None => Some(q),
                }
            },
            None => best,
        }
    }
}

/// Where a walk at `current`, arrived from `previous`, goes next along an unused edge: the
/// least neighbor other than `previous`, else the least neighbor.
pub open spec fn next_step(unused: Seq<EdgeKey>, current: PointKey, previous: PointKey) -> Option<PointKey> {
    match least_neighbor(unused, current, Some(previous)) {
        Some(q) => Some(q),
        None => least_neighbor(unused, current, None),
    }
}

/// Whether an edge differs from `edge`.
pub open spec fn not_edge(edge: EdgeKey) -> spec_fn(EdgeKey) -> bool {
    |e: EdgeKey| e != edge
}

/// The edges without `edge`.
pub open spec fn without(edges: Seq<EdgeKey>, edge: EdgeKey) -> Seq<EdgeKey> {
    edges.filter(not_edge(edge))
}

pub proof fn lemma_least_neighbor(edges: Seq<EdgeKey>, p: PointKey, avoid: Option<PointKey>)
    requires
        forall|i: int| 0 <= i < edges.len() ==> point_lt((#[trigger] edges[i]).0, edges[i].1),
    ensures
        least_neighbor(edges, p, avoid) matches Some(q) ==> edges.contains(edge_between(p, q)) && Some(q)
            != avoid,
    decreases edges.len(),
{
    if edges.len() > 0 {
        lemma_least_neighbor(edges.drop_last(), p, avoid);
        let e = edges.last();
        assert(e == edges[edges.len() - 1]);
        if let Some(b) = least_neighbor(edges.drop_last(), p, avoid) {
            let k = choose|k: int| 0 <= k < edges.drop_last().len() && edges.drop_last()[k] == edge_between(p, b);
            assert(edges[k] == edge_between(p, b));
        }
    }
}

pub proof fn lemma_without_shorter(edges: Seq<EdgeKey>, edge: EdgeKey)
    requires
        edges.contains(edge),
    ensures
        without(edges, edge).len() < edges.len(),
    decreases edges.len(),
{
    reveal(Seq::filter);
    let p = not_edge(edge);
    assert(without(edges, edge) == (if p(edges.last()) {
        without(edges.drop_last(), edge).push(edges.last())
    } else {
        without(edges.drop_last(), edge)
    }));
    if edges.last() == edge {
        edges.drop_last().lemma_filter_len(p);
    } else {
        let k = choose|k: int| 0 <= k < edges.len() && edges[k] == edge;
        assert(edges.drop_last()[k] == edge);
        lemma_without_shorter(edges.drop_last(), edge);
    }
}

pub proof fn lemma_without_keeps(edges: Seq<EdgeKey>, edge: EdgeKey, i: int)
    requires
        0 <= i < without(edges, edge).len(),
    ensures
        edges.contains(without(edges, edge)[i]),
{
    let x = without(edges, edge)[i];
    assert(without(edges, edge).contains(x));
    crate::sort::lemma_filter_members(edges, not_edge(edge), x);
}

/// Walking from `current` towards `start`: the unused edges left, the points visited and the
/// point the walk stopped at.
pub open spec fn walk(
    unused: Seq<EdgeKey>,
    start: PointKey,
    previous: PointKey,
    current: PointKey,
    keys: Seq<PointKey>,
) -> (Seq<EdgeKey>, Seq<PointKey>, PointKey)
    decreases unused.len(),
{
    if current == start || !(forall|i: int| 0 <= i < unused.len() ==> point_lt((#[trigger] unused[i]).0, unused[i].1)) {
        (unused, keys, current)
    } else {
        let visited = keys.push(current);
        match next_step(unused, current, previous) {
            None => (unused, visited, current),
            Some(next) => {
                proof {
                    lemma_least_neighbor(unused, current, Some(previous));
                    lemma_least_neighbor(unused, current, None);
                    lemma_without_shorter(unused, edge_between(current, next));
                }
                walk(without(unused, edge_between(current, next)), start, current, next, visited)
            },
        }
    }
}

pub proof fn lemma_walk_shrinks(
    unused: Seq<EdgeKey>,
    start: PointKey,
    previous: PointKey,
    current: PointKey,
    keys: Seq<PointKey>,
)
    ensures
        walk(unused, start, previous, current, keys).0.len() <= unused.len(),
    decreases unused.len(),
{
    if current != start && (forall|i: int| 0 <= i < unused.len() ==> point_lt((#[trigger] unused[i]).0, unused[i].1)) {
        match next_step(unused, current, previous) {
            None => {},
            Some(next) => {
                lemma_least_neighbor(unused, current, Some(previous));
                lemma_least_neighbor(unused, current, None);
                lemma_without_shorter(unused, edge_between(current, next));
                lemma_walk_shrinks(without(unused, edge_between(current, next)), start, current, next, keys.push(current));
            },
        }
    }
}

/// The index of the first least point.
pub open spec fn first_minimum(points: Seq<PointKey>) -> int
    decreases points.len(),
{
    if points.len() <= 1 {
        0
    } else {
        let m = first_minimum(points.drop_last());
        if point_lt(points.last(), points[m]) {
            points.len() - 1
        } else {
            m
        }
    }
}

/// A closed contour written from its least point, in the direction whose second point is
/// the smaller.
pub open spec fn canonical(points: Seq<PointKey>) -> Seq<PointKey> {
    let m = first_minimum(points);
    let rotated = points.skip(m) + points.take(m);
    if rotated.len() > 2 && point_lt(rotated[rotated.len() - 1], rotated[1]) {
        seq![rotated[0]] + rotated.skip(1).reverse()
    } else {
        rotated
    }
}

/// Joining the unused edges into contours: each time, a walk starts along the least unused
/// edge; a walk that returns to its start through at least three points is a contour, any
/// other walk is counted as open.
pub open spec fn join_from(unused: Seq<EdgeKey>, contours: Seq<Seq<PointKey>>, open: nat) -> (Seq<Seq<PointKey>>, nat)
    decreases unused.len(),
{
    if unused.len() == 0 {
        (contours, open)
    } else {
        let first = unused[0];
        let (rest, keys, end) = walk(without(unused, first), first.0, first.0, first.1, seq![first.0]);
        proof {
            lemma_without_shorter(unused, first);
            lemma_walk_shrinks(without(unused, first), first.0, first.0, first.1, seq![first.0]);
        }
        if end == first.0 && keys.len() >= 3 {
            join_from(rest, contours.push(canonical(keys)), open)
        } else {
            join_from(rest, contours, open + 1)
        }
    }
}

/// A contour, ordered by its first point.
pub struct Contour {
    pub points: Vec<PointKey>,
}

impl Keyed for Contour {
    open spec fn sort_key(&self) -> Seq<u64> {
        if self.points@.len() == 0 {
            seq![0u64]
        } else {
            seq![1u64, (self.points@[0].0 + 9223372036854775808int) as u64, (self.points@[0].1 + 9223372036854775808int) as u64]
        }
    }

    fn sort_key_exec(&self) -> (key: Vec<u64>) {
        if self.points.len() == 0 {
            let key = vec![0u64];
            assert(key@ =~= seq![0u64]);
            key
        } else {
            let p = self.points[0];
            let a = (p.0 as i128 + 9223372036854775808i128) as u64;
            let b = (p.1 as i128 + 9223372036854775808i128) as u64;
            let key = vec![1u64, a, b];
            assert(key@ =~= seq![1u64, a, b]);
            key
        }
    }
}

/// The points of the contours.
pub open spec fn contour_points(contours: Seq<Contour>) -> Seq<Seq<PointKey>> {
    contours.map_values(|c: Contour| c.points@)
}

/// `edges` without `edge`.
fn drop_edge(edges: &Vec<EdgeKey>, edge: EdgeKey) -> (rest: Vec<EdgeKey>)
    ensures
        rest@ == without(edges@, edge),
{
    let ghost pred = not_edge(edge);
    let mut rest: Vec<EdgeKey> = Vec::new();
    for i in 0..edges.len()
        invariant
            pred == not_edge(edge),
            rest@ == edges@.take(i as int).filter(pred),
    {
        proof {
            edges@.take(i as int).lemma_filter_push(edges@[i as int], pred);
            assert(edges@.take(i + 1) =~= edges@.take(i as int).push(edges@[i as int]));
        }
        if edges[i] != edge {
            rest.push(edges[i]);
        }
    }
    assert(edges@.take(edges@.len() as int) =~= edges@);
    rest
}

/// The least neighbor of `p` along the edges, `avoid` excepted.
fn least_neighbor_exec(edges: &Vec<EdgeKey>, p: PointKey, avoid: Option<PointKey>) -> (found: Option<PointKey>)
    ensures
        found == least_neighbor(edges@, p, avoid),
{
    let mut best: Option<PointKey> = None;
    for i in 0..edges.len()
        invariant
            best == least_neighbor(edges@.take(i as int), p, avoid),
    {
        assert(edges@.take(i + 1).drop_last() =~= edges@.take(i as int));
        let e = edges[i];
        let end = if e.0 == p {
            Some(e.1)
        } else if e.1 == p {
            Some(e.0)
        } else {
            None
        };
        if let Some(q) = end {
            if Some(q) != avoid {
                best = match best {
                    Some(b) => if point_less(q, b) {
                        Some(q)
                    } else {
                        Some(b)
                    },
                    None => Some(q),
                };
            }
        }
    }
    assert(edges@.take(edges@.len() as int) =~= edges@);
    best
}

/// Writes a closed contour from its least point, in the direction whose second point is the
/// smaller.
pub fn canonicalize_loop(points: &mut Vec<PointKey>)
    ensures
        final(points)@ == canonical(old(points)@),
{
    let ghost given = points@;
    let n = points.len();
    if n == 0 {
        assert(canonical(given) =~= given);
        return;
    }
    let mut m: usize = 0;
    for i in 1..n
        invariant
            n == given.len(),
            points@ == given,
            m == first_minimum(given.take(i as int)),
            m < i,
    {
        assert(given.take(i + 1).drop_last() =~= given.take(i as int));
        assert(given.take(i as int)[m as int] == given[m as int]);
        if point_less(points[i], points[m]) {
            m = i;
        }
    }
    assert(given.take(n as int) =~= given);
    let mut rotated: Vec<PointKey> = Vec::new();
    for i in m..n
        invariant
            points@ == given,
            n == given.len(),
            m <= n,
            rotated@ == given.subrange(m as int, i as int),
    {
        rotated.push(points[i]);
        assert(rotated@ =~= given.subrange(m as int, i + 1));
    }
    for i in 0..m
        invariant
            points@ == given,
            n == given.len(),
            m <= n,
            rotated@ == given.skip(m as int) + given.take(i as int),
    {
        rotated.push(points[i]);
        assert(rotated@ =~= given.skip(m as int) + given.take(i + 1));
    }
    let ghost r = rotated@;
    if n > 2 && point_less(rotated[n - 1], rotated[1]) {
        let mut result: Vec<PointKey> = Vec::new();
        result.push(rotated[0]);
        let mut k: usize = n;
        while k > 1
            invariant
                r == rotated@,
                n == r.len(),
                1 <= k <= n,
                result@ == seq![r[0]] + r.skip(1).reverse().take((n - k) as int),
            decreases k,
        {
            k -= 1;
            result.push(rotated[k]);
            assert(r.skip(1).reverse()[(n - k - 1) as int] == r[k as int]);
            assert(result@ =~= seq![r[0]] + r.skip(1).reverse().take((n - k) as int));
        }
        assert(r.skip(1).reverse().take((n - 1) as int) =~= r.skip(1).reverse());
        *points = result;
    } else {
        *points = rotated;
    }
}

/// The closed contours that the edges form, ordered by their first point, and the number of
/// walks that did not close.
pub fn join_contours(edges: Vec<EdgeKey>) -> (joined: (Vec<Contour>, usize))
    requires
        edge_list(edges@),
    ensures
        exists|found: Seq<Contour>|
            #[trigger] stably_sorted(found, joined.0@) && contour_points(found) == join_from(
                edges@,
                Seq::empty(),
                0,
            ).0,
        joined.1 == join_from(edges@, Seq::empty(), 0).1,
{
    let ghost all = edges@;
    let count = edges.len();
    let ghost total = count as int;
    let mut unused = edges;
    let mut contours: Vec<Contour> = Vec::new();
    let mut open: usize = 0;
    assert(contour_points(contours@) =~= Seq::<Seq<PointKey>>::empty());
    while unused.len() > 0
        invariant
            forall|i: int| 0 <= i < unused@.len() ==> point_lt((#[trigger] unused@[i]).0, unused@[i].1),
            join_from(unused@, contour_points(contours@), open as nat) == join_from(all, Seq::empty(), 0),
            open + unused@.len() <= total,
            total <= usize::MAX,
            all == edges@,
        decreases unused@.len(),
    {
        let first = unused[0];
        proof {
            lemma_without_shorter(unused@, first);
        }
        let mut rest = drop_edge(&unused, first);
        assert forall|i: int| 0 <= i < rest@.len() implies point_lt((#[trigger] rest@[i]).0, rest@[i].1) by {
            lemma_without_keeps(unused@, first, i);
        }
        let start = first.0;
        let mut previous = first.0;
        let mut current = first.1;
        let mut keys: Vec<PointKey> = vec![start];
        assert(keys@ =~= seq![start]);
        let ghost outcome = walk(rest@, start, previous, current, keys@);
        loop
            invariant_except_break
                walk(rest@, start, previous, current, keys@) == outcome,
            invariant
                forall|i: int| 0 <= i < rest@.len() ==> point_lt((#[trigger] rest@[i]).0, rest@[i].1),
                rest@.len() <= unused@.len() - 1,
                keys@.len() >= 1,
            ensures
                outcome == (rest@, keys@, current),
            decreases rest@.len(),
        {
            if current == start {
                break;
            }
            let next = match least_neighbor_exec(&rest, current, Some(previous)) {
                Some(q) => Some(q),
                None => least_neighbor_exec(&rest, current, None),
            };
            let ghost earlier = keys@;
            keys.push(current);
            match next {
                None => {
                    assert(walk(rest@, start, previous, current, earlier) == (rest@, keys@, current));
                    break;
                },
                Some(n) => {
                    proof {
                        lemma_least_neighbor(rest@, current, Some(previous));
                        lemma_least_neighbor(rest@, current, None);
                        lemma_without_shorter(rest@, edge_between(current, n));
                    }
                    let edge = EdgeKey::new(current, n);
                    let ghost before = rest@;
                    rest = drop_edge(&rest, edge);
                    assert forall|i: int| 0 <= i < rest@.len() implies point_lt((#[trigger] rest@[i]).0, rest@[i].1) by {
                        lemma_without_keeps(before, edge, i);
                    }
                    assert(walk(before, start, previous, current, earlier) == walk(
                        rest@,
                        start,
                        current,
                        n,
                        keys@,
                    ));
                    previous = current;
                    current = n;
                },
            }
        }
        let ghost before_contours = contour_points(contours@);
        if current == start && keys.len() >= 3 {
            canonicalize_loop(&mut keys);
            contours.push(Contour { points: keys });
            assert(contour_points(contours@) =~= before_contours.push(canonical(outcome.1)));
        } else {
            open += 1;
        }
        unused = rest;
    }
    assert(join_from(unused@, contour_points(contours@), open as nat) == (contour_points(contours@), open as nat));
    let ghost found = contours@;
    let sorted = stable_sort(contours);
    assert(stably_sorted(found, sorted@));
    assert(contour_points(found) == join_from(edges@, Seq::empty(), 0).0);
    let joined = (sorted, open);
    assert(stably_sorted(found, joined.0@));
    joined
}

} // verus!
