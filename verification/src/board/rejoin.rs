//! Requests that pull split clusters back together: every cluster whose notes do not touch as
//! one piece asks each other piece to step towards its root piece, at their closest notes.
use vstd::prelude::*;
use vstd::set_lib::{lemma_int_range, lemma_len_subset, set_int_range};

use super::connectivity::{
    as_ints, cluster_pulls, copies_at, copies_of, member_indices, past_root, pulled_back, pulls_together, sign,
    slots_at, split_into_components, Pull, DISTANCE_LIMIT,
};
use super::grid::within;
use crate::vault::model::{ids, NoteId};

verus! {

/// `members` are the notes at the indices of `cluster`, by identity.
pub open spec fn picks(notes: Seq<NoteId>, cluster: Seq<usize>, members: Seq<NoteId>) -> bool {
    &&& members.len() == cluster.len()
    &&& forall|t: int| 0 <= t < cluster.len() ==> (#[trigger] members[t])@ == notes[cluster[t] as int]@
}

/// The slots of the notes at the indices of `cluster`.
pub open spec fn slots_of(slots: Seq<(i32, i32)>, cluster: Seq<usize>) -> Seq<(i32, i32)> {
    cluster.map_values(|i: usize| slots[i as int])
}

/// `pulls` bring the notes of `cluster` back together (see [`pulled_back`]), their indices
/// being of the cluster's notes.
pub open spec fn cluster_pulled(
    notes: Seq<NoteId>,
    slots: Seq<(i32, i32)>,
    kept: Seq<Seq<char>>,
    cluster: Seq<usize>,
    pulls: Seq<Pull>,
) -> bool {
    exists|members: Seq<NoteId>, comps: Seq<Seq<int>>, out: Seq<Vec<NoteId>>|
        #[trigger] split_into_components(members, slots_of(slots, cluster), comps, out) && picks(notes, cluster, members)
            && pulled_back(members, slots_of(slots, cluster), kept, comps, out, pulls)
}

/// What `pulls` ask of the note at `n`: each pull's step where its left note is `n`, the
/// reverse where its right note is.
pub open spec fn pull_sum(cluster: Seq<usize>, pulls: Seq<Pull>, n: int) -> (int, int)
    decreases pulls.len(),
{
    if pulls.len() == 0 {
        (0, 0)
    } else {
        let rest = pull_sum(cluster, pulls.drop_last(), n);
        let p = pulls.last();
        let (l, r) = (cluster[p.left as int] as int, cluster[p.right as int] as int);
        let here = (
            (if l == n { p.step.0 as int } else { 0 }) - (if r == n { p.step.0 as int } else { 0 }),
            (if l == n { p.step.1 as int } else { 0 }) - (if r == n { p.step.1 as int } else { 0 }),
        );
        (rest.0 + here.0, rest.1 + here.1)
    }
}

/// What the pulls of all clusters ask of the note at `n`.
pub open spec fn request_sum(clusters: Seq<Vec<usize>>, all: Seq<Seq<Pull>>, n: int) -> (int, int)
    decreases clusters.len(),
{
    if clusters.len() == 0 {
        (0, 0)
    } else {
        let rest = request_sum(clusters.drop_last(), all.drop_last(), n);
        let here = pull_sum(clusters.last()@, all.last(), n);
        (rest.0 + here.0, rest.1 + here.1)
    }
}

/// How many notes the clusters list, counted once per cluster.
pub open spec fn member_total(clusters: Seq<Vec<usize>>) -> int
    decreases clusters.len(),
{
    if clusters.len() == 0 {
        0
    } else {
        member_total(clusters.drop_last()) + clusters.last()@.len()
    }
}

/// `requests` are what the pulls `all`, one list per cluster, ask of each note: none at all
/// when no cluster is split.
pub open spec fn requested(
    notes: Seq<NoteId>,
    slots: Seq<(i32, i32)>,
    kept: Seq<Seq<char>>,
    clusters: Seq<Vec<usize>>,
    all: Seq<Seq<Pull>>,
    requests: Option<Vec<(i32, i32)>>,
) -> bool {
    &&& all.len() == clusters.len()
    &&& forall|c: int| 0 <= c < clusters.len() ==> cluster_pulled(notes, slots, kept, clusters[c]@, #[trigger] all[c])
    &&& requests is None <==> forall|c: int| 0 <= c < clusters.len() ==> (#[trigger] all[c]).len() == 0
    &&& requests matches Some(r) ==> r@.len() == notes.len() && forall|n: int|
        0 <= n < notes.len() ==> (r@[n].0 as int, r@[n].1 as int) == #[trigger] request_sum(clusters, all, n)
}

/// A split into components has no more components than members.
proof fn lemma_fewer_components(
    members: Seq<NoteId>,
    slots: Seq<(i32, i32)>,
    comps: Seq<Seq<int>>,
    out: Seq<Vec<NoteId>>,
)
    requires
        split_into_components(members, slots, comps, out),
    ensures
        comps.len() <= members.len(),
{
    let n = members.len() as int;
    let firsts = Seq::new(comps.len(), |c: int| comps[c][0]);
    assert forall|c1: int, c2: int| 0 <= c1 < firsts.len() && 0 <= c2 < firsts.len() && c1 != c2 implies firsts[c1]
        != firsts[c2] by {
        assert(comps[c1].len() > 0 && comps[c2].len() > 0);
        if comps[c1][0] == comps[c2][0] {
            assert(c1 == c2);
        }
    }
    assert(firsts.no_duplicates());
    firsts.unique_seq_to_set();
    assert forall|x: int| firsts.to_set().contains(x) implies set_int_range(0, n).contains(x) by {
        let c = choose|c: int| 0 <= c < firsts.len() && firsts[c] == x;
        assert(member_indices(n, comps[c]));
        assert(0 <= comps[c][0] < n);
    }
    lemma_int_range(0, n);
    lemma_len_subset(firsts.to_set(), set_int_range(0, n));
}

/// What the pulls of a cluster are: fewer than its notes, each between two distinct notes of
/// it, with a step of at most one slot on each axis.
proof fn lemma_pull_facts(
    notes: Seq<NoteId>,
    slots: Seq<(i32, i32)>,
    kept: Seq<Seq<char>>,
    cluster: Seq<usize>,
    pulls: Seq<Pull>,
)
    requires
        cluster_pulled(notes, slots, kept, cluster, pulls),
    ensures
        pulls.len() <= cluster.len(),
        forall|p: int|
            0 <= p < pulls.len() ==> {
                let q = #[trigger] pulls[p];
                &&& q.left < cluster.len()
                &&& q.right < cluster.len()
                &&& q.left != q.right
                &&& -1 <= q.step.0 <= 1
                &&& -1 <= q.step.1 <= 1
            },
{
    let (members, comps, out) = choose|members: Seq<NoteId>, comps: Seq<Seq<int>>, out: Seq<Vec<NoteId>>|
        #[trigger] split_into_components(members, slots_of(slots, cluster), comps, out) && picks(notes, cluster, members)
            && pulled_back(members, slots_of(slots, cluster), kept, comps, out, pulls);
    let s = slots_of(slots, cluster);
    lemma_fewer_components(members, s, comps, out);
    if out.len() > 1 {
        let root = choose|root: int|
            #[trigger] super::connectivity::is_root(out, kept, root) && pulls.len() == out.len() - 1 && forall|p: int|
                0 <= p < pulls.len() ==> pulls_together(members, s, comps[past_root(p, root)], comps[root], #[trigger] pulls[p]);
        assert forall|p: int| 0 <= p < pulls.len() implies {
            let q = #[trigger] pulls[p];
            &&& q.left < cluster.len()
            &&& q.right < cluster.len()
            &&& q.left != q.right
            &&& -1 <= q.step.0 <= 1
            &&& -1 <= q.step.1 <= 1
        } by {
            let q = pulls[p];
            let from = comps[past_root(p, root)];
            let to = comps[root];
            assert(pulls_together(members, s, from, to, q));
            assert(member_indices(members.len() as int, from));
            assert(member_indices(members.len() as int, to));
            let a = choose|a: int| 0 <= a < from.len() && from[a] == q.left as int;
            let b = choose|b: int| 0 <= b < to.len() && to[b] == q.right as int;
            if q.left == q.right {
                assert(comps[past_root(p, root)][a] == comps[root][b]);
            }
        }
    }
}

/// The steps that pull every split cluster back together, as a request per note: the sum of
/// the steps its pulls ask of it. `None` when every cluster's notes touch as one piece.
pub fn rejoin_requests(
    notes: &Vec<NoteId>,
    slots: &Vec<(i32, i32)>,
    clusters: &Vec<Vec<usize>>,
    kept: &Vec<NoteId>,
) -> (requests: Option<Vec<(i32, i32)>>)
    requires
        slots@.len() == notes@.len(),
        forall|i: int, j: int| 0 <= i < j < slots@.len() ==> (#[trigger] slots@[i]) != (#[trigger] slots@[j]),
        forall|i: int| 0 <= i < slots@.len() ==> within(#[trigger] slots@[i], DISTANCE_LIMIT as int),
        forall|c: int| 0 <= c < clusters@.len() ==> (#[trigger] clusters@[c])@.no_duplicates(),
        forall|c: int, t: int|
            0 <= c < clusters@.len() && 0 <= t < clusters@[c]@.len() ==> (#[trigger] clusters@[c]@[t]) < notes@.len(),
        member_total(clusters@) <= i32::MAX,
    ensures
        exists|all: Seq<Seq<Pull>>| #[trigger] requested(notes@, slots@, ids(kept@), clusters@, all, requests),
{
    let nn = notes.len();
    let ghost kv = ids(kept@);
    let mut requests: Vec<(i32, i32)> = Vec::new();
    for i in 0..nn
        invariant
            requests@.len() == i,
            forall|k: int| 0 <= k < i ==> #[trigger] requests@[k] == (0i32, 0i32),
    {
        requests.push((0, 0));
    }
    let mut split = false;
    let ghost mut all: Seq<Seq<Pull>> = Seq::empty();
    proof {
        assert(clusters@.take(0) =~= Seq::<Vec<usize>>::empty());
        lemma_member_total_prefix(clusters@, 0);
        assert forall|n: int| 0 <= n < nn implies (#[trigger] requests@[n]).0 as int == request_sum(
            clusters@.take(0),
            all,
            n,
        ).0 && requests@[n].1 as int == request_sum(clusters@.take(0), all, n).1 by {}
    }
    for c in 0..clusters.len()
        invariant
            nn == notes@.len(),
            nn == slots@.len(),
            kv == ids(kept@),
            forall|i: int, j: int| 0 <= i < j < slots@.len() ==> (#[trigger] slots@[i]) != (#[trigger] slots@[j]),
            forall|i: int| 0 <= i < slots@.len() ==> within(#[trigger] slots@[i], DISTANCE_LIMIT as int),
            forall|k: int| 0 <= k < clusters@.len() ==> (#[trigger] clusters@[k])@.no_duplicates(),
            forall|k: int, t: int|
                0 <= k < clusters@.len() && 0 <= t < clusters@[k]@.len() ==> (#[trigger] clusters@[k]@[t]) < nn,
            member_total(clusters@) <= i32::MAX,
            member_total(clusters@.take(c as int)) <= member_total(clusters@),
            all.len() == c,
            forall|k: int| 0 <= k < c ==> cluster_pulled(notes@, slots@, kv, clusters@[k]@, #[trigger] all[k]),
            split <==> exists|k: int| 0 <= k < c && (#[trigger] all[k]).len() > 0,
            requests@.len() == nn,
            forall|n: int|
                0 <= n < nn ==> (#[trigger] requests@[n]).0 as int == request_sum(clusters@.take(c as int), all, n).0
                    && requests@[n].1 as int == request_sum(clusters@.take(c as int), all, n).1,
            forall|n: int|
                0 <= n < nn ==> -member_total(clusters@.take(c as int)) <= (#[trigger] requests@[n]).0 <= member_total(
                    clusters@.take(c as int),
                ) && -member_total(clusters@.take(c as int)) <= requests@[n].1 <= member_total(clusters@.take(c as int)),
    {
        let cluster = &clusters[c];
        let members = copies_at(notes, cluster);
        let member_slots = slots_at(slots, cluster);
        proof {
            assert forall|i: int, j: int| 0 <= i < j < member_slots@.len() implies (#[trigger] member_slots@[i])
                != (#[trigger] member_slots@[j]) by {
                let (a, b) = (cluster@[i] as int, cluster@[j] as int);
                assert(a != b);
                if a < b {
                    assert(slots@[a] != slots@[b]);
                } else {
                    assert(slots@[b] != slots@[a]);
                }
            }
            assert forall|i: int| 0 <= i < member_slots@.len() implies within(#[trigger] member_slots@[i], DISTANCE_LIMIT as int) by {
                assert(member_slots@[i] == slots@[cluster@[i] as int]);
            }
        }
        let pulls = cluster_pulls(&members, &member_slots, kept);
        proof {
            assert(member_slots@ =~= slots_of(slots@, cluster@));
            assert(picks(notes@, cluster@, members@));
            let (comps, out) = choose|comps: Seq<Seq<int>>, out: Seq<Vec<NoteId>>|
                #[trigger] split_into_components(members@, member_slots@, comps, out) && pulled_back(
                    members@,
                    member_slots@,
                    kv,
                    comps,
                    out,
                    pulls@,
                );
            assert(split_into_components(members@, slots_of(slots@, cluster@), comps, out));
            assert(cluster_pulled(notes@, slots@, kv, cluster@, pulls@));
            lemma_pull_facts(notes@, slots@, kv, cluster@, pulls@);
            assert(clusters@.take(c + 1).drop_last() =~= clusters@.take(c as int));
            assert(clusters@.take(c + 1).last() == clusters@[c as int]);
            lemma_member_total_prefix(clusters@, c + 1);
            assert(pulls@.take(0) =~= Seq::<Pull>::empty());
        }
        let ghost before = requests@;
        let ghost total = member_total(clusters@.take(c as int));
        proof {
            assert forall|n: int| 0 <= n < nn implies (#[trigger] requests@[n]).0 == before[n].0 + pull_sum(
                cluster@,
                pulls@.take(0),
                n,
            ).0 && requests@[n].1 == before[n].1 + pull_sum(cluster@, pulls@.take(0), n).1 by {
                assert(pulls@.take(0).len() == 0);
            }
        }
        for q in 0..pulls.len()
            invariant
                nn == notes@.len(),
                requests@.len() == nn,
                *cluster == clusters@[c as int],
                forall|t: int| 0 <= t < cluster@.len() ==> (#[trigger] cluster@[t]) < nn,
                cluster@.no_duplicates(),
                pulls@.len() <= cluster@.len(),
                forall|p: int|
                    0 <= p < pulls@.len() ==> {
                        let r = #[trigger] pulls@[p];
                        &&& r.left < cluster@.len()
                        &&& r.right < cluster@.len()
                        &&& r.left != r.right
                        &&& -1 <= r.step.0 <= 1
                        &&& -1 <= r.step.1 <= 1
                    },
                total + cluster@.len() <= i32::MAX,
                before.len() == nn,
                forall|n: int|
                    0 <= n < nn ==> (#[trigger] requests@[n]).0 == before[n].0 + pull_sum(cluster@, pulls@.take(q as int), n).0
                        && requests@[n].1 == before[n].1 + pull_sum(cluster@, pulls@.take(q as int), n).1,
                forall|n: int|
                    0 <= n < nn ==> -total - q <= (#[trigger] requests@[n]).0 <= total + q && -total - q
                        <= requests@[n].1 <= total + q,
        {
            let ghost start = requests@;
            let pull = pulls[q];
            let l = cluster[pull.left];
            let r = cluster[pull.right];
            assert(l != r);
            let lv = requests[l];
            requests.set(l, (lv.0 + pull.step.0, lv.1 + pull.step.1));
            let rv = requests[r];
            requests.set(r, (rv.0 - pull.step.0, rv.1 - pull.step.1));
            proof {
                assert forall|n: int| 0 <= n < nn implies (#[trigger] requests@[n]).0 == before[n].0 + pull_sum(
                    cluster@,
                    pulls@.take(q + 1),
                    n,
                ).0 && requests@[n].1 == before[n].1 + pull_sum(cluster@, pulls@.take(q + 1), n).1 by {
                    assert(start[n].0 == before[n].0 + pull_sum(cluster@, pulls@.take(q as int), n).0);
                    assert(start[n].1 == before[n].1 + pull_sum(cluster@, pulls@.take(q as int), n).1);
                    assert(pulls@.take(q + 1).drop_last() =~= pulls@.take(q as int));
                    assert(pulls@.take(q + 1).last() == pull);
                }
                assert forall|n: int| 0 <= n < nn implies -total - (q + 1) <= (#[trigger] requests@[n]).0 <= total + (q
                    + 1) && -total - (q + 1) <= requests@[n].1 <= total + (q + 1) by {
                    assert(-total - q <= start[n].0 <= total + q && -total - q <= start[n].1 <= total + q);
                }
            }
        }
        proof {
            assert(pulls@.take(pulls@.len() as int) =~= pulls@);
            let next = all.push(pulls@);
            assert(next.drop_last() =~= all);
            assert forall|n: int| 0 <= n < nn implies (#[trigger] requests@[n]).0 as int == request_sum(
                clusters@.take(c + 1),
                next,
                n,
            ).0 && requests@[n].1 as int == request_sum(clusters@.take(c + 1), next, n).1 by {
                assert(before[n].0 as int == request_sum(clusters@.take(c as int), all, n).0);
                assert(before[n].1 as int == request_sum(clusters@.take(c as int), all, n).1);
                assert(clusters@.take(c + 1).drop_last() =~= clusters@.take(c as int));
                assert(clusters@.take(c + 1).last() == clusters@[c as int]);
                assert(next.last() == pulls@);
            }
            assert forall|n: int| 0 <= n < nn implies -member_total(clusters@.take(c + 1)) <= (#[trigger] requests@[n]).0
                <= member_total(clusters@.take(c + 1)) && -member_total(clusters@.take(c + 1)) <= requests@[n].1
                <= member_total(clusters@.take(c + 1)) by {
                assert(clusters@.take(c + 1).drop_last() =~= clusters@.take(c as int));
                assert(clusters@.take(c + 1).last() == clusters@[c as int]);
            }
            assert(member_total(clusters@.take(c + 1)) == total + cluster@.len());
            assert(member_total(clusters@.take(c + 1)) <= member_total(clusters@)) by {
                lemma_member_total_prefix(clusters@, c + 1);
            }
            assert forall|k: int| 0 <= k < c + 1 implies cluster_pulled(notes@, slots@, kv, clusters@[k]@, #[trigger] next[k]) by {
                if k < c {
                    assert(next[k] == all[k]);
                }
            }
            all = next;
        }
        if pulls.len() > 0 {
            split = true;
        }
        proof {
            if split {
                if pulls@.len() > 0 {
                    assert(all[c as int].len() > 0);
                } else {
                    let k = choose|k: int| 0 <= k < c && (#[trigger] all.drop_last()[k]).len() > 0;
                    assert(all[k].len() > 0);
                }
            } else {
                assert forall|k: int| 0 <= k < c + 1 implies (#[trigger] all[k]).len() == 0 by {
                    if k < c {
                        assert(all[k] == all.drop_last()[k]);
                    }
                }
            }
        }
    }
    proof {
        assert(clusters@.take(clusters@.len() as int) =~= clusters@);
    }
    let ghost last = requests@;
    let result = if split {
        Some(requests)
    } else {
        None
    };
    proof {
        assert forall|n: int| 0 <= n < nn implies (#[trigger] last[n]).0 as int == request_sum(clusters@, all, n).0
            && last[n].1 as int == request_sum(clusters@, all, n).1 by {
            assert(last[n].0 as int == request_sum(clusters@.take(clusters@.len() as int), all, n).0);
        }
        assert(requested(notes@, slots@, kv, clusters@, all, result));
    }
    result
}

/// The clusters' totals grow with their prefixes.
proof fn lemma_member_total_prefix(clusters: Seq<Vec<usize>>, k: int)
    requires
        0 <= k <= clusters.len(),
    ensures
        member_total(clusters.take(k)) <= member_total(clusters),
    decreases clusters.len(),
{
    if k < clusters.len() {
        assert(clusters.drop_last().take(k) =~= clusters.take(k));
        lemma_member_total_prefix(clusters.drop_last(), k);
    } else {
        assert(clusters.take(k) =~= clusters);
    }
}

fn step_of(x: i32) -> (s: i32)
    ensures
        s == sign(x as int),
{
    if x > 0 {
        1
    } else if x < 0 {
        -1
    } else {
        0
    }
}

/// Each slot moved by at most one slot on each axis, in the direction of its request.
pub fn stepped_slots(slots: &Vec<(i32, i32)>, requests: &Vec<(i32, i32)>) -> (stepped: Vec<(i32, i32)>)
    requires
        requests@.len() == slots@.len(),
        forall|i: int| 0 <= i < slots@.len() ==> within(#[trigger] slots@[i], DISTANCE_LIMIT as int),
    ensures
        stepped@.len() == slots@.len(),
        forall|i: int|
            0 <= i < slots@.len() ==> (#[trigger] stepped@[i]).0 == slots@[i].0 + sign(requests@[i].0 as int)
                && stepped@[i].1 == slots@[i].1 + sign(requests@[i].1 as int),
{
    let mut stepped: Vec<(i32, i32)> = Vec::new();
    for i in 0..slots.len()
        invariant
            requests@.len() == slots@.len(),
            forall|k: int| 0 <= k < slots@.len() ==> within(#[trigger] slots@[k], DISTANCE_LIMIT as int),
            stepped@.len() == i,
            forall|k: int|
                0 <= k < i ==> (#[trigger] stepped@[k]).0 == slots@[k].0 + sign(requests@[k].0 as int)
                    && stepped@[k].1 == slots@[k].1 + sign(requests@[k].1 as int),
    {
        let slot = slots[i];
        assert(within(slot, DISTANCE_LIMIT as int));
        let request = requests[i];
        stepped.push((slot.0 + step_of(request.0), slot.1 + step_of(request.1)));
    }
    stepped
}

} // verus!
