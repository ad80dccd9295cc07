//! Variant D: the dispatch problem as a weighted directed graph.
//!
//! One node per ride, plus a virtual root standing for "vehicle start at
//! the origin on step 0".  An edge exists where a vehicle can feasibly
//! chain from the source to the target ride; its weight records the
//! target's window-open step, the latest departure that still meets its
//! deadline, and its distance points.  Unlike the dispatch-committing
//! policies, the search here yields a whole best chain for one vehicle's
//! future.
//!
//! The cost function left open by the formulation is resolved here as:
//! maximise total distance points, tie-break on fewer rides, earlier
//! enumeration winning exact ties.

use vstd::prelude::*;

use crate::geometry::{dist, dist_fits, Intersection};
use crate::ride::Ride;
use crate::scoring;
use crate::scoring::{feasible, min_finish, score_fits};

verus! {

/// The virtual root position: the origin, where every vehicle starts.
pub open spec fn origin() -> Intersection {
    Intersection { x: 0, y: 0, t: 0 }
}

/// An edge into ride `b` exists.  From the root, the vehicle starts at
/// the origin on step 0; from ride `a`, it stands at `a`'s dropoff at the
/// step implied by `a`'s own window — the earliest step at which `a` can
/// be completed.
pub open spec fn edge_from(src: Option<Ride>, b: Ride, max_step: int) -> bool {
    match src {
        None => feasible(origin(), 0, max_step, b),
        Some(a) => feasible(a.end, min_finish(a), max_step, b),
    }
}

/// The weight of any edge into ride `b`: its window-open step, the
/// latest departure from its pickup that still meets its deadline, and
/// its distance points.
pub open spec fn edge_weight(b: Ride) -> (int, int, int) {
    (b.start.t as int, b.end.t - dist(b.start, b.end), dist(b.start, b.end))
}

/// The root edge into ride `b`: `Some` of the weight triple when a
/// vehicle starting at the origin on step 0 can feasibly complete `b`,
/// else `None`.
pub fn root_edge(b: &Ride, max_step: u64) -> (res: Option<(u64, u64, u64)>)
    requires
        score_fits(origin(), 0, 0, *b),
    ensures
        res is Some <==> edge_from(None, *b, max_step as int),
        res matches Some((w, l, p)) ==> (w as int, l as int, p as int) == edge_weight(*b),
{
    match scoring::score(Intersection::new(0, 0, 0), 0, max_step, 0, b) {
        Some(_) => {
            let d = Intersection::get_distance(&b.start, &b.end);
            Some((b.start.t, b.end.t - d, d))
        },
        None => None,
    }
}

/// The edge from ride `a` into ride `b`: `Some` of the weight triple
/// when a vehicle standing at `a`'s dropoff at `a`'s earliest possible
/// finish step can feasibly complete `b`, else `None`.
pub fn ride_edge(a: &Ride, b: &Ride, max_step: u64) -> (res: Option<(u64, u64, u64)>)
    requires
        min_finish(*a) <= u64::MAX,
        dist_fits(a.start, a.end),
        score_fits(a.end, max_step as int, 0, *b),
    ensures
        res is Some <==> edge_from(Some(*a), *b, max_step as int),
        res matches Some((w, l, p)) ==> (w as int, l as int, p as int) == edge_weight(*b),
{
    let da = Intersection::get_distance(&a.start, &a.end);
    let sa = a.start.t + da;
    if sa > max_step {
        // Even reaching `a`'s dropoff exceeds the horizon, so no
        // continuation is feasible.
        None
    } else {
        match scoring::score(a.end, sa, max_step, 0, b) {
            Some(_) => {
                let d = Intersection::get_distance(&b.start, &b.end);
                Some((b.start.t, b.end.t - d, d))
            },
            None => None,
        }
    }
}

/// The best `(points, chain)` over all edge-connected chains of at most
/// `depth` rides drawn from the unassigned entries among the first `k`
/// pool indices for the first hop (later hops may use the whole pool),
/// starting from `src`.  Chains compete on total distance points, then
/// on fewer rides, earlier enumeration winning exact ties; the empty
/// chain is always a candidate.
pub open spec fn graph_best_upto(
    rides: Seq<Ride>,
    avail: Seq<bool>,
    src: Option<Ride>,
    max_step: int,
    depth: nat,
    k: nat,
) -> (int, Seq<u64>)
    decreases depth, k,
{
    if depth == 0 || k == 0 {
        (0, Seq::empty())
    } else {
        let i = k - 1;
        let prev = graph_best_upto(rides, avail, src, max_step, depth, (k - 1) as nat);
        if avail[i] && edge_from(src, rides[i], max_step) {
            let d = dist(rides[i].start, rides[i].end);
            let sub = graph_best_upto(
                rides,
                avail.update(i, false),
                Some(rides[i]),
                max_step,
                (depth - 1) as nat,
                rides.len(),
            );
            let cand = (d + sub.0, seq![(k - 1) as u64] + sub.1);
            if cand.0 > prev.0 || (cand.0 == prev.0 && cand.1.len() < prev.1.len()) {
                cand
            } else {
                prev
            }
        } else {
            prev
        }
    }
}

/// The best `(points, chain)` from the virtual root over the unassigned
/// entries of the pool.
pub open spec fn graph_best(rides: Seq<Ride>, avail: Seq<bool>, max_step: int, depth: nat) -> (
    int,
    Seq<u64>,
) {
    graph_best_upto(rides, avail, None, max_step, depth, rides.len())
}

/// A chain's points are non-negative and at most one ride distance — at
/// most `max_step` each, since every chained ride still finishes within
/// the horizon — per hop; its length is at most `depth`.
pub proof fn lemma_graph_best_bounds(
    rides: Seq<Ride>,
    avail: Seq<bool>,
    src: Option<Ride>,
    max_step: int,
    depth: nat,
    k: nat,
)
    requires
        max_step >= 0,
        k <= rides.len(),
    ensures
        0 <= graph_best_upto(rides, avail, src, max_step, depth, k).0 <= depth * max_step,
        graph_best_upto(rides, avail, src, max_step, depth, k).1.len() <= depth,
    decreases depth, k,
{
    if depth == 0 || k == 0 {
        assert(depth * max_step >= 0) by (nonlinear_arith)
            requires
                max_step >= 0,
                depth >= 0,
        ;
    } else {
        let i = k - 1;
        lemma_graph_best_bounds(rides, avail, src, max_step, depth, (k - 1) as nat);
        assert(depth * max_step >= 0) by (nonlinear_arith)
            requires
                max_step >= 0,
                depth >= 0,
        ;
        if avail[i] && edge_from(src, rides[i], max_step) {
            lemma_graph_best_bounds(
                rides,
                avail.update(i, false),
                Some(rides[i]),
                max_step,
                (depth - 1) as nat,
                rides.len(),
            );
            assert((depth - 1) * max_step + max_step == depth * max_step) by (nonlinear_arith)
                requires
                    depth >= 1,
            ;
        }
    }
}

/// `chain` is a path in the graph starting from `src`: each entry an
/// unassigned pool index not yet used by the chain, with an edge from
/// the previous hop.
pub open spec fn valid_graph_chain(
    rides: Seq<Ride>,
    avail: Seq<bool>,
    src: Option<Ride>,
    max_step: int,
    chain: Seq<u64>,
) -> bool
    decreases chain.len(),
{
    if chain.len() == 0 {
        true
    } else {
        let i = chain.first() as int;
        &&& 0 <= i < rides.len()
        &&& avail[i]
        &&& edge_from(src, rides[i], max_step)
        &&& valid_graph_chain(
            rides,
            avail.update(i, false),
            Some(rides[i]),
            max_step,
            chain.drop_first(),
        )
    }
}

/// The total distance points a path collects.
pub open spec fn graph_chain_points(rides: Seq<Ride>, chain: Seq<u64>) -> int
    decreases chain.len(),
{
    if chain.len() == 0 {
        0
    } else {
        dist(rides[chain.first() as int].start, rides[chain.first() as int].end)
            + graph_chain_points(rides, chain.drop_first())
    }
}

/// The search's result is a real path: its chain is a valid path from
/// `src` of at most `depth` hops, and its points are that path's.
pub proof fn lemma_graph_best_valid(
    rides: Seq<Ride>,
    avail: Seq<bool>,
    src: Option<Ride>,
    max_step: int,
    depth: nat,
    k: nat,
)
    requires
        avail.len() == rides.len(),
        rides.len() <= u64::MAX,
        k <= rides.len(),
    ensures
        ({
            let (p, c) = graph_best_upto(rides, avail, src, max_step, depth, k);
            &&& valid_graph_chain(rides, avail, src, max_step, c)
            &&& graph_chain_points(rides, c) == p
            &&& c.len() <= depth
        }),
    decreases depth, k,
{
    if !(depth == 0 || k == 0) {
        let i = k - 1;
        lemma_graph_best_valid(rides, avail, src, max_step, depth, (k - 1) as nat);
        if avail[i] && edge_from(src, rides[i], max_step) {
            lemma_graph_best_valid(
                rides,
                avail.update(i, false),
                Some(rides[i]),
                max_step,
                (depth - 1) as nat,
                rides.len(),
            );
            let sub = graph_best_upto(
                rides,
                avail.update(i, false),
                Some(rides[i]),
                max_step,
                (depth - 1) as nat,
                rides.len(),
            );
            let cand = seq![(k - 1) as u64] + sub.1;
            assert(cand.first() as int == i);
            assert(cand.drop_first() =~= sub.1);
            assert(valid_graph_chain(rides, avail, src, max_step, cand));
            assert(graph_chain_points(rides, cand) == dist(rides[i].start, rides[i].end) + sub.0);
        }
    }
}

/// The search's running best dominates the candidate built on any
/// examined first hop.
proof fn lemma_graph_best_upto_dominates(
    rides: Seq<Ride>,
    avail: Seq<bool>,
    src: Option<Ride>,
    max_step: int,
    depth: nat,
    k: nat,
    i: int,
)
    requires
        1 <= depth,
        0 <= i < k,
        avail[i],
        edge_from(src, rides[i], max_step),
    ensures
        ({
            let v = graph_best_upto(rides, avail, src, max_step, depth, k);
            let sub = graph_best_upto(
                rides,
                avail.update(i, false),
                Some(rides[i]),
                max_step,
                (depth - 1) as nat,
                rides.len(),
            );
            let cp = dist(rides[i].start, rides[i].end) + sub.0;
            v.0 > cp || (v.0 == cp && v.1.len() <= 1 + sub.1.len())
        }),
    decreases k,
{
    if i + 1 < k {
        lemma_graph_best_upto_dominates(rides, avail, src, max_step, depth, (k - 1) as nat, i);
    }
}

/// The search's running best never falls below the empty path: its
/// points are non-negative, and a pointless best is the empty path
/// itself.
proof fn lemma_graph_best_upto_ge_zero(
    rides: Seq<Ride>,
    avail: Seq<bool>,
    src: Option<Ride>,
    max_step: int,
    depth: nat,
    k: nat,
)
    ensures
        graph_best_upto(rides, avail, src, max_step, depth, k).0 >= 0,
        graph_best_upto(rides, avail, src, max_step, depth, k).0 == 0 ==> graph_best_upto(
            rides,
            avail,
            src,
            max_step,
            depth,
            k,
        ).1.len() == 0,
    decreases k,
{
    if !(depth == 0 || k == 0) {
        lemma_graph_best_upto_ge_zero(rides, avail, src, max_step, depth, (k - 1) as nat);
    }
}

/// The search's result dominates every path from `src` of at most
/// `depth` hops: none collects more points, nor equal points over fewer
/// hops.
pub proof fn lemma_graph_best_dominates(
    rides: Seq<Ride>,
    avail: Seq<bool>,
    src: Option<Ride>,
    max_step: int,
    depth: nat,
    chain: Seq<u64>,
)
    requires
        avail.len() == rides.len(),
        valid_graph_chain(rides, avail, src, max_step, chain),
        chain.len() <= depth,
    ensures
        ({
            let v = graph_best_upto(rides, avail, src, max_step, depth, rides.len());
            let cp = graph_chain_points(rides, chain);
            v.0 > cp || (v.0 == cp && v.1.len() <= chain.len())
        }),
    decreases chain.len(),
{
    if chain.len() == 0 {
        lemma_graph_best_upto_ge_zero(rides, avail, src, max_step, depth, rides.len());
    } else {
        let i = chain.first() as int;
        lemma_graph_best_dominates(
            rides,
            avail.update(i, false),
            Some(rides[i]),
            max_step,
            (depth - 1) as nat,
            chain.drop_first(),
        );
        lemma_graph_best_upto_dominates(rides, avail, src, max_step, depth, rides.len(), i);
    }
}

/// Scoring sums fit for every root edge and every ride-to-ride edge of
/// the pool.
pub open spec fn pool_fits_graph(rides: Seq<Ride>, max_step: int) -> bool {
    &&& forall|i: int| 0 <= i < rides.len() ==> score_fits(origin(), 0, 0, #[trigger] rides[i])
    &&& forall|i: int, j: int|
        #![trigger rides[i], rides[j]]
        0 <= i < rides.len() && 0 <= j < rides.len() ==> min_finish(rides[j]) <= u64::MAX
            && dist_fits(rides[j].start, rides[j].end) && score_fits(
            rides[j].end,
            max_step,
            0,
            rides[i],
        )
}

/// The recursive search behind [`best_chain`].  The mask is used as
/// scratch space and handed back unchanged.
fn graph_best_exec(
    rides: &Vec<Ride>,
    avail: &mut Vec<bool>,
    src: Option<Ride>,
    max_step: u64,
    depth: u64,
) -> (res: (u64, Vec<u64>))
    requires
        old(avail)@.len() == rides@.len(),
        pool_fits_graph(rides@, max_step as int),
        src matches Some(a) ==> min_finish(a) <= u64::MAX && dist_fits(a.start, a.end) && forall|
            i: int,
        | 0 <= i < rides@.len() ==> score_fits(a.end, max_step as int, 0, #[trigger] rides@[i]),
        depth * max_step <= u64::MAX,
    ensures
        final (avail)@ == old(avail)@,
        res.0 == graph_best_upto(
            rides@,
            old(avail)@,
            src,
            max_step as int,
            depth as nat,
            rides@.len(),
        ).0,
        res.1@ == graph_best_upto(
            rides@,
            old(avail)@,
            src,
            max_step as int,
            depth as nat,
            rides@.len(),
        ).1,
    decreases depth,
{
    if depth == 0 {
        return (0u64, Vec::new());
    }
    let ghost orig = old(avail)@;
    let mut best_p: u64 = 0;
    let mut best_c: Vec<u64> = Vec::new();
    let mut i: usize = 0;
    while i < rides.len()
        invariant
            avail@ == orig,
            orig.len() == rides@.len(),
            i <= rides@.len(),
            1 <= depth,
            pool_fits_graph(rides@, max_step as int),
            src matches Some(a) ==> min_finish(a) <= u64::MAX && dist_fits(a.start, a.end)
                && forall|m: int|
                0 <= m < rides@.len() ==> score_fits(a.end, max_step as int, 0, #[trigger] rides@[m]),
            depth * max_step <= u64::MAX,
            best_p == graph_best_upto(
                rides@,
                orig,
                src,
                max_step as int,
                depth as nat,
                i as nat,
            ).0,
            best_c@ == graph_best_upto(
                rides@,
                orig,
                src,
                max_step as int,
                depth as nat,
                i as nat,
            ).1,
        decreases rides@.len() - i,
    {
        if avail[i] {
            let edge = match &src {
                None => root_edge(&rides[i], max_step),
                Some(a) => ride_edge(a, &rides[i], max_step),
            };
            match edge {
                Some((_, _, d)) => {
                    avail[i] = false;
                    proof {
                        assert((depth - 1) * max_step <= depth * max_step) by (nonlinear_arith)
                            requires
                                depth >= 1,
                                max_step >= 0,
                        ;
                    }
                    let sub = graph_best_exec(rides, avail, Some(rides[i]), max_step, depth - 1);
                    avail[i] = true;
                    proof {
                        assert(avail@ =~= orig);
                        lemma_graph_best_bounds(
                            rides@,
                            orig.update(i as int, false),
                            Some(rides@[i as int]),
                            max_step as int,
                            (depth - 1) as nat,
                            rides@.len(),
                        );
                        assert((depth - 1) * max_step + max_step == depth * max_step)
                            by (nonlinear_arith)
                            requires
                                depth >= 1,
                        ;
                        // An edge's distance points fit within the horizon.
                        assert(dist(rides@[i as int].start, rides@[i as int].end) <= max_step);
                    }
                    let cp = d + sub.0;
                    let take = cp > best_p || (cp == best_p && best_c.len() > 0 && sub.1.len()
                        < best_c.len() - 1);
                    if take {
                        let mut c: Vec<u64> = Vec::new();
                        c.push(i as u64);
                        let mut tail = sub.1;
                        c.append(&mut tail);
                        proof {
                            assert(c@ =~= seq![i as u64] + graph_best_upto(
                                rides@,
                                orig.update(i as int, false),
                                Some(rides@[i as int]),
                                max_step as int,
                                (depth - 1) as nat,
                                rides@.len(),
                            ).1);
                        }
                        best_p = cp;
                        best_c = c;
                    }
                },
                None => {},
            }
        }
        i += 1;
    }
    (best_p, best_c)
}

/// The full best chain for one vehicle's future, from the virtual root:
/// the pool indices, in order, of an edge-connected chain of at most
/// `depth` unassigned rides with the greatest total distance points
/// (fewer rides winning ties).  The mask is used as scratch space and
/// handed back unchanged.
pub fn best_chain(rides: &Vec<Ride>, live: &mut Vec<bool>, max_step: u64, depth: u64) -> (res: Vec<
    u64,
>)
    requires
        old(live)@.len() == rides@.len(),
        pool_fits_graph(rides@, max_step as int),
        depth * max_step <= u64::MAX,
    ensures
        final (live)@ == old(live)@,
        res@ == graph_best(rides@, old(live)@, max_step as int, depth as nat).1,
{
    let r = graph_best_exec(rides, live, None, max_step, depth);
    r.1
}

} // verus!
