//! Assignment policies: for one free vehicle and the pool of unassigned
//! rides, each policy selects at most one ride to commit to.
//!
//! The pool is an arena of rides together with a mask of the indices that
//! are still unassigned, so that removal never disturbs iteration order.
//! Where two candidates score alike, an explicit deterministic rule
//! breaks the tie, so outcomes are reproducible.  The lookahead search
//! takes its depth as a run-time parameter and carries it as an explicit
//! counter, which alone bounds the recursion.

use vstd::prelude::*;

use crate::geometry::{dist, dist_fits, Intersection};
use crate::ride::Ride;
use crate::scoring;
use crate::scoring::{feasible, score_fits, score_points, travel_time, wait_time};
use crate::vehicle::{views, Vehicle, VehicleView};

verus! {

/// The policy the engine consults for each free vehicle.
#[derive(Clone, Copy, PartialEq, Eq, Structural, Debug)]
pub enum Strategy {
    /// Commit to the feasible ride that finishes earliest; at an equal
    /// finish time the later-indexed ride wins.
    EarliestFinish,
    /// Like `EarliestFinish`, but a vehicle that would have to wait for
    /// the pickup window declines when another vehicle projects an
    /// earlier arrival at that pickup.
    WaitAware,
    /// Explore ride chains up to `depth` rides long and commit to the
    /// first ride of the best chain (most points, then fewest steps).
    /// `depth` 1 is the plain most-points greedy.
    Lookahead { depth: u64 },
}

/// All scoring sums stay within `u64` for every ride of the pool, from
/// any position the vehicle can reach (`pos`) and any step up to `step`.
pub open spec fn pool_fits_from(
    rides: Seq<Ride>,
    pos: Intersection,
    step: int,
    bonus: int,
) -> bool {
    forall|i: int| 0 <= i < rides.len() ==> score_fits(pos, step, bonus, #[trigger] rides[i])
}

/// The best candidate of variant A among the first `k` pool entries:
/// the unassigned feasible ride with the least finish time, later indices
/// winning ties.  `Some((index, finish))` or `None` when no candidate
/// exists among them.
pub open spec fn earliest_upto(
    rides: Seq<Ride>,
    live: Seq<bool>,
    pos: Intersection,
    step: int,
    max_step: int,
    k: nat,
) -> Option<(int, int)>
    decreases k,
{
    if k == 0 {
        None
    } else {
        let i = k - 1;
        let prev = earliest_upto(rides, live, pos, step, max_step, (k - 1) as nat);
        if live[i] && feasible(pos, step, max_step, rides[i]) {
            let t = travel_time(pos, step, rides[i]);
            match prev {
                Some((_, pt)) => if t <= pt {
                    Some((i, t))
                } else {
                    prev
                },
                None => Some((i, t)),
            }
        } else {
            prev
        }
    }
}

/// What `earliest_upto` returns: a minimal-finish candidate, with the
/// largest index among the minima, and `None` exactly when no unassigned
/// ride is feasible.
pub proof fn lemma_earliest_upto(
    rides: Seq<Ride>,
    live: Seq<bool>,
    pos: Intersection,
    step: int,
    max_step: int,
    k: nat,
)
    requires
        live.len() == rides.len(),
        k <= rides.len(),
    ensures
        earliest_upto(rides, live, pos, step, max_step, k) is None ==> forall|j: int|
            0 <= j < k ==> !(live[j] && feasible(pos, step, max_step, #[trigger] rides[j])),
        earliest_upto(rides, live, pos, step, max_step, k) matches Some((i, t)) ==> {
            &&& 0 <= i < k
            &&& live[i]
            &&& feasible(pos, step, max_step, rides[i])
            &&& t == travel_time(pos, step, rides[i])
            &&& forall|j: int|
                0 <= j < k && live[j] && feasible(pos, step, max_step, #[trigger] rides[j])
                    ==> travel_time(pos, step, rides[j]) >= t
            &&& forall|j: int|
                i < j < k && live[j] && feasible(pos, step, max_step, #[trigger] rides[j])
                    ==> travel_time(pos, step, rides[j]) > t
        },
    decreases k,
{
    if k > 0 {
        lemma_earliest_upto(rides, live, pos, step, max_step, (k - 1) as nat);
    }
}

/// Variant A, earliest-finish greedy: among the unassigned rides that are
/// feasible for a vehicle at `pos` on step `step`, picks the one whose
/// finish time (travel, wait, then ride) is least, later indices winning
/// ties; returns its pool index and the busy time to commit with, which
/// counts travel and ride but not wait.  `None` when no unassigned ride
/// is feasible, in which case the vehicle stays idle this step.
pub fn select_earliest_finish(
    rides: &Vec<Ride>,
    live: &Vec<bool>,
    pos: Intersection,
    step: u64,
    max_step: u64,
    bonus: u64,
) -> (res: Option<(usize, u64)>)
    requires
        live@.len() == rides@.len(),
        pool_fits_from(rides@, pos, step as int, bonus as int),
    ensures
        res is None <==> earliest_upto(
            rides@,
            live@,
            pos,
            step as int,
            max_step as int,
            rides@.len(),
        ) is None,
        res is None ==> forall|j: int|
            0 <= j < rides@.len() ==> !(live@[j] && feasible(
                pos,
                step as int,
                max_step as int,
                #[trigger] rides@[j],
            )),
        res matches Some((i, tc)) ==> {
            &&& earliest_upto(rides@, live@, pos, step as int, max_step as int, rides@.len())
                matches Some((si, st)) && si == i as int && st == travel_time(
                pos,
                step as int,
                rides@[i as int],
            )
            &&& i < rides@.len()
            &&& live@[i as int]
            &&& feasible(pos, step as int, max_step as int, rides@[i as int])
            &&& tc == dist(pos, rides@[i as int].start) + dist(
                rides@[i as int].start,
                rides@[i as int].end,
            )
            &&& forall|j: int|
                0 <= j < rides@.len() && live@[j] && feasible(
                    pos,
                    step as int,
                    max_step as int,
                    #[trigger] rides@[j],
                ) ==> travel_time(pos, step as int, rides@[j]) >= travel_time(
                    pos,
                    step as int,
                    rides@[i as int],
                )
        },
{
    let ghost gstep = step as int;
    let ghost gmax = max_step as int;
    let mut best: Option<(usize, u64)> = None;
    let mut i: usize = 0;
    while i < rides.len()
        invariant
            live@.len() == rides@.len(),
            i <= rides@.len(),
            pool_fits_from(rides@, pos, gstep, bonus as int),
            gstep == step as int,
            gmax == max_step as int,
            match best {
                None => earliest_upto(rides@, live@, pos, gstep, gmax, i as nat) is None,
                Some((bi, bt)) => earliest_upto(rides@, live@, pos, gstep, gmax, i as nat)
                    == Some((bi as int, bt as int)) && bi < rides@.len(),
            },
        decreases rides@.len() - i,
    {
        if live[i] {
            match scoring::score(pos, step, max_step, bonus, &rides[i]) {
                Some((_, t)) => {
                    let take = match best {
                        Some((_, bt)) => t <= bt,
                        None => true,
                    };
                    if take {
                        best = Some((i, t));
                    }
                },
                None => {},
            }
        }
        i += 1;
    }
    proof {
        lemma_earliest_upto(rides@, live@, pos, gstep, gmax, rides@.len() as nat);
    }
    match best {
        Some((i, _)) => {
            let d0 = Intersection::get_distance(&pos, &rides[i].start);
            let d1 = Intersection::get_distance(&rides[i].start, &rides[i].end);
            Some((i, d0 + d1))
        },
        None => None,
    }
}

/// All scoring sums stay within `u64` for every ride of the pool, from
/// the dropoff of any ride of the pool and any step up to `max_step`;
/// this is what chained lookahead needs, since a chain only ever departs
/// from a dropoff.
pub open spec fn pool_fits_chain(rides: Seq<Ride>, max_step: int, bonus: int) -> bool {
    forall|i: int, j: int|
        0 <= i < rides.len() && 0 <= j < rides.len() ==> score_fits(
            #[trigger] rides[j].end,
            max_step,
            bonus,
            #[trigger] rides[i],
        )
}

/// The candidate scored `(p2, t2)` displaces the incumbent `(p1, t1)`:
/// strictly more points, or equal points and a finish no later.  Scanning
/// in index order with this rule, the later of two identically scored
/// candidates wins.
pub open spec fn lex_better(p2: int, t2: int, p1: int, t1: int) -> bool {
    p2 > p1 || (p2 == p1 && t2 <= t1)
}

/// The best total `(points, steps)` over all chains of at most `depth`
/// rides drawn from the unassigned entries among the first `k` pool
/// indices for the first ride (later rides may use the whole pool), for a
/// vehicle at `pos` on step `step`.  The empty chain, worth `(0, 0)`, is
/// always a candidate.
pub open spec fn chain_value_upto(
    rides: Seq<Ride>,
    avail: Seq<bool>,
    pos: Intersection,
    step: int,
    max_step: int,
    bonus: int,
    depth: nat,
    k: nat,
) -> (int, int)
    decreases depth, k,
{
    if depth == 0 || k == 0 {
        (0, 0)
    } else {
        let i = k - 1;
        let prev = chain_value_upto(rides, avail, pos, step, max_step, bonus, depth, (k - 1) as nat);
        if avail[i] && feasible(pos, step, max_step, rides[i]) {
            let pi = score_points(pos, step, bonus, rides[i]);
            let ti = travel_time(pos, step, rides[i]);
            let sub = chain_value_upto(
                rides,
                avail.update(i, false),
                rides[i].end,
                step + ti,
                max_step,
                bonus,
                (depth - 1) as nat,
                rides.len(),
            );
            if lex_better(pi + sub.0, ti + sub.1, prev.0, prev.1) {
                (pi + sub.0, ti + sub.1)
            } else {
                prev
            }
        } else {
            prev
        }
    }
}

/// The best total `(points, steps)` over all chains of at most `depth`
/// unassigned rides for a vehicle at `pos` on step `step`.
pub open spec fn chain_value(
    rides: Seq<Ride>,
    avail: Seq<bool>,
    pos: Intersection,
    step: int,
    max_step: int,
    bonus: int,
    depth: nat,
) -> (int, int) {
    chain_value_upto(rides, avail, pos, step, max_step, bonus, depth, rides.len())
}

/// Chain totals are non-negative; a chain's steps never exceed the room
/// left before the horizon, and its points never exceed one bonus per
/// chained ride plus that same room.
pub proof fn lemma_chain_value_bounds(
    rides: Seq<Ride>,
    avail: Seq<bool>,
    pos: Intersection,
    step: int,
    max_step: int,
    bonus: int,
    depth: nat,
    k: nat,
)
    requires
        0 <= step <= max_step,
        bonus >= 0,
        k <= rides.len(),
    ensures
        0 <= chain_value_upto(rides, avail, pos, step, max_step, bonus, depth, k).0 <= depth * bonus
            + (max_step - step),
        0 <= chain_value_upto(rides, avail, pos, step, max_step, bonus, depth, k).1 <= max_step
            - step,
    decreases depth, k,
{
    if depth == 0 || k == 0 {
        assert(depth * bonus >= 0) by (nonlinear_arith)
            requires
                bonus >= 0,
                depth >= 0,
        ;
    } else {
        let i = k - 1;
        lemma_chain_value_bounds(rides, avail, pos, step, max_step, bonus, depth, (k - 1) as nat);
        assert(depth * bonus >= 0) by (nonlinear_arith)
            requires
                bonus >= 0,
                depth >= 0,
        ;
        if avail[i] && feasible(pos, step, max_step, rides[i]) {
            let pi = score_points(pos, step, bonus, rides[i]);
            let ti = travel_time(pos, step, rides[i]);
            lemma_chain_value_bounds(
                rides,
                avail.update(i, false),
                rides[i].end,
                step + ti,
                max_step,
                bonus,
                (depth - 1) as nat,
                rides.len(),
            );
            assert((depth - 1) * bonus + bonus == depth * bonus) by (nonlinear_arith)
                requires
                    depth >= 1,
            ;
        }
    }
}

/// Computes `chain_value` of the pool: the best total `(points, steps)`
/// over all chains of at most `depth` unassigned rides starting from
/// `pos` at `step`.  The mask is used as scratch space during the search
/// and is handed back unchanged.
pub fn chain_value_exec(
    rides: &Vec<Ride>,
    avail: &mut Vec<bool>,
    pos: Intersection,
    step: u64,
    max_step: u64,
    bonus: u64,
    depth: u64,
) -> (res: (u64, u64))
    requires
        old(avail)@.len() == rides@.len(),
        step <= max_step,
        pool_fits_from(rides@, pos, step as int, bonus as int),
        pool_fits_chain(rides@, max_step as int, bonus as int),
        depth * bonus + max_step <= u64::MAX,
    ensures
        final (avail)@ == old(avail)@,
        res.0 == chain_value(
            rides@,
            old(avail)@,
            pos,
            step as int,
            max_step as int,
            bonus as int,
            depth as nat,
        ).0,
        res.1 == chain_value(
            rides@,
            old(avail)@,
            pos,
            step as int,
            max_step as int,
            bonus as int,
            depth as nat,
        ).1,
    decreases depth,
{
    if depth == 0 {
        return (0u64, 0u64);
    }
    let ghost orig = old(avail)@;
    let mut best_p: u64 = 0;
    let mut best_t: u64 = 0;
    let mut i: usize = 0;
    while i < rides.len()
        invariant
            avail@ == orig,
            orig.len() == rides@.len(),
            i <= rides@.len(),
            step <= max_step,
            1 <= depth,
            pool_fits_from(rides@, pos, step as int, bonus as int),
            pool_fits_chain(rides@, max_step as int, bonus as int),
            depth * bonus + max_step <= u64::MAX,
            best_p == chain_value_upto(
                rides@,
                orig,
                pos,
                step as int,
                max_step as int,
                bonus as int,
                depth as nat,
                i as nat,
            ).0,
            best_t == chain_value_upto(
                rides@,
                orig,
                pos,
                step as int,
                max_step as int,
                bonus as int,
                depth as nat,
                i as nat,
            ).1,
        decreases rides@.len() - i,
    {
        if avail[i] {
            match scoring::score(pos, step, max_step, bonus, &rides[i]) {
                Some((pi, ti)) => {
                    avail[i] = false;
                    proof {
                        assert forall|m: int| 0 <= m < rides@.len() implies score_fits(
                            rides@[i as int].end,
                            step + ti,
                            bonus as int,
                            #[trigger] rides@[m],
                        ) by {
                            assert(score_fits(
                                rides@[i as int].end,
                                max_step as int,
                                bonus as int,
                                rides@[m],
                            ));
                        }
                        assert((depth - 1) * bonus <= depth * bonus) by (nonlinear_arith)
                            requires
                                depth >= 1,
                                bonus >= 0,
                        ;
                    }
                    let sub = chain_value_exec(
                        rides,
                        avail,
                        rides[i].end,
                        step + ti,
                        max_step,
                        bonus,
                        depth - 1,
                    );
                    avail[i] = true;
                    proof {
                        assert(avail@ =~= orig);
                        lemma_chain_value_bounds(
                            rides@,
                            orig.update(i as int, false),
                            rides@[i as int].end,
                            step + ti,
                            max_step as int,
                            bonus as int,
                            (depth - 1) as nat,
                            rides@.len(),
                        );
                        assert((depth - 1) * bonus + bonus == depth * bonus) by (nonlinear_arith)
                            requires
                                depth >= 1,
                        ;
                    }
                    let cp = pi + sub.0;
                    let ct = ti + sub.1;
                    if cp > best_p || (cp == best_p && ct <= best_t) {
                        best_p = cp;
                        best_t = ct;
                    }
                },
                None => {},
            }
        }
        i += 1;
    }
    (best_p, best_t)
}

/// The best first ride of variant C among the first `k` pool indices:
/// for each unassigned feasible ride, the ride's own score is extended by
/// the best chain continuing from its dropoff; candidates compete on
/// total points (descending), then total steps (ascending), later
/// indices winning exact ties.  `Some((index, points, steps))` of the
/// winner, or `None` when no unassigned ride is feasible among them.
pub open spec fn lookahead_upto(
    rides: Seq<Ride>,
    live: Seq<bool>,
    pos: Intersection,
    step: int,
    max_step: int,
    bonus: int,
    depth: nat,
    k: nat,
) -> Option<(int, int, int)>
    decreases k,
{
    if k == 0 {
        None
    } else {
        let i = k - 1;
        let prev = lookahead_upto(rides, live, pos, step, max_step, bonus, depth, (k - 1) as nat);
        if live[i] && feasible(pos, step, max_step, rides[i]) {
            let pi = score_points(pos, step, bonus, rides[i]);
            let ti = travel_time(pos, step, rides[i]);
            let sub = chain_value(
                rides,
                live.update(i, false),
                rides[i].end,
                step + ti,
                max_step,
                bonus,
                (depth - 1) as nat,
            );
            match prev {
                Some((_, pp, pt)) => if lex_better(pi + sub.0, ti + sub.1, pp, pt) {
                    Some((i, pi + sub.0, ti + sub.1))
                } else {
                    prev
                },
                None => Some((i, pi + sub.0, ti + sub.1)),
            }
        } else {
            prev
        }
    }
}

/// What `lookahead_upto` returns: a candidate whose first ride is
/// unassigned and feasible, and `None` exactly when no unassigned ride is
/// feasible.
pub proof fn lemma_lookahead_upto(
    rides: Seq<Ride>,
    live: Seq<bool>,
    pos: Intersection,
    step: int,
    max_step: int,
    bonus: int,
    depth: nat,
    k: nat,
)
    requires
        live.len() == rides.len(),
        k <= rides.len(),
    ensures
        lookahead_upto(rides, live, pos, step, max_step, bonus, depth, k) is None ==> forall|
            j: int,
        |
            0 <= j < k ==> !(live[j] && feasible(pos, step, max_step, #[trigger] rides[j])),
        lookahead_upto(rides, live, pos, step, max_step, bonus, depth, k) matches Some(
            (i, p, t),
        ) ==> {
            &&& 0 <= i < k
            &&& live[i]
            &&& feasible(pos, step, max_step, rides[i])
        },
    decreases k,
{
    if k > 0 {
        lemma_lookahead_upto(rides, live, pos, step, max_step, bonus, depth, (k - 1) as nat);
    }
}

/// The selector's running best dominates the candidate built on any
/// examined first ride.
proof fn lemma_lookahead_upto_dominates(
    rides: Seq<Ride>,
    live: Seq<bool>,
    pos: Intersection,
    step: int,
    max_step: int,
    bonus: int,
    depth: nat,
    k: nat,
    i: int,
)
    requires
        1 <= depth,
        0 <= i < k,
        live[i],
        feasible(pos, step, max_step, rides[i]),
    ensures
        ({
            let pi = score_points(pos, step, bonus, rides[i]);
            let ti = travel_time(pos, step, rides[i]);
            let sub = chain_value(
                rides,
                live.update(i, false),
                rides[i].end,
                step + ti,
                max_step,
                bonus,
                (depth - 1) as nat,
            );
            lookahead_upto(rides, live, pos, step, max_step, bonus, depth, k) matches Some(
                (_, p, t),
            ) && lex_better(p, t, pi + sub.0, ti + sub.1)
        }),
    decreases k,
{
    if i + 1 < k {
        lemma_lookahead_upto_dominates(rides, live, pos, step, max_step, bonus, depth, (k - 1) as nat, i);
    }
}

/// The selector's winner dominates every non-empty chain the vehicle
/// could really commit to, up to the explored depth: no such chain
/// earns more points, nor equal points in fewer steps.
pub proof fn lemma_lookahead_dominates(
    rides: Seq<Ride>,
    live: Seq<bool>,
    pos: Intersection,
    step: int,
    max_step: int,
    bonus: int,
    depth: nat,
    chain: Seq<int>,
)
    requires
        live.len() == rides.len(),
        1 <= depth,
        valid_chain(rides, live, pos, step, max_step, chain),
        1 <= chain.len() <= depth,
    ensures
        lookahead_upto(rides, live, pos, step, max_step, bonus, depth, rides.len()) matches Some(
            (_, p, t),
        ) && lex_better(
            p,
            t,
            chain_points(rides, pos, step, bonus, chain),
            chain_time(rides, pos, step, chain),
        ),
{
    let i = chain.first();
    let ti = travel_time(pos, step, rides[i]);
    lemma_chain_value_dominates(
        rides,
        live.update(i, false),
        rides[i].end,
        step + ti,
        max_step,
        bonus,
        (depth - 1) as nat,
        chain.drop_first(),
    );
    lemma_lookahead_upto_dominates(
        rides,
        live,
        pos,
        step,
        max_step,
        bonus,
        depth,
        rides.len(),
        i,
    );
}

/// The selector's winner is no fantasy: some chain the vehicle could
/// really commit to, starting with the selected ride and of at most the
/// explored depth, earns exactly the winning totals.
pub proof fn lemma_lookahead_achievable(
    rides: Seq<Ride>,
    live: Seq<bool>,
    pos: Intersection,
    step: int,
    max_step: int,
    bonus: int,
    depth: nat,
    k: nat,
)
    requires
        live.len() == rides.len(),
        1 <= depth,
        k <= rides.len(),
    ensures
        lookahead_upto(rides, live, pos, step, max_step, bonus, depth, k) matches Some(
            (i, p, t),
        ) ==> exists|chain: Seq<int>|
            {
                &&& #[trigger] valid_chain(rides, live, pos, step, max_step, chain)
                &&& 1 <= chain.len() <= depth
                &&& chain.first() == i
                &&& chain_points(rides, pos, step, bonus, chain) == p
                &&& chain_time(rides, pos, step, chain) == t
            },
    decreases k,
{
    if k > 0 {
        lemma_lookahead_achievable(rides, live, pos, step, max_step, bonus, depth, (k - 1) as nat);
        let i = k - 1;
        if live[i] && feasible(pos, step, max_step, rides[i]) {
            let pi = score_points(pos, step, bonus, rides[i]);
            let ti = travel_time(pos, step, rides[i]);
            lemma_chain_value_achievable(
                rides,
                live.update(i, false),
                rides[i].end,
                step + ti,
                max_step,
                bonus,
                (depth - 1) as nat,
                rides.len(),
            );
            let sub = chain_value(
                rides,
                live.update(i, false),
                rides[i].end,
                step + ti,
                max_step,
                bonus,
                (depth - 1) as nat,
            );
            let tail = choose|chain: Seq<int>|
                {
                    &&& #[trigger] valid_chain(
                        rides,
                        live.update(i, false),
                        rides[i].end,
                        step + ti,
                        max_step,
                        chain,
                    )
                    &&& chain.len() <= (depth - 1) as nat
                    &&& chain_points(rides, rides[i].end, step + ti, bonus, chain) == sub.0
                    &&& chain_time(rides, rides[i].end, step + ti, chain) == sub.1
                };
            let whole = seq![i] + tail;
            assert(whole.first() == i);
            assert(whole.drop_first() =~= tail);
            assert(valid_chain(rides, live, pos, step, max_step, whole));
            assert(chain_points(rides, pos, step, bonus, whole) == pi + sub.0);
            assert(chain_time(rides, pos, step, whole) == ti + sub.1);
        }
    }
}

/// Variant C, bounded-depth lookahead: explores chains of up to `depth`
/// rides from the vehicle's position, scores each chain by its total
/// points and total steps, and commits only to the first ride of the best
/// chain — the rest is lookahead, recomputed on later steps.  Returns the
/// pool index of that first ride and the busy time to commit with, which
/// counts travel and ride but not wait.  `None` when no unassigned ride
/// is feasible.  The mask is used as scratch space during the search and
/// is handed back unchanged.
pub fn select_lookahead(
    rides: &Vec<Ride>,
    live: &mut Vec<bool>,
    pos: Intersection,
    step: u64,
    max_step: u64,
    bonus: u64,
    depth: u64,
) -> (res: Option<(usize, u64)>)
    requires
        old(live)@.len() == rides@.len(),
        step <= max_step,
        1 <= depth,
        pool_fits_from(rides@, pos, step as int, bonus as int),
        pool_fits_chain(rides@, max_step as int, bonus as int),
        depth * bonus + max_step <= u64::MAX,
    ensures
        final (live)@ == old(live)@,
        res is None <==> lookahead_upto(
            rides@,
            old(live)@,
            pos,
            step as int,
            max_step as int,
            bonus as int,
            depth as nat,
            rides@.len(),
        ) is None,
        res is None ==> forall|j: int|
            0 <= j < rides@.len() ==> !(old(live)@[j] && feasible(
                pos,
                step as int,
                max_step as int,
                #[trigger] rides@[j],
            )),
        res matches Some((i, tc)) ==> {
            &&& lookahead_upto(
                rides@,
                old(live)@,
                pos,
                step as int,
                max_step as int,
                bonus as int,
                depth as nat,
                rides@.len(),
            ) matches Some((si, _, _)) && si == i as int
            &&& i < rides@.len()
            &&& old(live)@[i as int]
            &&& feasible(pos, step as int, max_step as int, rides@[i as int])
            &&& tc == dist(pos, rides@[i as int].start) + dist(
                rides@[i as int].start,
                rides@[i as int].end,
            )
        },
{
    let ghost orig = old(live)@;
    let mut best: Option<(usize, u64, u64)> = None;
    let mut i: usize = 0;
    while i < rides.len()
        invariant
            live@ == orig,
            orig.len() == rides@.len(),
            i <= rides@.len(),
            step <= max_step,
            1 <= depth,
            pool_fits_from(rides@, pos, step as int, bonus as int),
            pool_fits_chain(rides@, max_step as int, bonus as int),
            depth * bonus + max_step <= u64::MAX,
            match best {
                None => lookahead_upto(
                    rides@,
                    orig,
                    pos,
                    step as int,
                    max_step as int,
                    bonus as int,
                    depth as nat,
                    i as nat,
                ) is None,
                Some((bi, bp, bt)) => lookahead_upto(
                    rides@,
                    orig,
                    pos,
                    step as int,
                    max_step as int,
                    bonus as int,
                    depth as nat,
                    i as nat,
                ) == Some((bi as int, bp as int, bt as int)) && bi < rides@.len(),
            },
        decreases rides@.len() - i,
    {
        if live[i] {
            match scoring::score(pos, step, max_step, bonus, &rides[i]) {
                Some((pi, ti)) => {
                    live[i] = false;
                    proof {
                        assert forall|m: int| 0 <= m < rides@.len() implies score_fits(
                            rides@[i as int].end,
                            step + ti,
                            bonus as int,
                            #[trigger] rides@[m],
                        ) by {
                            assert(score_fits(
                                rides@[i as int].end,
                                max_step as int,
                                bonus as int,
                                rides@[m],
                            ));
                        }
                        assert((depth - 1) * bonus <= depth * bonus) by (nonlinear_arith)
                            requires
                                depth >= 1,
                                bonus >= 0,
                        ;
                    }
                    let sub = chain_value_exec(
                        rides,
                        live,
                        rides[i].end,
                        step + ti,
                        max_step,
                        bonus,
                        depth - 1,
                    );
                    live[i] = true;
                    proof {
                        assert(live@ =~= orig);
                        lemma_chain_value_bounds(
                            rides@,
                            orig.update(i as int, false),
                            rides@[i as int].end,
                            step + ti,
                            max_step as int,
                            bonus as int,
                            (depth - 1) as nat,
                            rides@.len(),
                        );
                        assert((depth - 1) * bonus + bonus == depth * bonus) by (nonlinear_arith)
                            requires
                                depth >= 1,
                        ;
                    }
                    let cp = pi + sub.0;
                    let ct = ti + sub.1;
                    let take = match best {
                        Some((_, bp, bt)) => cp > bp || (cp == bp && ct <= bt),
                        None => true,
                    };
                    if take {
                        best = Some((i, cp, ct));
                    }
                },
                None => {},
            }
        }
        i += 1;
    }
    proof {
        lemma_lookahead_upto(
            rides@,
            orig,
            pos,
            step as int,
            max_step as int,
            bonus as int,
            depth as nat,
            rides@.len(),
        );
    }
    match best {
        Some((i, _, _)) => {
            let d0 = Intersection::get_distance(&pos, &rides[i].start);
            let d1 = Intersection::get_distance(&rides[i].start, &rides[i].end);
            Some((i, d0 + d1))
        },
        None => None,
    }
}

/// `chain` is a sequence of pool indices that a vehicle at `pos` on
/// step `step` could commit to in order: each entry unassigned and not
/// yet used by the chain, and each feasible from where the previous
/// ride ends, at the step the previous ride finishes.
pub open spec fn valid_chain(
    rides: Seq<Ride>,
    avail: Seq<bool>,
    pos: Intersection,
    step: int,
    max_step: int,
    chain: Seq<int>,
) -> bool
    decreases chain.len(),
{
    if chain.len() == 0 {
        true
    } else {
        let i = chain.first();
        &&& 0 <= i < rides.len()
        &&& avail[i]
        &&& feasible(pos, step, max_step, rides[i])
        &&& valid_chain(
            rides,
            avail.update(i, false),
            rides[i].end,
            step + travel_time(pos, step, rides[i]),
            max_step,
            chain.drop_first(),
        )
    }
}

/// The total points a chain earns.
pub open spec fn chain_points(
    rides: Seq<Ride>,
    pos: Intersection,
    step: int,
    bonus: int,
    chain: Seq<int>,
) -> int
    decreases chain.len(),
{
    if chain.len() == 0 {
        0
    } else {
        let i = chain.first();
        score_points(pos, step, bonus, rides[i]) + chain_points(
            rides,
            rides[i].end,
            step + travel_time(pos, step, rides[i]),
            bonus,
            chain.drop_first(),
        )
    }
}

/// The total steps a chain occupies the vehicle.
pub open spec fn chain_time(rides: Seq<Ride>, pos: Intersection, step: int, chain: Seq<int>) -> int
    decreases chain.len(),
{
    if chain.len() == 0 {
        0
    } else {
        let i = chain.first();
        travel_time(pos, step, rides[i]) + chain_time(
            rides,
            rides[i].end,
            step + travel_time(pos, step, rides[i]),
            chain.drop_first(),
        )
    }
}

/// The search's running best never falls lex-below the empty chain's
/// `(0, 0)`.
proof fn lemma_chain_value_upto_ge_zero(
    rides: Seq<Ride>,
    avail: Seq<bool>,
    pos: Intersection,
    step: int,
    max_step: int,
    bonus: int,
    depth: nat,
    k: nat,
)
    ensures
        ({
            let v = chain_value_upto(rides, avail, pos, step, max_step, bonus, depth, k);
            lex_better(v.0, v.1, 0, 0)
        }),
    decreases k,
{
    if !(depth == 0 || k == 0) {
        lemma_chain_value_upto_ge_zero(
            rides,
            avail,
            pos,
            step,
            max_step,
            bonus,
            depth,
            (k - 1) as nat,
        );
    }
}

/// The search's running best dominates the candidate built on any
/// examined first ride.
proof fn lemma_chain_value_upto_dominates(
    rides: Seq<Ride>,
    avail: Seq<bool>,
    pos: Intersection,
    step: int,
    max_step: int,
    bonus: int,
    depth: nat,
    k: nat,
    i: int,
)
    requires
        1 <= depth,
        0 <= i < k,
        avail[i],
        feasible(pos, step, max_step, rides[i]),
    ensures
        ({
            let v = chain_value_upto(rides, avail, pos, step, max_step, bonus, depth, k);
            let pi = score_points(pos, step, bonus, rides[i]);
            let ti = travel_time(pos, step, rides[i]);
            let sub = chain_value_upto(
                rides,
                avail.update(i, false),
                rides[i].end,
                step + ti,
                max_step,
                bonus,
                (depth - 1) as nat,
                rides.len(),
            );
            lex_better(v.0, v.1, pi + sub.0, ti + sub.1)
        }),
    decreases k,
{
    if i + 1 < k {
        lemma_chain_value_upto_dominates(
            rides,
            avail,
            pos,
            step,
            max_step,
            bonus,
            depth,
            (k - 1) as nat,
            i,
        );
    }
}

/// The lookahead value dominates every chain the vehicle could really
/// commit to, up to the explored depth: no such chain earns more
/// points, nor equal points in fewer steps.
pub proof fn lemma_chain_value_dominates(
    rides: Seq<Ride>,
    avail: Seq<bool>,
    pos: Intersection,
    step: int,
    max_step: int,
    bonus: int,
    depth: nat,
    chain: Seq<int>,
)
    requires
        avail.len() == rides.len(),
        valid_chain(rides, avail, pos, step, max_step, chain),
        chain.len() <= depth,
    ensures
        ({
            let v = chain_value(rides, avail, pos, step, max_step, bonus, depth);
            lex_better(
                v.0,
                v.1,
                chain_points(rides, pos, step, bonus, chain),
                chain_time(rides, pos, step, chain),
            )
        }),
    decreases chain.len(),
{
    if chain.len() == 0 {
        lemma_chain_value_upto_ge_zero(
            rides,
            avail,
            pos,
            step,
            max_step,
            bonus,
            depth,
            rides.len(),
        );
    } else {
        let i = chain.first();
        let ti = travel_time(pos, step, rides[i]);
        lemma_chain_value_dominates(
            rides,
            avail.update(i, false),
            rides[i].end,
            step + ti,
            max_step,
            bonus,
            (depth - 1) as nat,
            chain.drop_first(),
        );
        lemma_chain_value_upto_dominates(
            rides,
            avail,
            pos,
            step,
            max_step,
            bonus,
            depth,
            rides.len(),
            i,
        );
    }
}

/// The lookahead value is no fantasy: some chain the vehicle could
/// really commit to, of at most the explored depth, earns exactly it.
pub proof fn lemma_chain_value_achievable(
    rides: Seq<Ride>,
    avail: Seq<bool>,
    pos: Intersection,
    step: int,
    max_step: int,
    bonus: int,
    depth: nat,
    k: nat,
)
    requires
        avail.len() == rides.len(),
        k <= rides.len(),
    ensures
        exists|chain: Seq<int>|
            {
                let v = chain_value_upto(rides, avail, pos, step, max_step, bonus, depth, k);
                &&& #[trigger] valid_chain(rides, avail, pos, step, max_step, chain)
                &&& chain.len() <= depth
                &&& chain_points(rides, pos, step, bonus, chain) == v.0
                &&& chain_time(rides, pos, step, chain) == v.1
            },
    decreases depth, k,
{
    let v = chain_value_upto(rides, avail, pos, step, max_step, bonus, depth, k);
    if depth == 0 || k == 0 {
        let empty = Seq::<int>::empty();
        assert(valid_chain(rides, avail, pos, step, max_step, empty) && empty.len() <= depth
            && chain_points(rides, pos, step, bonus, empty) == v.0 && chain_time(
            rides,
            pos,
            step,
            empty,
        ) == v.1);
    } else {
        let i = k - 1;
        lemma_chain_value_achievable(
            rides,
            avail,
            pos,
            step,
            max_step,
            bonus,
            depth,
            (k - 1) as nat,
        );
        if avail[i] && feasible(pos, step, max_step, rides[i]) {
            let pi = score_points(pos, step, bonus, rides[i]);
            let ti = travel_time(pos, step, rides[i]);
            let sub = chain_value_upto(
                rides,
                avail.update(i, false),
                rides[i].end,
                step + ti,
                max_step,
                bonus,
                (depth - 1) as nat,
                rides.len(),
            );
            if lex_better(pi + sub.0, ti + sub.1, chain_value_upto(
                rides,
                avail,
                pos,
                step,
                max_step,
                bonus,
                depth,
                (k - 1) as nat,
            ).0, chain_value_upto(rides, avail, pos, step, max_step, bonus, depth, (k - 1) as nat).1)
             {
                lemma_chain_value_achievable(
                    rides,
                    avail.update(i, false),
                    rides[i].end,
                    step + ti,
                    max_step,
                    bonus,
                    (depth - 1) as nat,
                    rides.len(),
                );
                let tail = choose|chain: Seq<int>|
                    {
                        let s = chain_value_upto(
                            rides,
                            avail.update(i, false),
                            rides[i].end,
                            step + ti,
                            max_step,
                            bonus,
                            (depth - 1) as nat,
                            rides.len(),
                        );
                        &&& #[trigger] valid_chain(
                            rides,
                            avail.update(i, false),
                            rides[i].end,
                            step + ti,
                            max_step,
                            chain,
                        )
                        &&& chain.len() <= (depth - 1) as nat
                        &&& chain_points(rides, rides[i].end, step + ti, bonus, chain) == s.0
                        &&& chain_time(rides, rides[i].end, step + ti, chain) == s.1
                    };
                let whole = seq![i] + tail;
                assert(whole.first() == i);
                assert(whole.drop_first() =~= tail);
                assert(valid_chain(rides, avail, pos, step, max_step, whole));
                assert(chain_points(rides, pos, step, bonus, whole) == pi + sub.0);
                assert(chain_time(rides, pos, step, whole) == ti + sub.1);
            }
        }
    }
}

/// Where a vehicle will next stand still: the dropoff of its current
/// ride, or its position when it is free.
pub open spec fn proj_pos(v: VehicleView) -> Intersection {
    match v.cur_ride {
        Some(r) => r.end,
        None => v.pos,
    }
}

/// The step at which a vehicle is projected to reach the pickup of `r`,
/// counting from `step`: its own remaining busy time, then travel from
/// where it will next stand still.
pub open spec fn proj_arrival(v: VehicleView, step: int, r: Ride) -> int {
    step + v.pos.t + dist(proj_pos(v), r.start)
}

/// Projected arrivals of the whole fleet at every pickup of the pool stay
/// within `u64`.
pub open spec fn fleet_fits(vehicles: Seq<VehicleView>, rides: Seq<Ride>, step: int) -> bool {
    forall|u: int, m: int|
        #![trigger vehicles[u], rides[m]]
        0 <= u < vehicles.len() && 0 <= m < rides.len() ==> dist_fits(
            proj_pos(vehicles[u]),
            rides[m].start,
        ) && step + vehicles[u].pos.t + dist(proj_pos(vehicles[u]), rides[m].start) <= u64::MAX
}

/// Another vehicle than `vi` projects a strictly earlier arrival at the
/// pickup of `r` than vehicle `vi` does from its own position.
pub open spec fn has_closer_competitor(
    vehicles: Seq<VehicleView>,
    vi: int,
    step: int,
    r: Ride,
) -> bool {
    exists|u: int|
        0 <= u < vehicles.len() && u != vi && proj_arrival(#[trigger] vehicles[u], step, r) < step
            + dist(vehicles[vi].pos, r.start)
}

/// The choice of variant B: the earliest-finish candidate of variant A,
/// except that a candidate the vehicle would have to wait for is declined
/// when some other vehicle projects a strictly earlier arrival at its
/// pickup.  `Some((index, finish))` or `None`.
pub open spec fn wait_aware_choice(
    rides: Seq<Ride>,
    live: Seq<bool>,
    vehicles: Seq<VehicleView>,
    vi: int,
    step: int,
    max_step: int,
) -> Option<(int, int)> {
    let pos = vehicles[vi].pos;
    match earliest_upto(rides, live, pos, step, max_step, rides.len()) {
        None => None,
        Some((i, t)) => {
            if wait_time(pos, step, rides[i]) == 0 {
                Some((i, t))
            } else if has_closer_competitor(vehicles, vi, step, rides[i]) {
                None
            } else {
                Some((i, t))
            }
        },
    }
}

/// Variant B, wait-aware greedy: picks the earliest-finish candidate as
/// variant A does, but when taking it would mean waiting at the pickup
/// for the window to open, the vehicle first checks every other vehicle's
/// projected arrival at that pickup and declines if any of them gets
/// there strictly sooner — avoiding convoys of vehicles converging on one
/// pickup.  Returns the pool index and the busy time to commit with,
/// which here is the full finish time, wait included.
pub fn select_wait_aware(
    rides: &Vec<Ride>,
    live: &Vec<bool>,
    vehicles: &Vec<Vehicle>,
    vi: usize,
    step: u64,
    max_step: u64,
    bonus: u64,
) -> (res: Option<(usize, u64)>)
    requires
        live@.len() == rides@.len(),
        vi < vehicles@.len(),
        pool_fits_from(rides@, vehicles@[vi as int].pos, step as int, bonus as int),
        fleet_fits(views(vehicles@), rides@, step as int),
    ensures
        res is None <==> wait_aware_choice(
            rides@,
            live@,
            views(vehicles@),
            vi as int,
            step as int,
            max_step as int,
        ) is None,
        res matches Some((i, tc)) ==> {
            &&& wait_aware_choice(
                rides@,
                live@,
                views(vehicles@),
                vi as int,
                step as int,
                max_step as int,
            ) == Some((i as int, tc as int))
            &&& i < rides@.len()
            &&& live@[i as int]
            &&& feasible(vehicles@[vi as int].pos, step as int, max_step as int, rides@[i as int])
            &&& tc == travel_time(vehicles@[vi as int].pos, step as int, rides@[i as int])
            &&& forall|j: int|
                0 <= j < rides@.len() && live@[j] && feasible(
                    vehicles@[vi as int].pos,
                    step as int,
                    max_step as int,
                    #[trigger] rides@[j],
                ) ==> travel_time(vehicles@[vi as int].pos, step as int, rides@[j]) >= tc
        },
        res is None ==> (forall|j: int|
            0 <= j < rides@.len() ==> !(live@[j] && feasible(
                vehicles@[vi as int].pos,
                step as int,
                max_step as int,
                #[trigger] rides@[j],
            ))) || (earliest_upto(
            rides@,
            live@,
            vehicles@[vi as int].pos,
            step as int,
            max_step as int,
            rides@.len(),
        ) matches Some((i, _)) && wait_time(vehicles@[vi as int].pos, step as int, rides@[i]) > 0
            && has_closer_competitor(views(vehicles@), vi as int, step as int, rides@[i])),
{
    let pos = vehicles[vi].pos;
    proof {
        lemma_earliest_upto(
            rides@,
            live@,
            pos,
            step as int,
            max_step as int,
            rides@.len() as nat,
        );
    }
    match select_earliest_finish(rides, live, pos, step, max_step, bonus) {
        None => None,
        Some((i, _)) => {
            let t = match scoring::score(pos, step, max_step, bonus, &rides[i]) {
                Some((_, t)) => t,
                None => 0,  // unreachable: the selected ride is feasible
            };
            let d0 = Intersection::get_distance(&pos, &rides[i].start);
            if step + d0 >= rides[i].start.t {
                // No wait at the pickup: always acceptable.
                Some((i, t))
            } else {
                let mut u: usize = 0;
                let mut found = false;
                while u < vehicles.len()
                    invariant
                        u <= vehicles@.len(),
                        vi < vehicles@.len(),
                        i < rides@.len(),
                        fleet_fits(views(vehicles@), rides@, step as int),
                        pos == vehicles@[vi as int].pos,
                        d0 == dist(pos, rides@[i as int].start),
                        step + d0 <= u64::MAX,
                        found == exists|w: int|
                            0 <= w < u && w != vi as int && proj_arrival(
                                #[trigger] views(vehicles@)[w],
                                step as int,
                                rides@[i as int],
                            ) < step + d0,
                    decreases vehicles@.len() - u,
                {
                    if u != vi {
                        proof {
                            assert(views(vehicles@)[u as int] == vehicles@[u as int]@);
                            assert(fleet_fits(views(vehicles@), rides@, step as int));
                            assert(dist_fits(
                                proj_pos(views(vehicles@)[u as int]),
                                rides@[i as int].start,
                            ));
                        }
                        let ppos = match &vehicles[u].cur_ride {
                            Some(r) => r.end,
                            None => vehicles[u].pos,
                        };
                        let arrival = step + vehicles[u].pos.t + Intersection::get_distance(
                            &ppos,
                            &rides[i].start,
                        );
                        if arrival < step + d0 {
                            found = true;
                        }
                    }
                    u += 1;
                }
                if found {
                    None
                } else {
                    Some((i, t))
                }
            }
        },
    }
}

} // verus!
