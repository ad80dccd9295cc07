//! The dispatch engine: owns the fleet, the ride pool, the bonus and the
//! step budget, and drives the step loop.
//!
//! The pool is an arena: loaded rides are never moved or dropped, and a
//! mask records which of them are still unassigned.  Committing a ride
//! clears its mask entry and appends its identity to the chosen vehicle's
//! history, so a ride belongs to exactly one of {unassigned pool, some
//! vehicle's history} at every moment.

use vstd::prelude::*;

use crate::geometry::{dist, dist_fits, Intersection};
use crate::graph;
use crate::ride::Ride;
use crate::scoring::{feasible, min_finish, score_fits, travel_time};
use crate::strategy;
use crate::strategy::{
    earliest_upto, fleet_fits, lookahead_upto, pool_fits_chain, pool_fits_from, wait_aware_choice,
    Strategy,
};
use crate::vehicle::{advanced, committed, views, Vehicle, VehicleView};

verus! {

/// The engine: grid bounds (informational), the fleet, the ride arena
/// with its unassigned mask, the bonus and the step budget, and the
/// active assignment policy.
pub struct Grid {
    pub rows: u64,
    pub cols: u64,
    pub vehicles: Vec<Vehicle>,
    pub rides: Vec<Ride>,
    pub live: Vec<bool>,
    pub bonus: u64,
    pub steps: u64,
    pub strategy: Strategy,
}

/// The mathematical model of a [`Grid`].
#[verifier::ext_equal]
pub struct GridView {
    pub rows: u64,
    pub cols: u64,
    pub vehicles: Seq<VehicleView>,
    pub rides: Seq<Ride>,
    pub live: Seq<bool>,
    pub bonus: u64,
    pub steps: u64,
    pub strategy: Strategy,
}

impl View for Grid {
    type V = GridView;

    open spec fn view(&self) -> GridView {
        GridView {
            rows: self.rows,
            cols: self.cols,
            vehicles: views(self.vehicles@),
            rides: self.rides@,
            live: self.live@,
            bonus: self.bonus,
            steps: self.steps,
            strategy: self.strategy,
        }
    }
}

/// The arena is well-formed: the mask covers it, and each ride's identity
/// is the ordinal at which it was loaded — its own arena index.
pub open spec fn wf(g: GridView) -> bool {
    &&& g.live.len() == g.rides.len()
    &&& forall|i: int| 0 <= i < g.rides.len() ==> (#[trigger] g.rides[i]).index == i as u64
}

/// Ride identity `id` stands in some vehicle's history.
pub open spec fn hist_contains(g: GridView, id: u64) -> bool {
    exists|v: int, k: int|
        0 <= v < g.vehicles.len() && 0 <= k < g.vehicles[v].runs.len()
            && #[trigger] g.vehicles[v].runs[k] == id
}

/// Pool ownership: a ride is unassigned exactly when its identity stands
/// in no history, no identity stands in two history slots, and histories
/// mention loaded rides only.
pub open spec fn own_ok(g: GridView) -> bool {
    &&& forall|i: int|
        0 <= i < g.rides.len() ==> (#[trigger] g.live[i] <==> !hist_contains(g, i as u64))
    &&& forall|v1: int, k1: int, v2: int, k2: int|
        #![trigger g.vehicles[v1].runs[k1], g.vehicles[v2].runs[k2]]
        0 <= v1 < g.vehicles.len() && 0 <= k1 < g.vehicles[v1].runs.len() && 0 <= v2
            < g.vehicles.len() && 0 <= k2 < g.vehicles[v2].runs.len() && g.vehicles[v1].runs[k1]
            == g.vehicles[v2].runs[k2] ==> v1 == v2 && k1 == k2
    &&& forall|v: int, k: int|
        0 <= v < g.vehicles.len() && 0 <= k < g.vehicles[v].runs.len()
            ==> #[trigger] g.vehicles[v].runs[k] < g.rides.len()
}

/// Every ride a vehicle is currently executing is a ride of the arena,
/// held under its own identity.
pub open spec fn cur_ok(g: GridView) -> bool {
    forall|v: int|
        0 <= v < g.vehicles.len() ==> ((#[trigger] g.vehicles[v]).cur_ride matches Some(r)
            ==> r.index < g.rides.len() && r == g.rides[r.index as int])
}

/// Every ride identity in a history could be completed by its deadline
/// and within the horizon when it was committed, so its minimum
/// achievable finish step respects both.
pub open spec fn hist_ok(g: GridView) -> bool {
    forall|v: int, k: int|
        0 <= v < g.vehicles.len() && 0 <= k < g.vehicles[v].runs.len() ==> min_finish(
            g.rides[#[trigger] g.vehicles[v].runs[k] as int],
        ) <= g.rides[g.vehicles[v].runs[k] as int].end.t && min_finish(
            g.rides[g.vehicles[v].runs[k] as int],
        ) <= g.steps
}

/// `p` is a position a vehicle can stand at: the origin, or the dropoff
/// of some loaded ride.
pub open spec fn pos_ok(g: GridView, p: Intersection) -> bool {
    (p.x == 0 && p.y == 0) || exists|j: int|
        0 <= j < g.rides.len() && (#[trigger] g.rides[j]).end.x == p.x && g.rides[j].end.y == p.y
}

/// Every vehicle stands at a reachable position.
pub open spec fn fleet_pos_ok(g: GridView) -> bool {
    forall|v: int| 0 <= v < g.vehicles.len() ==> pos_ok(g, (#[trigger] g.vehicles[v]).pos)
}

/// A vehicle's busy counter, entering step `step`: a busy vehicle
/// finishes within the horizon (committed busy times never reach past
/// it, so at worst one step beyond remains), and a free vehicle carries
/// no busy time.
pub open spec fn vt_weak(v: VehicleView, step: int, steps: int) -> bool {
    match v.cur_ride {
        Some(_) => step + v.pos.t <= steps + 1,
        None => v.pos.t == 0,
    }
}

/// As `vt_weak`, after the vehicle has already ticked within step
/// `step`.
pub open spec fn vt_strong(v: VehicleView, step: int, steps: int) -> bool {
    match v.cur_ride {
        Some(_) => step + v.pos.t <= steps,
        None => v.pos.t == 0,
    }
}

/// Every vehicle's busy counter is in bounds, entering step `step`.
pub open spec fn fleet_time_ok(g: GridView, step: int) -> bool {
    forall|v: int| 0 <= v < g.vehicles.len() ==> vt_weak(#[trigger] g.vehicles[v], step, g.steps as int)
}

/// Every sum the step loop computes stays within `u64`, whatever
/// reachable position and step it scores from.  This is what the machine
/// forces; the rules themselves put no bound on the input.
pub open spec fn grid_fits(g: GridView) -> bool {
    &&& forall|i: int|
        0 <= i < g.rides.len() ==> score_fits(
            graph::origin(),
            g.steps as int,
            g.bonus as int,
            #[trigger] g.rides[i],
        )
    &&& pool_fits_chain(g.rides, g.steps as int, g.bonus as int)
    &&& forall|m: int|
        0 <= m < g.rides.len() ==> g.steps + 1 + dist(graph::origin(), (#[trigger] g.rides[m]).start)
            <= u64::MAX
    &&& forall|m: int, j: int|
        #![trigger g.rides[m], g.rides[j]]
        0 <= m < g.rides.len() && 0 <= j < g.rides.len() ==> g.steps + 1 + dist(
            g.rides[j].end,
            g.rides[m].start,
        ) <= u64::MAX
    &&& match g.strategy {
        Strategy::Lookahead { depth } => 1 <= depth && depth * g.bonus + g.steps <= u64::MAX,
        _ => true,
    }
}

/// Inputs within this magnitude can never overflow the step loop's
/// sums, whatever their combination.
pub const SAFE_BOUND: u64 = 0x4000_0000;

/// The bundle of facts the step loop maintains, entering step `step`.
pub open spec fn inv(g: GridView, step: int) -> bool {
    &&& wf(g)
    &&& own_ok(g)
    &&& cur_ok(g)
    &&& hist_ok(g)
    &&& fleet_pos_ok(g)
    &&& fleet_time_ok(g, step)
}

/// Every coordinate and time value of the ride lies within `b`.
pub open spec fn ride_bounded(r: Ride, b: int) -> bool {
    &&& r.start.x <= b
    &&& r.start.y <= b
    &&& r.start.t <= b
    &&& r.end.x <= b
    &&& r.end.y <= b
    &&& r.end.t <= b
}

/// With every input value within [`SAFE_BOUND`], no sum of the step
/// loop can overflow.
pub proof fn lemma_bounded_grid_fits(g: GridView)
    requires
        g.steps <= SAFE_BOUND,
        g.bonus <= SAFE_BOUND,
        forall|m: int|
            0 <= m < g.rides.len() ==> ride_bounded(#[trigger] g.rides[m], SAFE_BOUND as int),
        match g.strategy {
            Strategy::Lookahead { depth } => 1 <= depth <= SAFE_BOUND,
            _ => true,
        },
    ensures
        grid_fits(g),
{
    let b = SAFE_BOUND as int;
    assert forall|i: int| 0 <= i < g.rides.len() implies score_fits(
        graph::origin(),
        g.steps as int,
        g.bonus as int,
        #[trigger] g.rides[i],
    ) by {
        assert(ride_bounded(g.rides[i], b));
        assert(dist(graph::origin(), g.rides[i].start) <= 2 * b);
        assert(dist(g.rides[i].start, g.rides[i].end) <= 2 * b);
    }
    assert forall|i: int, j: int|
        0 <= i < g.rides.len() && 0 <= j < g.rides.len() implies score_fits(
        (#[trigger] g.rides[j]).end,
        g.steps as int,
        g.bonus as int,
        #[trigger] g.rides[i],
    ) && g.steps + 1 + dist(g.rides[j].end, g.rides[i].start) <= u64::MAX by {
        assert(ride_bounded(g.rides[i], b));
        assert(ride_bounded(g.rides[j], b));
        assert(dist(g.rides[j].end, g.rides[i].start) <= 2 * b);
        assert(dist(g.rides[i].start, g.rides[i].end) <= 2 * b);
    }
    assert forall|m: int| 0 <= m < g.rides.len() implies g.steps + 1 + dist(
        graph::origin(),
        (#[trigger] g.rides[m]).start,
    ) <= u64::MAX by {
        assert(ride_bounded(g.rides[m], b));
        assert(dist(graph::origin(), g.rides[m].start) <= 2 * b);
    }
    match g.strategy {
        Strategy::Lookahead { depth } => {
            assert(depth * g.bonus <= SAFE_BOUND * SAFE_BOUND) by (nonlinear_arith)
                requires
                    0 <= depth <= SAFE_BOUND,
                    0 <= g.bonus <= SAFE_BOUND,
            ;
        },
        _ => {},
    }
}

/// Scoring fits carry over to any position with the same coordinates and
/// any earlier step: the distance terms read only coordinates, and the
/// step only ever appears added.
pub proof fn lemma_score_fits_relax(
    p1: Intersection,
    p2: Intersection,
    s1: int,
    s2: int,
    bonus: int,
    r: Ride,
)
    requires
        p1.x == p2.x,
        p1.y == p2.y,
        0 <= s1 <= s2,
        score_fits(p2, s2, bonus, r),
    ensures
        score_fits(p1, s1, bonus, r),
        dist(p1, r.start) == dist(p2, r.start),
{
}

/// From any reachable position and any step within the horizon, scoring
/// the whole pool fits.
pub proof fn lemma_pool_fits_at(g: GridView, pos: Intersection, step: int)
    requires
        grid_fits(g),
        pos_ok(g, pos),
        0 <= step <= g.steps,
    ensures
        pool_fits_from(g.rides, pos, step, g.bonus as int),
{
    assert forall|m: int| 0 <= m < g.rides.len() implies score_fits(
        pos,
        step,
        g.bonus as int,
        #[trigger] g.rides[m],
    ) by {
        if pos.x == 0 && pos.y == 0 {
            lemma_score_fits_relax(
                pos,
                graph::origin(),
                step,
                g.steps as int,
                g.bonus as int,
                g.rides[m],
            );
        } else {
            let j = choose|j: int|
                0 <= j < g.rides.len() && (#[trigger] g.rides[j]).end.x == pos.x
                    && g.rides[j].end.y == pos.y;
            assert(score_fits(g.rides[j].end, g.steps as int, g.bonus as int, g.rides[m]));
            lemma_score_fits_relax(
                pos,
                g.rides[j].end,
                step,
                g.steps as int,
                g.bonus as int,
                g.rides[m],
            );
        }
    }
}

/// With the loop's invariants, the whole fleet's projected arrivals fit.
pub proof fn lemma_fleet_fits(g: GridView, step: int)
    requires
        wf(g),
        grid_fits(g),
        cur_ok(g),
        fleet_pos_ok(g),
        fleet_time_ok(g, step),
        0 <= step <= g.steps,
    ensures
        fleet_fits(g.vehicles, g.rides, step),
{
    assert forall|u: int, m: int|
        0 <= u < g.vehicles.len() && 0 <= m < g.rides.len() implies dist_fits(
        strategy::proj_pos(#[trigger] g.vehicles[u]),
        (#[trigger] g.rides[m]).start,
    ) && step + g.vehicles[u].pos.t + dist(strategy::proj_pos(g.vehicles[u]), g.rides[m].start)
        <= u64::MAX by {
        let v = g.vehicles[u];
        match v.cur_ride {
            Some(r) => {
                let j = r.index as int;
                assert(strategy::proj_pos(v) == g.rides[j].end);
                assert(score_fits(g.rides[j].end, g.steps as int, g.bonus as int, g.rides[m]));
                assert(g.steps + 1 + dist(g.rides[j].end, g.rides[m].start) <= u64::MAX);
            },
            None => {
                if v.pos.x == 0 && v.pos.y == 0 {
                    assert(g.steps + 1 + dist(graph::origin(), g.rides[m].start) <= u64::MAX);
                    assert(dist(v.pos, g.rides[m].start) == dist(graph::origin(), g.rides[m].start));
                    assert(score_fits(graph::origin(), g.steps as int, g.bonus as int, g.rides[m]));
                } else {
                    let j = choose|j: int|
                        0 <= j < g.rides.len() && (#[trigger] g.rides[j]).end.x == v.pos.x
                            && g.rides[j].end.y == v.pos.y;
                    assert(g.steps + 1 + dist(g.rides[j].end, g.rides[m].start) <= u64::MAX);
                    assert(dist(v.pos, g.rides[m].start) == dist(g.rides[j].end, g.rides[m].start));
                    assert(score_fits(g.rides[j].end, g.steps as int, g.bonus as int, g.rides[m]));
                }
            },
        }
    }
}

/// The choice the active policy makes for the free vehicle `vi` on step
/// `step`: `Some((pool index, busy time to commit with))` or `None`.
pub open spec fn spec_select(g: GridView, vi: int, step: int) -> Option<(int, int)> {
    let pos = g.vehicles[vi].pos;
    let n = g.rides.len();
    match g.strategy {
        Strategy::EarliestFinish => match earliest_upto(
            g.rides,
            g.live,
            pos,
            step,
            g.steps as int,
            n,
        ) {
            Some((i, _)) => Some(
                (i, dist(pos, g.rides[i].start) + dist(g.rides[i].start, g.rides[i].end)),
            ),
            None => None,
        },
        Strategy::WaitAware => wait_aware_choice(g.rides, g.live, g.vehicles, vi, step, g.steps as int),
        Strategy::Lookahead { depth } => match lookahead_upto(
            g.rides,
            g.live,
            pos,
            step,
            g.steps as int,
            g.bonus as int,
            depth as nat,
            n,
        ) {
            Some((i, _, _)) => Some(
                (i, dist(pos, g.rides[i].start) + dist(g.rides[i].start, g.rides[i].end)),
            ),
            None => None,
        },
    }
}

/// Committing pool entry `i` to vehicle `vi` for `t` steps: the mask
/// entry is cleared and the ride is bound to the vehicle, atomically.
pub open spec fn spec_commit(g: GridView, vi: int, i: int, t: u64) -> GridView {
    GridView {
        vehicles: g.vehicles.update(vi, committed(g.vehicles[vi], t, g.rides[i])),
        live: g.live.update(i, false),
        ..g
    }
}

/// One vehicle's share of step `step`: the vehicle ticks; if that leaves
/// it free, the active policy is consulted against the live pool, and a
/// returned ride is committed within the same step.
pub open spec fn spec_step_vehicle(g: GridView, vi: int, step: int) -> GridView {
    let v1 = advanced(g.vehicles[vi]);
    let g1 = GridView { vehicles: g.vehicles.update(vi, v1), ..g };
    if v1.cur_ride is None {
        match spec_select(g1, vi, step) {
            Some((i, t)) => spec_commit(g1, vi, i, t as u64),
            None => g1,
        }
    } else {
        g1
    }
}

/// Step `step`, carried out for the first `k` vehicles in creation
/// order; a ride committed by an earlier vehicle is gone from the pool a
/// later vehicle sees within the same step.
pub open spec fn spec_step_upto(g: GridView, step: int, k: nat) -> GridView
    decreases k,
{
    if k == 0 {
        g
    } else {
        spec_step_vehicle(spec_step_upto(g, step, (k - 1) as nat), (k - 1) as int, step)
    }
}

/// The engine state after the first `s` steps.
pub open spec fn spec_run_upto(g: GridView, s: nat) -> GridView
    decreases s,
{
    if s == 0 {
        g
    } else {
        let p = spec_run_upto(g, (s - 1) as nat);
        spec_step_upto(p, (s - 1) as int, p.vehicles.len())
    }
}

/// The engine state after the whole run: `steps` steps, each offering
/// every vehicle in creation order.
pub open spec fn spec_run(g: GridView) -> GridView {
    spec_run_upto(g, g.steps as nat)
}

/// Reachability of a position depends on the arena alone.
pub proof fn lemma_pos_ok_same_rides(g: GridView, g1: GridView, p: Intersection)
    requires
        g1.rides == g.rides,
        pos_ok(g, p),
    ensures
        pos_ok(g1, p),
{
    if !(p.x == 0 && p.y == 0) {
        let j = choose|j: int|
            0 <= j < g.rides.len() && (#[trigger] g.rides[j]).end.x == p.x && g.rides[j].end.y
                == p.y;
        assert(0 <= j < g1.rides.len() && g1.rides[j].end.x == p.x && g1.rides[j].end.y == p.y);
    }
}

/// Ticking one vehicle preserves the pool invariants: no history
/// changes, the mask does not change, and a completing vehicle appears
/// at its ride's dropoff, which is a reachable position.
pub proof fn lemma_advance_preserves(g: GridView, vi: int)
    requires
        wf(g),
        own_ok(g),
        cur_ok(g),
        hist_ok(g),
        fleet_pos_ok(g),
        0 <= vi < g.vehicles.len(),
    ensures
        ({
            let g1 = GridView {
                vehicles: g.vehicles.update(vi, advanced(g.vehicles[vi])),
                ..g
            };
            wf(g1) && own_ok(g1) && cur_ok(g1) && hist_ok(g1) && fleet_pos_ok(g1)
        }),
{
    let g1 = GridView { vehicles: g.vehicles.update(vi, advanced(g.vehicles[vi])), ..g };
    assert forall|id: u64| hist_contains(g1, id) implies hist_contains(g, id) by {
        let (v, k) = choose|v: int, k: int|
            0 <= v < g1.vehicles.len() && 0 <= k < g1.vehicles[v].runs.len()
                && #[trigger] g1.vehicles[v].runs[k] == id;
        assert(g.vehicles[v].runs[k] == id);
    }
    assert forall|id: u64| hist_contains(g, id) implies hist_contains(g1, id) by {
        let (v, k) = choose|v: int, k: int|
            0 <= v < g.vehicles.len() && 0 <= k < g.vehicles[v].runs.len()
                && #[trigger] g.vehicles[v].runs[k] == id;
        assert(g1.vehicles[v].runs[k] == id);
    }
    assert(own_ok(g1)) by {
        assert(forall|i: int|
            0 <= i < g1.rides.len() ==> (#[trigger] g1.live[i] <==> !hist_contains(g1, i as u64)));
        assert(forall|v: int, k: int|
            0 <= v < g1.vehicles.len() && 0 <= k < g1.vehicles[v].runs.len()
                ==> #[trigger] g1.vehicles[v].runs[k] == g.vehicles[v].runs[k]);
    }
    assert(fleet_pos_ok(g1)) by {
        assert forall|v: int| 0 <= v < g1.vehicles.len() implies pos_ok(
            g1,
            (#[trigger] g1.vehicles[v]).pos,
        ) by {
            if v == vi {
                assert(g1.vehicles[v] == advanced(g.vehicles[vi]));
                match g.vehicles[vi].cur_ride {
                    Some(r) => {
                        if g.vehicles[vi].pos.t > 1 {
                            assert(pos_ok(g, g1.vehicles[v].pos));
                            lemma_pos_ok_same_rides(g, g1, g1.vehicles[v].pos);
                        } else {
                            assert(r == g.rides[r.index as int]);
                            let j = r.index as int;
                            assert(0 <= j < g1.rides.len());
                            assert(g1.rides[j].end.x == g1.vehicles[vi].pos.x);
                            assert(g1.rides[j].end.y == g1.vehicles[vi].pos.y);
                            assert(pos_ok(g1, g1.vehicles[v].pos));
                        }
                    },
                    None => {
                        lemma_pos_ok_same_rides(g, g1, g1.vehicles[v].pos);
                    },
                }
            } else {
                assert(g1.vehicles[v] == g.vehicles[v]);
                lemma_pos_ok_same_rides(g, g1, g1.vehicles[v].pos);
            }
        }
    }
}

/// Committing an unassigned ride preserves the pool invariants: its
/// identity leaves the mask as it enters exactly one history slot, and
/// it was feasible when committed.
pub proof fn lemma_commit_preserves(g: GridView, vi: int, i: int, t: u64, step: int)
    requires
        wf(g),
        own_ok(g),
        cur_ok(g),
        hist_ok(g),
        fleet_pos_ok(g),
        g.rides.len() <= u64::MAX,
        0 <= vi < g.vehicles.len(),
        0 <= i < g.rides.len(),
        g.live[i],
        0 <= step,
        feasible(g.vehicles[vi].pos, step, g.steps as int, g.rides[i]),
    ensures
        ({
            let g2 = spec_commit(g, vi, i, t);
            wf(g2) && own_ok(g2) && cur_ok(g2) && hist_ok(g2) && fleet_pos_ok(g2)
        }),
{
    let g2 = spec_commit(g, vi, i, t);
    let oldlen = g.vehicles[vi].runs.len() as int;
    assert(g2.vehicles[vi].runs == g.vehicles[vi].runs.push(i as u64));
    assert(g2.vehicles[vi].runs[oldlen] == i as u64);
    assert(hist_contains(g2, i as u64));
    crate::scoring::lemma_feasible_min_finish(g.vehicles[vi].pos, step, g.steps as int, g.rides[i]);

    // A history slot of the new state is either an old slot with its old
    // identity, or the single fresh slot holding `i`.
    assert forall|v: int, k: int|
        0 <= v < g2.vehicles.len() && 0 <= k < g2.vehicles[v].runs.len() implies (
    #[trigger] g2.vehicles[v].runs[k] == g.vehicles[v].runs[k] && 0 <= k < g.vehicles[v].runs.len())
        || (v == vi && k == oldlen && g2.vehicles[v].runs[k] == i as u64) by {
        if v == vi {
            if k < oldlen {
                assert(g2.vehicles[v].runs[k] == g.vehicles[v].runs[k]);
            }
        }
    }
    assert forall|id: u64| hist_contains(g2, id) && id != i as u64 implies hist_contains(
        g,
        id,
    ) by {
        let (v, k) = choose|v: int, k: int|
            0 <= v < g2.vehicles.len() && 0 <= k < g2.vehicles[v].runs.len()
                && #[trigger] g2.vehicles[v].runs[k] == id;
        assert(g.vehicles[v].runs[k] == id);
    }
    assert forall|id: u64| hist_contains(g, id) implies hist_contains(g2, id) by {
        let (v, k) = choose|v: int, k: int|
            0 <= v < g.vehicles.len() && 0 <= k < g.vehicles[v].runs.len()
                && #[trigger] g.vehicles[v].runs[k] == id;
        assert(g2.vehicles[v].runs[k] == id);
    }
    assert(own_ok(g2)) by {
        assert forall|m: int| 0 <= m < g2.rides.len() implies (#[trigger] g2.live[m]
            <==> !hist_contains(g2, m as u64)) by {
            if m == i {
            } else {
                assert(m as u64 != i as u64);
                assert(g2.live[m] == g.live[m]);
            }
        }
        assert forall|v1: int, k1: int, v2: int, k2: int|
            0 <= v1 < g2.vehicles.len() && 0 <= k1 < g2.vehicles[v1].runs.len() && 0 <= v2
                < g2.vehicles.len() && 0 <= k2 < g2.vehicles[v2].runs.len()
                && #[trigger] g2.vehicles[v1].runs[k1] == #[trigger] g2.vehicles[v2].runs[k2]
            implies v1 == v2 && k1 == k2 by {
            let fresh1 = v1 == vi && k1 == oldlen;
            let fresh2 = v2 == vi && k2 == oldlen;
            if fresh1 && fresh2 {
            } else if fresh1 {
                // An old slot carrying `i` would contradict `i` being live.
                assert(g.vehicles[v2].runs[k2] == i as u64);
                assert(hist_contains(g, i as u64));
            } else if fresh2 {
                assert(g.vehicles[v1].runs[k1] == i as u64);
                assert(hist_contains(g, i as u64));
            } else {
                assert(g.vehicles[v1].runs[k1] == g.vehicles[v2].runs[k2]);
            }
        }
    }
    assert(hist_ok(g2)) by {
        assert forall|v: int, k: int|
            0 <= v < g2.vehicles.len() && 0 <= k < g2.vehicles[v].runs.len() implies min_finish(
            g2.rides[#[trigger] g2.vehicles[v].runs[k] as int],
        ) <= g2.rides[g2.vehicles[v].runs[k] as int].end.t && min_finish(
            g2.rides[g2.vehicles[v].runs[k] as int],
        ) <= g2.steps by {
            if v == vi && k == oldlen {
                assert(g2.vehicles[v].runs[k] == i as u64);
            } else {
                assert(g2.vehicles[v].runs[k] == g.vehicles[v].runs[k]);
            }
        }
    }
    assert(fleet_pos_ok(g2)) by {
        assert forall|v: int| 0 <= v < g2.vehicles.len() implies pos_ok(
            g2,
            (#[trigger] g2.vehicles[v]).pos,
        ) by {
            if v == vi {
                assert(g2.vehicles[v].pos.x == g.vehicles[v].pos.x);
                assert(g2.vehicles[v].pos.y == g.vehicles[v].pos.y);
            }
        }
    }
}

/// A load-time failure: the offending line's ordinal and its content.
/// Lines are rejected, never silently defaulted.
#[derive(Debug)]
pub struct LoadError {
    pub line: u64,
    pub content: String,
}

/// The ride described by the six fields of an input line, under
/// identity `id`: pickup `(a, b)` opening at `s`, dropoff `(x, y)` with
/// deadline `f`.
pub open spec fn ride_of(vals: Seq<u64>, id: u64) -> Ride {
    Ride {
        index: id,
        start: Intersection { x: vals[0], y: vals[1], t: vals[4] },
        end: Intersection { x: vals[2], y: vals[3], t: vals[5] },
    }
}

/// The per-vehicle ride-identity sequences, in creation order.
pub open spec fn histories(g: GridView) -> Seq<Seq<u64>> {
    g.vehicles.map_values(|v: VehicleView| v.runs)
}

/// The identities standing in some vehicle's history.
pub open spec fn hist_ids(g: GridView) -> Set<u64> {
    Set::new(|id: u64| hist_contains(g, id))
}

/// The identities of the rides still unassigned in the pool.
pub open spec fn pool_ids(g: GridView) -> Set<u64> {
    Set::new(|id: u64| id < g.rides.len() && g.live[id as int])
}

/// The identities of every ride ever loaded.
pub open spec fn all_ids(g: GridView) -> Set<u64> {
    Set::new(|id: u64| id < g.rides.len())
}

/// Pool ownership, as a set equation: the unassigned rides and the
/// rides in vehicle histories together are exactly the loaded ride set,
/// and no ride is in both.  [`Grid::run`] keeps `own_ok`, so this holds
/// of every state the engine produces.
pub proof fn lemma_pool_partition(g: GridView)
    requires
        wf(g),
        own_ok(g),
    ensures
        pool_ids(g).union(hist_ids(g)) == all_ids(g),
        pool_ids(g).disjoint(hist_ids(g)),
{
    assert forall|id: u64| hist_contains(g, id) implies id < g.rides.len() by {
        let (v, k) = choose|v: int, k: int|
            0 <= v < g.vehicles.len() && 0 <= k < g.vehicles[v].runs.len()
                && #[trigger] g.vehicles[v].runs[k] == id;
    }
    assert(pool_ids(g).union(hist_ids(g)) =~= all_ids(g));
    assert forall|id: u64| pool_ids(g).contains(id) implies !hist_ids(g).contains(id) by {
        assert(g.live[id as int]);
    }
}

/// Round trip: serialising the engine's result and re-parsing the
/// vehicle history lines reproduces the same ordered ride-identity
/// sequences per vehicle.
pub proof fn lemma_result_round_trip(g: GridView)
    requires
        g.vehicles.len() >= 1,
        forall|v: int| 0 <= v < g.vehicles.len() ==> (#[trigger] g.vehicles[v]).runs.len()
            <= u64::MAX,
    ensures
        crate::codec::parse_result_from(crate::codec::result_rep(histories(g)), 0) == Some(
            histories(g),
        ),
{
    assert forall|m: int| 0 <= m < histories(g).len() implies (#[trigger] histories(g)[m]).len()
        <= u64::MAX by {
        assert(histories(g)[m] == g.vehicles[m].runs);
    }
    crate::codec::lemma_result_round_trip(histories(g));
}

impl Grid {
    /// A fresh engine: `vehicles` free vehicles at the origin, an empty
    /// pool with room for `rides` rides, and the earliest-finish policy.
    pub fn new(rows: u64, cols: u64, vehicles: usize, rides: usize, bonus: u64, steps: u64) -> (g:
        Grid)
        ensures
            g@.rows == rows,
            g@.cols == cols,
            g@.bonus == bonus,
            g@.steps == steps,
            g@.strategy == Strategy::EarliestFinish,
            g@.rides == Seq::<Ride>::empty(),
            g@.live == Seq::<bool>::empty(),
            g@.vehicles.len() == vehicles,
            forall|v: int|
                0 <= v < vehicles ==> #[trigger] g@.vehicles[v] == (VehicleView {
                    index: v as u64,
                    runs: Seq::<u64>::empty(),
                    pos: Intersection { x: 0, y: 0, t: 0 },
                    cur_ride: None,
                }),
            inv(g@, 0),
    {
        let mut fleet: Vec<Vehicle> = Vec::with_capacity(vehicles);
        let mut i: usize = 0;
        while i < vehicles
            invariant
                i <= vehicles,
                fleet@.len() == i,
                forall|k: int|
                    0 <= k < i ==> #[trigger] fleet@[k]@ == (VehicleView {
                        index: k as u64,
                        runs: Seq::<u64>::empty(),
                        pos: Intersection { x: 0, y: 0, t: 0 },
                        cur_ride: None,
                    }),
            decreases vehicles - i,
        {
            fleet.push(Vehicle::new(i as u64));
            i += 1;
        }
        let g = Grid {
            rows,
            cols,
            vehicles: fleet,
            rides: Vec::with_capacity(rides),
            live: Vec::new(),
            bonus,
            steps,
            strategy: Strategy::EarliestFinish,
        };
        proof {
            assert(forall|v: int|
                0 <= v < vehicles ==> #[trigger] g@.vehicles[v] == g.vehicles@[v]@);
            assert forall|v: int| 0 <= v < g@.vehicles.len() implies pos_ok(
                g@,
                (#[trigger] g@.vehicles[v]).pos,
            ) by {
                assert(g@.vehicles[v].pos.x == 0);
            }
        }
        g
    }

    /// Replaces the active assignment policy.
    pub fn set_strategy(&mut self, s: Strategy)
        ensures
            final (self)@ == (GridView { strategy: s, ..old(self)@ }),
    {
        self.strategy = s;
        proof {
            assert(self@ =~~= (GridView { strategy: s, ..old(self)@ }));
        }
    }

    /// Loads one ride line into the pool under the next identity `r`:
    /// six space-separated fields `a b x y s f`, meaning pickup `(a, b)`
    /// whose window opens at step `s` and dropoff `(x, y)` with deadline
    /// `f`.  A line that is not of that shape is rejected with the line
    /// ordinal and its content, and the engine is unchanged.
    pub fn add_ride(&mut self, r: usize, s: String) -> (res: Result<u64, LoadError>)
        requires
            r == old(self)@.rides.len(),
        ensures
            ({
                let bs = vstd::utf8::encode_utf8(s@);
                match crate::codec::spec_parse_row(bs) {
                    Some(vals) => res matches Ok(id) && id == r as u64 && final (self)@
                        == (GridView {
                        rides: old(self)@.rides.push(ride_of(vals, r as u64)),
                        live: old(self)@.live.push(true),
                        ..old(self)@
                    }),
                    None => res matches Err(e) && e.line == r as u64 && e.content@ == s@ && final (
                    self)@ == old(self)@,
                }
            }),
            inv(old(self)@, 0) ==> inv(final (self)@, 0),
    {
        let bytes = s.as_str().as_bytes_vec();
        let parsed = crate::codec::parse_row(&bytes);
        match parsed {
            Some((a, b, x, y, t0, t1)) => {
                let ghost g = self@;
                let ride = Ride::new(r as u64, a, b, x, y, t0, t1);
                self.rides.push(ride);
                self.live.push(true);
                proof {
                    let vals = crate::codec::spec_parse_row(vstd::utf8::encode_utf8(s@)).unwrap();
                    assert(ride == ride_of(vals, r as u64));
                    assert(self@ =~~= (GridView {
                        rides: g.rides.push(ride_of(vals, r as u64)),
                        live: g.live.push(true),
                        ..g
                    }));
                    if inv(g, 0) {
                        let g2 = self@;
                        let n = g.rides.len() as int;
                        assert forall|id: u64| hist_contains(g2, id) implies hist_contains(
                            g,
                            id,
                        ) by {
                            let (v, k) = choose|v: int, k: int|
                                0 <= v < g2.vehicles.len() && 0 <= k < g2.vehicles[v].runs.len()
                                    && #[trigger] g2.vehicles[v].runs[k] == id;
                            assert(g.vehicles[v].runs[k] == id);
                        }
                        assert forall|id: u64| hist_contains(g, id) implies hist_contains(
                            g2,
                            id,
                        ) by {
                            let (v, k) = choose|v: int, k: int|
                                0 <= v < g.vehicles.len() && 0 <= k < g.vehicles[v].runs.len()
                                    && #[trigger] g.vehicles[v].runs[k] == id;
                            assert(g2.vehicles[v].runs[k] == id);
                        }
                        assert(own_ok(g2)) by {
                            assert forall|m: int| 0 <= m < g2.rides.len() implies (
                            #[trigger] g2.live[m] <==> !hist_contains(g2, m as u64)) by {
                                if m < n {
                                    assert(g2.live[m] == g.live[m]);
                                } else {
                                    assert(g2.live[m]);
                                    if hist_contains(g2, m as u64) {
                                        let (v, k) = choose|v: int, k: int|
                                            0 <= v < g.vehicles.len() && 0 <= k
                                                < g.vehicles[v].runs.len()
                                                && #[trigger] g.vehicles[v].runs[k] == m as u64;
                                        assert(g.vehicles[v].runs[k] < n);
                                    }
                                }
                            }
                        }
                        assert(fleet_pos_ok(g2)) by {
                            assert forall|v: int| 0 <= v < g2.vehicles.len() implies pos_ok(
                                g2,
                                (#[trigger] g2.vehicles[v]).pos,
                            ) by {
                                let p = g.vehicles[v].pos;
                                assert(pos_ok(g, p));
                                if !(p.x == 0 && p.y == 0) {
                                    let j = choose|j: int|
                                        0 <= j < g.rides.len() && (#[trigger] g.rides[j]).end.x
                                            == p.x && g.rides[j].end.y == p.y;
                                    assert(g2.rides[j].end.x == p.x && g2.rides[j].end.y == p.y);
                                }
                            }
                        }
                        assert(hist_ok(g2)) by {
                            assert forall|v: int, k: int|
                                0 <= v < g2.vehicles.len() && 0 <= k
                                    < g2.vehicles[v].runs.len() implies min_finish(
                                g2.rides[#[trigger] g2.vehicles[v].runs[k] as int],
                            ) <= g2.rides[g2.vehicles[v].runs[k] as int].end.t && min_finish(
                                g2.rides[g2.vehicles[v].runs[k] as int],
                            ) <= g2.steps by {
                                assert(g.vehicles[v].runs[k] < n);
                                assert(g2.rides[g2.vehicles[v].runs[k] as int]
                                    == g.rides[g.vehicles[v].runs[k] as int]);
                            }
                        }
                    }
                }
                Ok(r as u64)
            },
            None => Err(LoadError { line: r as u64, content: s }),
        }
    }

    /// Builds an engine from the input header line: six space-separated
    /// fields `rows cols vehicleCount rideCount bonus steps`.  A line
    /// that is not of that shape — or whose counts exceed the machine's
    /// address range — is rejected with the content, as line 0.
    pub fn from_header(s: &str) -> (res: Result<Grid, LoadError>)
        ensures
            ({
                let bs = vstd::utf8::encode_utf8(s@);
                match crate::codec::spec_parse_row(bs) {
                    Some(vals) => {
                        if vals[2] <= usize::MAX && vals[3] <= usize::MAX {
                            res matches Ok(g) && g@.rows == vals[0] && g@.cols == vals[1]
                                && g@.vehicles.len() == vals[2] && g@.bonus == vals[4] && g@.steps
                                == vals[5] && g@.strategy == Strategy::EarliestFinish && g@.rides
                                == Seq::<Ride>::empty() && g@.live == Seq::<bool>::empty() && inv(
                                g@,
                                0,
                            ) && (forall|v: int|
                                0 <= v < g@.vehicles.len() ==> (#[trigger] g@.vehicles[v]).runs
                                    == Seq::<u64>::empty())
                        } else {
                            res matches Err(e) && e.line == 0 && e.content@ == s@
                        }
                    },
                    None => res matches Err(e) && e.line == 0 && e.content@ == s@,
                }
            }),
    {
        let bytes = s.as_bytes_vec();
        let parsed = crate::codec::parse_row(&bytes);
        match parsed {
            Some((rows, cols, vcount, rcount, bonus, steps)) => {
                if vcount <= usize::MAX as u64 && rcount <= usize::MAX as u64 {
                    Ok(Grid::new(rows, cols, vcount as usize, rcount as usize, bonus, steps))
                } else {
                    Err(LoadError { line: 0, content: s.to_owned() })
                }
            },
            None => Err(LoadError { line: 0, content: s.to_owned() }),
        }
    }

    /// The engine's result as plain values: the per-vehicle ride-identity
    /// sequences, in creation order.
    pub fn result_sequences(&self) -> (out: Vec<Vec<u64>>)
        ensures
            crate::codec::hist_views(out@) == histories(self@),
    {
        let mut out: Vec<Vec<u64>> = Vec::new();
        let mut v: usize = 0;
        proof {
            assert(crate::codec::hist_views(out@) =~= histories(self@).take(0));
        }
        while v < self.vehicles.len()
            invariant
                v <= self@.vehicles.len(),
                crate::codec::hist_views(out@) == histories(self@).take(v as int),
            decreases self@.vehicles.len() - v,
        {
            let mut h: Vec<u64> = Vec::new();
            let mut k: usize = 0;
            while k < self.vehicles[v].runs.len()
                invariant
                    v < self@.vehicles.len(),
                    k <= self@.vehicles[v as int].runs.len(),
                    h@ == self@.vehicles[v as int].runs.take(k as int),
                decreases self@.vehicles[v as int].runs.len() - k,
            {
                h.push(self.vehicles[v].runs[k]);
                proof {
                    assert(self@.vehicles[v as int] == self.vehicles@[v as int]@);
                    assert(h@ =~= self@.vehicles[v as int].runs.take(k as int + 1));
                }
                k += 1;
            }
            let ghost prev = out@;
            out.push(h);
            proof {
                assert(self@.vehicles[v as int] == self.vehicles@[v as int]@);
                assert(h@ =~= self@.vehicles[v as int].runs);
                assert(histories(self@)[v as int] == self@.vehicles[v as int].runs);
                assert(histories(self@).take(v as int + 1) =~= histories(self@).take(
                    v as int,
                ).push(histories(self@)[v as int]));
                assert(crate::codec::hist_views(out@) =~= crate::codec::hist_views(prev).push(h@));
            }
            v += 1;
        }
        proof {
            assert(histories(self@).take(self@.vehicles.len() as int) =~= histories(self@));
        }
        out
    }

    /// Writes the result: one line per vehicle in creation order, its
    /// ride count followed by its committed ride identities in commit
    /// order, lines joined by newlines.
    pub fn result_text(&self) -> (out: Vec<u8>)
        requires
            self@.vehicles.len() >= 1,
        ensures
            out@ == crate::codec::result_rep(histories(self@)),
    {
        let mut out = crate::codec::serialize_history(&self.vehicles[0].runs);
        proof {
            assert(self@.vehicles[0] == self.vehicles@[0]@);
            assert(histories(self@)[0] == self@.vehicles[0].runs);
            assert(histories(self@).take(1) =~= seq![histories(self@)[0]]);
            assert(out@ == crate::codec::result_rep(histories(self@).take(1)));
        }
        let mut k: usize = 1;
        while k < self.vehicles.len()
            invariant
                1 <= k <= self@.vehicles.len(),
                out@ == crate::codec::result_rep(histories(self@).take(k as int)),
            decreases self@.vehicles.len() - k,
        {
            out.push(10u8);
            let mut line = crate::codec::serialize_history(&self.vehicles[k].runs);
            out.append(&mut line);
            proof {
                assert(self@.vehicles[k as int] == self.vehicles@[k as int]@);
                assert(histories(self@)[k as int] == self@.vehicles[k as int].runs);
                crate::codec::lemma_result_rep_push(
                    histories(self@).take(k as int),
                    histories(self@)[k as int],
                );
                assert(histories(self@).take(k as int + 1) =~= histories(self@).take(
                    k as int,
                ).push(histories(self@)[k as int]));
                assert(out@ =~= crate::codec::result_rep(histories(self@).take(k as int + 1)));
            }
            k += 1;
        }
        proof {
            assert(histories(self@).take(self@.vehicles.len() as int) =~= histories(self@));
        }
        out
    }

    /// Checks, before a run, that every loaded value is small enough
    /// that no sum of the step loop can overflow: a `true` answer
    /// establishes the arithmetic side of [`Grid::run`]'s contract.
    /// Inputs beyond [`SAFE_BOUND`] are declined wholesale rather than
    /// risked.
    pub fn fits_for_run(&self) -> (ok: bool)
        ensures
            ok == ({
                &&& self@.steps <= SAFE_BOUND
                &&& self@.bonus <= SAFE_BOUND
                &&& forall|m: int|
                    0 <= m < self@.rides.len() ==> ride_bounded(
                        #[trigger] self@.rides[m],
                        SAFE_BOUND as int,
                    )
                &&& match self@.strategy {
                    Strategy::Lookahead { depth } => 1 <= depth <= SAFE_BOUND,
                    _ => true,
                }
            }),
            ok ==> grid_fits(self@),
    {
        if self.steps > SAFE_BOUND || self.bonus > SAFE_BOUND {
            return false;
        }
        match self.strategy {
            Strategy::Lookahead { depth } => {
                if depth < 1 || depth > SAFE_BOUND {
                    return false;
                }
            },
            _ => {},
        }
        let mut i: usize = 0;
        while i < self.rides.len()
            invariant
                i <= self@.rides.len(),
                forall|m: int|
                    0 <= m < i ==> ride_bounded(#[trigger] self@.rides[m], SAFE_BOUND as int),
            decreases self@.rides.len() - i,
        {
            let r = self.rides[i];
            if r.start.x > SAFE_BOUND || r.start.y > SAFE_BOUND || r.start.t > SAFE_BOUND
                || r.end.x > SAFE_BOUND || r.end.y > SAFE_BOUND || r.end.t > SAFE_BOUND {
                return false;
            }
            i += 1;
        }
        proof {
            lemma_bounded_grid_fits(self@);
        }
        true
    }

    /// Drives the whole simulation: for each of the `steps` steps, each
    /// vehicle in creation order ticks; a vehicle that is free within the
    /// step is offered to the active policy against the live pool, and a
    /// returned ride is atomically removed from the pool and bound to it.
    ///
    /// On return the state is exactly the fold of the per-vehicle step
    /// rule, the arena is unchanged, and pool ownership still holds:
    /// every loaded ride is either still unassigned or stands in exactly
    /// one vehicle's history — and a ride whose deadline cannot be met at
    /// all stands in none.
    pub fn run(&mut self)
        requires
            inv(old(self)@, 0),
            grid_fits(old(self)@),
        ensures
            final (self)@ == spec_run(old(self)@),
            final (self)@.rides == old(self)@.rides,
            final (self)@.vehicles.len() == old(self)@.vehicles.len(),
            wf(final (self)@),
            own_ok(final (self)@),
            cur_ok(final (self)@),
            hist_ok(final (self)@),
            forall|i: int|
                0 <= i < final (self)@.rides.len() && min_finish(#[trigger] final (self)@.rides[i])
                    > final (self)@.rides[i].end.t ==> final (self)@.live[i] && !hist_contains(
                    final (self)@,
                    i as u64,
                ),
    {
        let ghost g0 = self@;
        // Pins the arena length within the machine word, which the
        // ownership proofs need for identity casts.
        let n_rides = self.rides.len();
        proof {
            assert(g0.rides.len() == n_rides as int);
        }
        let max_step = self.steps;
        let mut step: u64 = 0;
        while step < max_step
            invariant
                step <= max_step,
                self@ == spec_run_upto(g0, step as nat),
                self@.rides == g0.rides,
                self@.live.len() == g0.rides.len(),
                self@.bonus == g0.bonus,
                self@.steps == g0.steps,
                self@.strategy == g0.strategy,
                self@.vehicles.len() == g0.vehicles.len(),
                max_step == g0.steps,
                inv(self@, step as int),
                grid_fits(self@),
                g0.rides.len() <= u64::MAX,
            decreases max_step - step,
        {
            let ghost gs = self@;
            let mut v: usize = 0;
            while v < self.vehicles.len()
                invariant
                    v <= self@.vehicles.len(),
                    self@ == spec_step_upto(gs, step as int, v as nat),
                    self@.rides == g0.rides,
                    self@.live.len() == g0.rides.len(),
                    self@.bonus == g0.bonus,
                    self@.steps == g0.steps,
                    self@.strategy == g0.strategy,
                    self@.vehicles.len() == g0.vehicles.len(),
                    max_step == g0.steps,
                    step < g0.steps,
                    wf(self@),
                    own_ok(self@),
                    cur_ok(self@),
                    hist_ok(self@),
                    fleet_pos_ok(self@),
                    grid_fits(self@),
                    forall|u: int|
                        0 <= u < v ==> vt_strong(
                            #[trigger] self@.vehicles[u],
                            step as int,
                            g0.steps as int,
                        ),
                    forall|u: int|
                        v <= u < self@.vehicles.len() ==> vt_weak(
                            #[trigger] self@.vehicles[u],
                            step as int,
                            g0.steps as int,
                        ),
                    g0.rides.len() <= u64::MAX,
                decreases self@.vehicles.len() - v,
            {
                let ghost gpre = self@;
                let ghost oldvs = self.vehicles@;
                let free = self.vehicles[v].is_free();
                proof {
                    assert(views(oldvs)[v as int] == oldvs[v as int]@);
                    crate::vehicle::lemma_views_update(oldvs, v as int, self.vehicles@[v as int]);
                    assert(self@ =~~= (GridView {
                        vehicles: gpre.vehicles.update(
                            v as int,
                            advanced(gpre.vehicles[v as int]),
                        ),
                        ..gpre
                    }));
                    lemma_advance_preserves(gpre, v as int);
                }
                let ghost g1 = self@;
                if free {
                    let pos = self.vehicles[v].pos;
                    proof {
                        assert(self@.vehicles[v as int] == self.vehicles@[v as int]@);
                        assert(pos == g1.vehicles[v as int].pos);
                        assert(pos_ok(g1, pos));
                        lemma_pool_fits_at(g1, pos, step as int);
                        assert forall|u: int| 0 <= u < g1.vehicles.len() implies vt_weak(
                            #[trigger] g1.vehicles[u],
                            step as int,
                            g0.steps as int,
                        ) by {
                            if u < v {
                                assert(vt_strong(g1.vehicles[u], step as int, g0.steps as int));
                            } else if u == v {
                            }
                        }
                        lemma_fleet_fits(g1, step as int);
                    }
                    let sel = match self.strategy {
                        Strategy::EarliestFinish => strategy::select_earliest_finish(
                            &self.rides,
                            &self.live,
                            pos,
                            step,
                            max_step,
                            self.bonus,
                        ),
                        Strategy::WaitAware => strategy::select_wait_aware(
                            &self.rides,
                            &self.live,
                            &self.vehicles,
                            v,
                            step,
                            max_step,
                            self.bonus,
                        ),
                        Strategy::Lookahead { depth } => strategy::select_lookahead(
                            &self.rides,
                            &mut self.live,
                            pos,
                            step,
                            max_step,
                            self.bonus,
                            depth,
                        ),
                    };
                    proof {
                        assert(self@ == g1);
                        match sel {
                            Some((i, t)) => {
                                assert(spec_select(g1, v as int, step as int) == Some(
                                    (i as int, t as int),
                                ));
                            },
                            None => {
                                assert(spec_select(g1, v as int, step as int) is None);
                            },
                        }
                    }
                    match sel {
                        Some((i, t)) => {
                            proof {
                                let r = g1.rides[i as int];
                                assert(g1.live[i as int]);
                                assert(feasible(pos, step as int, g0.steps as int, r));
                                // The committed busy time never outlives the
                                // horizon: it is at most the full finish time.
                                assert(dist(pos, r.start) <= crate::scoring::pickup_leg(
                                    pos,
                                    step as int,
                                    r,
                                ));
                                assert(t <= travel_time(pos, step as int, r));
                                assert(step + t <= g0.steps);
                                lemma_commit_preserves(g1, v as int, i as int, t, step as int);
                            }
                            let r = self.rides[i];
                            let ghost midvs = self.vehicles@;
                            self.live[i] = false;
                            self.vehicles[v].set_ride(t, r);
                            proof {
                                assert(views(midvs)[v as int] == midvs[v as int]@);
                                crate::vehicle::lemma_views_update(
                                    midvs,
                                    v as int,
                                    self.vehicles@[v as int],
                                );
                                assert(self@ =~~= spec_commit(g1, v as int, i as int, t));
                            }
                        },
                        None => {},
                    }
                }
                proof {
                    assert(spec_step_upto(gs, step as int, (v + 1) as nat) == spec_step_vehicle(
                        gpre,
                        v as int,
                        step as int,
                    ));
                    assert(self@ == spec_step_vehicle(gpre, v as int, step as int));
                    assert forall|u: int| 0 <= u < v + 1 implies vt_strong(
                        #[trigger] self@.vehicles[u],
                        step as int,
                        g0.steps as int,
                    ) by {
                        if u < v {
                            assert(self@.vehicles[u] == gpre.vehicles[u]);
                            assert(vt_strong(gpre.vehicles[u], step as int, g0.steps as int));
                        } else {
                            assert(vt_weak(gpre.vehicles[v as int], step as int, g0.steps as int));
                        }
                    }
                }
                v += 1;
            }
            proof {
                assert(v as int == gs.vehicles.len());
                assert(self@ == spec_run_upto(g0, (step + 1) as nat));
                assert forall|u: int| 0 <= u < self@.vehicles.len() implies vt_weak(
                    #[trigger] self@.vehicles[u],
                    (step + 1) as int,
                    g0.steps as int,
                ) by {
                    assert(vt_strong(self@.vehicles[u], step as int, g0.steps as int));
                }
            }
            step += 1;
        }
        proof {
            assert(self@ == spec_run(g0));
            assert forall|i: int|
                0 <= i < self@.rides.len() && min_finish(#[trigger] self@.rides[i])
                    > self@.rides[i].end.t implies self@.live[i] && !hist_contains(
                self@,
                i as u64,
            ) by {
                if hist_contains(self@, i as u64) {
                    let (vv, kk) = choose|vv: int, kk: int|
                        0 <= vv < self@.vehicles.len() && 0 <= kk < self@.vehicles[vv].runs.len()
                            && #[trigger] self@.vehicles[vv].runs[kk] == i as u64;
                    assert(min_finish(self@.rides[self@.vehicles[vv].runs[kk] as int])
                        <= self@.rides[self@.vehicles[vv].runs[kk] as int].end.t);
                }
            }
        }
    }
}

} // verus!
