use ride_dispatch::engine::Grid;
use ride_dispatch::geometry::Intersection;
use ride_dispatch::ride::Ride;
use ride_dispatch::strategy::Strategy;
use ride_dispatch::strategy::{select_earliest_finish, select_wait_aware};
use ride_dispatch::vehicle::Vehicle;

fn loaded(header: &str, lines: &[&str]) -> Grid {
    let mut g = Grid::from_header(header).unwrap();
    for (i, l) in lines.iter().enumerate() {
        g.add_ride(i, (*l).to_string()).unwrap();
    }
    g
}

#[test]
fn earliest_finish_pairs_vehicles_with_rides() {
    // Two vehicles at the origin, two rides from the origin: the first
    // vehicle takes the shorter ride (finish offset 3 < 5), the second
    // the longer one, both committed on step 0.
    let mut g = loaded("3 4 2 2 0 10", &["0 0 0 3 0 3", "0 0 0 5 0 5"]);
    assert!(g.fits_for_run());
    g.run();
    assert_eq!(g.vehicles[0].runs, vec![0]);
    assert_eq!(g.vehicles[1].runs, vec![1]);
    assert_eq!(g.live, vec![false, false]);
    // Committed on step 0 and of lengths 3 and 5, both are done within
    // 10 steps.
    assert!(g.vehicles[0].cur_ride.is_none());
    assert!(g.vehicles[1].cur_ride.is_none());
}

#[test]
fn waiting_ride_is_still_committed() {
    // The single feasible ride requires waiting at the pickup; the
    // vehicle takes it and finishes at its dropoff.
    let mut g = loaded("10 10 1 1 2 10", &["5 0 5 0 10 10"]);
    assert!(g.fits_for_run());
    g.run();
    assert_eq!(g.vehicles[0].runs, vec![0]);
    assert!(g.vehicles[0].cur_ride.is_none());
    assert_eq!((g.vehicles[0].pos.x, g.vehicles[0].pos.y), (5, 0));
}

#[test]
fn impossible_deadline_never_assigned() {
    // Ride 0's deadline (3) is below its minimum achievable finish step
    // (window 0 + length 5): it must appear in no history, ever.
    let mut g = loaded("5 5 3 2 1 40", &["0 0 0 5 0 3", "1 1 1 4 0 40"]);
    assert!(g.fits_for_run());
    g.run();
    for v in &g.vehicles {
        assert!(!v.runs.contains(&0));
    }
    assert!(g.live[0]);
    assert!(!g.live[1]);
}

#[test]
fn pool_ownership_is_partitioned() {
    // After a run, every loaded ride is either still in the pool or in
    // exactly one vehicle's history.
    let mut g = loaded(
        "20 20 2 4 3 30",
        &["0 0 0 2 0 30", "0 2 0 4 3 30", "5 5 5 9 0 30", "19 19 19 19 0 1"],
    );
    assert!(g.fits_for_run());
    g.run();
    let mut seen = vec![false; 4];
    for v in &g.vehicles {
        for id in &v.runs {
            assert!(!seen[*id as usize], "ride {} assigned twice", id);
            seen[*id as usize] = true;
        }
    }
    for i in 0..4 {
        assert!(seen[i] != g.live[i], "ride {} lost or duplicated", i);
    }
}

#[test]
fn lookahead_prefers_points_over_finish() {
    let rides = ["0 0 0 1 0 20", "0 0 0 9 0 20"];
    let mut a = loaded("10 10 1 2 0 20", &rides);
    assert!(a.fits_for_run());
    a.run();
    // Earliest finish first: the short ride, then the long one.
    assert_eq!(a.vehicles[0].runs, vec![0, 1]);

    let mut c = loaded("10 10 1 2 0 20", &rides);
    c.set_strategy(Strategy::Lookahead { depth: 1 });
    assert!(c.fits_for_run());
    c.run();
    // Most points first: the long ride, then the short one.
    assert_eq!(c.vehicles[0].runs, vec![1, 0]);
}

#[test]
fn lookahead_depth_two_plans_a_chain() {
    // A short opener unlocks a lucrative follow-up at its dropoff; the
    // chain (2 + 6 points in 8 steps) beats the same rides in reverse
    // order (8 points in 18 steps), so depth 2 commits the opener first,
    // while depth 1 grabs the lucrative ride directly.
    let rides = ["0 0 0 2 0 40", "0 2 0 8 2 40"];
    let mut two = loaded("10 10 1 2 0 40", &rides);
    two.set_strategy(Strategy::Lookahead { depth: 2 });
    assert!(two.fits_for_run());
    two.run();
    assert_eq!(two.vehicles[0].runs, vec![0, 1]);

    let mut one = loaded("10 10 1 2 0 40", &rides);
    one.set_strategy(Strategy::Lookahead { depth: 1 });
    assert!(one.fits_for_run());
    one.run();
    assert_eq!(one.vehicles[0].runs, vec![1, 0]);
}

#[test]
fn wait_aware_declines_for_a_closer_vehicle() {
    // Vehicle 1 would wait 80 steps at the pickup of ride 1, and the
    // busy vehicle 0 is projected to arrive there in 3 steps against
    // vehicle 1's 10: vehicle 1 declines and stays idle.
    let rides = vec![Ride::new(0, 0, 0, 10, 0, 0, 100), Ride::new(1, 10, 0, 10, 1, 90, 100)];
    let live = vec![false, true];
    let v0 = Vehicle {
        index: 0,
        runs: vec![0],
        pos: Intersection::new(0, 0, 3),
        cur_ride: Some(rides[0]),
    };
    let v1 = Vehicle::new(1);
    let vehicles = vec![v0, v1];
    assert_eq!(select_wait_aware(&rides, &live, &vehicles, 1, 0, 100, 0), None);
    // The earliest-finish policy alone would take it.
    assert_eq!(select_earliest_finish(&rides, &live, vehicles[1].pos, 0, 100, 0), Some((1, 11)));
}

#[test]
fn wait_aware_accepts_on_a_tie() {
    // The other vehicle projects the same arrival step, not a strictly
    // earlier one: the ride is taken, committed for the full finish
    // offset, wait included.
    let rides = vec![Ride::new(0, 10, 0, 10, 1, 90, 100)];
    let live = vec![true];
    let vehicles = vec![Vehicle::new(0), Vehicle::new(1)];
    assert_eq!(select_wait_aware(&rides, &live, &vehicles, 1, 0, 100, 0), Some((0, 91)));
}

#[test]
fn wait_aware_without_waiting_ignores_competitors() {
    // No wait at the pickup: always acceptable, whoever else is near.
    let rides = vec![Ride::new(0, 1, 0, 1, 5, 0, 100)];
    let live = vec![true];
    let near = Vehicle { index: 0, runs: vec![], pos: Intersection::new(1, 0, 0), cur_ride: None };
    let vehicles = vec![near, Vehicle::new(1)];
    assert_eq!(select_wait_aware(&rides, &live, &vehicles, 1, 0, 100, 0), Some((0, 6)));
}

#[test]
fn wait_aware_commits_with_wait_included() {
    // The wait-aware policy books the vehicle for the full finish
    // offset of 10 (5 travel + 5 wait), so after 9 ticks it is still
    // busy for one more step — where the earliest-finish policy, which
    // books travel only, would long be free.
    let mut g = loaded("10 10 1 1 2 10", &["5 0 5 0 10 10"]);
    g.set_strategy(Strategy::WaitAware);
    assert!(g.fits_for_run());
    g.run();
    assert_eq!(g.vehicles[0].runs, vec![0]);
    assert!(g.vehicles[0].cur_ride.is_some());
    assert_eq!(g.vehicles[0].pos.t, 1);
}

#[test]
fn lookahead_needs_a_positive_depth() {
    let mut g = loaded("10 10 1 1 0 10", &["0 0 0 3 0 10"]);
    g.set_strategy(Strategy::Lookahead { depth: 0 });
    assert!(!g.fits_for_run());
    g.set_strategy(Strategy::Lookahead { depth: 2 });
    assert!(g.fits_for_run());
}

#[test]
fn header_builds_the_engine() {
    let g = Grid::from_header("3 4 8 10 2 6").unwrap();
    assert_eq!(g.rows, 3);
    assert_eq!(g.cols, 4);
    assert_eq!(g.vehicles.len(), 8);
    assert_eq!(g.bonus, 2);
    assert_eq!(g.steps, 6);
    assert_eq!(g.vehicles[5].index, 5);
    assert!(g.rides.is_empty());
}

#[test]
fn malformed_lines_are_rejected() {
    let mut g = Grid::from_header("3 4 1 1 0 10").unwrap();
    let e = g.add_ride(0, "1 2 3".to_string()).unwrap_err();
    assert_eq!(e.line, 0);
    assert_eq!(e.content, "1 2 3");
    let e2 = g.add_ride(0, "1 2 3 4 5 x".to_string()).unwrap_err();
    assert_eq!(e2.content, "1 2 3 4 5 x");
    let e3 = g.add_ride(0, "1 2 3 4 5 18446744073709551616".to_string()).unwrap_err();
    assert_eq!(e3.line, 0);
    assert_eq!(g.add_ride(0, "0 0 1 1 0 9".to_string()).unwrap(), 0);
    assert!(Grid::from_header("not a header").is_err());
    assert!(Grid::from_header("1 2 3 4 5").is_err());
}

#[test]
fn oversized_inputs_are_declined_before_running() {
    let g = Grid::from_header("1 1 1 1 0 18446744073709551615").unwrap();
    assert!(!g.fits_for_run());
    let mut g2 = Grid::from_header("1000 1000 2 1 25 10000").unwrap();
    g2.add_ride(0, "1 2 3 4 5 6".to_string()).unwrap();
    assert!(g2.fits_for_run());
}
