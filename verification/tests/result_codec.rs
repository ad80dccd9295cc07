use ride_dispatch::codec::{
    parse_history_at, parse_result, parse_row, parse_u64_at, serialize_history, u64_to_dec,
};
use ride_dispatch::engine::Grid;
use ride_dispatch::graph::{best_chain, ride_edge, root_edge};
use ride_dispatch::ride::Ride;

#[test]
fn decimal_writing() {
    assert_eq!(u64_to_dec(0), b"0".to_vec());
    assert_eq!(u64_to_dec(10), b"10".to_vec());
    assert_eq!(u64_to_dec(907), b"907".to_vec());
    assert_eq!(u64_to_dec(18446744073709551615), b"18446744073709551615".to_vec());
}

#[test]
fn decimal_reading() {
    assert_eq!(parse_u64_at(&b"1234 x".to_vec(), 0), Some((1234, 4)));
    assert_eq!(parse_u64_at(&b"007".to_vec(), 0), Some((7, 3)));
    assert_eq!(parse_u64_at(&b"x12".to_vec(), 0), None);
    assert_eq!(parse_u64_at(&b"18446744073709551615".to_vec(), 0), Some((u64::MAX, 20)));
    assert_eq!(parse_u64_at(&b"18446744073709551616".to_vec(), 0), None);
}

#[test]
fn history_lines() {
    let empty: Vec<u64> = vec![];
    assert_eq!(serialize_history(&empty), b"0".to_vec());
    assert_eq!(serialize_history(&vec![3, 7, 11]), b"3 3 7 11".to_vec());
    assert_eq!(parse_history_at(&b"2 5 6".to_vec(), 0), Some((vec![5, 6], 5)));
    // The count overruns the line.
    assert_eq!(parse_history_at(&b"2 5".to_vec(), 0), None);
}

#[test]
fn row_reading() {
    assert_eq!(parse_row(&b"1 2 3 4 5 6".to_vec()), Some((1, 2, 3, 4, 5, 6)));
    assert_eq!(parse_row(&b"1 2 3 4 5".to_vec()), None);
    assert_eq!(parse_row(&b"1 2 3 4 5 6 7".to_vec()), None);
    assert_eq!(parse_row(&b"1 2 3 4 5 x".to_vec()), None);
    assert_eq!(parse_row(&b"1  2 3 4 5 6".to_vec()), None);
    assert_eq!(parse_row(&b"1 2 3 4 5 6 ".to_vec()), None);
}

#[test]
fn result_text_round_trip() {
    let text = b"2 0 1\n0\n1 2".to_vec();
    let parsed = parse_result(&text).unwrap();
    assert_eq!(parsed, vec![vec![0, 1], vec![], vec![2]]);
    assert!(parse_result(&b"".to_vec()).is_none());
    assert!(parse_result(&b"2 0".to_vec()).is_none());
}

#[test]
fn engine_result_round_trip() {
    // Serialising an engine's result and re-parsing the vehicle history
    // lines reproduces the same ordered ride-identity sequences.
    let mut g = Grid::from_header("3 4 2 2 0 10").unwrap();
    g.add_ride(0, "0 0 0 3 0 3".to_string()).unwrap();
    g.add_ride(1, "0 0 0 5 0 5".to_string()).unwrap();
    assert!(g.fits_for_run());
    g.run();
    let text = g.result_text();
    assert_eq!(text, b"1 0\n1 1".to_vec());
    let parsed = parse_result(&text).unwrap();
    assert_eq!(parsed, g.result_sequences());
    assert_eq!(parsed.len(), g.vehicles.len());
    for (h, v) in parsed.iter().zip(g.vehicles.iter()) {
        assert_eq!(*h, v.runs);
    }
}

#[test]
fn graph_edges_and_weights() {
    let r0 = Ride::new(0, 0, 0, 0, 2, 0, 5);
    let r1 = Ride::new(1, 0, 2, 0, 4, 2, 10);
    // Weight: (window open, latest on-time departure, distance points).
    assert_eq!(root_edge(&r0, 100), Some((0, 3, 2)));
    assert_eq!(ride_edge(&r0, &r1, 100), Some((2, 8, 2)));
    // Chaining back onto ride 0 misses its deadline.
    assert_eq!(ride_edge(&r1, &r0, 100), None);
    // The horizon cuts the root edge off.
    assert_eq!(root_edge(&r1, 3), None);
}

#[test]
fn best_chain_follows_the_edges() {
    let rides = vec![Ride::new(0, 0, 0, 0, 2, 0, 100), Ride::new(1, 0, 2, 0, 4, 2, 10)];
    let mut live = vec![true, true];
    assert_eq!(best_chain(&rides, &mut live, 100, 2), vec![0, 1]);
    // The mask is handed back untouched.
    assert_eq!(live, vec![true, true]);
    // With the follow-up already assigned, only the opener remains.
    let mut rest = vec![true, false];
    assert_eq!(best_chain(&rides, &mut rest, 100, 2), vec![0]);
}
