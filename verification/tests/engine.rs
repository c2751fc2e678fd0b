//! Tests for the round-based search engine.

use raptor::data::{Route, Stop, StopTime, Timetable, Transfer, Trip};
use raptor::raptor::Raptor;
use raptor::ProcessingError;

fn st(stop: usize, arr: u32, dep: u32) -> StopTime {
    StopTime { stop, arrival_time: arr, departure_time: dep }
}

fn trip(id: &str, stop_times: Vec<StopTime>) -> Trip {
    Trip { id: id.to_string(), stop_times }
}

fn stops(n: usize) -> Vec<Stop> {
    let mut v = Vec::new();
    let mut i = 0;
    while i < n {
        v.push(Stop { id: format!("s{}", i), name: format!("stop {}", i) });
        i += 1;
    }
    v
}

fn route(parent: &str, pattern: Vec<usize>, trips: Vec<Trip>) -> Route {
    Route {
        parent_id: parent.to_string(),
        parent_name: parent.to_string(),
        group_id: pattern,
        trips,
    }
}

/// Stops A=0, B=1, C=2; one trip A (dep 0), B (arr 10, dep 15),
/// C (arr 30).
fn abc_timetable(extra_stops: usize, transfers: Vec<Transfer>) -> Timetable {
    Timetable {
        stops: stops(3 + extra_stops),
        routes: vec![route(
            "R",
            vec![0, 1, 2],
            vec![trip("t1", vec![st(0, 0, 0), st(1, 10, 15), st(2, 30, 30)])],
        )],
        transfers,
    }
}

#[test]
fn worked_example_two_rounds() {
    let mut r = Raptor::new(abc_timetable(0, vec![]), 0, 0, None);
    assert!(!r.is_finished());
    r.run().unwrap();
    assert_eq!(r.tau_min.get(1), Some(10));
    assert_eq!(r.tau_min.get(2), Some(30));
    // round 1 finds both improvements; round 2 finds none and the
    // search halts: the initial round plus two executed rounds
    assert_eq!(r.rounds.len(), 3);
    assert_eq!(r.rounds[1].tau.get(1), Some(10));
    assert_eq!(r.rounds[1].tau.get(2), Some(30));
    assert_eq!(r.rounds[2].tau.get(1), None);
    assert_eq!(r.rounds[2].tau.get(2), None);
    assert!(r.is_finished());
    assert_eq!(r.marked_per_round, vec![2, 0]);
    assert_eq!(r.route_scans, 2);
}

#[test]
fn single_round_step() {
    let mut r = Raptor::new(abc_timetable(0, vec![]), 0, 0, None);
    r.round().unwrap();
    assert_eq!(r.rounds.len(), 2);
    assert_eq!(r.rounds[1].tau.get(1), Some(10));
    assert_eq!(r.tau_min.get(1), Some(10));
    assert!(!r.is_finished());
    r.round().unwrap();
    assert!(r.is_finished());
}

#[test]
fn transfer_relaxed_in_same_round() {
    // a footpath B -> D of five seconds: D is reached at 15 in round 1,
    // and the improvement enters the global best like any other
    let tt = abc_timetable(1, vec![Transfer { from: 1, to: 3, time: 5 }]);
    let mut r = Raptor::new(tt, 0, 0, None);
    r.run().unwrap();
    assert_eq!(r.rounds[1].tau.get(3), Some(15));
    assert_eq!(r.tau_min.get(3), Some(15));
}

#[test]
fn transfers_do_not_cascade_within_a_round() {
    // D is reached only by footpath in round 1, so a second footpath
    // D -> E is not followed in the same round; D is marked, but it
    // lies on no route, so E stays unreached in later rounds too
    let tt = abc_timetable(
        2,
        vec![Transfer { from: 1, to: 3, time: 5 }, Transfer { from: 3, to: 4, time: 5 }],
    );
    let mut r = Raptor::new(tt, 0, 0, None);
    r.run().unwrap();
    assert_eq!(r.rounds[1].tau.get(3), Some(15));
    assert_eq!(r.tau_min.get(3), Some(15));
    assert_eq!(r.rounds[1].tau.get(4), None);
    assert_eq!(r.tau_min.get(4), None);
}

#[test]
fn footpath_marking_queues_new_routes() {
    // D is reached only by footpath in round 1; being marked, its own
    // route is queued in round 2 and E is reached through it
    let tt = Timetable {
        stops: stops(4),
        routes: vec![
            route("R", vec![0, 1], vec![trip("t1", vec![st(0, 0, 0), st(1, 10, 10)])]),
            route("S", vec![2, 3], vec![trip("t2", vec![st(2, 0, 20), st(3, 40, 40)])]),
        ],
        transfers: vec![Transfer { from: 1, to: 2, time: 5 }],
    };
    let mut r = Raptor::new(tt, 0, 0, None);
    r.run().unwrap();
    assert_eq!(r.tau_min.get(2), Some(15));
    assert_eq!(r.rounds[2].tau.get(3), Some(40));
    assert_eq!(r.tau_min.get(3), Some(40));
}

#[test]
fn footpath_enables_next_round_boarding() {
    // D=3 is reached only by footpath in round 1; in round 2 the second
    // route is scanned from B, nothing can be boarded there any more,
    // but at D the previous round's footpath arrival lets the trip be
    // boarded and E=4 is reached
    let tt = Timetable {
        stops: stops(5),
        routes: vec![
            route("R", vec![0, 1], vec![trip("t1", vec![st(0, 0, 0), st(1, 10, 10)])]),
            route(
                "S",
                vec![1, 3, 4],
                vec![trip("t3", vec![st(1, 0, 1), st(3, 2, 20), st(4, 30, 30)])],
            ),
        ],
        transfers: vec![Transfer { from: 1, to: 3, time: 5 }],
    };
    let mut r = Raptor::new(tt, 0, 0, None);
    r.run().unwrap();
    assert_eq!(r.rounds[1].tau.get(3), Some(15));
    assert_eq!(r.rounds[2].tau.get(4), Some(30));
    assert_eq!(r.tau_min.get(4), Some(30));
}

#[test]
fn unreachable_stop_stays_untouched() {
    // a stop on no route and behind no transfer never shows up
    let tt = abc_timetable(1, vec![]);
    let mut r = Raptor::new(tt, 0, 0, None);
    r.run().unwrap();
    assert_eq!(r.tau_min.get(3), None);
    for round in &r.rounds {
        assert_eq!(round.tau.get(3), None);
    }
}

#[test]
fn transfer_from_routeless_origin_never_fires() {
    // a transfer into E from a stop on no route can never fire, since
    // only scan-improved stops relax footpaths
    let tt = abc_timetable(2, vec![Transfer { from: 3, to: 4, time: 1 }]);
    let mut r = Raptor::new(tt, 0, 0, None);
    r.run().unwrap();
    assert_eq!(r.tau_min.get(4), None);
    for round in &r.rounds {
        assert_eq!(round.tau.get(4), None);
    }
}

#[test]
fn start_time_shifts_boarding() {
    // leaving at 1, the 0-o'clock departure is gone and nothing on the
    // route can be boarded
    let mut r = Raptor::new(abc_timetable(0, vec![]), 0, 1, None);
    r.run().unwrap();
    assert_eq!(r.tau_min.get(1), None);
    assert_eq!(r.tau_min.get(2), None);
}

#[test]
fn later_trip_is_picked_up() {
    // two trips; leaving at 1 only the second can be boarded
    let tt = Timetable {
        stops: stops(3),
        routes: vec![route(
            "R",
            vec![0, 1, 2],
            vec![
                trip("early", vec![st(0, 0, 0), st(1, 10, 15), st(2, 30, 30)]),
                trip("late", vec![st(0, 60, 60), st(1, 70, 75), st(2, 90, 90)]),
            ],
        )],
        transfers: vec![],
    };
    let mut r = Raptor::new(tt, 0, 1, None);
    r.run().unwrap();
    assert_eq!(r.tau_min.get(1), Some(70));
    assert_eq!(r.tau_min.get(2), Some(90));
}

#[test]
fn target_prunes_worse_stops() {
    // pattern A -> C -> B; with target C improved to 30 first, the
    // later arrival 40 at B is pruned
    let tt = Timetable {
        stops: stops(3),
        routes: vec![route(
            "R",
            vec![0, 2, 1],
            vec![trip("t1", vec![st(0, 0, 0), st(2, 30, 31), st(1, 40, 40)])],
        )],
        transfers: vec![],
    };
    let mut r = Raptor::new(tt, 0, 0, Some(2));
    r.run().unwrap();
    assert_eq!(r.tau_min.get(2), Some(30));
    assert_eq!(r.tau_min.get(1), None);
}

#[test]
fn without_target_no_pruning() {
    let tt = Timetable {
        stops: stops(3),
        routes: vec![route(
            "R",
            vec![0, 2, 1],
            vec![trip("t1", vec![st(0, 0, 0), st(2, 30, 31), st(1, 40, 40)])],
        )],
        transfers: vec![],
    };
    let mut r = Raptor::new(tt, 0, 0, None);
    r.run().unwrap();
    assert_eq!(r.tau_min.get(1), Some(40));
}

#[test]
fn transfer_past_the_horizon_is_dropped() {
    // an arrival that would overflow the time representation is not
    // recorded
    let tt = abc_timetable(1, vec![Transfer { from: 1, to: 3, time: u32::MAX }]);
    let mut r = Raptor::new(tt, 0, 0, None);
    r.run().unwrap();
    assert_eq!(r.rounds[1].tau.get(3), None);
}

#[test]
fn two_leg_journey_needs_two_rounds() {
    // A -> B on one route, B -> D on another: D appears in round 2
    let tt = Timetable {
        stops: stops(4),
        routes: vec![
            route("R", vec![0, 1], vec![trip("t1", vec![st(0, 0, 0), st(1, 10, 10)])]),
            route("S", vec![1, 3], vec![trip("t2", vec![st(1, 18, 20), st(3, 40, 40)])]),
        ],
        transfers: vec![],
    };
    let mut r = Raptor::new(tt, 0, 0, None);
    r.run().unwrap();
    assert_eq!(r.rounds[1].tau.get(1), Some(10));
    assert_eq!(r.rounds[1].tau.get(3), None);
    assert_eq!(r.rounds[2].tau.get(3), Some(40));
    assert_eq!(r.tau_min.get(3), Some(40));
}

#[test]
fn arrivals_never_regress() {
    // the global best only ever improves, round by round
    let tt = Timetable {
        stops: stops(4),
        routes: vec![
            route("R", vec![0, 1], vec![trip("t1", vec![st(0, 0, 0), st(1, 10, 10)])]),
            route("S", vec![1, 3], vec![trip("t2", vec![st(1, 18, 20), st(3, 40, 40)])]),
        ],
        transfers: vec![],
    };
    let mut r = Raptor::new(tt, 0, 0, None);
    let mut best_b: Option<u32> = r.tau_min.get(1);
    let mut best_d: Option<u32> = r.tau_min.get(3);
    while !r.is_finished() {
        r.round().unwrap();
        for (old, stop) in [(best_b, 1usize), (best_d, 3usize)] {
            if let Some(v) = old {
                let now = r.tau_min.get(stop).expect("known stops stay known");
                assert!(now <= v, "arrival at {} regressed", stop);
            }
        }
        best_b = r.tau_min.get(1);
        best_d = r.tau_min.get(3);
    }
}

#[test]
fn inconsistent_route_aborts_cleanly() {
    // the second trip claims the route but visits other stops: the
    // search reports the trip instead of returning a wrong answer
    let tt = Timetable {
        stops: stops(3),
        routes: vec![route(
            "R",
            vec![0, 1],
            vec![
                trip("good", vec![st(0, 5, 5), st(1, 10, 10)]),
                trip("bad", vec![st(0, 0, 0), st(2, 20, 20)]),
            ],
        )],
        transfers: vec![],
    };
    let mut r = Raptor::new(tt, 0, 0, None);
    let e = r.run().unwrap_err();
    match e {
        ProcessingError::NoStopOnTrip { stop_id, trip_id } => {
            assert_eq!(stop_id, 1);
            assert_eq!(trip_id, "bad");
        },
        other => panic!("wrong error: {:?}", other),
    }
    // the failed round left no partial state behind
    assert_eq!(r.rounds.len(), 1);
    assert_eq!(r.tau_min.get(1), None);
}

#[test]
fn source_is_seeded() {
    let r = Raptor::new(abc_timetable(0, vec![]), 1, 42, Some(2));
    assert_eq!(r.source, 1);
    assert_eq!(r.start_time, 42);
    assert_eq!(r.target, Some(2));
    assert_eq!(r.rounds.len(), 1);
    assert_eq!(r.rounds[0].tau.get(1), Some(42));
    assert_eq!(r.rounds[0].tau.get(0), None);
    assert_eq!(r.tau_min.get(1), Some(42));
    assert_eq!(r.marked_stops, vec![1]);
}
