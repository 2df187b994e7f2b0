use traffic_sim::fix_signals::{FixTrafficSignals, THRESHOLD};
use traffic_sim::gameplay::{EditCmd, GameplayMode, MapEdits};
use traffic_sim::intersection::{ControlPolicy, IntersectionCtrl};
use traffic_sim::network::{Building, Lane, Network, Turn};
use traffic_sim::sim::{usize_to_dec, AdvanceStatus, Scenario, ScenarioPerson, ScenarioTrip, Sim, TripCount, TripResult};
use traffic_sim::trips::{TripLeg, TripStatus};
use traffic_sim::types::{SimError, TravelMode, TripEndpoint};

fn open_lane(tt: u64) -> Lane {
    Lane { allow_car: true, allow_bike: true, allow_ped: true, allow_bus: true, travel_time: tt }
}

/// Lanes 0 and 1 approach one intersection from conflicting directions;
/// both exit onto lane 2. Buildings 0, 1, 2 front lanes 0, 1, 2.
fn cross_network(exit_time: u64) -> Network {
    Network {
        lanes: vec![open_lane(10), open_lane(10), open_lane(exit_time)],
        turns: vec![
            Turn { from: 0, to: 2, intersection: 0, turn_idx: 0 },
            Turn { from: 1, to: 2, intersection: 0, turn_idx: 1 },
        ],
        buildings: vec![Building { lane: 0 }, Building { lane: 1 }, Building { lane: 2 }],
        edit_version: 0,
    }
}

fn stop_sign(n_turns: usize) -> IntersectionCtrl {
    let conflicts = vec![vec![false, true], vec![true, false]];
    assert_eq!(n_turns, 2);
    IntersectionCtrl::new(n_turns, conflicts, ControlPolicy::StopSign)
}

fn cross_sim(exit_time: u64) -> Sim {
    Sim::new(cross_network(exit_time), vec![stop_sign(2)])
}

fn leg(mode: TravelMode, from: TripEndpoint, to: TripEndpoint) -> TripLeg {
    TripLeg { mode, from, to }
}

/// Two people, each driving from their home building to building 2 at the
/// same instant, through the conflicting approaches of the stop sign.
fn cross_scenario() -> Scenario {
    Scenario {
        persons: vec![ScenarioPerson { home: Some(0) }, ScenarioPerson { home: Some(1) }],
        trips: vec![
            ScenarioTrip {
                person: 0,
                depart: 0,
                legs: vec![leg(TravelMode::Car, TripEndpoint::Bldg(0), TripEndpoint::Bldg(2))],
            },
            ScenarioTrip {
                person: 1,
                depart: 0,
                legs: vec![leg(TravelMode::Car, TripEndpoint::Bldg(1), TripEndpoint::Bldg(2))],
            },
        ],
    }
}

#[test]
fn run_to_completion_and_count_trips() {
    let mut sim = cross_sim(10);
    sim.instantiate(&cross_scenario());
    assert!(!sim.is_done());
    assert_eq!(sim.advance_to(10_000, 100_000), AdvanceStatus::Complete);
    assert!(sim.is_done());
    // Every seeded trip shows up exactly once among the destination counts:
    // both trips ended at building 2.
    let mut done_total: usize = 0;
    for b in 0..3 {
        let c = sim.count_trips(TripEndpoint::Bldg(b));
        done_total += c.done;
        assert_eq!(c.not_started, 0);
        assert_eq!(c.in_progress, 0);
        assert_eq!(c.mode_change, 0);
    }
    // Trips touch both their origin and their destination buildings.
    assert_eq!(done_total, 4);
    let dest = sim.count_trips(TripEndpoint::Bldg(2));
    assert_eq!(dest.done, 2);
    // Both cars parked at their destination building.
    let parked = sim.get_parked_cars_by_owner(2);
    assert_eq!(parked.len(), 2);
    assert_eq!(parked[0].owner, 0);
    assert_eq!(parked[1].owner, 1);
}

#[test]
fn seeded_trip_count_round_trip_over_borders() {
    // Origins at borders so each trip is counted once, at its destination.
    let mut sim = cross_sim(10);
    let scen = Scenario {
        persons: vec![ScenarioPerson { home: None }, ScenarioPerson { home: None }],
        trips: vec![
            ScenarioTrip {
                person: 0,
                depart: 0,
                legs: vec![leg(TravelMode::Car, TripEndpoint::Border(0), TripEndpoint::Bldg(2))],
            },
            ScenarioTrip {
                person: 1,
                depart: 5,
                legs: vec![leg(TravelMode::Car, TripEndpoint::Border(1), TripEndpoint::Bldg(2))],
            },
        ],
    };
    sim.instantiate(&scen);
    assert_eq!(sim.advance_to(10_000, 100_000), AdvanceStatus::Complete);
    assert!(sim.is_done());
    let mut total: usize = 0;
    for b in 0..3 {
        total += sim.count_trips(TripEndpoint::Bldg(b)).done;
    }
    assert_eq!(total, scen.trips.len());
}

#[test]
fn stop_sign_priority_and_wait_clock() {
    let mut sim = cross_sim(10);
    sim.instantiate(&cross_scenario());
    // Both agents reach the intersection at t=10; the earlier registered
    // request (trip 0's agent) is granted, the other queues and its wait
    // clock starts at that instant.
    assert_eq!(sim.advance_to(10, 100_000), AdvanceStatus::Complete);
    assert_eq!(sim.trip_status(0), Ok(TripStatus::InProgress(0)));
    assert_eq!(sim.trip_status(1), Ok(TripStatus::InProgress(1)));
    // Trip 1's request has waited zero so far: delayed at threshold 0 only.
    let d0 = sim.delayed_intersections(0);
    assert_eq!(d0, vec![0]);
    assert!(sim.delayed_intersections(1).is_empty());
    // Let 5 deciseconds pass with no event: the wait grows to 5.
    assert_eq!(sim.advance_to(15, 100_000), AdvanceStatus::Complete);
    assert_eq!(sim.delayed_intersections(5), vec![0]);
    assert!(sim.delayed_intersections(6).is_empty());
    // Run out: the released grant promotes the queued agent; all arrive.
    assert_eq!(sim.advance_to(10_000, 100_000), AdvanceStatus::Complete);
    assert_eq!(sim.trip_status(0), Ok(TripStatus::Done));
    assert_eq!(sim.trip_status(1), Ok(TripStatus::Done));
    assert!(sim.delayed_intersections(0).is_empty());
}

#[test]
fn disconnecting_edit_aborts_trip_without_faulting() {
    let mut sim = cross_sim(10);
    sim.instantiate(&cross_scenario());
    // Start the trips (routes computed), but stop before anyone arrives.
    assert_eq!(sim.advance_to(5, 100_000), AdvanceStatus::Complete);
    assert_eq!(sim.trip_status(0), Ok(TripStatus::InProgress(0)));
    // A lane-type edit closes the exit lane to cars: both routes are stale
    // and their recomputation fails with no path.
    let mut closed = open_lane(10);
    closed.allow_car = false;
    let mode = GameplayMode::Freeform("montlake".to_owned());
    let edits = MapEdits {
        commands: vec![EditCmd::ChangeLaneType { lane: 2, new_lane: closed }],
    };
    assert_eq!(sim.apply_edits(&mode, edits), Ok(()));
    // advance_to does not fault; the trips are marked Done instead.
    assert_eq!(sim.advance_to(10_000, 100_000), AdvanceStatus::Complete);
    assert_eq!(sim.trip_status(0), Ok(TripStatus::Done));
    assert_eq!(sim.trip_status(1), Ok(TripStatus::Done));
    assert!(sim.is_done());
    // The trips never arrived: no car parked at the destination.
    assert!(sim.get_parked_cars_by_owner(2).is_empty());
}

#[test]
fn clear_sim_then_reinstantiate_matches_first_run() {
    let mut sim = cross_sim(10);
    sim.instantiate(&cross_scenario());
    assert_eq!(sim.advance_to(10_000, 100_000), AdvanceStatus::Complete);
    let first: Vec<_> = (0..3).map(|b| sim.count_trips(TripEndpoint::Bldg(b))).collect();
    sim.clear_sim();
    assert_eq!(sim.time(), 0);
    assert_eq!(sim.count_trips(TripEndpoint::Bldg(2)).done, 0);
    sim.instantiate(&cross_scenario());
    assert_eq!(sim.advance_to(10_000, 100_000), AdvanceStatus::Complete);
    let second: Vec<_> = (0..3).map(|b| sim.count_trips(TripEndpoint::Bldg(b))).collect();
    assert_eq!(first, second);
}

#[test]
fn mode_change_runs_both_legs() {
    let mut sim = cross_sim(10);
    let scen = Scenario {
        persons: vec![ScenarioPerson { home: Some(0) }],
        trips: vec![ScenarioTrip {
            person: 0,
            depart: 0,
            legs: vec![
                leg(TravelMode::Pedestrian, TripEndpoint::Bldg(0), TripEndpoint::Bldg(2)),
                leg(TravelMode::Car, TripEndpoint::Bldg(2), TripEndpoint::Bldg(2)),
            ],
        }],
    };
    sim.instantiate(&scen);
    let mut seen_in_progress = false;
    let mut seen_mode_change = false;
    let mut last_rank: u32 = 0;
    for _ in 0..1000 {
        sim.advance_to(10_000, 1);
        let st = sim.trip_status(0).unwrap();
        let rank = match st {
            TripStatus::NotStarted => 0,
            TripStatus::InProgress(_) => 1,
            TripStatus::ModeChange => 1,
            TripStatus::Done => 2,
        };
        // The lifecycle never regresses.
        assert!(rank >= last_rank);
        last_rank = rank;
        match st {
            TripStatus::InProgress(_) => seen_in_progress = true,
            TripStatus::ModeChange => seen_mode_change = true,
            _ => {},
        }
        if sim.is_done() {
            break;
        }
    }
    assert!(sim.is_done());
    assert!(seen_in_progress);
    assert!(seen_mode_change);
    assert_eq!(sim.trip_status(0), Ok(TripStatus::Done));
    // The car leg ended at building 2: one parked vehicle there.
    assert_eq!(sim.get_parked_cars_by_owner(2).len(), 1);
}

#[test]
fn signal_controlled_intersection_completes() {
    let conflicts = vec![vec![false, true], vec![true, false]];
    let phases = vec![vec![true, false], vec![false, true]];
    let signal = IntersectionCtrl::new(
        2,
        conflicts,
        ControlPolicy::Signal { phase_allowed: phases, current: 0, phase_len: 5 },
    );
    let mut sim = Sim::new(cross_network(10), vec![signal]);
    sim.instantiate(&cross_scenario());
    assert_eq!(sim.advance_to(10_000, 100_000), AdvanceStatus::Complete);
    assert!(sim.is_done());
    assert_eq!(sim.count_trips(TripEndpoint::Bldg(2)).done, 2);
}

#[test]
fn queries_on_unknown_ids() {
    let mut sim = cross_sim(10);
    sim.instantiate(&cross_scenario());
    assert_eq!(sim.trip_status(99), Err(SimError::UnknownTrip));
    assert_eq!(sim.trip_to_agent(99), TripResult::TripDoesntExist);
    assert!(sim.trip_info(99).is_err());
    assert!(sim.get_person(99).is_none());
    assert_eq!(sim.next_trip_for_person(99), Err(SimError::UnknownTrip));
    assert!(sim.trips_for_person(99).is_err());
}

#[test]
fn person_and_trip_queries() {
    let mut sim = cross_sim(10);
    sim.instantiate(&cross_scenario());
    assert_eq!(sim.trip_to_agent(0), TripResult::TripNotStarted);
    let (depart, origin, dest, mode) = sim.trip_info(0).unwrap();
    assert_eq!(depart, 0);
    assert_eq!(origin, TripEndpoint::Bldg(0));
    assert_eq!(dest, TripEndpoint::Bldg(2));
    assert_eq!(mode, TravelMode::Car);
    assert_eq!(sim.bldg_to_people(0), vec![0]);
    assert_eq!(sim.bldg_to_people(1), vec![1]);
    assert!(sim.bldg_to_people(2).is_empty());
    assert_eq!(sim.trips_for_person(0).unwrap(), vec![0]);
    assert_eq!(sim.trips_for_person(1).unwrap(), vec![1]);
    assert_eq!(sim.next_trip_for_person(0), Ok(Some((0, TravelMode::Car))));
    let person = sim.get_person(0).unwrap();
    assert_eq!(person.home, Some(0));
    assert_eq!(person.trips, vec![0]);
    // Run to completion: no next trip remains and the agent is archived.
    sim.advance_to(10_000, 100_000);
    assert_eq!(sim.next_trip_for_person(0), Ok(None));
    assert_eq!(sim.trip_to_agent(0), TripResult::TripDone);
}

#[test]
fn edit_rejected_by_gameplay_mode() {
    let mut sim = cross_sim(10);
    sim.instantiate(&cross_scenario());
    let mut closed = open_lane(10);
    closed.allow_car = false;
    let edits = MapEdits {
        commands: vec![EditCmd::ChangeLaneType { lane: 2, new_lane: closed }],
    };
    let fix = GameplayMode::FixTrafficSignals;
    assert_eq!(sim.apply_edits(&fix, edits), Err(SimError::EditRejected));
    // The engine is unchanged: the route still works and the run completes.
    assert_eq!(sim.advance_to(10_000, 100_000), AdvanceStatus::Complete);
    assert_eq!(sim.count_trips(TripEndpoint::Bldg(2)).done, 2);
}

#[test]
fn fix_signals_challenge_fails_on_long_delay() {
    // A slow exit lane keeps the first grant held for 1000 deciseconds, so
    // the queued conflicting request waits past the threshold.
    let mut sim = cross_sim(1000);
    sim.instantiate(&cross_scenario());
    let mut challenge = FixTrafficSignals::new();
    challenge.update(&sim);
    assert_eq!(challenge.failed_at, None);
    // At t=10 one agent is granted, the other queued.
    sim.advance_to(10, 100_000);
    challenge.update(&sim);
    assert_eq!(challenge.failed_at, None);
    // Let the wait exceed the threshold.
    sim.advance_to(10 + THRESHOLD + 10, 100_000);
    challenge.update(&sim);
    assert_eq!(challenge.failed_at, Some(10 + THRESHOLD + 10));
    // A later observation does not move the failure time.
    sim.advance_to(10_000, 100_000);
    challenge.update(&sim);
    assert_eq!(challenge.failed_at, Some(10 + THRESHOLD + 10));
}

#[test]
fn decimal_rendering() {
    assert_eq!(usize_to_dec(0), "0".to_owned());
    assert_eq!(usize_to_dec(7), "7".to_owned());
    assert_eq!(usize_to_dec(10), "10".to_owned());
    assert_eq!(usize_to_dec(305), "305".to_owned());
    assert_eq!(usize_to_dec(12345), "12345".to_owned());
}

#[test]
fn count_summary_lines() {
    let c = TripCount { not_started: 2, in_progress: 0, mode_change: 1, done: 3 };
    assert_eq!(
        c.describe(),
        vec![
            "2 trips not started yet".to_owned(),
            "1 trips changing modes".to_owned(),
            "3 trips done".to_owned(),
        ]
    );
    let zero = TripCount { not_started: 0, in_progress: 0, mode_change: 0, done: 0 };
    assert!(zero.describe().is_empty());
}

#[test]
fn paused_advance_is_resumable() {
    let mut sim = cross_sim(10);
    sim.instantiate(&cross_scenario());
    // A zero-step budget pauses immediately; the engine stays consistent.
    assert_eq!(sim.advance_to(10_000, 0), AdvanceStatus::Paused);
    assert!(!sim.is_done());
    let mut guard: u32 = 0;
    while sim.advance_to(10_000, 1) == AdvanceStatus::Paused {
        guard += 1;
        assert!(guard < 100_000);
    }
    assert!(sim.is_done());
}
