use traffic_sim::scheduler::{EventKind, Scheduler};
use traffic_sim::intersection::{ControlPolicy, IntersectionCtrl, TurnDecision};
use traffic_sim::network::{Building, Lane, Network, Turn};
use traffic_sim::gameplay::{EditCmd, EditIntersection, GameplayMode, MapEdits, TutorialPointer};
use traffic_sim::types::SimError;

fn open_lane(tt: u64) -> Lane {
    Lane { allow_car: true, allow_bike: true, allow_ped: true, allow_bus: true, travel_time: tt }
}

fn two_lane_network() -> Network {
    Network {
        lanes: vec![open_lane(10), open_lane(10), open_lane(10)],
        turns: vec![
            Turn { from: 0, to: 2, intersection: 0, turn_idx: 0 },
            Turn { from: 1, to: 2, intersection: 0, turn_idx: 1 },
        ],
        buildings: vec![Building { lane: 0 }, Building { lane: 1 }, Building { lane: 2 }],
        edit_version: 0,
    }
}

fn cross_conflicts() -> Vec<Vec<bool>> {
    vec![vec![false, true], vec![true, false]]
}

#[test]
fn scheduler_orders_by_time_then_insertion() {
    let mut s = Scheduler::new();
    s.schedule(5, EventKind::TripStart(0)).unwrap();
    s.schedule(3, EventKind::TripStart(1)).unwrap();
    s.schedule(3, EventKind::TripStart(2)).unwrap();
    let a = s.pop_due(10).unwrap();
    let b = s.pop_due(10).unwrap();
    let c = s.pop_due(10).unwrap();
    assert_eq!(a.time, 3);
    assert_eq!(a.kind, EventKind::TripStart(1));
    assert_eq!(b.time, 3);
    assert_eq!(b.kind, EventKind::TripStart(2));
    assert_eq!(c.time, 5);
    assert_eq!(c.kind, EventKind::TripStart(0));
    assert!(s.pop_due(u64::MAX).is_none());
}

#[test]
fn scheduler_rejects_past_time() {
    let mut s = Scheduler::new();
    s.schedule(4, EventKind::TripStart(0)).unwrap();
    let e = s.pop_due(10).unwrap();
    assert_eq!(e.time, 4);
    assert_eq!(s.now(), 4);
    assert_eq!(s.schedule(3, EventKind::TripStart(1)), Err(SimError::PastScheduling));
    assert!(s.schedule(4, EventKind::TripStart(1)).is_ok());
}

#[test]
fn scheduler_ignores_events_beyond_target() {
    let mut s = Scheduler::new();
    s.schedule(50, EventKind::TripStart(0)).unwrap();
    assert!(s.pop_due(49).is_none());
    assert!(s.pop_due(50).is_some());
}

#[test]
fn stop_sign_grants_earlier_request_first() {
    let mut c = IntersectionCtrl::new(2, cross_conflicts(), ControlPolicy::StopSign);
    assert_eq!(c.request_turn(0, 0, 7), TurnDecision::Granted);
    // The conflicting later arrival queues, wait clock starting now.
    assert_eq!(c.request_turn(1, 1, 7), TurnDecision::Queued);
    assert!(c.has_delayed(7, 0));
    assert!(!c.has_delayed(7, 1));
    assert!(c.has_delayed(12, 5));
    // Release the first grant: the queued request is promoted.
    c.release_turn(0);
    let newly = c.promote();
    assert_eq!(newly, vec![(1usize, 1usize)]);
    assert!(!c.has_delayed(100, 0));
}

#[test]
fn stop_sign_same_turn_is_compatible() {
    let mut c = IntersectionCtrl::new(2, cross_conflicts(), ControlPolicy::StopSign);
    assert_eq!(c.request_turn(0, 0, 0), TurnDecision::Granted);
    // The same turn does not conflict with itself in this table.
    assert_eq!(c.request_turn(1, 0, 0), TurnDecision::Granted);
}

#[test]
fn banned_turn_is_denied() {
    let mut c = IntersectionCtrl::new(2, cross_conflicts(), ControlPolicy::StopSign);
    c.set_banned(0, true);
    assert_eq!(c.request_turn(0, 0, 0), TurnDecision::Denied);
    c.set_banned(0, false);
    assert_eq!(c.request_turn(0, 0, 0), TurnDecision::Granted);
}

#[test]
fn signal_queues_until_compatible_phase() {
    let phases = vec![vec![true, false], vec![false, true]];
    let mut c = IntersectionCtrl::new(
        2,
        cross_conflicts(),
        ControlPolicy::Signal { phase_allowed: phases, current: 0, phase_len: 5 },
    );
    assert_eq!(c.request_turn(0, 1, 0), TurnDecision::Queued);
    assert_eq!(c.request_turn(1, 0, 0), TurnDecision::Granted);
    c.release_turn(1);
    // Still phase 0: turn 1 stays queued.
    assert!(c.promote().is_empty());
    c.advance_phase();
    assert_eq!(c.promote(), vec![(0usize, 1usize)]);
}

#[test]
fn router_finds_connected_path() {
    let net = two_lane_network();
    let r = net.compute_route(traffic_sim::types::TravelMode::Car, 0, 2).unwrap();
    assert_eq!(r, vec![0, 2]);
    let same = net.compute_route(traffic_sim::types::TravelMode::Car, 1, 1).unwrap();
    assert_eq!(same, vec![1]);
}

#[test]
fn router_reports_no_path() {
    let mut net = two_lane_network();
    // No turn leads from lane 2 back to lane 0.
    assert_eq!(
        net.compute_route(traffic_sim::types::TravelMode::Car, 2, 0),
        Err(SimError::NoPath)
    );
    // A lane-type edit that closes lane 2 to cars disconnects 0 -> 2.
    let mut closed = open_lane(10);
    closed.allow_car = false;
    net.set_lane(2, closed);
    assert_eq!(
        net.compute_route(traffic_sim::types::TravelMode::Car, 0, 2),
        Err(SimError::NoPath)
    );
    // Pedestrians still get through.
    assert!(net.compute_route(traffic_sim::types::TravelMode::Pedestrian, 0, 2).is_ok());
}

#[test]
fn gameplay_capabilities() {
    let fix = GameplayMode::FixTrafficSignals;
    assert!(!fix.can_edit_lanes());
    assert!(!fix.can_edit_stop_signs());
    let free = GameplayMode::Freeform("montlake".to_owned());
    assert!(free.can_edit_lanes());
    assert!(free.can_edit_stop_signs());
    let tut = GameplayMode::Tutorial(TutorialPointer { stage: 1, part: 2 });
    assert!(tut.can_edit_lanes());
}

#[test]
fn gameplay_allows_by_command_kind() {
    let fix = GameplayMode::FixTrafficSignals;
    let lane_edit = MapEdits {
        commands: vec![EditCmd::ChangeLaneType { lane: 0, new_lane: open_lane(10) }],
    };
    assert!(!fix.allows(&lane_edit));
    let retime = MapEdits {
        commands: vec![EditCmd::ChangeIntersection {
            i: 0,
            new: EditIntersection::Signal {
                phase_allowed: vec![vec![true, true]],
                phase_len: 5,
            },
        }],
    };
    assert!(fix.allows(&retime));
    let to_stop = MapEdits {
        commands: vec![EditCmd::ChangeIntersection { i: 0, new: EditIntersection::StopSign }],
    };
    assert!(!fix.allows(&to_stop));
    let free = GameplayMode::PlayScenario("montlake".to_owned(), "weekday".to_owned());
    assert!(free.allows(&lane_edit));
    assert!(free.allows(&to_stop));
}

#[test]
fn gameplay_map_and_scenario_names() {
    let m = GameplayMode::PlayScenario("downtown".to_owned(), "just buses".to_owned());
    assert_eq!(m.map_path(), "downtown".to_owned());
    assert_eq!(m.scenario_name(), Some("just buses".to_owned()));
    assert_eq!(GameplayMode::FixTrafficSignals.map_path(), "montlake".to_owned());
    assert_eq!(GameplayMode::FixTrafficSignals.scenario_name(), Some("weekday".to_owned()));
    assert_eq!(GameplayMode::Freeform("x".to_owned()).scenario_name(), None);
    assert_eq!(
        GameplayMode::Tutorial(TutorialPointer { stage: 0, part: 0 }).scenario_name(),
        None
    );
}
