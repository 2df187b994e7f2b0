//! The simulation engine: owns the scheduler, the network, the
//! intersection controllers, the trip manager and the agents, and exposes
//! the query and command surface.
//!
//! All work happens synchronously inside the dispatch of one event at a
//! time; queries are read-only snapshots between dispatch steps. Across any
//! run of `advance_to`, every trip's status follows the lifecycle order and
//! never regresses, and the clock never moves backward.

use vstd::prelude::*;
use vstd::pervasive::VecAdditionalExecFns;
use vstd::string::StringExecFns;
use crate::types::{AgentId, BuildingId, IntersectionId, LaneId, PersonId, SimError, Time, TimeDelta, TravelMode, TripEndpoint, TripId};
use crate::scheduler::{key_le, Event, EventKind, Scheduler};
use crate::trips::{ParkedVehicle, Person, Trip, TripManager, TripStatus, status_reachable, lemma_step_implies_reachable, lemma_reachable_transitive};
use crate::intersection::{ControlPolicy, IntersectionCtrl, TurnDecision};
use crate::network::{Lane, Network};
use crate::gameplay::{EditCmd, EditIntersection, GameplayMode, MapEdits, spec_allows_cmd};

verus! {

/// Where an agent is in its life.
#[derive(Clone, Copy, PartialEq, Eq, Structural, Debug)]
pub enum AgentState {
    /// Traversing its current lane; an `AgentStep` event is pending.
    Moving,
    /// Queued at an intersection, woken by promotion.
    Waiting,
    /// Archived: its leg ended.
    Finished,
}

/// One simulated moving entity executing a leg of a trip.
#[derive(Debug)]
pub struct Agent {
    pub trip: TripId,
    pub mode: TravelMode,
    /// The lanes of the current leg, in traversal order.
    pub route: Vec<LaneId>,
    /// Index into `route` of the lane being traversed.
    pub pos: usize,
    pub state: AgentState,
    /// A turn grant held while traversing the current lane, released when
    /// the lane is finished.
    pub holding: Option<(IntersectionId, usize)>,
    /// The network edit version the route was computed against.
    pub route_version: u64,
}

/// What `trip_to_agent` answers: the agent of an in-progress trip, or why
/// there is none. `TripDoesntExist` flags an id that was never registered,
/// as opposed to the normal `TripDone` terminal state.
#[derive(Clone, Copy, PartialEq, Eq, Structural, Debug)]
pub enum TripResult {
    TripNotStarted,
    TripInProgress(AgentId),
    ModeChange,
    TripDone,
    TripDoesntExist,
}

/// Per-status trip counts for one endpoint.
#[derive(Clone, Copy, PartialEq, Eq, Structural, Debug)]
pub struct TripCount {
    pub not_started: usize,
    pub in_progress: usize,
    pub mode_change: usize,
    pub done: usize,
}

/// The summary lines `describe` produces: one per non-zero count.
pub open spec fn spec_describe(c: TripCount) -> Seq<Seq<char>> {
    (if c.not_started > 0 {
        seq![dec_str(c.not_started as nat) + " trips not started yet"@]
    } else {
        Seq::empty()
    }) + (if c.in_progress > 0 {
        seq![dec_str(c.in_progress as nat) + " trips in progress"@]
    } else {
        Seq::empty()
    }) + (if c.mode_change > 0 {
        seq![dec_str(c.mode_change as nat) + " trips changing modes"@]
    } else {
        Seq::empty()
    }) + (if c.done > 0 {
        seq![dec_str(c.done as nat) + " trips done"@]
    } else {
        Seq::empty()
    })
}

impl TripCount {
    /// Human-readable summary lines: one for each non-zero count, in
    /// lifecycle order.
    pub fn describe(&self) -> (r: Vec<String>)
        ensures
            r@.len() == spec_describe(*self).len(),
            forall|i: int| 0 <= i < r@.len()
                ==> (#[trigger] r@[i])@ == spec_describe(*self)[i],
    {
        let mut out: Vec<String> = Vec::new();
        if self.not_started > 0 {
            let mut line = usize_to_dec(self.not_started);
            line.append(" trips not started yet");
            out.push(line);
        }
        if self.in_progress > 0 {
            let mut line = usize_to_dec(self.in_progress);
            line.append(" trips in progress");
            out.push(line);
        }
        if self.mode_change > 0 {
            let mut line = usize_to_dec(self.mode_change);
            line.append(" trips changing modes");
            out.push(line);
        }
        if self.done > 0 {
            let mut line = usize_to_dec(self.done);
            line.append(" trips done");
            out.push(line);
        }
        out
    }
}

/// The decimal digit character for `d` (a single digit).
pub open spec fn digit_char(d: nat) -> char {
    if d == 0 { '0' }
    else if d == 1 { '1' }
    else if d == 2 { '2' }
    else if d == 3 { '3' }
    else if d == 4 { '4' }
    else if d == 5 { '5' }
    else if d == 6 { '6' }
    else if d == 7 { '7' }
    else if d == 8 { '8' }
    else { '9' }
}

/// The decimal rendering of `n`, most significant digit first.
pub open spec fn dec_str(n: nat) -> Seq<char>
    decreases n,
{
    if n < 10 {
        seq![digit_char(n)]
    } else {
        dec_str(n / 10) + seq![digit_char(n % 10)]
    }
}

/// The one-character string for a single decimal digit.
fn digit_str(d: usize) -> (r: String)
    requires
        d < 10,
    ensures
        r@ =~= seq![digit_char(d as nat)],
{
    proof {
        reveal_strlit("0");
        reveal_strlit("1");
        reveal_strlit("2");
        reveal_strlit("3");
        reveal_strlit("4");
        reveal_strlit("5");
        reveal_strlit("6");
        reveal_strlit("7");
        reveal_strlit("8");
        reveal_strlit("9");
    }
    if d == 0 { "0".to_owned() }
    else if d == 1 { "1".to_owned() }
    else if d == 2 { "2".to_owned() }
    else if d == 3 { "3".to_owned() }
    else if d == 4 { "4".to_owned() }
    else if d == 5 { "5".to_owned() }
    else if d == 6 { "6".to_owned() }
    else if d == 7 { "7".to_owned() }
    else if d == 8 { "8".to_owned() }
    else { "9".to_owned() }
}

/// Render `n` in decimal.
pub fn usize_to_dec(n: usize) -> (r: String)
    ensures
        r@ =~= dec_str(n as nat),
    decreases n,
{
    if n < 10 {
        digit_str(n)
    } else {
        let mut s = usize_to_dec(n / 10);
        let d = digit_str(n % 10);
        s.append(d.as_str());
        s
    }
}

/// A person to seed: their home, if any.
#[derive(Clone, Copy, PartialEq, Eq, Structural, Debug)]
pub struct ScenarioPerson {
    pub home: Option<BuildingId>,
}

/// A trip to seed: who makes it, when it departs, and its legs.
#[derive(Debug)]
pub struct ScenarioTrip {
    pub person: PersonId,
    pub depart: Time,
    pub legs: Vec<crate::trips::TripLeg>,
}

/// An external specification of people and trips to seed.
#[derive(Debug)]
pub struct Scenario {
    pub persons: Vec<ScenarioPerson>,
    pub trips: Vec<ScenarioTrip>,
}

impl Scenario {
    /// Every trip names a seeded person and has at least one leg.
    pub open spec fn wf(&self) -> bool {
        forall|t: int| 0 <= t < self.trips@.len()
            ==> (#[trigger] self.trips@[t]).person < self.persons@.len()
                && self.trips@[t].legs@.len() > 0
    }
}

/// Outcome of `advance_to`: all due events dispatched, or stopped early on
/// the step budget (partial advancement; resumable).
#[derive(Clone, Copy, PartialEq, Eq, Structural, Debug)]
pub enum AdvanceStatus {
    Complete,
    Paused,
}

/// Every trip's status in `post` is reachable, along the lifecycle order,
/// from its status in `pre`: the non-regression relation of a run.
pub open spec fn trips_reach(pre: Seq<Trip>, post: Seq<Trip>) -> bool {
    &&& post.len() == pre.len()
    &&& forall|t: int| 0 <= t < pre.len()
        ==> status_reachable((#[trigger] pre[t]).status, (#[trigger] post[t]).status)
}

/// Reachability of whole trip tables is transitive, so it holds across any
/// sequence of dispatch steps.
pub proof fn lemma_trips_reach_trans(a: Seq<Trip>, b: Seq<Trip>, c: Seq<Trip>)
    requires
        trips_reach(a, b),
        trips_reach(b, c),
    ensures
        trips_reach(a, c),
{
    assert forall|t: int| 0 <= t < a.len()
        implies status_reachable((#[trigger] a[t]).status, (#[trigger] c[t]).status) by {
        lemma_reachable_transitive(a[t].status, b[t].status, c[t].status);
    }
}

/// `a + b`, clamped to the largest representable time.
pub fn sat_add(a: u64, b: u64) -> (r: u64)
    ensures
        r as int == if a + b <= u64::MAX { a + b } else { u64::MAX as int },
        r >= a,
{
    if a <= u64::MAX - b {
        a + b
    } else {
        u64::MAX
    }
}

/// The simulation engine instance.
pub struct Sim {
    pub scheduler: Scheduler,
    pub network: Network,
    pub intersections: Vec<IntersectionCtrl>,
    pub trips: TripManager,
    pub agents: Vec<Agent>,
}

impl Sim {
    /// Engine consistency: every component well formed, every turn of the
    /// network referencing a real intersection turn, and every queued turn
    /// request's wait clock starting no later than now.
    pub open spec fn wf(&self) -> bool {
        &&& self.scheduler.wf()
        &&& self.network.wf()
        &&& self.trips.wf()
        &&& forall|i: int| 0 <= i < self.intersections@.len()
            ==> (#[trigger] self.intersections@[i]).wf()
        &&& forall|t: int| 0 <= t < self.network.turns@.len()
            ==> (#[trigger] self.network.turns@[t]).intersection < self.intersections@.len()
                && self.network.turns@[t].turn_idx
                    < self.intersections@[self.network.turns@[t].intersection as int].n_turns
        &&& forall|i: int, k: int| 0 <= i < self.intersections@.len()
            && 0 <= k < self.intersections@[i].queue@.len()
            ==> (#[trigger] self.intersections@[i].queue@[k]).since <= self.scheduler.spec_now()
    }

    /// A fresh engine over a network and its intersection controllers:
    /// the pre-scenario-instantiation state.
    pub fn new(network: Network, intersections: Vec<IntersectionCtrl>) -> (s: Sim)
        requires
            network.wf(),
            forall|i: int| 0 <= i < intersections@.len() ==> (#[trigger] intersections@[i]).wf(),
            forall|i: int| 0 <= i < intersections@.len()
                ==> (#[trigger] intersections@[i]).queue@.len() == 0,
            forall|t: int| 0 <= t < network.turns@.len()
                ==> (#[trigger] network.turns@[t]).intersection < intersections@.len()
                    && network.turns@[t].turn_idx
                        < intersections@[network.turns@[t].intersection as int].n_turns,
        ensures
            s.wf(),
            s.scheduler.spec_now() == 0,
            s.trips.trips@.len() == 0,
            s.trips.persons@.len() == 0,
            s.agents@.len() == 0,
            s.network == network,
            s.intersections == intersections,
    {
        Sim {
            scheduler: Scheduler::new(),
            network,
            intersections,
            trips: TripManager::new(),
            agents: Vec::new(),
        }
    }

    /// The current simulation time.
    pub fn time(&self) -> (t: Time)
        ensures
            t == self.scheduler.spec_now(),
    {
        self.scheduler.now()
    }

    /// Whether every registered trip is Done.
    pub fn all_trips_done(&self) -> (r: bool)
        ensures
            r == forall|t: int| 0 <= t < self.trips.trips@.len()
                ==> (#[trigger] self.trips.trips@[t]).status is Done,
    {
        let mut t: usize = 0;
        while t < self.trips.trips.len()
            invariant
                t <= self.trips.trips@.len(),
                forall|j: int| 0 <= j < t ==> (#[trigger] self.trips.trips@[j]).status is Done,
            decreases self.trips.trips@.len() - t,
        {
            match self.trips.trips[t].status {
                TripStatus::Done => {},
                _ => {
                    return false;
                },
            }
            t = t + 1;
        }
        true
    }

    /// True once all scheduled trips have reached Done and no pending
    /// events remain.
    pub fn is_done(&self) -> (r: bool)
        ensures
            r == ((forall|t: int| 0 <= t < self.trips.trips@.len()
                ==> (#[trigger] self.trips.trips@[t]).status is Done)
                && self.scheduler.pending_events().len() == 0),
    {
        let done = self.all_trips_done();
        done && self.scheduler.pending_len() == 0
    }

    /// Reset to the pre-scenario-instantiation state: no trips, people,
    /// agents or pending events, the clock at zero, every intersection
    /// cleared and rewound; the network (edits included) is kept.
    pub fn clear_sim(&mut self)
        requires
            old(self).wf(),
        ensures
            final(self).wf(),
            final(self).scheduler.spec_now() == 0,
            final(self).scheduler.pending_events().len() == 0,
            final(self).scheduler.spec_next_seq() == 0,
            final(self).scheduler.history() =~= Seq::<(Time, u64)>::empty(),
            final(self).trips.trips@.len() == 0,
            final(self).trips.persons@.len() == 0,
            final(self).trips.parked@.len() == 0,
            final(self).agents@.len() == 0,
            final(self).network == old(self).network,
            final(self).intersections@.len() == old(self).intersections@.len(),
            forall|i: int| 0 <= i < final(self).intersections@.len()
                ==> (#[trigger] final(self).intersections@[i]).queue@.len() == 0
                    && final(self).intersections@[i].granted@.len() == 0
                    && final(self).intersections@[i].n_turns == old(self).intersections@[i].n_turns
                    && final(self).intersections@[i].conflicts == old(self).intersections@[i].conflicts
                    && final(self).intersections@[i].banned == old(self).intersections@[i].banned,
            forall|i: int| 0 <= i < final(self).intersections@.len()
                ==> (#[trigger] final(self).intersections@[i]).policy
                    == (match old(self).intersections@[i].policy {
                        ControlPolicy::Signal { phase_allowed, current: _, phase_len } =>
                            (ControlPolicy::Signal { phase_allowed, current: 0usize, phase_len }),
                        ControlPolicy::StopSign => old(self).intersections@[i].policy,
                        ControlPolicy::Yield => old(self).intersections@[i].policy,
                    }),
    {
        self.scheduler.reset();
        self.trips.clear();
        self.agents.clear();
        let mut i: usize = 0;
        while i < self.intersections.len()
            invariant
                old(self).wf(),
                i <= self.intersections@.len(),
                self.intersections@.len() == old(self).intersections@.len(),
                self.scheduler.wf(),
                self.scheduler.spec_now() == 0,
                self.scheduler.pending_events().len() == 0,
                self.scheduler.spec_next_seq() == 0,
                self.scheduler.history() =~= Seq::<(Time, u64)>::empty(),
                self.trips.wf(),
                self.trips.trips@.len() == 0,
                self.trips.persons@.len() == 0,
                self.trips.parked@.len() == 0,
                self.agents@.len() == 0,
                self.network == old(self).network,
                forall|j: int| 0 <= j < self.intersections@.len()
                    ==> (#[trigger] self.intersections@[j]).wf(),
                forall|j: int| i <= j < self.intersections@.len()
                    ==> (#[trigger] self.intersections@[j]) == old(self).intersections@[j],
                forall|j: int| 0 <= j < i
                    ==> (#[trigger] self.intersections@[j]).queue@.len() == 0
                        && self.intersections@[j].granted@.len() == 0
                        && self.intersections@[j].n_turns == old(self).intersections@[j].n_turns
                        && self.intersections@[j].conflicts == old(self).intersections@[j].conflicts
                        && self.intersections@[j].banned == old(self).intersections@[j].banned,
                forall|j: int| 0 <= j < i
                    ==> (#[trigger] self.intersections@[j]).policy
                        == (match old(self).intersections@[j].policy {
                            ControlPolicy::Signal { phase_allowed, current: _, phase_len } =>
                                (ControlPolicy::Signal { phase_allowed, current: 0usize, phase_len }),
                            ControlPolicy::StopSign => old(self).intersections@[j].policy,
                            ControlPolicy::Yield => old(self).intersections@[j].policy,
                        }),
            decreases self.intersections@.len() - i,
        {
            let mut ctrl = placeholder_ctrl();
            self.intersections.set_and_swap(i, &mut ctrl);
            ctrl.reset_dynamic();
            self.intersections.set(i, ctrl);
            i = i + 1;
        }
    }

    /// Status of a trip; `UnknownTrip` exactly for an unregistered id.
    pub fn trip_status(&self, t: TripId) -> (r: Result<TripStatus, SimError>)
        ensures
            t < self.trips.trips@.len()
                ==> r == Ok::<TripStatus, SimError>(self.trips.trips@[t as int].status),
            t >= self.trips.trips@.len()
                ==> r == Err::<TripStatus, SimError>(SimError::UnknownTrip),
    {
        self.trips.trip_status(t)
    }

    /// The agent serving a trip, or why there is none: `TripDoesntExist`
    /// exactly for a never-registered id, `TripDone` for the normal
    /// terminal state.
    pub fn trip_to_agent(&self, t: TripId) -> (r: TripResult)
        ensures
            t >= self.trips.trips@.len() ==> r == TripResult::TripDoesntExist,
            t < self.trips.trips@.len() ==> r == match self.trips.trips@[t as int].status {
                TripStatus::NotStarted => TripResult::TripNotStarted,
                TripStatus::InProgress(a) => TripResult::TripInProgress(a),
                TripStatus::ModeChange => TripResult::ModeChange,
                TripStatus::Done => TripResult::TripDone,
            },
    {
        if t >= self.trips.trips.len() {
            return TripResult::TripDoesntExist;
        }
        match self.trips.trips[t].status {
            TripStatus::NotStarted => TripResult::TripNotStarted,
            TripStatus::InProgress(a) => TripResult::TripInProgress(a),
            TripStatus::ModeChange => TripResult::ModeChange,
            TripStatus::Done => TripResult::TripDone,
        }
    }

    /// Departure time, origin, destination and (first-leg) mode of a trip;
    /// `UnknownTrip` exactly for an unregistered id.
    pub fn trip_info(&self, t: TripId) -> (r: Result<(Time, TripEndpoint, TripEndpoint, TravelMode), SimError>)
        requires
            self.wf(),
        ensures
            t < self.trips.trips@.len() ==> r == Ok::<_, SimError>((
                self.trips.trips@[t as int].depart,
                self.trips.trips@[t as int].spec_origin(),
                self.trips.trips@[t as int].spec_destination(),
                self.trips.trips@[t as int].spec_mode(),
            )),
            t >= self.trips.trips@.len() ==> r == Err::<(Time, TripEndpoint, TripEndpoint, TravelMode), SimError>(SimError::UnknownTrip),
    {
        if t >= self.trips.trips.len() {
            return Err(SimError::UnknownTrip);
        }
        let tr = &self.trips.trips[t];
        let n = tr.legs.len();
        assert(n > 0);
        Ok((tr.depart, tr.legs[0].from, tr.legs[n - 1].to, tr.legs[0].mode))
    }

    /// The person record behind an id, if registered.
    pub fn get_person(&self, p: PersonId) -> (r: Option<&Person>)
        ensures
            p < self.trips.persons@.len() ==> r is Some
                && *r->0 == self.trips.persons@[p as int],
            p >= self.trips.persons@.len() ==> r is None,
    {
        if p < self.trips.persons.len() {
            Some(&self.trips.persons[p])
        } else {
            None
        }
    }

    /// The ordered itinerary of a person.
    pub fn trips_for_person(&self, p: PersonId) -> (r: Result<Vec<TripId>, SimError>)
        ensures
            p < self.trips.persons@.len() ==> r is Ok
                && r->Ok_0@ =~= self.trips.persons@[p as int].trips@,
            p >= self.trips.persons@.len()
                ==> r == Err::<Vec<TripId>, SimError>(SimError::UnknownTrip),
    {
        self.trips.trips_for_person(p)
    }

    /// The people whose home is building `b`, in ascending id order.
    pub fn bldg_to_people(&self, b: BuildingId) -> (r: Vec<PersonId>)
        ensures
            forall|p: usize| r@.contains(p)
                <==> (p < self.trips.persons@.len()
                    && self.trips.persons@[p as int].home == Some(b)),
            forall|i: int, j: int| 0 <= i < j < r@.len() ==> r@[i] < r@[j],
    {
        let mut out: Vec<PersonId> = Vec::new();
        let mut p: usize = 0;
        while p < self.trips.persons.len()
            invariant
                p <= self.trips.persons@.len(),
                forall|x: usize| out@.contains(x)
                    <==> (x < p && self.trips.persons@[x as int].home == Some(b)),
                forall|i: int, j: int| 0 <= i < j < out@.len() ==> out@[i] < out@[j],
                forall|i: int| 0 <= i < out@.len() ==> (#[trigger] out@[i]) < p,
            decreases self.trips.persons@.len() - p,
        {
            let is_home = match self.trips.persons[p].home {
                Some(hb) => hb == b,
                None => false,
            };
            if is_home {
                let ghost pre = out@;
                out.push(p);
                proof {
                    assert(out@[out@.len() - 1] == p);
                    assert forall|x: usize| out@.contains(x)
                        implies (x < p + 1 && self.trips.persons@[x as int].home == Some(b)) by {
                        let idx = choose|idx: int| 0 <= idx < out@.len() && out@[idx] == x;
                        if idx < pre.len() {
                            assert(pre.contains(x));
                        }
                    }
                    assert forall|x: usize| (x < p + 1
                        && self.trips.persons@[x as int].home == Some(b))
                        implies out@.contains(x) by {
                        if x < p {
                            assert(pre.contains(x));
                            let idx = choose|idx: int| 0 <= idx < pre.len() && pre[idx] == x;
                            assert(out@[idx] == x);
                        } else {
                            assert(out@[out@.len() - 1] == x);
                        }
                    }
                }
            } else {
                proof {
                    assert forall|x: usize| out@.contains(x)
                        implies (x < p + 1 && self.trips.persons@[x as int].home == Some(b)) by {}
                }
            }
            p = p + 1;
        }
        out
    }

    /// The parked vehicles owned via building `b`, in parking order.
    pub fn get_parked_cars_by_owner(&self, b: BuildingId) -> (r: Vec<ParkedVehicle>)
        ensures
            r@ =~= self.trips.parked@.filter(|pv: ParkedVehicle| pv.bldg == b),
    {
        self.trips.parked_at(b)
    }

    /// Whether intersection `i` currently holds a request that has waited at
    /// least `threshold`.
    pub open spec fn spec_is_delayed(&self, i: int, threshold: TimeDelta) -> bool {
        exists|k: int| 0 <= k < self.intersections@[i].queue@.len()
            && self.scheduler.spec_now()
                - (#[trigger] self.intersections@[i].queue@[k]).since >= threshold
    }

    /// Exactly the intersections where some currently queued request's
    /// elapsed wait has reached `threshold` at this instant, in ascending
    /// id order.
    pub fn delayed_intersections(&self, threshold: TimeDelta) -> (r: Vec<IntersectionId>)
        requires
            self.wf(),
        ensures
            forall|i: usize| r@.contains(i)
                <==> (i < self.intersections@.len() && self.spec_is_delayed(i as int, threshold)),
            forall|i: int, j: int| 0 <= i < j < r@.len() ==> r@[i] < r@[j],
    {
        let now = self.scheduler.now();
        let mut out: Vec<IntersectionId> = Vec::new();
        let mut i: usize = 0;
        while i < self.intersections.len()
            invariant
                self.wf(),
                now == self.scheduler.spec_now(),
                i <= self.intersections@.len(),
                forall|x: usize| out@.contains(x)
                    <==> (x < i && self.spec_is_delayed(x as int, threshold)),
                forall|a: int, b2: int| 0 <= a < b2 < out@.len() ==> out@[a] < out@[b2],
                forall|a: int| 0 <= a < out@.len() ==> (#[trigger] out@[a]) < i,
            decreases self.intersections@.len() - i,
        {
            let delayed = self.intersections[i].has_delayed(now, threshold);
            if delayed {
                let ghost pre = out@;
                out.push(i);
                proof {
                    assert(out@[out@.len() - 1] == i);
                    assert forall|x: usize| out@.contains(x)
                        implies (x < i + 1 && self.spec_is_delayed(x as int, threshold)) by {
                        let idx = choose|idx: int| 0 <= idx < out@.len() && out@[idx] == x;
                        if idx < pre.len() {
                            assert(pre.contains(x));
                        }
                    }
                    assert forall|x: usize| (x < i + 1 && self.spec_is_delayed(x as int, threshold))
                        implies out@.contains(x) by {
                        if x < i {
                            assert(pre.contains(x));
                            let idx = choose|idx: int| 0 <= idx < pre.len() && pre[idx] == x;
                            assert(out@[idx] == x);
                        } else {
                            assert(out@[out@.len() - 1] == x);
                        }
                    }
                }
            } else {
                proof {
                    assert forall|x: usize| out@.contains(x)
                        implies (x < i + 1 && self.spec_is_delayed(x as int, threshold)) by {}
                }
            }
            i = i + 1;
        }
        out
    }

    /// Per-status counts of the trips touching `endpoint` (as origin or
    /// destination).
    pub fn count_trips(&self, endpoint: TripEndpoint) -> (r: TripCount)
        requires
            self.wf(),
        ensures
            r.not_started as int == self.trips.trips@.filter(
                |tr: Trip| trip_touches(tr, endpoint) && tr.status is NotStarted).len(),
            r.in_progress as int == self.trips.trips@.filter(
                |tr: Trip| trip_touches(tr, endpoint) && tr.status is InProgress).len(),
            r.mode_change as int == self.trips.trips@.filter(
                |tr: Trip| trip_touches(tr, endpoint) && tr.status is ModeChange).len(),
            r.done as int == self.trips.trips@.filter(
                |tr: Trip| trip_touches(tr, endpoint) && tr.status is Done).len(),
    {
        let mut c = TripCount { not_started: 0, in_progress: 0, mode_change: 0, done: 0 };
        let mut t: usize = 0;
        while t < self.trips.trips.len()
            invariant
                self.wf(),
                t <= self.trips.trips@.len(),
                c.not_started as int == self.trips.trips@.take(t as int).filter(
                    |tr: Trip| trip_touches(tr, endpoint) && tr.status is NotStarted).len(),
                c.in_progress as int == self.trips.trips@.take(t as int).filter(
                    |tr: Trip| trip_touches(tr, endpoint) && tr.status is InProgress).len(),
                c.mode_change as int == self.trips.trips@.take(t as int).filter(
                    |tr: Trip| trip_touches(tr, endpoint) && tr.status is ModeChange).len(),
                c.done as int == self.trips.trips@.take(t as int).filter(
                    |tr: Trip| trip_touches(tr, endpoint) && tr.status is Done).len(),
            decreases self.trips.trips@.len() - t,
        {
            proof {
                broadcast use Seq::lemma_filter_push;
                assert(self.trips.trips@.take(t + 1)
                    =~= self.trips.trips@.take(t as int).push(self.trips.trips@[t as int]));
            }
            let tr = &self.trips.trips[t];
            let n = tr.legs.len();
            proof {
                assert(self.trips.trips@[t as int].wf());
            }
            let touches = eq_endpoint(tr.legs[0].from, endpoint)
                || eq_endpoint(tr.legs[n - 1].to, endpoint);
            proof {
                assert(touches == trip_touches(self.trips.trips@[t as int], endpoint));
            }
            if touches {
                match tr.status {
                    TripStatus::NotStarted => {
                        c.not_started = c.not_started + 1;
                    },
                    TripStatus::InProgress(_) => {
                        c.in_progress = c.in_progress + 1;
                    },
                    TripStatus::ModeChange => {
                        c.mode_change = c.mode_change + 1;
                    },
                    TripStatus::Done => {
                        c.done = c.done + 1;
                    },
                }
            }
            t = t + 1;
        }
        proof {
            assert(self.trips.trips@.take(self.trips.trips@.len() as int) =~= self.trips.trips@);
        }
        c
    }
    /// The departure time and mode of the next trip of person `p` still to
    /// start, scanning the itinerary in order: completed trips are skipped,
    /// a trip under way means no upcoming departure to report, and
    /// `UnknownTrip` flags an unregistered person id.
    pub fn next_trip_for_person(&self, p: PersonId) -> (r: Result<
        Option<(Time, TravelMode)>,
        SimError,
    >)
        requires
            self.wf(),
        ensures
            p >= self.trips.persons@.len()
                ==> r == Err::<Option<(Time, TravelMode)>, SimError>(SimError::UnknownTrip),
            p < self.trips.persons@.len() ==> r == Ok::<Option<(Time, TravelMode)>, SimError>(
                spec_next_trip(self.trips.trips@, self.trips.persons@[p as int].trips@)),
    {
        if p >= self.trips.persons.len() {
            return Err(SimError::UnknownTrip);
        }
        let its = &self.trips.persons[p].trips;
        let ghost its0 = its@;
        proof {
            assert(its0.subrange(0, its0.len() as int) =~= its0);
        }
        let mut k: usize = 0;
        while k < its.len()
            invariant
                self.wf(),
                p < self.trips.persons@.len(),
                its0 == self.trips.persons@[p as int].trips@,
                its0 == its@,
                k <= its0.len(),
                spec_next_trip(self.trips.trips@, its0)
                    == spec_next_trip(self.trips.trips@, its0.subrange(k as int, its0.len() as int)),
            decreases its0.len() - k,
        {
            proof {
                let tail = its0.subrange(k as int, its0.len() as int);
                assert(tail[0] == its0[k as int]);
                assert(tail.subrange(1, tail.len() as int)
                    =~= its0.subrange(k + 1, its0.len() as int));
            }
            let t = its[k];
            if t >= self.trips.trips.len() {
                return Ok(None);
            }
            match self.trips.trips[t].status {
                TripStatus::Done => {},
                TripStatus::NotStarted => {
                    let tr = &self.trips.trips[t];
                    proof {
                        assert(self.trips.trips@[t as int].wf());
                    }
                    return Ok(Some((tr.depart, tr.legs[0].mode)));
                },
                _ => {
                    return Ok(None);
                },
            }
            k = k + 1;
        }
        proof {
            assert(its0.subrange(its0.len() as int, its0.len() as int)
                =~= Seq::<TripId>::empty());
        }
        Ok(None)
    }

    /// Schedule an event if the sequence counter still has room; the time
    /// never lies in the past, so nothing else can fail.
    fn schedule_guarded(&mut self, time: Time, kind: EventKind)
        requires
            old(self).scheduler.wf(),
            time >= old(self).scheduler.spec_now(),
        ensures
            final(self).scheduler.wf(),
            final(self).scheduler.spec_now() == old(self).scheduler.spec_now(),
            final(self).scheduler.history() == old(self).scheduler.history(),
            final(self).network == old(self).network,
            final(self).intersections == old(self).intersections,
            final(self).trips == old(self).trips,
            final(self).agents == old(self).agents,
            old(self).scheduler.spec_next_seq() < u64::MAX ==> {
                &&& final(self).scheduler.pending_events()
                    =~= old(self).scheduler.pending_events().push(
                        Event { time, seq: old(self).scheduler.spec_next_seq(), kind })
                &&& final(self).scheduler.spec_next_seq()
                    == old(self).scheduler.spec_next_seq() + 1
            },
            old(self).scheduler.spec_next_seq() == u64::MAX
                ==> final(self).scheduler == old(self).scheduler,
    {
        if self.scheduler.seq_counter() < u64::MAX {
            let r = self.scheduler.schedule(time, kind);
            proof {
                assert(r is Ok);
            }
        }
    }

    /// Swap agent `a` out of the table (replaced by an inert archived
    /// agent), returning it.
    fn take_agent(&mut self, a: AgentId) -> (ag: Agent)
        requires
            a < old(self).agents@.len(),
        ensures
            ag == old(self).agents@[a as int],
            final(self).agents@ =~= old(self).agents@.update(a as int, final(self).agents@[a as int]),
            final(self).agents@.len() == old(self).agents@.len(),
            final(self).scheduler == old(self).scheduler,
            final(self).network == old(self).network,
            final(self).intersections == old(self).intersections,
            final(self).trips == old(self).trips,
    {
        let mut ag = Agent {
            trip: 0,
            mode: TravelMode::Pedestrian,
            route: Vec::new(),
            pos: 0,
            state: AgentState::Finished,
            holding: None,
            route_version: 0,
        };
        self.agents.set_and_swap(a, &mut ag);
        ag
    }

    /// Advance agent `a` (freshly granted the turn it asked for, or woken by
    /// promotion) onto the next lane of its route, holding `grant` until the
    /// lane is finished, and schedule its arrival there. An id that no
    /// longer names a live agent positioned before a next lane is ignored.
    fn advance_agent(&mut self, a: AgentId, grant: Option<(IntersectionId, usize)>)
        requires
            old(self).wf(),
        ensures
            final(self).wf(),
            final(self).trips == old(self).trips,
            final(self).network == old(self).network,
            final(self).intersections == old(self).intersections,
            final(self).scheduler.spec_now() == old(self).scheduler.spec_now(),
            final(self).scheduler.history() == old(self).scheduler.history(),
            final(self).agents@.len() == old(self).agents@.len(),
    {
        if a >= self.agents.len() {
            return;
        }
        let mut ag = self.take_agent(a);
        match ag.state {
            AgentState::Finished => {
                self.agents.set(a, ag);
                return;
            },
            _ => {},
        }
        if ag.route.len() == 0 || ag.pos >= ag.route.len() - 1 {
            self.agents.set(a, ag);
            return;
        }
        ag.pos = ag.pos + 1;
        ag.state = AgentState::Moving;
        ag.holding = grant;
        let lane = ag.route[ag.pos];
        let tt: TimeDelta = if lane < self.network.lanes.len() {
            self.network.lanes[lane].travel_time
        } else {
            1
        };
        self.agents.set(a, ag);
        let when = sat_add(self.scheduler.now(), tt);
        self.schedule_guarded(when, EventKind::AgentStep(a));
    }

    /// Release whatever grant `agent` holds at intersection `ii`, promote
    /// waiting requests in arrival order, and advance every newly granted
    /// agent.
    fn release_and_promote(&mut self, ii: IntersectionId, agent: AgentId)
        requires
            old(self).wf(),
            ii < old(self).intersections@.len(),
        ensures
            final(self).wf(),
            final(self).trips == old(self).trips,
            final(self).network == old(self).network,
            final(self).scheduler.spec_now() == old(self).scheduler.spec_now(),
            final(self).scheduler.history() == old(self).scheduler.history(),
            final(self).intersections@.len() == old(self).intersections@.len(),
            final(self).agents@.len() == old(self).agents@.len(),
            forall|j: int| 0 <= j < old(self).intersections@.len()
                ==> (#[trigger] final(self).intersections@[j]).n_turns
                        == old(self).intersections@[j].n_turns,
    {
        let mut ctrl = placeholder_ctrl();
        self.intersections.set_and_swap(ii, &mut ctrl);
        ctrl.release_turn(agent);
        let newly = ctrl.promote();
        proof {
            assert forall|k: int| 0 <= k < ctrl.queue@.len()
                implies (#[trigger] ctrl.queue@[k]).since <= self.scheduler.spec_now() by {
                let m = choose|m: int| 0 <= m < old(self).intersections@[ii as int].queue@.len()
                    && ctrl.queue@[k] == old(self).intersections@[ii as int].queue@[m];
                assert(old(self).intersections@[ii as int].queue@[m].since
                    <= old(self).scheduler.spec_now());
            }
        }
        self.intersections.set(ii, ctrl);
        proof {
            assert(self.wf()) by {
                assert forall|j: int, k: int| 0 <= j < self.intersections@.len()
                    && 0 <= k < self.intersections@[j].queue@.len()
                    implies (#[trigger] self.intersections@[j].queue@[k]).since
                        <= self.scheduler.spec_now() by {
                    if j != ii as int {
                        assert(self.intersections@[j] == old(self).intersections@[j]);
                    }
                }
            }
        }
        let mut k: usize = 0;
        while k < newly.len()
            invariant
                self.wf(),
                self.trips == old(self).trips,
                self.network == old(self).network,
                self.scheduler.spec_now() == old(self).scheduler.spec_now(),
                self.scheduler.history() == old(self).scheduler.history(),
                self.intersections@.len() == old(self).intersections@.len(),
                self.agents@.len() == old(self).agents@.len(),
                forall|j: int| 0 <= j < old(self).intersections@.len()
                    ==> (#[trigger] self.intersections@[j]).n_turns
                            == old(self).intersections@[j].n_turns,
            decreases newly@.len() - k,
        {
            let (ag, turn) = newly[k];
            self.advance_agent(ag, Some((ii, turn)));
            k = k + 1;
        }
    }
    /// The index of a turn from lane `from` to lane `to`, if one exists.
    fn find_turn(&self, from: LaneId, to: LaneId) -> (r: Option<usize>)
        ensures
            match r {
                Some(ti) => ti < self.network.turns@.len()
                    && self.network.turns@[ti as int].from == from
                    && self.network.turns@[ti as int].to == to,
                None => forall|t: int| 0 <= t < self.network.turns@.len()
                    ==> !((#[trigger] self.network.turns@[t]).from == from
                        && self.network.turns@[t].to == to),
            },
    {
        let mut ti: usize = 0;
        while ti < self.network.turns.len()
            invariant
                ti <= self.network.turns@.len(),
                forall|t: int| 0 <= t < ti
                    ==> !((#[trigger] self.network.turns@[t]).from == from
                        && self.network.turns@[t].to == to),
            decreases self.network.turns@.len() - ti,
        {
            let tn = self.network.turns[ti];
            if tn.from == from && tn.to == to {
                return Some(ti);
            }
            ti = ti + 1;
        }
        None
    }

    /// Mark trip `trip` Done with the could-not-complete annotation and
    /// archive its agent: the containment of a routing or capacity failure
    /// to one trip.
    fn abort_trip(&mut self, a: AgentId, trip: TripId)
        requires
            old(self).wf(),
            trip < old(self).trips.trips@.len(),
            !(old(self).trips.trips@[trip as int].status is Done),
        ensures
            final(self).wf(),
            trips_reach(old(self).trips.trips@, final(self).trips.trips@),
            final(self).trips.trips@[trip as int].status is Done,
            final(self).trips.trips@[trip as int].aborted,
            final(self).trips.trips@.len() == old(self).trips.trips@.len(),
            final(self).agents@.len() == old(self).agents@.len(),
            forall|x: int| 0 <= x < old(self).trips.trips@.len() && x != trip
                ==> final(self).trips.trips@[x] == old(self).trips.trips@[x],
            final(self).scheduler == old(self).scheduler,
            final(self).network == old(self).network,
            final(self).intersections == old(self).intersections,
    {
        self.trips.complete(trip, true);
        if a < self.agents.len() {
            let mut ag = self.take_agent(a);
            ag.state = AgentState::Finished;
            self.agents.set(a, ag);
        }
        proof {
            lemma_step_implies_reachable(
                old(self).trips.trips@[trip as int].status,
                self.trips.trips@[trip as int].status);
        }
    }

    /// A leg of trip `trip` has arrived at its endpoint: park the vehicle if
    /// this was a car leg ending at a building, then either move to the next
    /// leg (ModeChange, with the next leg's start scheduled now) or mark the
    /// whole trip Done.
    fn finish_leg(&mut self, a: AgentId, trip: TripId)
        requires
            old(self).wf(),
            trip < old(self).trips.trips@.len(),
            old(self).trips.trips@[trip as int].status is InProgress,
        ensures
            final(self).wf(),
            trips_reach(old(self).trips.trips@, final(self).trips.trips@),
            final(self).scheduler.spec_now() == old(self).scheduler.spec_now(),
            final(self).scheduler.history() == old(self).scheduler.history(),
            final(self).network == old(self).network,
            final(self).intersections == old(self).intersections,
            final(self).trips.trips@.len() == old(self).trips.trips@.len(),
            final(self).agents@.len() == old(self).agents@.len(),
            forall|x: int| 0 <= x < old(self).trips.trips@.len() && x != trip
                ==> final(self).trips.trips@[x] == old(self).trips.trips@[x],
            (if old(self).trips.trips@[trip as int].current_leg + 1
                < old(self).trips.trips@[trip as int].legs@.len() {
                final(self).trips.trips@[trip as int].status is ModeChange
            } else {
                final(self).trips.trips@[trip as int].status is Done
                    && !final(self).trips.trips@[trip as int].aborted
            }),
            ({
                let tr = old(self).trips.trips@[trip as int];
                let leg = tr.legs@[tr.current_leg as int];
                match (leg.mode, leg.to) {
                    (TravelMode::Car, TripEndpoint::Bldg(b)) =>
                        final(self).trips.parked@.len() == old(self).trips.parked@.len() + 1
                            && final(self).trips.parked@.last().owner == tr.person
                            && final(self).trips.parked@.last().bldg == b,
                    _ => final(self).trips.parked@ == old(self).trips.parked@,
                }
            }),
    {
        let cl = self.trips.trips[trip].current_leg;
        let legs_len = self.trips.trips[trip].legs.len();
        proof {
            assert(old(self).trips.trips@[trip as int].wf());
        }
        let leg = self.trips.trips[trip].legs[cl];
        if leg.mode == TravelMode::Car {
            match leg.to {
                TripEndpoint::Bldg(b) => {
                    let owner = self.trips.trips[trip].person;
                    self.trips.park_vehicle(owner, b);
                },
                _ => {},
            }
        }
        if a < self.agents.len() {
            let mut ag = self.take_agent(a);
            ag.state = AgentState::Finished;
            self.agents.set(a, ag);
        }
        if cl + 1 < legs_len {
            self.trips.mode_change(trip);
            proof {
                lemma_step_implies_reachable(
                    old(self).trips.trips@[trip as int].status,
                    self.trips.trips@[trip as int].status);
            }
            let now = self.scheduler.now();
            self.schedule_guarded(now, EventKind::TripStart(trip));
        } else {
            self.trips.complete(trip, false);
            proof {
                lemma_step_implies_reachable(
                    old(self).trips.trips@[trip as int].status,
                    self.trips.trips@[trip as int].status);
            }
        }
    }

    /// Recompute the route of agent `a` of trip `trip` against the edited
    /// network, from its current lane to its leg's destination. A failed
    /// computation marks the trip Done (could not complete) rather than
    /// faulting the engine.
    fn reroute_agent(&mut self, a: AgentId, trip: TripId)
        requires
            old(self).wf(),
            a < old(self).agents@.len(),
            trip < old(self).trips.trips@.len(),
            old(self).trips.trips@[trip as int].status is InProgress,
        ensures
            final(self).wf(),
            trips_reach(old(self).trips.trips@, final(self).trips.trips@),
            final(self).scheduler.spec_now() == old(self).scheduler.spec_now(),
            final(self).scheduler.history() == old(self).scheduler.history(),
            final(self).network == old(self).network,
            final(self).intersections == old(self).intersections,
            final(self).trips.trips@.len() == old(self).trips.trips@.len(),
            final(self).agents@.len() == old(self).agents@.len(),
            forall|x: int| 0 <= x < old(self).trips.trips@.len() && x != trip
                ==> final(self).trips.trips@[x] == old(self).trips.trips@[x],
            reroute_outcome(*old(self), a as int, trip as int, *final(self)),
    {
        let cl = self.trips.trips[trip].current_leg;
        proof {
            assert(old(self).trips.trips@[trip as int].wf());
        }
        let leg = self.trips.trips[trip].legs[cl];
        let dest = match self.network.endpoint_lane(leg.to) {
            Some(l) => l,
            None => {
                self.abort_trip(a, trip);
                return;
            },
        };
        let pos = self.agents[a].pos;
        let rlen = self.agents[a].route.len();
        if pos >= rlen {
            self.abort_trip(a, trip);
            return;
        }
        let cur = self.agents[a].route[pos];
        if cur >= self.network.lanes.len() {
            self.abort_trip(a, trip);
            return;
        }
        let version = self.network.edit_version;
        match self.network.compute_route(leg.mode, cur, dest) {
            Err(_) => {
                self.abort_trip(a, trip);
            },
            Ok(route) => {
                let mut ag = self.take_agent(a);
                ag.route = route;
                ag.pos = 0;
                ag.route_version = version;
                ag.state = AgentState::Moving;
                self.agents.set(a, ag);
                let now = self.scheduler.now();
                self.schedule_guarded(now, EventKind::AgentStep(a));
            },
        }
    }

    /// Dispatch a trip-start event: begin the trip's current leg. The route
    /// is computed fresh; `NoPath` marks the trip Done (could not complete)
    /// instead of faulting the engine. For a trip awaiting a leg: it becomes
    /// InProgress exactly when both endpoints resolve to lanes and a path
    /// for the leg's mode connects them, and otherwise Done and aborted.
    fn dispatch_trip_start(&mut self, t: TripId)
        requires
            old(self).wf(),
        ensures
            final(self).wf(),
            trips_reach(old(self).trips.trips@, final(self).trips.trips@),
            final(self).scheduler.spec_now() == old(self).scheduler.spec_now(),
            final(self).scheduler.history() == old(self).scheduler.history(),
            final(self).network == old(self).network,
            final(self).intersections == old(self).intersections,
            final(self).agents@.len() >= old(self).agents@.len(),
            trip_start_outcome(*old(self), t as int, *final(self)),
    {
        if t >= self.trips.trips.len() {
            return;
        }
        match self.trips.trips[t].status {
            TripStatus::NotStarted => {},
            TripStatus::ModeChange => {},
            _ => {
                return;
            },
        }
        let cl = self.trips.trips[t].current_leg;
        let legs_len = self.trips.trips[t].legs.len();
        proof {
            assert(old(self).trips.trips@[t as int].wf());
        }
        if cl >= legs_len {
            return;
        }
        let leg = self.trips.trips[t].legs[cl];
        let from_l = match self.network.endpoint_lane(leg.from) {
            Some(l) => l,
            None => {
                self.abort_trip(usize::MAX, t);
                return;
            },
        };
        let to_l = match self.network.endpoint_lane(leg.to) {
            Some(l) => l,
            None => {
                self.abort_trip(usize::MAX, t);
                return;
            },
        };
        let version = self.network.edit_version;
        match self.network.compute_route(leg.mode, from_l, to_l) {
            Err(_) => {
                self.abort_trip(usize::MAX, t);
            },
            Ok(route) => {
                let a = self.agents.len();
                let lane0 = route[0];
                let tt: TimeDelta = self.network.lanes[lane0].travel_time;
                self.agents.push(Agent {
                    trip: t,
                    mode: leg.mode,
                    route,
                    pos: 0,
                    state: AgentState::Moving,
                    holding: None,
                    route_version: version,
                });
                self.trips.begin_leg(t, a);
                proof {
                    lemma_step_implies_reachable(
                        old(self).trips.trips@[t as int].status,
                        self.trips.trips@[t as int].status);
                }
                let now = self.scheduler.now();
                let when = sat_add(now, tt);
                self.schedule_guarded(when, EventKind::AgentStep(a));
            },
        }
    }

    /// Dispatch an agent-step event: the agent has finished traversing its
    /// current lane. It releases the grant it held, and then either arrives
    /// (leg end), recomputes a stale route, or requests the turn into the
    /// next lane: Granted moves it on, Queued parks it waiting (wait clock
    /// running), Denied (structurally banned) aborts the trip.
    fn dispatch_agent_step(&mut self, a: AgentId)
        requires
            old(self).wf(),
        ensures
            final(self).wf(),
            trips_reach(old(self).trips.trips@, final(self).trips.trips@),
            final(self).scheduler.spec_now() == old(self).scheduler.spec_now(),
            final(self).scheduler.history() == old(self).scheduler.history(),
            final(self).network == old(self).network,
            final(self).trips.trips@.len() == old(self).trips.trips@.len(),
            final(self).agents@.len() == old(self).agents@.len(),
            final(self).intersections@.len() == old(self).intersections@.len(),
            a < old(self).agents@.len() && old(self).agents@[a as int].holding is None
                ==> agent_step_core(*old(self), a as int, *final(self)),
    {
        if a >= self.agents.len() {
            return;
        }
        let holding = self.agents[a].holding;
        match holding {
            Some((ii, _)) => {
                let mut ag = self.take_agent(a);
                ag.holding = None;
                self.agents.set(a, ag);
                if ii < self.intersections.len() {
                    self.release_and_promote(ii, a);
                }
            },
            None => {},
        }
        if a >= self.agents.len() {
            return;
        }
        match self.agents[a].state {
            AgentState::Moving => {},
            _ => {
                return;
            },
        }
        let trip = self.agents[a].trip;
        if trip >= self.trips.trips.len() {
            return;
        }
        let mine = match self.trips.trips[trip].status {
            TripStatus::InProgress(x) => x == a,
            _ => false,
        };
        if !mine {
            return;
        }
        let pos = self.agents[a].pos;
        let rlen = self.agents[a].route.len();
        if rlen == 0 || pos >= rlen {
            return;
        }
        if self.agents[a].route_version != self.network.edit_version {
            self.reroute_agent(a, trip);
            return;
        }
        if pos == rlen - 1 {
            self.finish_leg(a, trip);
            return;
        }
        let cur = self.agents[a].route[pos];
        let nxt = self.agents[a].route[pos + 1];
        match self.find_turn(cur, nxt) {
            None => {
                self.abort_trip(a, trip);
            },
            Some(ti) => {
                let tn = self.network.turns[ti];
                let ii = tn.intersection;
                let now = self.scheduler.now();
                let ghost pre_i = self.intersections@;
                let mut ctrl = placeholder_ctrl();
                self.intersections.set_and_swap(ii, &mut ctrl);
                let d = ctrl.request_turn(a, tn.turn_idx, now);
                self.intersections.set(ii, ctrl);
                proof {
                    assert forall|j: int, k: int| 0 <= j < self.intersections@.len()
                        && 0 <= k < self.intersections@[j].queue@.len()
                        implies (#[trigger] self.intersections@[j].queue@[k]).since
                            <= self.scheduler.spec_now() by {
                        if j != ii as int {
                            assert(self.intersections@[j] == pre_i[j]);
                        } else {
                            let oldq = pre_i[ii as int].queue@;
                            if k < oldq.len() {
                                assert(self.intersections@[j].queue@[k] == oldq[k]);
                            }
                        }
                    }
                }
                match d {
                    TurnDecision::Granted => {
                        self.advance_agent(a, Some((ii, tn.turn_idx)));
                    },
                    TurnDecision::Queued => {
                        let mut ag = self.take_agent(a);
                        ag.state = AgentState::Waiting;
                        self.agents.set(a, ag);
                    },
                    TurnDecision::Denied => {
                        self.abort_trip(a, trip);
                    },
                }
            },
        }
    }

    /// Dispatch a signal-timer event: advance the signal's phase, promote
    /// newly admitted turns, wake the granted agents, and reschedule the
    /// timer while any trip is still unfinished.
    fn dispatch_signal_timer(&mut self, i: IntersectionId)
        requires
            old(self).wf(),
        ensures
            final(self).wf(),
            trips_reach(old(self).trips.trips@, final(self).trips.trips@),
            final(self).scheduler.spec_now() == old(self).scheduler.spec_now(),
            final(self).scheduler.history() == old(self).scheduler.history(),
            final(self).network == old(self).network,
            final(self).trips == old(self).trips,
            final(self).agents@.len() == old(self).agents@.len(),
            final(self).intersections@.len() == old(self).intersections@.len(),
    {
        if i >= self.intersections.len() {
            return;
        }
        let mut ctrl = placeholder_ctrl();
        self.intersections.set_and_swap(i, &mut ctrl);
        ctrl.advance_phase();
        let newly = ctrl.promote();
        proof {
            assert forall|k: int| 0 <= k < ctrl.queue@.len()
                implies (#[trigger] ctrl.queue@[k]).since <= self.scheduler.spec_now() by {
                let m = choose|m: int| 0 <= m < old(self).intersections@[i as int].queue@.len()
                    && ctrl.queue@[k] == old(self).intersections@[i as int].queue@[m];
                assert(old(self).intersections@[i as int].queue@[m].since
                    <= old(self).scheduler.spec_now());
            }
        }
        let dur = ctrl.phase_duration();
        self.intersections.set(i, ctrl);
        proof {
            assert forall|j: int, k: int| 0 <= j < self.intersections@.len()
                && 0 <= k < self.intersections@[j].queue@.len()
                implies (#[trigger] self.intersections@[j].queue@[k]).since
                    <= self.scheduler.spec_now() by {
                if j != i as int {
                    assert(self.intersections@[j] == old(self).intersections@[j]);
                }
            }
        }
        let mut k: usize = 0;
        while k < newly.len()
            invariant
                self.wf(),
                trips_reach(old(self).trips.trips@, self.trips.trips@),
                self.trips == old(self).trips,
                self.network == old(self).network,
                self.scheduler.spec_now() == old(self).scheduler.spec_now(),
                self.scheduler.history() == old(self).scheduler.history(),
                self.agents@.len() == old(self).agents@.len(),
                self.intersections@.len() == old(self).intersections@.len(),
            decreases newly@.len() - k,
        {
            let (ag, turn) = newly[k];
            self.advance_agent(ag, Some((i, turn)));
            k = k + 1;
        }
        match dur {
            Some(d) => {
                let still_running = !self.all_trips_done();
                if still_running {
                    let now = self.scheduler.now();
                    let when = sat_add(now, d);
                    self.schedule_guarded(when, EventKind::SignalTimer(i));
                }
            },
            None => {},
        }
    }

    /// Dispatch one event to its handler.
    fn dispatch(&mut self, e: Event)
        requires
            old(self).wf(),
        ensures
            final(self).wf(),
            dispatch_post(*old(self), e, *final(self)),
    {
        match e.kind {
            EventKind::TripStart(t) => self.dispatch_trip_start(t),
            EventKind::AgentStep(a) => self.dispatch_agent_step(a),
            EventKind::SignalTimer(i) => self.dispatch_signal_timer(i),
        }
    }

    /// Pop and dispatch every event due at or before `target`, in (time,
    /// sequence) order, advancing the clock monotonically; stop early after
    /// `max_steps` dispatches (partial advancement, resumable). Complete
    /// means the clock reached `target` and nothing due remains; either way
    /// the engine stays consistent, the clock never moves backward, and
    /// every trip status moves only forward along its lifecycle.
    #[verifier::rlimit(100)]
    pub fn advance_to(&mut self, target: Time, max_steps: usize) -> (r: AdvanceStatus)
        requires
            old(self).wf(),
        ensures
            final(self).wf(),
            trips_reach(old(self).trips.trips@, final(self).trips.trips@),
            final(self).scheduler.spec_now() >= old(self).scheduler.spec_now(),
            final(self).network == old(self).network,
            r == AdvanceStatus::Complete ==> {
                &&& final(self).scheduler.spec_now()
                    == if target > old(self).scheduler.spec_now() {
                        target
                    } else {
                        old(self).scheduler.spec_now()
                    }
                &&& forall|k: int| 0 <= k < final(self).scheduler.pending_events().len()
                    ==> (#[trigger] final(self).scheduler.pending_events()[k]).time > target
            },
            r == AdvanceStatus::Paused ==> final(self).scheduler.history().len()
                == old(self).scheduler.history().len() + max_steps,
            r == AdvanceStatus::Complete ==> exists|trace: Seq<Sim>|
                #[trigger] advance_chain(*old(self), target, trace)
                    && clock_closed(trace.last(), target, *final(self)),
            r == AdvanceStatus::Paused ==> exists|trace: Seq<Sim>|
                #[trigger] advance_chain(*old(self), target, trace)
                    && trace.last() == *final(self) && trace.len() == max_steps + 1,
    {
        let mut steps: usize = 0;
        let ghost mut trace: Seq<Sim> = seq![*old(self)];
        while steps < max_steps
            invariant
                self.wf(),
                trips_reach(old(self).trips.trips@, self.trips.trips@),
                self.scheduler.spec_now() >= old(self).scheduler.spec_now(),
                self.network == old(self).network,
                steps <= max_steps,
                self.scheduler.history().len()
                    == old(self).scheduler.history().len() + steps,
                self.scheduler.spec_now() <= target
                    || self.scheduler.spec_now() == old(self).scheduler.spec_now(),
                trace.len() == steps + 1,
                advance_chain(*old(self), target, trace),
                trace.last() == *self,
            decreases max_steps - steps,
        {
            let ghost pre_state = *self;
            let popped = self.scheduler.pop_due(target);
            match popped {
                None => {
                    self.scheduler.advance_clock(target);
                    proof {
                        assert(clock_closed(trace.last(), target, *self));
                    }
                    return AdvanceStatus::Complete;
                },
                Some(e) => {
                    let ghost mid_state = *self;
                    proof {
                        assert(popped_min(pre_state, target, e, mid_state));
                    }
                    let ghost mid = self.trips.trips@;
                    self.dispatch(e);
                    proof {
                        lemma_trips_reach_trans(old(self).trips.trips@, mid, self.trips.trips@);
                        let prev = trace;
                        trace = trace.push(*self);
                        assert(trace[0] == prev[0]);
                        assert(trace.last() == *self);
                        assert(chain_step(pre_state, target, *self)) by {
                            reveal(chain_step);
                            assert(popped_min(pre_state, target, e, mid_state)
                                && dispatch_post(mid_state, e, *self));
                        }
                        assert forall|i: int| 0 <= i < trace.len() - 1
                            implies chain_step(#[trigger] trace[i], target, trace[i + 1]) by {
                            if i < prev.len() - 1 {
                                assert(trace[i] == prev[i]);
                                assert(trace[i + 1] == prev[i + 1]);
                            } else {
                                assert(trace[i] == pre_state);
                                assert(trace[i + 1] == *self);
                            }
                        }
                    }
                },
            }
            steps = steps + 1;
        }
        AdvanceStatus::Paused
    }

    /// Seed the engine from a scenario: register its people and trips (all
    /// NotStarted) and schedule each trip's start at its departure time and
    /// every signal's first phase-timer event. The engine must be in the
    /// pre-instantiation state.
    pub fn instantiate(&mut self, scenario: &Scenario)
        requires
            old(self).wf(),
            scenario.wf(),
            old(self).scheduler.spec_now() == 0,
            old(self).scheduler.pending_events().len() == 0,
            old(self).scheduler.spec_next_seq() == 0,
            old(self).trips.trips@.len() == 0,
            old(self).trips.persons@.len() == 0,
            old(self).agents@.len() == 0,
            scenario.trips@.len() + old(self).intersections@.len() < u64::MAX,
        ensures
            final(self).wf(),
            final(self).scheduler.spec_now() == 0,
            final(self).network == old(self).network,
            final(self).intersections == old(self).intersections,
            final(self).scheduler.pending_events() =~= trip_start_events(scenario)
                + signal_timer_events(
                    old(self).intersections@,
                    0,
                    scenario.trips@.len() as nat,
                ),
            final(self).trips.persons@.len() == scenario.persons@.len(),
            final(self).trips.trips@.len() == scenario.trips@.len(),
            forall|t: int| 0 <= t < scenario.trips@.len() ==> {
                &&& (#[trigger] final(self).trips.trips@[t]).status is NotStarted
                &&& final(self).trips.trips@[t].person == scenario.trips@[t].person
                &&& final(self).trips.trips@[t].depart == scenario.trips@[t].depart
                &&& final(self).trips.trips@[t].legs@ =~= scenario.trips@[t].legs@
            },
    {
        let mut p: usize = 0;
        while p < scenario.persons.len()
            invariant
                old(self).wf(),
                scenario.wf(),
                self.wf(),
                p <= scenario.persons@.len(),
                self.scheduler == old(self).scheduler,
                self.network == old(self).network,
                self.intersections == old(self).intersections,
                self.agents == old(self).agents,
                self.trips.trips@.len() == 0,
                self.trips.persons@.len() == p,
            decreases scenario.persons@.len() - p,
        {
            let home = scenario.persons[p].home;
            let _ = self.trips.add_person(home);
            p = p + 1;
        }
        proof {
            assert(trip_start_events(scenario).take(0) =~= Seq::<Event>::empty());
        }
        let mut t: usize = 0;
        while t < scenario.trips.len()
            invariant
                old(self).wf(),
                scenario.wf(),
                self.wf(),
                t <= scenario.trips@.len(),
                self.scheduler.wf(),
                self.scheduler.spec_now() == 0,
                self.network == old(self).network,
                self.intersections == old(self).intersections,
                self.trips.persons@.len() == scenario.persons@.len(),
                self.trips.trips@.len() == t,
                scenario.trips@.len() + old(self).intersections@.len() < u64::MAX,
                self.scheduler.spec_next_seq() == t as u64,
                self.scheduler.pending_events() =~= trip_start_events(scenario).take(t as int),
                forall|j: int| 0 <= j < t ==> {
                    &&& (#[trigger] self.trips.trips@[j]).status is NotStarted
                    &&& self.trips.trips@[j].person == scenario.trips@[j].person
                    &&& self.trips.trips@[j].depart == scenario.trips@[j].depart
                    &&& self.trips.trips@[j].legs@ =~= scenario.trips@[j].legs@
                },
            decreases scenario.trips@.len() - t,
        {
            let st = &scenario.trips[t];
            let mut legs: Vec<crate::trips::TripLeg> = Vec::new();
            let mut li: usize = 0;
            while li < st.legs.len()
                invariant
                    li <= st.legs@.len(),
                    legs@ =~= st.legs@.take(li as int),
                decreases st.legs@.len() - li,
            {
                legs.push(st.legs[li]);
                li = li + 1;
            }
            proof {
                assert(st.legs@.take(st.legs@.len() as int) =~= st.legs@);
            }
            let depart = st.depart;
            let tid = self.trips.add_trip(st.person, depart, legs);
            self.schedule_guarded(depart, EventKind::TripStart(tid));
            proof {
                assert(trip_start_events(scenario).take(t + 1)
                    =~= trip_start_events(scenario).take(t as int).push(
                        trip_start_events(scenario)[t as int]));
            }
            t = t + 1;
        }
        proof {
            assert(trip_start_events(scenario).take(scenario.trips@.len() as int)
                =~= trip_start_events(scenario));
        }
        let ghost isects0 = self.intersections@;
        let ghost n0 = scenario.trips@.len() as nat;
        let ghost mut acc: Seq<Event> = Seq::empty();
        let mut i: usize = 0;
        while i < self.intersections.len()
            invariant
                self.wf(),
                i <= self.intersections@.len(),
                self.scheduler.spec_now() == 0,
                self.network == old(self).network,
                self.intersections == old(self).intersections,
                self.intersections@ == isects0,
                n0 == scenario.trips@.len() as nat,
                scenario.trips@.len() + old(self).intersections@.len() < u64::MAX,
                self.scheduler.spec_next_seq() as nat == n0 + acc.len(),
                acc.len() <= i,
                self.scheduler.pending_events() =~= trip_start_events(scenario) + acc,
                signal_timer_events(isects0, 0, n0) =~= acc + signal_timer_events(
                    isects0,
                    i as nat,
                    self.scheduler.spec_next_seq() as nat,
                ),
                self.trips.persons@.len() == scenario.persons@.len(),
                self.trips.trips@.len() == scenario.trips@.len(),
                forall|j: int| 0 <= j < scenario.trips@.len() ==> {
                    &&& (#[trigger] self.trips.trips@[j]).status is NotStarted
                    &&& self.trips.trips@[j].person == scenario.trips@[j].person
                    &&& self.trips.trips@[j].depart == scenario.trips@[j].depart
                    &&& self.trips.trips@[j].legs@ =~= scenario.trips@[j].legs@
                },
            decreases self.intersections@.len() - i,
        {
            let ghost seq_pre = self.scheduler.spec_next_seq();
            let dur = self.intersections[i].phase_duration();
            match dur {
                Some(d) => {
                    self.schedule_guarded(d, EventKind::SignalTimer(i));
                    proof {
                        let ev = Event { time: d, seq: seq_pre, kind: EventKind::SignalTimer(i) };
                        let rest = signal_timer_events(
                            isects0, (i + 1) as nat, self.scheduler.spec_next_seq() as nat);
                        assert(signal_timer_events(isects0, i as nat, seq_pre as nat)
                            =~= seq![ev] + rest);
                        assert(acc + (seq![ev] + rest) =~= acc.push(ev) + rest);
                        acc = acc.push(ev);
                    }
                },
                None => {
                    proof {
                        assert(signal_timer_events(isects0, i as nat, seq_pre as nat)
                            == signal_timer_events(
                                isects0, (i + 1) as nat, seq_pre as nat));
                    }
                },
            }
            i = i + 1;
        }
        proof {
            assert(signal_timer_events(isects0, self.intersections@.len() as nat,
                self.scheduler.spec_next_seq() as nat) =~= Seq::<Event>::empty());
            assert(acc + Seq::<Event>::empty() =~= acc);
        }
    }

    /// Apply one validated edit command to the engine. A command naming an
    /// entity out of range, or an ill-shaped signal table, is ignored.
    fn apply_cmd(&mut self, cmd: EditCmd)
        requires
            old(self).wf(),
        ensures
            final(self).wf(),
            final(self).trips == old(self).trips,
            final(self).scheduler == old(self).scheduler,
            final(self).agents == old(self).agents,
            cmd_applied(
                old(self).network,
                old(self).intersections@,
                cmd,
                final(self).network,
                final(self).intersections@,
            ),
    {
        match cmd {
            EditCmd::ChangeLaneType { lane, new_lane } => {
                if lane < self.network.lanes.len() {
                    self.network.set_lane(lane, new_lane);
                }
            },
            EditCmd::ChangeSpeedLimit { lane, travel_time } => {
                if lane < self.network.lanes.len() {
                    let mut l = self.network.lanes[lane];
                    l.travel_time = travel_time;
                    self.network.set_lane(lane, l);
                }
            },
            EditCmd::ChangeIntersection { i, new } => {
                if i >= self.intersections.len() {
                    return;
                }
                match new {
                    EditIntersection::StopSign => {
                        let mut ctrl = placeholder_ctrl();
                        self.intersections.set_and_swap(i, &mut ctrl);
                        ctrl.set_policy(ControlPolicy::StopSign);
                        self.intersections.set(i, ctrl);
                        proof {
                            assert forall|j: int, k: int| 0 <= j < self.intersections@.len()
                                && 0 <= k < self.intersections@[j].queue@.len()
                                implies (#[trigger] self.intersections@[j].queue@[k]).since
                                    <= self.scheduler.spec_now() by {
                                if j != i as int {
                                    assert(self.intersections@[j] == old(self).intersections@[j]);
                                } else {
                                    assert(self.intersections@[j].queue@[k]
                                        == old(self).intersections@[j].queue@[k]);
                                }
                            }
                        }
                    },
                    EditIntersection::Signal { phase_allowed, phase_len } => {
                        let n_turns = self.intersections[i].n_turns;
                        if phase_allowed.len() == 0 || phase_len == 0 {
                            return;
                        }
                        let mut ok = true;
                        let mut pi: usize = 0;
                        while pi < phase_allowed.len()
                            invariant
                                pi <= phase_allowed@.len(),
                                ok ==> forall|q: int| 0 <= q < pi
                                    ==> (#[trigger] phase_allowed@[q])@.len() == n_turns,
                                !ok ==> exists|q: int| 0 <= q < phase_allowed@.len()
                                    && (#[trigger] phase_allowed@[q])@.len() != n_turns,
                            decreases phase_allowed@.len() - pi,
                        {
                            if phase_allowed[pi].len() != n_turns {
                                ok = false;
                                proof {
                                    assert(phase_allowed@[pi as int]@.len() != n_turns);
                                }
                            }
                            pi = pi + 1;
                        }
                        if !ok {
                            return;
                        }
                        let mut ctrl = placeholder_ctrl();
                        self.intersections.set_and_swap(i, &mut ctrl);
                        if ctrl.n_turns == n_turns {
                            ctrl.set_policy(ControlPolicy::Signal {
                                phase_allowed,
                                current: 0,
                                phase_len,
                            });
                        }
                        self.intersections.set(i, ctrl);
                        proof {
                            assert forall|j: int, k: int| 0 <= j < self.intersections@.len()
                                && 0 <= k < self.intersections@[j].queue@.len()
                                implies (#[trigger] self.intersections@[j].queue@[k]).since
                                    <= self.scheduler.spec_now() by {
                                if j != i as int {
                                    assert(self.intersections@[j] == old(self).intersections@[j]);
                                } else {
                                    assert(self.intersections@[j].queue@[k]
                                        == old(self).intersections@[j].queue@[k]);
                                }
                            }
                        }
                    },
                }
            },
        }
    }

    /// Apply an edit set, subject to the gameplay mode's restriction
    /// policy: rejected with `EditRejected`, the engine unchanged, exactly
    /// when the mode disallows some command; otherwise the commands are
    /// applied in order (trips, agents and the clock untouched).
    pub fn apply_edits(&mut self, mode: &GameplayMode, edits: MapEdits) -> (r: Result<(), SimError>)
        requires
            old(self).wf(),
        ensures
            final(self).wf(),
            r == Err::<(), SimError>(SimError::EditRejected)
                <==> !(forall|k: int| 0 <= k < edits.commands@.len()
                    ==> spec_allows_cmd(*mode, #[trigger] edits.commands@[k])),
            r is Err ==> *final(self) == *old(self),
            final(self).trips == old(self).trips,
            final(self).scheduler == old(self).scheduler,
            final(self).agents == old(self).agents,
            r is Ok ==> cmds_applied(
                old(self).network,
                old(self).intersections@,
                edits.commands@,
                final(self).network,
                final(self).intersections@,
            ),
    {
        if !mode.allows(&edits) {
            return Err(SimError::EditRejected);
        }
        let ghost cmds0 = edits.commands@;
        let mut cmds = edits.commands;
        let mut k: usize = 0;
        proof {
            assert(cmds0.subrange(0, 0) =~= Seq::<EditCmd>::empty());
        }
        while k < cmds.len()
            invariant
                self.wf(),
                k <= cmds@.len(),
                cmds@.len() == cmds0.len(),
                forall|j: int| k <= j < cmds0.len() ==> cmds@[j] == cmds0[j],
                self.trips == old(self).trips,
                self.scheduler == old(self).scheduler,
                self.agents == old(self).agents,
                cmds_applied(
                    old(self).network,
                    old(self).intersections@,
                    cmds0.subrange(0, k as int),
                    self.network,
                    self.intersections@,
                ),
            decreases cmds@.len() - k,
        {
            let ghost pre_net = self.network;
            let ghost pre_is = self.intersections@;
            let mut cmd = EditCmd::ChangeSpeedLimit { lane: 0, travel_time: 1 };
            cmds.set_and_swap(k, &mut cmd);
            self.apply_cmd(cmd);
            proof {
                lemma_cmds_applied_snoc(
                    old(self).network,
                    old(self).intersections@,
                    cmds0.subrange(0, k as int),
                    cmds0[k as int],
                    pre_net,
                    pre_is,
                    self.network,
                    self.intersections@,
                );
                assert(cmds0.subrange(0, k + 1)
                    =~= cmds0.subrange(0, k as int).push(cmds0[k as int]));
            }
            k = k + 1;
        }
        proof {
            assert(cmds0.subrange(0, cmds0.len() as int) =~= cmds0);
        }
        Ok(())
    }
}

/// The edit-version bump `Network::set_lane` performs.
pub open spec fn version_bumped(pre: u64, post: u64) -> bool {
    post as int == if pre < u64::MAX {
        pre + 1
    } else {
        pre as int
    }
}

/// Lane `lane` of `pre` replaced by `l`, the edit version bumped, and all
/// else of the network unchanged.
pub open spec fn lane_replaced(pre: Network, lane: int, l: Lane, post: Network) -> bool {
    &&& post.lanes@ == pre.lanes@.update(lane, l)
    &&& post.turns == pre.turns
    &&& post.buildings == pre.buildings
    &&& version_bumped(pre.edit_version, post.edit_version)
}

/// Controller `i`'s policy replaced by `p`; its other state (table, bans,
/// grants, queue) and every other controller unchanged.
pub open spec fn policy_replaced(
    pre: Seq<IntersectionCtrl>,
    i: int,
    p: ControlPolicy,
    post: Seq<IntersectionCtrl>,
) -> bool {
    &&& post.len() == pre.len()
    &&& forall|j: int| 0 <= j < pre.len() && j != i ==> post[j] == pre[j]
    &&& post[i].policy == p
    &&& post[i].n_turns == pre[i].n_turns
    &&& post[i].conflicts == pre[i].conflicts
    &&& post[i].banned == pre[i].banned
    &&& post[i].granted == pre[i].granted
    &&& post[i].queue == pre[i].queue
}

/// Whether a signal table fits an intersection with `n_turns` turns, as an
/// intersection edit requires: at least one phase, a positive phase length,
/// one entry per turn in every phase.
pub open spec fn signal_shape_ok(
    phase_allowed: Vec<Vec<bool>>,
    phase_len: TimeDelta,
    n_turns: usize,
) -> bool {
    &&& phase_allowed@.len() > 0
    &&& phase_len > 0
    &&& forall|q: int| 0 <= q < phase_allowed@.len()
        ==> (#[trigger] phase_allowed@[q])@.len() == n_turns
}

/// What one edit command does to the network and the controllers: an
/// in-range lane command replaces that lane and bumps the edit version, a
/// well-shaped intersection command replaces that controller's policy, and
/// a command out of range or ill-shaped leaves the state unchanged.
pub open spec fn cmd_applied(
    pre_net: Network,
    pre_is: Seq<IntersectionCtrl>,
    cmd: EditCmd,
    post_net: Network,
    post_is: Seq<IntersectionCtrl>,
) -> bool {
    match cmd {
        EditCmd::ChangeLaneType { lane, new_lane } => if lane < pre_net.lanes@.len() {
            lane_replaced(pre_net, lane as int, new_lane, post_net) && post_is == pre_is
        } else {
            post_net == pre_net && post_is == pre_is
        },
        EditCmd::ChangeSpeedLimit { lane, travel_time } => if lane < pre_net.lanes@.len() {
            lane_replaced(
                pre_net,
                lane as int,
                (Lane { travel_time, ..pre_net.lanes@[lane as int] }),
                post_net,
            ) && post_is == pre_is
        } else {
            post_net == pre_net && post_is == pre_is
        },
        EditCmd::ChangeIntersection { i, new } => {
            &&& post_net == pre_net
            &&& match new {
                EditIntersection::StopSign => if i < pre_is.len() {
                    policy_replaced(pre_is, i as int, ControlPolicy::StopSign, post_is)
                } else {
                    post_is == pre_is
                },
                EditIntersection::Signal { phase_allowed, phase_len } => if i < pre_is.len()
                    && signal_shape_ok(phase_allowed, phase_len, pre_is[i as int].n_turns) {
                    policy_replaced(
                        pre_is,
                        i as int,
                        (ControlPolicy::Signal { phase_allowed, current: 0usize, phase_len }),
                        post_is,
                    )
                } else {
                    post_is == pre_is
                },
            }
        },
    }
}

/// The fold of `cmd_applied` over a command sequence, front to back.
pub open spec fn cmds_applied(
    pre_net: Network,
    pre_is: Seq<IntersectionCtrl>,
    cmds: Seq<EditCmd>,
    post_net: Network,
    post_is: Seq<IntersectionCtrl>,
) -> bool
    decreases cmds.len(),
{
    if cmds.len() == 0 {
        post_net == pre_net && post_is == pre_is
    } else {
        exists|mid_net: Network, mid_is: Seq<IntersectionCtrl>|
            cmd_applied(pre_net, pre_is, cmds[0], mid_net, mid_is)
                && cmds_applied(
                    mid_net,
                    mid_is,
                    cmds.subrange(1, cmds.len() as int),
                    post_net,
                    post_is,
                )
    }
}

/// Extending an applied command sequence by one more applied command.
proof fn lemma_cmds_applied_snoc(
    pn: Network,
    pi: Seq<IntersectionCtrl>,
    s: Seq<EditCmd>,
    c: EditCmd,
    mn: Network,
    mi: Seq<IntersectionCtrl>,
    qn: Network,
    qi: Seq<IntersectionCtrl>,
)
    requires
        cmds_applied(pn, pi, s, mn, mi),
        cmd_applied(mn, mi, c, qn, qi),
    ensures
        cmds_applied(pn, pi, s.push(c), qn, qi),
    decreases s.len(),
{
    if s.len() == 0 {
        assert(s.push(c)[0] == c);
        assert(s.push(c).subrange(1, 1) =~= Seq::<EditCmd>::empty());
        assert(cmds_applied(qn, qi, Seq::<EditCmd>::empty(), qn, qi));
    } else {
        let (m2n, m2i) = choose|m2n: Network, m2i: Seq<IntersectionCtrl>|
            cmd_applied(pn, pi, s[0], m2n, m2i)
                && cmds_applied(m2n, m2i, s.subrange(1, s.len() as int), mn, mi);
        lemma_cmds_applied_snoc(m2n, m2i, s.subrange(1, s.len() as int), c, mn, mi, qn, qi);
        assert(s.push(c)[0] == s[0]);
        assert(s.push(c).subrange(1, s.push(c).len() as int)
            =~= s.subrange(1, s.len() as int).push(c));
    }
}

/// What a trip-start dispatch does: other trips stay; a trip awaiting a
/// leg (NotStarted or ModeChange) becomes InProgress exactly when both of
/// the leg's endpoints resolve to lanes and a path for the leg's mode
/// connects them, and otherwise Done with the could-not-complete
/// annotation.
pub open spec fn trip_start_outcome(pre: Sim, t: int, post: Sim) -> bool {
    &&& post.trips.trips@.len() == pre.trips.trips@.len()
    &&& forall|x: int| 0 <= x < pre.trips.trips@.len() && x != t
        ==> post.trips.trips@[x] == pre.trips.trips@[x]
    &&& (0 <= t < pre.trips.trips@.len()
        && (pre.trips.trips@[t].status is NotStarted
            || pre.trips.trips@[t].status is ModeChange)
        ==> {
        let tr = pre.trips.trips@[t];
        let leg = tr.legs@[tr.current_leg as int];
        let net = pre.network;
        match (net.spec_endpoint_lane(leg.from), net.spec_endpoint_lane(leg.to)) {
            (Some(f), Some(d)) => if net.has_route(leg.mode, f as int, d as int) {
                post.trips.trips@[t].status is InProgress
            } else {
                post.trips.trips@[t].status is Done && post.trips.trips@[t].aborted
            },
            _ => post.trips.trips@[t].status is Done && post.trips.trips@[t].aborted,
        }
    })
    &&& (!(0 <= t < pre.trips.trips@.len()
        && (pre.trips.trips@[t].status is NotStarted
            || pre.trips.trips@[t].status is ModeChange))
        ==> post.trips == pre.trips)
}

/// What arriving at a leg's end does to trip `trip`: ModeChange when more
/// legs remain, Done (not aborted) when it was the last leg; other trips
/// stay.
pub open spec fn arrival_outcome(pre: Sim, trip: int, post: Sim) -> bool {
    &&& ({
        let tr = pre.trips.trips@[trip];
        if tr.current_leg + 1 < tr.legs@.len() {
            post.trips.trips@[trip].status is ModeChange
        } else {
            post.trips.trips@[trip].status is Done && !post.trips.trips@[trip].aborted
        }
    })
    &&& forall|x: int| 0 <= x < pre.trips.trips@.len() && x != trip
        ==> post.trips.trips@[x] == pre.trips.trips@[x]
}

/// What requesting the turn into the next lane does to trip `trip`: it
/// stays InProgress on a grant or a queueing, and is marked Done and
/// aborted when the turn is structurally impossible (no connecting turn, or
/// denied as banned); other trips stay.
pub open spec fn turn_request_outcome(pre: Sim, trip: int, post: Sim) -> bool {
    &&& (post.trips.trips@[trip].status is InProgress
        || (post.trips.trips@[trip].status is Done && post.trips.trips@[trip].aborted))
    &&& forall|x: int| 0 <= x < pre.trips.trips@.len() && x != trip
        ==> post.trips.trips@[x] == pre.trips.trips@[x]
}

/// What an agent-step dispatch does when agent `a` holds no grant: a live
/// Moving agent serving its in-progress trip recomputes a stale route,
/// arrives, or requests its next turn; in any other state the trip table is
/// untouched.
pub open spec fn agent_step_core(pre: Sim, a: int, post: Sim) -> bool {
    let ag = pre.agents@[a];
    let trip = ag.trip;
    if ag.state is Moving && trip < pre.trips.trips@.len()
        && pre.trips.trips@[trip as int].status == TripStatus::InProgress(a as usize)
        && ag.route@.len() > 0 && ag.pos < ag.route@.len() {
        if ag.route_version != pre.network.edit_version {
            reroute_outcome(pre, a, trip as int, post)
        } else if ag.pos == ag.route@.len() - 1 {
            arrival_outcome(pre, trip as int, post)
        } else {
            turn_request_outcome(pre, trip as int, post)
        }
    } else {
        post.trips == pre.trips
    }
}

/// What dispatching one event guarantees: consistency, trip non-regression,
/// an unmoved clock and history and network, and the per-kind outcome.
pub open spec fn dispatch_post(pre: Sim, e: Event, post: Sim) -> bool {
    &&& post.wf()
    &&& trips_reach(pre.trips.trips@, post.trips.trips@)
    &&& post.scheduler.spec_now() == pre.scheduler.spec_now()
    &&& post.scheduler.history() == pre.scheduler.history()
    &&& post.network == pre.network
    &&& match e.kind {
        EventKind::TripStart(t) => trip_start_outcome(pre, t as int, post)
            && post.intersections == pre.intersections,
        EventKind::AgentStep(a) => {
            &&& post.trips.trips@.len() == pre.trips.trips@.len()
            &&& post.agents@.len() == pre.agents@.len()
            &&& post.intersections@.len() == pre.intersections@.len()
            &&& (a < pre.agents@.len() && pre.agents@[a as int].holding is None
                ==> agent_step_core(pre, a as int, post))
        },
        EventKind::SignalTimer(_) => {
            &&& post.trips == pre.trips
            &&& post.agents@.len() == pre.agents@.len()
            &&& post.intersections@.len() == pre.intersections@.len()
        },
    }
}

/// One pop inside `advance_to`: `e` is the pending event least by (time,
/// sequence) key and due at or before `target`; `mid` is the engine with
/// `e` removed, the clock at `e`'s time and the key appended to the
/// dispatch history, everything else untouched.
pub open spec fn popped_min(pre: Sim, target: Time, e: Event, mid: Sim) -> bool {
    &&& e.time <= target
    &&& e.time >= pre.scheduler.spec_now()
    &&& exists|k: int| 0 <= k < pre.scheduler.pending_events().len()
        && pre.scheduler.pending_events()[k] == e
        && mid.scheduler.pending_events() == pre.scheduler.pending_events().remove(k)
    &&& forall|k: int| 0 <= k < pre.scheduler.pending_events().len()
        ==> key_le((e.time, e.seq),
            ((#[trigger] pre.scheduler.pending_events()[k]).time,
                pre.scheduler.pending_events()[k].seq))
    &&& mid.scheduler.spec_now() == e.time
    &&& mid.scheduler.history() == pre.scheduler.history().push((e.time, e.seq))
    &&& mid.network == pre.network
    &&& mid.intersections == pre.intersections
    &&& mid.trips == pre.trips
    &&& mid.agents == pre.agents
}

/// One step of a legal `advance_to` run: some event `e`, the least due one,
/// is popped (`popped_min`) and dispatched (`dispatch_post`).
#[verifier::opaque]
pub open spec fn chain_step(pre: Sim, target: Time, post: Sim) -> bool {
    exists|e: Event, mid: Sim| popped_min(pre, target, e, mid) && dispatch_post(mid, e, post)
}

/// A legal run of `advance_to` toward `target`: a trace of engine states in
/// which each step pops the least due event and dispatches it per
/// `dispatch_post`.
pub open spec fn advance_chain(pre: Sim, target: Time, trace: Seq<Sim>) -> bool {
    &&& trace.len() >= 1
    &&& trace[0] == pre
    &&& forall|i: int| 0 <= i < trace.len() - 1
        ==> chain_step(#[trigger] trace[i], target, trace[i + 1])
}

/// The closing clock advance of a completed `advance_to`: nothing was due,
/// so only the clock moves up to `target`.
pub open spec fn clock_closed(pre: Sim, target: Time, post: Sim) -> bool {
    &&& post.scheduler.pending_events() == pre.scheduler.pending_events()
    &&& post.scheduler.history() == pre.scheduler.history()
    &&& post.scheduler.spec_now() == (if target > pre.scheduler.spec_now() {
        target
    } else {
        pre.scheduler.spec_now()
    })
    &&& post.network == pre.network
    &&& post.intersections == pre.intersections
    &&& post.trips == pre.trips
    &&& post.agents == pre.agents
}

/// What a stale-route recomputation does to the trip table: trip `trip`
/// (with agent `a`) stays untouched exactly when the agent's current lane
/// still reaches the leg's destination for the leg's mode; otherwise it is
/// marked Done with the could-not-complete annotation.
pub open spec fn reroute_outcome(pre: Sim, a: int, trip: int, post: Sim) -> bool {
    let ag = pre.agents@[a];
    let tr = pre.trips.trips@[trip];
    let leg = tr.legs@[tr.current_leg as int];
    let reachable = match pre.network.spec_endpoint_lane(leg.to) {
        Some(d) => ag.pos < ag.route@.len()
            && ag.route@[ag.pos as int] < pre.network.lanes@.len()
            && pre.network.has_route(leg.mode, ag.route@[ag.pos as int] as int, d as int),
        None => false,
    };
    if reachable {
        post.trips == pre.trips
    } else {
        post.trips.trips@[trip].status is Done && post.trips.trips@[trip].aborted
    }
}

/// The trip-start events `instantiate` schedules: one per seeded trip, at
/// its departure time, numbered in seeding order.
pub open spec fn trip_start_events(s: &Scenario) -> Seq<Event> {
    Seq::new(
        s.trips@.len(),
        |i: int| Event {
            time: s.trips@[i].depart,
            seq: i as u64,
            kind: EventKind::TripStart(i as usize),
        },
    )
}

/// The first phase-timer events `instantiate` schedules: one per signal
/// among `isects[idx..]`, at its phase length, numbered from `seq0`.
pub open spec fn signal_timer_events(isects: Seq<IntersectionCtrl>, idx: nat, seq0: nat) -> Seq<Event>
    decreases isects.len() - idx,
{
    if idx >= isects.len() {
        Seq::empty()
    } else {
        match isects[idx as int].policy {
            ControlPolicy::Signal { phase_len, .. } => seq![
                Event { time: phase_len, seq: seq0 as u64, kind: EventKind::SignalTimer(idx as usize) }
            ] + signal_timer_events(isects, idx + 1, seq0 + 1),
            ControlPolicy::StopSign => signal_timer_events(isects, idx + 1, seq0),
            ControlPolicy::Yield => signal_timer_events(isects, idx + 1, seq0),
        }
    }
}

/// A trip touches an endpoint when it is the trip's overall origin or
/// destination.
pub open spec fn trip_touches(tr: Trip, ep: TripEndpoint) -> bool {
    tr.spec_origin() == ep || tr.spec_destination() == ep
}

/// What `next_trip_for_person` reports for an itinerary: skip Done trips;
/// the first other trip yields its departure and mode if it has not
/// started, and nothing if it is under way (or dangling).
pub open spec fn spec_next_trip(trips: Seq<Trip>, its: Seq<TripId>) -> Option<(Time, TravelMode)>
    decreases its.len(),
{
    if its.len() == 0 {
        None
    } else {
        let t = its[0];
        if t >= trips.len() {
            None
        } else {
            match trips[t as int].status {
                TripStatus::Done => spec_next_trip(trips, its.subrange(1, its.len() as int)),
                TripStatus::NotStarted => Some((trips[t as int].depart, trips[t as int].spec_mode())),
                TripStatus::InProgress(_) => None,
                TripStatus::ModeChange => None,
            }
        }
    }
}

/// The sum, over the endpoints of `eps`, of the Done counts `count_trips`
/// reports for trips touching each endpoint.
pub open spec fn sum_done_counts(trips: Seq<Trip>, eps: Seq<TripEndpoint>) -> int
    decreases eps.len(),
{
    if eps.len() == 0 {
        0
    } else {
        trips.filter(|tr: Trip| trip_touches(tr, eps[0]) && tr.status is Done).len()
            + sum_done_counts(trips, eps.subrange(1, eps.len() as int))
    }
}

/// The sum, over the endpoints of `eps`, of the trips whose destination is
/// each endpoint.
pub open spec fn sum_dest_counts(trips: Seq<Trip>, eps: Seq<TripEndpoint>) -> int
    decreases eps.len(),
{
    if eps.len() == 0 {
        0
    } else {
        trips.filter(|tr: Trip| tr.spec_destination() == eps[0]).len()
            + sum_dest_counts(trips, eps.subrange(1, eps.len() as int))
    }
}

/// How often `d` occurs in `eps`.
pub open spec fn count_occurrences(eps: Seq<TripEndpoint>, d: TripEndpoint) -> int
    decreases eps.len(),
{
    if eps.len() == 0 {
        0
    } else {
        (if eps[0] == d { 1int } else { 0int }) + count_occurrences(eps.subrange(1, eps.len() as int), d)
    }
}

/// Once every trip is Done, the Done count of an endpoint is its whole
/// touch count, and the other three counts are zero.
pub proof fn lemma_all_done_counts(trips: Seq<Trip>, ep: TripEndpoint)
    requires
        forall|t: int| 0 <= t < trips.len() ==> (#[trigger] trips[t]).status is Done,
    ensures
        trips.filter(|tr: Trip| trip_touches(tr, ep) && tr.status is NotStarted).len() == 0,
        trips.filter(|tr: Trip| trip_touches(tr, ep) && tr.status is InProgress).len() == 0,
        trips.filter(|tr: Trip| trip_touches(tr, ep) && tr.status is ModeChange).len() == 0,
        trips.filter(|tr: Trip| trip_touches(tr, ep) && tr.status is Done).len()
            == trips.filter(|tr: Trip| trip_touches(tr, ep)).len(),
{
    trips.lemma_all_neg_filter_empty(|tr: Trip| trip_touches(tr, ep) && tr.status is NotStarted);
    trips.lemma_all_neg_filter_empty(|tr: Trip| trip_touches(tr, ep) && tr.status is InProgress);
    trips.lemma_all_neg_filter_empty(|tr: Trip| trip_touches(tr, ep) && tr.status is ModeChange);
    lemma_count_partition(trips, ep);
}

/// When no trip's origin is `ep`, touching `ep` is the same as ending
/// there.
pub proof fn lemma_touches_is_dest(trips: Seq<Trip>, ep: TripEndpoint)
    requires
        forall|t: int| 0 <= t < trips.len() ==> (#[trigger] trips[t]).spec_origin() != ep,
    ensures
        trips.filter(|tr: Trip| trip_touches(tr, ep)).len()
            == trips.filter(|tr: Trip| tr.spec_destination() == ep).len(),
    decreases trips.len(),
{
    reveal(Seq::filter);
    if trips.len() > 0 {
        lemma_touches_is_dest(trips.drop_last(), ep);
        assert(trip_touches(trips.last(), ep) == (trips.last().spec_destination() == ep));
    }
}

/// No trip means nothing to count at any endpoint.
proof fn lemma_sum_dest_empty(eps: Seq<TripEndpoint>)
    ensures
        sum_dest_counts(Seq::<Trip>::empty(), eps) == 0,
    decreases eps.len(),
{
    reveal(Seq::filter);
    if eps.len() > 0 {
        lemma_sum_dest_empty(eps.subrange(1, eps.len() as int));
    }
}

/// One more trip raises the destination sum by the number of times its
/// destination occurs among the endpoints.
proof fn lemma_sum_dest_push(trips: Seq<Trip>, eps: Seq<TripEndpoint>, tr: Trip)
    ensures
        sum_dest_counts(trips.push(tr), eps)
            == sum_dest_counts(trips, eps) + count_occurrences(eps, tr.spec_destination()),
    decreases eps.len(),
{
    if eps.len() > 0 {
        trips.lemma_filter_len_push(|tr2: Trip| tr2.spec_destination() == eps[0], tr);
        lemma_sum_dest_push(trips, eps.subrange(1, eps.len() as int), tr);
    }
}

/// A value absent from `eps` occurs zero times.
proof fn lemma_count_occurrences_absent(eps: Seq<TripEndpoint>, d: TripEndpoint)
    requires
        forall|j: int| 0 <= j < eps.len() ==> eps[j] != d,
    ensures
        count_occurrences(eps, d) == 0,
    decreases eps.len(),
{
    if eps.len() > 0 {
        lemma_count_occurrences_absent(eps.subrange(1, eps.len() as int), d);
    }
}

/// In a pairwise-distinct endpoint sequence, a member occurs exactly once.
proof fn lemma_count_occurrences_distinct(eps: Seq<TripEndpoint>, d: TripEndpoint)
    requires
        forall|a: int, b: int| 0 <= a < b < eps.len() ==> eps[a] != eps[b],
        exists|j: int| 0 <= j < eps.len() && eps[j] == d,
    ensures
        count_occurrences(eps, d) == 1,
    decreases eps.len(),
{
    let tail = eps.subrange(1, eps.len() as int);
    if eps[0] == d {
        assert forall|j: int| 0 <= j < tail.len() implies tail[j] != d by {
            assert(tail[j] == eps[j + 1]);
        }
        lemma_count_occurrences_absent(tail, d);
    } else {
        let j = choose|j: int| 0 <= j < eps.len() && eps[j] == d;
        assert(tail[j - 1] == d);
        lemma_count_occurrences_distinct(tail, d);
    }
}

/// Over pairwise-distinct endpoints covering every trip's destination, the
/// per-endpoint destination counts sum to the number of trips.
proof fn lemma_dest_counts_sum(trips: Seq<Trip>, eps: Seq<TripEndpoint>)
    requires
        forall|a: int, b: int| 0 <= a < b < eps.len() ==> eps[a] != eps[b],
        forall|t: int| 0 <= t < trips.len() ==> exists|j: int| 0 <= j < eps.len()
            && (#[trigger] trips[t]).spec_destination() == eps[j],
    ensures
        sum_dest_counts(trips, eps) == trips.len(),
    decreases trips.len(),
{
    if trips.len() == 0 {
        assert(trips =~= Seq::<Trip>::empty());
        lemma_sum_dest_empty(eps);
    } else {
        let rest = trips.drop_last();
        let last = trips.last();
        assert forall|t: int| 0 <= t < rest.len() implies exists|j: int| 0 <= j < eps.len()
            && (#[trigger] rest[t]).spec_destination() == eps[j] by {
            assert(rest[t] == trips[t]);
        }
        lemma_dest_counts_sum(rest, eps);
        lemma_sum_dest_push(rest, eps, last);
        assert(rest.push(last) =~= trips);
        assert(exists|j: int| 0 <= j < eps.len() && eps[j] == last.spec_destination()) by {
            assert(trips[trips.len() - 1] == last);
        }
        lemma_count_occurrences_distinct(eps, last.spec_destination());
    }
}

/// Per-endpoint Done counts agree with destination counts once all trips
/// are Done and no origin lies among the endpoints.
proof fn lemma_sum_done_eq_dest(trips: Seq<Trip>, eps: Seq<TripEndpoint>)
    requires
        forall|t: int| 0 <= t < trips.len() ==> (#[trigger] trips[t]).status is Done,
        forall|t: int, j: int| 0 <= t < trips.len() && 0 <= j < eps.len()
            ==> (#[trigger] trips[t]).spec_origin() != (#[trigger] eps[j]),
    ensures
        sum_done_counts(trips, eps) == sum_dest_counts(trips, eps),
    decreases eps.len(),
{
    if eps.len() > 0 {
        lemma_all_done_counts(trips, eps[0]);
        lemma_touches_is_dest(trips, eps[0]);
        lemma_sum_done_eq_dest(trips, eps.subrange(1, eps.len() as int));
    }
}

/// Seeded-count law: once every trip is Done, summing the Done counts that
/// `count_trips` reports over pairwise-distinct endpoints that cover every
/// trip's destination and contain no trip's origin yields exactly the
/// number of seeded trips — each trip counted once, at its destination.
pub proof fn lemma_count_trips_total(trips: Seq<Trip>, eps: Seq<TripEndpoint>)
    requires
        forall|t: int| 0 <= t < trips.len() ==> (#[trigger] trips[t]).status is Done,
        forall|a: int, b: int| 0 <= a < b < eps.len() ==> eps[a] != eps[b],
        forall|t: int| 0 <= t < trips.len() ==> exists|j: int| 0 <= j < eps.len()
            && (#[trigger] trips[t]).spec_destination() == eps[j],
        forall|t: int, j: int| 0 <= t < trips.len() && 0 <= j < eps.len()
            ==> (#[trigger] trips[t]).spec_origin() != (#[trigger] eps[j]),
    ensures
        sum_done_counts(trips, eps) == trips.len(),
{
    lemma_sum_done_eq_dest(trips, eps);
    lemma_dest_counts_sum(trips, eps);
}

/// Emptiness half of the delay query's law: when every queued request's
/// wait is still below the threshold, no intersection is delayed, so the
/// query's result is the empty set.
pub proof fn lemma_delayed_empty(s: &Sim, threshold: TimeDelta, r: Seq<IntersectionId>)
    requires
        forall|i: int, k: int| 0 <= i < s.intersections@.len()
            && 0 <= k < s.intersections@[i].queue@.len()
            ==> s.scheduler.spec_now()
                - (#[trigger] s.intersections@[i].queue@[k]).since < threshold,
        forall|i: usize| r.contains(i)
            <==> (i < s.intersections@.len() && s.spec_is_delayed(i as int, threshold)),
    ensures
        r.len() == 0,
{
    if r.len() > 0 {
        assert(r.contains(r[0]));
    }
}

/// Partition law behind endpoint counting: for any endpoint, the four
/// per-status counts sum to the number of trips touching that endpoint.
pub proof fn lemma_count_partition(trips: Seq<Trip>, ep: TripEndpoint)
    ensures
        trips.filter(|tr: Trip| trip_touches(tr, ep) && tr.status is NotStarted).len()
            + trips.filter(|tr: Trip| trip_touches(tr, ep) && tr.status is InProgress).len()
            + trips.filter(|tr: Trip| trip_touches(tr, ep) && tr.status is ModeChange).len()
            + trips.filter(|tr: Trip| trip_touches(tr, ep) && tr.status is Done).len()
            == trips.filter(|tr: Trip| trip_touches(tr, ep)).len(),
    decreases trips.len(),
{
    reveal(Seq::filter);
    if trips.len() > 0 {
        lemma_count_partition(trips.drop_last(), ep);
    }
}

/// Exec equality of endpoints.
pub fn eq_endpoint(a: TripEndpoint, b: TripEndpoint) -> (r: bool)
    ensures
        r == (a == b),
{
    match (a, b) {
        (TripEndpoint::Bldg(x), TripEndpoint::Bldg(y)) => x == y,
        (TripEndpoint::Border(x), TripEndpoint::Border(y)) => x == y,
        (TripEndpoint::Parking(x), TripEndpoint::Parking(y)) => x == y,
        _ => false,
    }
}

/// An inert controller used to swap an element out of the vector while it
/// is worked on.
fn placeholder_ctrl() -> (c: IntersectionCtrl)
    ensures
        c.wf(),
{
    IntersectionCtrl {
        n_turns: 0,
        conflicts: Vec::new(),
        banned: Vec::new(),
        policy: ControlPolicy::Yield,
        granted: Vec::new(),
        queue: Vec::new(),
    }
}

} // verus!
