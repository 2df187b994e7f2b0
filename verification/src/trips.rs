//! The trip manager: trip lifecycle tracking, the people who own the trips,
//! and the vehicles parked at buildings between trips.
//!
//! A trip's status moves along NotStarted -> InProgress -> (ModeChange ->
//! InProgress)* -> Done and never regresses; an aborted trip (one whose
//! route could not be completed) jumps forward to Done with an annotation.

use vstd::prelude::*;
use vstd::pervasive::VecAdditionalExecFns;
use crate::types::{AgentId, BuildingId, PersonId, SimError, Time, TravelMode, TripEndpoint, TripId};

verus! {

/// Lifecycle status of a trip.
#[derive(Clone, Copy, PartialEq, Eq, Structural, Debug)]
pub enum TripStatus {
    NotStarted,
    InProgress(AgentId),
    ModeChange,
    Done,
}

/// One leg of a trip: the mode used and the endpoints it runs between.
#[derive(Clone, Copy, PartialEq, Eq, Structural, Debug)]
pub struct TripLeg {
    pub mode: TravelMode,
    pub from: TripEndpoint,
    pub to: TripEndpoint,
}

/// One journey by a person, possibly spanning several modes.
#[derive(Debug)]
pub struct Trip {
    pub person: PersonId,
    pub depart: Time,
    pub legs: Vec<TripLeg>,
    /// Index of the leg currently (or next) underway.
    pub current_leg: usize,
    pub status: TripStatus,
    /// Set when the trip was marked Done because it could not complete.
    pub aborted: bool,
}

/// A person and the day's itinerary of trips, in scheduled order.
#[derive(Debug)]
pub struct Person {
    pub home: Option<BuildingId>,
    pub trips: Vec<TripId>,
}

/// A vehicle parked at a building between trips.
#[derive(Clone, Copy, PartialEq, Eq, Structural, Debug)]
pub struct ParkedVehicle {
    pub vehicle: usize,
    pub owner: PersonId,
    pub bldg: BuildingId,
}

/// A single permitted step of the trip status machine.
pub open spec fn status_step(a: TripStatus, b: TripStatus) -> bool {
    match a {
        TripStatus::NotStarted => b is InProgress || b is Done || b == a,
        TripStatus::InProgress(_) => b is ModeChange || b is Done || b == a,
        TripStatus::ModeChange => b is InProgress || b is Done || b == a,
        TripStatus::Done => b == a,
    }
}

/// Reachability along permitted steps: the closure of `status_step`. A trip
/// that has started can never be NotStarted again, and Done is terminal.
pub open spec fn status_reachable(a: TripStatus, b: TripStatus) -> bool {
    match a {
        TripStatus::NotStarted => true,
        TripStatus::InProgress(_) => !(b is NotStarted),
        TripStatus::ModeChange => !(b is NotStarted),
        TripStatus::Done => b is Done,
    }
}

/// Every permitted step lands within reach.
pub proof fn lemma_step_implies_reachable(a: TripStatus, b: TripStatus)
    requires
        status_step(a, b),
    ensures
        status_reachable(a, b),
{
}

/// Reachability is transitive, so it holds across any run of permitted
/// steps: this is the non-regression law for trip status.
pub proof fn lemma_reachable_transitive(a: TripStatus, b: TripStatus, c: TripStatus)
    requires
        status_reachable(a, b),
        status_reachable(b, c),
    ensures
        status_reachable(a, c),
{
}

/// Reachability never regresses: a Done trip stays Done, and a started trip
/// never returns to NotStarted.
pub proof fn lemma_no_regression(a: TripStatus, b: TripStatus)
    requires
        status_reachable(a, b),
    ensures
        a is Done ==> b is Done,
        !(a is NotStarted) ==> !(b is NotStarted),
{
}

impl Trip {
    /// A trip is well formed when it has at least one leg and its leg cursor
    /// and status agree with the lifecycle.
    pub open spec fn wf(&self) -> bool {
        &&& self.legs@.len() > 0
        &&& self.current_leg <= self.legs@.len()
        &&& match self.status {
            TripStatus::NotStarted => self.current_leg == 0,
            TripStatus::InProgress(_) => self.current_leg < self.legs@.len(),
            TripStatus::ModeChange => 0 < self.current_leg < self.legs@.len(),
            TripStatus::Done => true,
        }
    }

    /// The overall origin of the trip: where its first leg begins.
    pub open spec fn spec_origin(&self) -> TripEndpoint {
        self.legs@[0].from
    }

    /// The overall destination: where its last leg ends.
    pub open spec fn spec_destination(&self) -> TripEndpoint {
        self.legs@[self.legs@.len() - 1].to
    }

    /// The mode of the first leg, reported by `trip_info`.
    pub open spec fn spec_mode(&self) -> TravelMode {
        self.legs@[0].mode
    }
}

/// Tracks every trip, person and parked vehicle of the running scenario.
pub struct TripManager {
    pub trips: Vec<Trip>,
    pub persons: Vec<Person>,
    pub parked: Vec<ParkedVehicle>,
    /// Source of fresh parked-vehicle identities.
    pub next_vehicle: usize,
}

impl TripManager {
    /// Every trip is well formed, owned by a registered person, and listed
    /// in that person's itinerary ids are in range.
    pub open spec fn wf(&self) -> bool {
        &&& forall|t: int| 0 <= t < self.trips@.len() ==> (#[trigger] self.trips@[t]).wf()
        &&& forall|t: int| 0 <= t < self.trips@.len()
            ==> (#[trigger] self.trips@[t]).person < self.persons@.len()
        &&& forall|p: int, j: int| 0 <= p < self.persons@.len()
            && 0 <= j < self.persons@[p].trips@.len()
            ==> (#[trigger] self.persons@[p].trips@[j]) < self.trips@.len()
    }

    /// An empty manager: the pre-scenario-instantiation state.
    pub fn new() -> (m: TripManager)
        ensures
            m.wf(),
            m.trips@ =~= Seq::<Trip>::empty(),
            m.persons@ =~= Seq::<Person>::empty(),
            m.parked@ =~= Seq::<ParkedVehicle>::empty(),
    {
        TripManager { trips: Vec::new(), persons: Vec::new(), parked: Vec::new(), next_vehicle: 0 }
    }

    /// Reset to the pre-scenario-instantiation state.
    pub fn clear(&mut self)
        ensures
            final(self).wf(),
            final(self).trips@ =~= Seq::<Trip>::empty(),
            final(self).persons@ =~= Seq::<Person>::empty(),
            final(self).parked@ =~= Seq::<ParkedVehicle>::empty(),
    {
        self.trips.clear();
        self.persons.clear();
        self.parked.clear();
        self.next_vehicle = 0;
    }

    /// Register a person with an empty itinerary, returning the new id.
    pub fn add_person(&mut self, home: Option<BuildingId>) -> (p: PersonId)
        requires
            old(self).wf(),
        ensures
            final(self).wf(),
            p == old(self).persons@.len(),
            final(self).persons@.len() == old(self).persons@.len() + 1,
            final(self).persons@.last().home == home,
            final(self).persons@.last().trips@ =~= Seq::<TripId>::empty(),
            forall|k: int| 0 <= k < old(self).persons@.len()
                ==> final(self).persons@[k] == old(self).persons@[k],
            final(self).trips@ == old(self).trips@,
            final(self).parked@ == old(self).parked@,
    {
        let p = self.persons.len();
        self.persons.push(Person { home, trips: Vec::new() });
        p
    }

    /// Register a not-yet-started trip for person `person` and append it to
    /// that person's itinerary, returning the new trip id.
    pub fn add_trip(&mut self, person: PersonId, depart: Time, legs: Vec<TripLeg>) -> (t: TripId)
        requires
            old(self).wf(),
            person < old(self).persons@.len(),
            legs@.len() > 0,
        ensures
            final(self).wf(),
            t == old(self).trips@.len(),
            final(self).trips@.len() == old(self).trips@.len() + 1,
            final(self).trips@[t as int] == (Trip {
                person,
                depart,
                legs,
                current_leg: 0,
                status: TripStatus::NotStarted,
                aborted: false,
            }),
            forall|k: int| 0 <= k < old(self).trips@.len()
                ==> final(self).trips@[k] == old(self).trips@[k],
            final(self).persons@.len() == old(self).persons@.len(),
            final(self).persons@[person as int].trips@
                =~= old(self).persons@[person as int].trips@.push(t),
            forall|k: int| 0 <= k < old(self).persons@.len() && k != person
                ==> final(self).persons@[k] == old(self).persons@[k],
            final(self).parked@ == old(self).parked@,
    {
        let t = self.trips.len();
        self.trips.push(Trip {
            person,
            depart,
            legs,
            current_leg: 0,
            status: TripStatus::NotStarted,
            aborted: false,
        });
        let mut pe = Person { home: None, trips: Vec::new() };
        self.persons.set_and_swap(person, &mut pe);
        pe.trips.push(t);
        self.persons.set(person, pe);
        t
    }

    /// Move a trip into InProgress under agent `agent`: the start of its
    /// first leg (from NotStarted) or of a later leg (from ModeChange).
    pub fn begin_leg(&mut self, t: TripId, agent: AgentId)
        requires
            old(self).wf(),
            t < old(self).trips@.len(),
            old(self).trips@[t as int].status is NotStarted
                || old(self).trips@[t as int].status is ModeChange,
            old(self).trips@[t as int].current_leg < old(self).trips@[t as int].legs@.len(),
        ensures
            final(self).wf(),
            final(self).trips@.len() == old(self).trips@.len(),
            final(self).trips@[t as int] == (Trip {
                status: TripStatus::InProgress(agent),
                ..old(self).trips@[t as int]
            }),
            status_step(old(self).trips@[t as int].status, final(self).trips@[t as int].status),
            forall|k: int| 0 <= k < old(self).trips@.len() && k != t
                ==> final(self).trips@[k] == old(self).trips@[k],
            final(self).persons@ == old(self).persons@,
            final(self).parked@ == old(self).parked@,
    {
        let mut tr = Trip {
            person: 0,
            depart: 0,
            legs: Vec::new(),
            current_leg: 0,
            status: TripStatus::Done,
            aborted: false,
        };
        self.trips.set_and_swap(t, &mut tr);
        tr.status = TripStatus::InProgress(agent);
        self.trips.set(t, tr);
    }

    /// A leg has finished with more legs to come: InProgress -> ModeChange,
    /// and the leg cursor moves to the next leg.
    pub fn mode_change(&mut self, t: TripId)
        requires
            old(self).wf(),
            t < old(self).trips@.len(),
            old(self).trips@[t as int].status is InProgress,
            old(self).trips@[t as int].current_leg + 1 < old(self).trips@[t as int].legs@.len(),
        ensures
            final(self).wf(),
            final(self).trips@.len() == old(self).trips@.len(),
            final(self).trips@[t as int] == (Trip {
                status: TripStatus::ModeChange,
                current_leg: (old(self).trips@[t as int].current_leg + 1) as usize,
                ..old(self).trips@[t as int]
            }),
            status_step(old(self).trips@[t as int].status, final(self).trips@[t as int].status),
            forall|k: int| 0 <= k < old(self).trips@.len() && k != t
                ==> final(self).trips@[k] == old(self).trips@[k],
            final(self).persons@ == old(self).persons@,
            final(self).parked@ == old(self).parked@,
    {
        let mut tr = Trip {
            person: 0,
            depart: 0,
            legs: Vec::new(),
            current_leg: 0,
            status: TripStatus::Done,
            aborted: false,
        };
        self.trips.set_and_swap(t, &mut tr);
        let n = tr.legs.len();
        assert(tr.current_leg + 1 < n);
        tr.status = TripStatus::ModeChange;
        tr.current_leg = tr.current_leg + 1;
        self.trips.set(t, tr);
    }

    /// Mark a trip Done. `aborted` records a trip that could not complete
    /// (for example, its route disappeared); the status is Done either way.
    pub fn complete(&mut self, t: TripId, aborted: bool)
        requires
            old(self).wf(),
            t < old(self).trips@.len(),
            !(old(self).trips@[t as int].status is Done),
        ensures
            final(self).wf(),
            final(self).trips@.len() == old(self).trips@.len(),
            final(self).trips@[t as int] == (Trip {
                status: TripStatus::Done,
                aborted,
                ..old(self).trips@[t as int]
            }),
            status_step(old(self).trips@[t as int].status, final(self).trips@[t as int].status),
            forall|k: int| 0 <= k < old(self).trips@.len() && k != t
                ==> final(self).trips@[k] == old(self).trips@[k],
            final(self).persons@ == old(self).persons@,
            final(self).parked@ == old(self).parked@,
    {
        let mut tr = Trip {
            person: 0,
            depart: 0,
            legs: Vec::new(),
            current_leg: 0,
            status: TripStatus::Done,
            aborted: false,
        };
        self.trips.set_and_swap(t, &mut tr);
        tr.status = TripStatus::Done;
        tr.aborted = aborted;
        self.trips.set(t, tr);
    }

    /// Park a fresh vehicle owned by `owner` at `bldg`, as happens when a
    /// vehicle leg of a trip ends with parking.
    pub fn park_vehicle(&mut self, owner: PersonId, bldg: BuildingId)
        requires
            old(self).wf(),
        ensures
            final(self).wf(),
            final(self).parked@.len() == old(self).parked@.len() + 1,
            final(self).parked@.last().owner == owner,
            final(self).parked@.last().bldg == bldg,
            forall|k: int| 0 <= k < old(self).parked@.len()
                ==> final(self).parked@[k] == old(self).parked@[k],
            final(self).trips@ == old(self).trips@,
            final(self).persons@ == old(self).persons@,
    {
        let v = self.next_vehicle;
        self.parked.push(ParkedVehicle { vehicle: v, owner, bldg });
        if self.next_vehicle < usize::MAX {
            self.next_vehicle = self.next_vehicle + 1;
        }
    }

    /// Status of a trip; `UnknownTrip` exactly when the id was never
    /// registered. A completed trip answers Done rather than erroring.
    pub fn trip_status(&self, t: TripId) -> (r: Result<TripStatus, SimError>)
        ensures
            t < self.trips@.len() ==> r == Ok::<TripStatus, SimError>(self.trips@[t as int].status),
            t >= self.trips@.len() ==> r == Err::<TripStatus, SimError>(SimError::UnknownTrip),
    {
        if t < self.trips.len() {
            Ok(self.trips[t].status)
        } else {
            Err(SimError::UnknownTrip)
        }
    }

    /// The ordered itinerary of a person; `UnknownTrip` for an unregistered
    /// person id.
    pub fn trips_for_person(&self, p: PersonId) -> (r: Result<Vec<TripId>, SimError>)
        ensures
            p < self.persons@.len() ==> r is Ok
                && r->Ok_0@ =~= self.persons@[p as int].trips@,
            p >= self.persons@.len() ==> r == Err::<Vec<TripId>, SimError>(SimError::UnknownTrip),
    {
        if p < self.persons.len() {
            let src = &self.persons[p].trips;
            let mut out: Vec<TripId> = Vec::new();
            let mut i: usize = 0;
            while i < src.len()
                invariant
                    i <= src@.len(),
                    out@ =~= src@.take(i as int),
                decreases src@.len() - i,
            {
                out.push(src[i]);
                i = i + 1;
            }
            proof {
                assert(src@.take(src@.len() as int) =~= src@);
            }
            Ok(out)
        } else {
            Err(SimError::UnknownTrip)
        }
    }

    /// The parked vehicles owned via `bldg`: every parked vehicle whose
    /// location is that building, in parking order.
    pub fn parked_at(&self, bldg: BuildingId) -> (r: Vec<ParkedVehicle>)
        ensures
            r@ =~= self.parked@.filter(|pv: ParkedVehicle| pv.bldg == bldg),
    {
        let mut out: Vec<ParkedVehicle> = Vec::new();
        let mut i: usize = 0;
        while i < self.parked.len()
            invariant
                i <= self.parked@.len(),
                out@ =~= self.parked@.take(i as int).filter(|pv: ParkedVehicle| pv.bldg == bldg),
            decreases self.parked@.len() - i,
        {
            proof {
                broadcast use Seq::lemma_filter_push;
                assert(self.parked@.take(i + 1) =~= self.parked@.take(i as int).push(
                    self.parked@[i as int]));
            }
            let pv = self.parked[i];
            if pv.bldg == bldg {
                out.push(pv);
            }
            i = i + 1;
        }
        proof {
            assert(self.parked@.take(self.parked@.len() as int) =~= self.parked@);
        }
        out
    }
}

} // verus!
