//! Identifiers, travel modes, trip endpoints and the error taxonomy shared
//! by every component of the engine.

use vstd::prelude::*;

verus! {

/// Index into the trip table of the trip manager.
pub type TripId = usize;

/// Index into the person table of the trip manager.
pub type PersonId = usize;

/// Index into the agent table of the simulation.
pub type AgentId = usize;

/// Index into the lane table of the road network.
pub type LaneId = usize;

/// Index into the intersection table of the simulation.
pub type IntersectionId = usize;

/// Index into the building table of the road network.
pub type BuildingId = usize;

/// Simulated time, in deciseconds since the start of the day.
pub type Time = u64;

/// A span of simulated time, in deciseconds.
pub type TimeDelta = u64;

/// Travel mode of an agent or of one leg of a trip.
#[derive(Clone, Copy, PartialEq, Eq, Structural, Debug)]
pub enum TravelMode {
    Car,
    Bike,
    Pedestrian,
    Bus,
}

/// Where a trip begins or ends.
#[derive(Clone, Copy, PartialEq, Eq, Structural, Debug)]
pub enum TripEndpoint {
    Bldg(BuildingId),
    Border(LaneId),
    Parking(BuildingId),
}

/// The error taxonomy of the engine.
///
/// `PastScheduling` is an attempt to schedule an event before the current
/// simulation time. `NoPath` is a routing failure, recoverable per trip.
/// `UnknownTrip` and `TripDoesntExist` flag queries against an id that was
/// never registered. `EditRejected` means a network edit violates the
/// active gameplay-mode restriction policy.
#[derive(Clone, Copy, PartialEq, Eq, Structural, Debug)]
pub enum SimError {
    PastScheduling,
    NoPath,
    UnknownTrip,
    TripDoesntExist,
    EditRejected,
}

} // verus!
