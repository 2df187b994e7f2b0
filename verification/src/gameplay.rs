//! Gameplay modes and their edit-restriction policy.
//!
//! A gameplay mode is a tagged variant with an explicit capability table:
//! which kinds of network edits it allows. The simulation consults the
//! policy before applying an edit and rejects a disallowed one with
//! `EditRejected`, leaving the engine unchanged.

use vstd::prelude::*;
use crate::network::Lane;
use crate::types::{IntersectionId, LaneId, PersonId, TimeDelta};

verus! {

/// Position within the tutorial: stage and part.
#[derive(Clone, Copy, PartialEq, Eq, Structural, Debug)]
pub struct TutorialPointer {
    pub stage: usize,
    pub part: usize,
}

/// The new control of an edited intersection.
#[derive(Debug)]
pub enum EditIntersection {
    StopSign,
    Signal { phase_allowed: Vec<Vec<bool>>, phase_len: TimeDelta },
}

/// One network edit command.
#[derive(Debug)]
pub enum EditCmd {
    /// Change which modes a lane admits.
    ChangeLaneType { lane: LaneId, new_lane: Lane },
    /// Change a lane's traversal time.
    ChangeSpeedLimit { lane: LaneId, travel_time: TimeDelta },
    /// Change an intersection's control.
    ChangeIntersection { i: IntersectionId, new: EditIntersection },
}

/// A set of edit commands.
#[derive(Debug)]
pub struct MapEdits {
    pub commands: Vec<EditCmd>,
}

/// The gameplay mode in play, with the map (and scenario) it runs on.
#[derive(Debug)]
pub enum GameplayMode {
    /// Map name.
    Freeform(String),
    /// Map name, scenario name.
    PlayScenario(String, String),
    /// Map name.
    CreateGridlock(String),
    FixTrafficSignals,
    OptimizeCommute(PersonId, TimeDelta),
    Tutorial(TutorialPointer),
}

/// Whether a mode may change lane types and speed limits.
pub open spec fn spec_can_edit_lanes(m: GameplayMode) -> bool {
    !(m is FixTrafficSignals)
}

/// Whether a mode may convert an intersection to a stop sign.
pub open spec fn spec_can_edit_stop_signs(m: GameplayMode) -> bool {
    !(m is FixTrafficSignals)
}

/// Whether a mode allows one edit command: lane edits need the lane
/// capability; a conversion to a stop sign needs the stop-sign capability;
/// signal retiming is always allowed.
pub open spec fn spec_allows_cmd(m: GameplayMode, c: EditCmd) -> bool {
    match c {
        EditCmd::ChangeLaneType { .. } => spec_can_edit_lanes(m),
        EditCmd::ChangeSpeedLimit { .. } => spec_can_edit_lanes(m),
        EditCmd::ChangeIntersection { new, .. } => match new {
            EditIntersection::StopSign => spec_can_edit_stop_signs(m),
            EditIntersection::Signal { .. } => true,
        },
    }
}

impl GameplayMode {
    /// The map the mode plays on: the stored name, or the default map for
    /// the challenge and tutorial modes.
    pub fn map_path(&self) -> (r: String)
        ensures
            match self {
                GameplayMode::Freeform(p) => r@ == p@,
                GameplayMode::PlayScenario(p, _) => r@ == p@,
                GameplayMode::CreateGridlock(p) => r@ == p@,
                GameplayMode::FixTrafficSignals => r@ == "montlake"@,
                GameplayMode::OptimizeCommute(_, _) => r@ == "montlake"@,
                GameplayMode::Tutorial(_) => r@ == "montlake"@,
            },
    {
        match self {
            GameplayMode::Freeform(p) => p.clone(),
            GameplayMode::PlayScenario(p, _) => p.clone(),
            GameplayMode::CreateGridlock(p) => p.clone(),
            GameplayMode::FixTrafficSignals => "montlake".to_owned(),
            GameplayMode::OptimizeCommute(_, _) => "montlake".to_owned(),
            GameplayMode::Tutorial(_) => "montlake".to_owned(),
        }
    }

    /// The name of the scenario the mode seeds, if it seeds one: the chosen
    /// scenario when playing one, the weekday scenario for the challenge
    /// modes, none for freeform and tutorial play.
    pub fn scenario_name(&self) -> (r: Option<String>)
        ensures
            match self {
                GameplayMode::Freeform(_) => r is None,
                GameplayMode::Tutorial(_) => r is None,
                GameplayMode::PlayScenario(_, name) => r is Some && r->0@ == name@,
                GameplayMode::CreateGridlock(_) => r is Some && r->0@ == "weekday"@,
                GameplayMode::FixTrafficSignals => r is Some && r->0@ == "weekday"@,
                GameplayMode::OptimizeCommute(_, _) => r is Some && r->0@ == "weekday"@,
            },
    {
        match self {
            GameplayMode::Freeform(_) => None,
            GameplayMode::Tutorial(_) => None,
            GameplayMode::PlayScenario(_, name) => Some(name.clone()),
            GameplayMode::CreateGridlock(_) => Some("weekday".to_owned()),
            GameplayMode::FixTrafficSignals => Some("weekday".to_owned()),
            GameplayMode::OptimizeCommute(_, _) => Some("weekday".to_owned()),
        }
    }

    /// Whether this mode may edit lane types and speed limits.
    pub fn can_edit_lanes(&self) -> (r: bool)
        ensures
            r == spec_can_edit_lanes(*self),
    {
        match self {
            GameplayMode::FixTrafficSignals => false,
            _ => true,
        }
    }

    /// Whether this mode may convert intersections to stop signs.
    pub fn can_edit_stop_signs(&self) -> (r: bool)
        ensures
            r == spec_can_edit_stop_signs(*self),
    {
        match self {
            GameplayMode::FixTrafficSignals => false,
            _ => true,
        }
    }

    /// Whether this mode allows every command of an edit set.
    pub fn allows(&self, edits: &MapEdits) -> (r: bool)
        ensures
            r == forall|k: int| 0 <= k < edits.commands@.len()
                ==> spec_allows_cmd(*self, #[trigger] edits.commands@[k]),
    {
        let mut k: usize = 0;
        while k < edits.commands.len()
            invariant
                k <= edits.commands@.len(),
                forall|j: int| 0 <= j < k
                    ==> spec_allows_cmd(*self, #[trigger] edits.commands@[j]),
            decreases edits.commands@.len() - k,
        {
            let ok = match &edits.commands[k] {
                EditCmd::ChangeLaneType { .. } => self.can_edit_lanes(),
                EditCmd::ChangeSpeedLimit { .. } => self.can_edit_lanes(),
                EditCmd::ChangeIntersection { new, .. } => match new {
                    EditIntersection::StopSign => self.can_edit_stop_signs(),
                    EditIntersection::Signal { .. } => true,
                },
            };
            if !ok {
                return false;
            }
            k = k + 1;
        }
        true
    }
}

} // verus!
