//! The fix-traffic-signals challenge: watch the simulation and record the
//! moment any intersection's queued request has waited past the threshold.

use vstd::prelude::*;
use crate::gameplay::GameplayMode;
use crate::sim::Sim;
use crate::types::{Time, TimeDelta};

verus! {

/// The challenge fails once any queued request waits this long
/// (deciseconds).
pub const THRESHOLD: TimeDelta = 300;

/// Challenge state: the last simulation time observed, and when (if ever)
/// the delay threshold was first exceeded.
#[derive(Debug)]
pub struct FixTrafficSignals {
    pub time: Time,
    pub failed_at: Option<Time>,
    pub mode: GameplayMode,
}

/// Some intersection currently holds a request that has waited at least
/// `threshold`.
pub open spec fn any_delayed(sim: &Sim, threshold: TimeDelta) -> bool {
    exists|i: usize| i < sim.intersections@.len()
        && sim.spec_is_delayed(i as int, threshold)
}

impl FixTrafficSignals {
    /// Fresh challenge state at the start of the day.
    pub fn new() -> (s: FixTrafficSignals)
        ensures
            s.time == 0,
            s.failed_at is None,
            s.mode is FixTrafficSignals,
    {
        FixTrafficSignals { time: 0, failed_at: None, mode: GameplayMode::FixTrafficSignals }
    }

    /// Observe the simulation: when its clock has moved since the last
    /// observation and the challenge has not failed yet, a delayed
    /// intersection (wait at least `THRESHOLD`) marks the failure time.
    pub fn update(&mut self, sim: &Sim)
        requires
            sim.wf(),
        ensures
            sim.scheduler.spec_now() == old(self).time ==> *final(self) == *old(self),
            sim.scheduler.spec_now() != old(self).time ==> {
                &&& final(self).time == sim.scheduler.spec_now()
                &&& final(self).failed_at == if old(self).failed_at is None
                        && any_delayed(sim, THRESHOLD) {
                    Some(sim.scheduler.spec_now())
                } else {
                    old(self).failed_at
                }
                &&& final(self).mode == old(self).mode
            },
    {
        let now = sim.time();
        if self.time != now {
            self.time = now;
            let fresh = match self.failed_at {
                None => true,
                Some(_) => false,
            };
            if fresh {
                let problems = sim.delayed_intersections(THRESHOLD);
                if problems.len() > 0 {
                    proof {
                        assert(problems@.contains(problems@[0]));
                    }
                    self.failed_at = Some(now);
                } else {
                    proof {
                        assert forall|i: usize| i < sim.intersections@.len()
                            implies !sim.spec_is_delayed(i as int, THRESHOLD) by {
                            if sim.spec_is_delayed(i as int, THRESHOLD) {
                                assert(problems@.contains(i));
                            }
                        }
                    }
                }
            }
        }
    }
}

} // verus!
