//! The global event scheduler: a priority queue over (time, insertion
//! sequence) that drives discrete-event time advancement.
//!
//! Events are totally ordered by (time, sequence number); sequence numbers
//! are assigned in insertion order, so two runs over the same event set
//! dispatch in the same order, and ties in time dispatch in insertion order.

use vstd::prelude::*;
use crate::types::{AgentId, IntersectionId, SimError, Time, TripId};

verus! {

/// What a dispatched event asks the engine to do.
#[derive(Clone, Copy, PartialEq, Eq, Structural, Debug)]
pub enum EventKind {
    /// Begin the next leg of a trip (its first leg if it has not started).
    TripStart(TripId),
    /// An agent has finished traversing its current lane.
    AgentStep(AgentId),
    /// A traffic signal's phase timer has expired.
    SignalTimer(IntersectionId),
}

/// A scheduled event: fire time, insertion sequence number, payload.
#[derive(Clone, Copy, PartialEq, Eq, Structural, Debug)]
pub struct Event {
    pub time: Time,
    pub seq: u64,
    pub kind: EventKind,
}

/// Strict lexicographic order on (time, sequence) keys.
pub open spec fn key_lt(a: (Time, u64), b: (Time, u64)) -> bool {
    a.0 < b.0 || (a.0 == b.0 && a.1 < b.1)
}

/// Non-strict lexicographic order on (time, sequence) keys.
pub open spec fn key_le(a: (Time, u64), b: (Time, u64)) -> bool {
    a.0 < b.0 || (a.0 == b.0 && a.1 <= b.1)
}

/// A history of dispatch keys is sorted when every earlier entry is
/// strictly below every later one.
pub open spec fn history_sorted(h: Seq<(Time, u64)>) -> bool {
    forall|i: int, j: int| 0 <= i < j < h.len() ==> key_lt(h[i], h[j])
}

/// The event scheduler. `history` records, as ghost state, the (time, seq)
/// key of every event dispatched so far, in dispatch order.
pub struct Scheduler {
    pending: Vec<Event>,
    now: Time,
    next_seq: u64,
    history: Ghost<Seq<(Time, u64)>>,
}

impl Scheduler {
    /// The events scheduled but not yet dispatched.
    pub closed spec fn pending_events(&self) -> Seq<Event> {
        self.pending@
    }

    /// The current simulation clock.
    pub closed spec fn spec_now(&self) -> Time {
        self.now
    }

    /// The next insertion sequence number to be assigned.
    pub closed spec fn spec_next_seq(&self) -> u64 {
        self.next_seq
    }

    /// The (time, seq) keys of all dispatched events, in dispatch order.
    pub closed spec fn history(&self) -> Seq<(Time, u64)> {
        self.history@
    }

    /// Internal consistency: pending events never lie in the past, carry
    /// distinct sequence numbers below the counter, and everything already
    /// dispatched is strictly below everything still pending.
    pub closed spec fn wf(&self) -> bool {
        &&& forall|k: int| 0 <= k < self.pending@.len() ==> (#[trigger] self.pending@[k]).time >= self.now
        &&& forall|k: int| 0 <= k < self.pending@.len() ==> (#[trigger] self.pending@[k]).seq < self.next_seq
        &&& forall|k1: int, k2: int|
            0 <= k1 < k2 < self.pending@.len() ==> self.pending@[k1].seq != self.pending@[k2].seq
        &&& history_sorted(self.history@)
        &&& self.history@.len() > 0 ==> {
            &&& self.history@.last().0 <= self.now
            &&& self.history@.last().1 < self.next_seq
            &&& forall|k: int| 0 <= k < self.pending@.len()
                ==> key_lt(self.history@.last(), ((#[trigger] self.pending@[k]).time, self.pending@[k].seq))
        }
    }

    /// A fresh scheduler at the start of the day: empty queue, clock at zero.
    pub fn new() -> (s: Scheduler)
        ensures
            s.wf(),
            s.spec_now() == 0,
            s.pending_events() =~= Seq::<Event>::empty(),
            s.history() =~= Seq::<(Time, u64)>::empty(),
            s.spec_next_seq() == 0,
    {
        Scheduler { pending: Vec::new(), now: 0, next_seq: 0, history: Ghost(Seq::empty()) }
    }

    /// Current clock value.
    pub fn now(&self) -> (t: Time)
        ensures
            t == self.spec_now(),
    {
        self.now
    }

    /// The insertion-sequence counter (the seq number the next scheduled
    /// event will carry).
    pub fn seq_counter(&self) -> (n: u64)
        ensures
            n == self.spec_next_seq(),
    {
        self.next_seq
    }

    /// How many events are still pending.
    pub fn pending_len(&self) -> (n: usize)
        ensures
            n == self.pending_events().len(),
    {
        self.pending.len()
    }

    /// Insert an event. Fails with `PastScheduling` exactly when `time` lies
    /// before the current clock; otherwise the event is appended with the
    /// next insertion sequence number. The sequence counter is a `u64`; the
    /// caller keeps it below its maximum (a machine limit).
    pub fn schedule(&mut self, time: Time, kind: EventKind) -> (r: Result<(), SimError>)
        requires
            old(self).wf(),
            old(self).spec_next_seq() < u64::MAX,
        ensures
            final(self).wf(),
            time >= old(self).spec_now() ==> {
                &&& r is Ok
                &&& final(self).pending_events() =~= old(self).pending_events().push(
                    Event { time, seq: old(self).spec_next_seq(), kind })
                &&& final(self).spec_next_seq() == old(self).spec_next_seq() + 1
            },
            time < old(self).spec_now() ==> r == Err::<(), SimError>(SimError::PastScheduling)
                && *final(self) == *old(self),
            final(self).spec_now() == old(self).spec_now(),
            final(self).history() == old(self).history(),
    {
        if time < self.now {
            return Err(SimError::PastScheduling);
        }
        let ev = Event { time, seq: self.next_seq, kind };
        self.pending.push(ev);
        self.next_seq = self.next_seq + 1;
        Ok(())
    }

    /// Pop the due event with the least (time, sequence) key, if any event is
    /// due at or before `target`. On a pop the clock advances to the event's
    /// time and the event's key is appended to the dispatch history; when
    /// nothing is due the scheduler is unchanged.
    pub fn pop_due(&mut self, target: Time) -> (r: Option<Event>)
        requires
            old(self).wf(),
        ensures
            final(self).wf(),
            final(self).spec_now() >= old(self).spec_now(),
            final(self).spec_next_seq() == old(self).spec_next_seq(),
            match r {
                None => {
                    &&& *final(self) == *old(self)
                    &&& forall|k: int| 0 <= k < old(self).pending_events().len()
                        ==> (#[trigger] old(self).pending_events()[k]).time > target
                },
                Some(e) => {
                    &&& e.time <= target
                    &&& e.time >= old(self).spec_now()
                    &&& exists|k: int| 0 <= k < old(self).pending_events().len()
                        && old(self).pending_events()[k] == e
                        && final(self).pending_events() =~= old(self).pending_events().remove(k)
                    &&& forall|k: int| 0 <= k < old(self).pending_events().len()
                        ==> key_le((e.time, e.seq),
                            ((#[trigger] old(self).pending_events()[k]).time,
                             old(self).pending_events()[k].seq))
                    &&& final(self).spec_now() == e.time
                    &&& final(self).history() =~= old(self).history().push((e.time, e.seq))
                },
            },
    {
        if self.pending.len() == 0 {
            return None;
        }
        // Find the index of the minimal (time, seq) key.
        let mut best: usize = 0;
        let mut i: usize = 1;
        while i < self.pending.len()
            invariant
                0 < self.pending.len(),
                0 <= best < i,
                i <= self.pending.len(),
                forall|k: int| 0 <= k < i ==> key_le(
                    (self.pending@[best as int].time, self.pending@[best as int].seq),
                    ((#[trigger] self.pending@[k]).time, self.pending@[k].seq)),
            decreases self.pending.len() - i,
        {
            let bi = &self.pending[best];
            let ci = &self.pending[i];
            if ci.time < bi.time || (ci.time == bi.time && ci.seq < bi.seq) {
                best = i;
            }
            i = i + 1;
        }
        let e = self.pending[best];
        if e.time > target {
            return None;
        }
        self.pending.remove(best);
        self.now = e.time;
        proof {
            let h0 = self.history@;
            assert forall|k: int| 0 <= k < self.pending@.len()
                implies key_lt((e.time, e.seq), ((#[trigger] self.pending@[k]).time, self.pending@[k].seq)) by {
                let old_pending = old(self).pending_events();
                let kk = if k < best { k } else { k + 1 };
                assert(self.pending@[k] == old_pending[kk]);
                assert(key_le((e.time, e.seq), (old_pending[kk].time, old_pending[kk].seq)));
                assert(old_pending[kk].seq != e.seq) by {
                    assert(old_pending[best as int] == e);
                }
            }
            self.history = Ghost(h0.push((e.time, e.seq)));
            if h0.len() > 0 {
                assert(key_lt(h0.last(), (e.time, e.seq)));
                assert forall|i2: int, j2: int| 0 <= i2 < j2 < self.history@.len()
                    implies key_lt(self.history@[i2], self.history@[j2]) by {
                    if j2 < h0.len() {
                        assert(key_lt(h0[i2], h0[j2]));
                    } else {
                        if i2 < h0.len() - 1 {
                            assert(key_lt(h0[i2], h0.last()));
                        }
                    }
                }
            }
        }
        Some(e)
    }

    /// Advance the clock to `target` once every remaining pending event lies
    /// strictly later; used to finish an `advance_to` step whose due events
    /// are all dispatched.
    pub fn advance_clock(&mut self, target: Time)
        requires
            old(self).wf(),
            forall|k: int| 0 <= k < old(self).pending_events().len()
                ==> (#[trigger] old(self).pending_events()[k]).time >= target,
        ensures
            final(self).wf(),
            final(self).spec_now() == if target > old(self).spec_now() { target } else {
                old(self).spec_now()
            },
            final(self).pending_events() == old(self).pending_events(),
            final(self).history() == old(self).history(),
            final(self).spec_next_seq() == old(self).spec_next_seq(),
    {
        if target > self.now {
            self.now = target;
            proof {
                assert forall|k: int| 0 <= k < self.pending@.len()
                    implies (#[trigger] self.pending@[k]).time >= self.now by {
                    assert(old(self).pending_events()[k].time >= target);
                }
            }
        }
    }

    /// Drop every pending event and reset the clock, returning the scheduler
    /// to its start-of-day state (the dispatch history restarts as well).
    pub fn reset(&mut self)
        ensures
            final(self).wf(),
            final(self).spec_now() == 0,
            final(self).pending_events() =~= Seq::<Event>::empty(),
            final(self).history() =~= Seq::<(Time, u64)>::empty(),
            final(self).spec_next_seq() == 0,
    {
        self.pending.clear();
        self.now = 0;
        self.next_seq = 0;
        proof {
            self.history = Ghost(Seq::empty());
        }
    }
}

/// Dispatch-order law: over any run of the scheduler, dispatch order is a
/// non-decreasing function of time, and events that share a timestamp are
/// dispatched in insertion order.
pub proof fn lemma_dispatch_order(s: &Scheduler)
    requires
        s.wf(),
    ensures
        forall|i: int, j: int| 0 <= i < j < s.history().len()
            ==> (#[trigger] s.history()[i]).0 <= (#[trigger] s.history()[j]).0,
        forall|i: int, j: int| 0 <= i < j < s.history().len()
            && (#[trigger] s.history()[i]).0 == (#[trigger] s.history()[j]).0
            ==> s.history()[i].1 < s.history()[j].1,
{
    assert forall|i: int, j: int| 0 <= i < j < s.history().len()
        implies (#[trigger] s.history()[i]).0 <= (#[trigger] s.history()[j]).0 by {
        assert(key_lt(s.history()[i], s.history()[j]));
    }
    assert forall|i: int, j: int| 0 <= i < j < s.history().len()
        && (#[trigger] s.history()[i]).0 == (#[trigger] s.history()[j]).0
        implies s.history()[i].1 < s.history()[j].1 by {
        assert(key_lt(s.history()[i], s.history()[j]));
    }
}

} // verus!
