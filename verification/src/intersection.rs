//! Per-intersection traffic control: a state machine (signal phases,
//! stop-sign priority, or yield) that grants, queues or denies turn
//! requests.
//!
//! The central invariant: the set of simultaneously granted turns is always
//! pairwise non-conflicting per the intersection's conflict table.

use vstd::prelude::*;
use crate::types::{AgentId, Time, TimeDelta};

verus! {

/// The three outcomes of a turn request.
#[derive(Clone, Copy, PartialEq, Eq, Structural, Debug)]
pub enum TurnDecision {
    Granted,
    Queued,
    Denied,
}

/// A pending turn request: who asks, which turn, and when the wait clock
/// started (the instant the request was first queued).
#[derive(Clone, Copy, PartialEq, Eq, Structural, Debug)]
pub struct TurnRequest {
    pub agent: AgentId,
    pub turn: usize,
    pub since: Time,
}

/// The control policy enacted by an intersection.
#[derive(Debug)]
pub enum ControlPolicy {
    /// Fixed-time signal: `phase_allowed[p][t]` says whether phase `p`
    /// admits turn `t`; phases advance round-robin on timer events every
    /// `phase_len` deciseconds.
    Signal { phase_allowed: Vec<Vec<bool>>, current: usize, phase_len: TimeDelta },
    /// Priority by arrival order: a request is granted only when no earlier
    /// conflicting request is still pending.
    StopSign,
    /// Grant whenever compatible with what is already granted.
    Yield,
}

/// A policy fits an intersection with `n_turns` turns: a signal must have a
/// non-empty phase table with one entry per turn in every phase, a valid
/// current phase and a positive phase length.
pub open spec fn policy_wf(n_turns: int, policy: ControlPolicy) -> bool {
    match policy {
        ControlPolicy::Signal { phase_allowed, current, phase_len } => {
            &&& phase_allowed@.len() > 0
            &&& current < phase_allowed@.len()
            &&& forall|p: int| 0 <= p < phase_allowed@.len()
                ==> (#[trigger] phase_allowed@[p])@.len() == n_turns
            &&& phase_len > 0
        },
        ControlPolicy::StopSign => true,
        ControlPolicy::Yield => true,
    }
}

/// One intersection's controller state.
#[derive(Debug)]
pub struct IntersectionCtrl {
    /// Number of turns through this intersection.
    pub n_turns: usize,
    /// Symmetric conflict table: `conflicts[a][b]` means turns `a` and `b`
    /// may not be granted together.
    pub conflicts: Vec<Vec<bool>>,
    /// Turns structurally disallowed (for example, banned by an edit).
    pub banned: Vec<bool>,
    pub policy: ControlPolicy,
    /// Currently granted (agent, turn) pairs.
    pub granted: Vec<(AgentId, usize)>,
    /// Pending requests, in arrival order.
    pub queue: Vec<TurnRequest>,
}

impl IntersectionCtrl {
    /// Whether turns `a` and `b` conflict per the table.
    pub open spec fn spec_conflict(&self, a: int, b: int) -> bool {
        self.conflicts@[a]@[b]
    }

    /// Whether the active policy's phase admits turn `t` right now (always
    /// true for stop signs and yields, which have no phases).
    pub open spec fn spec_phase_allows(&self, t: int) -> bool {
        match self.policy {
            ControlPolicy::Signal { phase_allowed, current, .. } =>
                phase_allowed@[current as int]@[t],
            ControlPolicy::StopSign => true,
            ControlPolicy::Yield => true,
        }
    }

    /// Turn `t` conflicts with no member of `granted`.
    pub open spec fn compat_with(&self, granted: Seq<(AgentId, usize)>, t: int) -> bool {
        forall|k: int| 0 <= k < granted.len()
            ==> !self.spec_conflict((#[trigger] granted[k]).1 as int, t)
    }

    /// Turn `t` conflicts with no request in `q`.
    pub open spec fn no_conflicting_request(&self, q: Seq<TurnRequest>, t: int) -> bool {
        forall|k: int| 0 <= k < q.len()
            ==> !self.spec_conflict((#[trigger] q[k]).turn as int, t)
    }

    /// Whether a fresh request for turn `t` is granted on arrival: never a
    /// banned turn; never one conflicting with a granted turn; a signal
    /// additionally requires its current phase to admit the turn, and a stop
    /// sign requires that no earlier (hence higher-priority) conflicting
    /// request is still pending.
    pub open spec fn would_grant(&self, t: int) -> bool {
        &&& !self.banned@[t]
        &&& self.compat_with(self.granted@, t)
        &&& match self.policy {
            ControlPolicy::Signal { .. } => self.spec_phase_allows(t),
            ControlPolicy::StopSign => self.no_conflicting_request(self.queue@, t),
            ControlPolicy::Yield => true,
        }
    }

    /// The pairwise non-conflict property of a granted set.
    pub open spec fn granted_ok(&self, granted: Seq<(AgentId, usize)>) -> bool {
        forall|i: int, j: int| 0 <= i < granted.len() && 0 <= j < granted.len() && i != j
            ==> !self.spec_conflict((#[trigger] granted[i]).1 as int, (#[trigger] granted[j]).1 as int)
    }

    /// Internal consistency: square symmetric conflict table, indices in
    /// range, a well-formed phase table, and the granted set pairwise
    /// non-conflicting.
    pub open spec fn wf(&self) -> bool {
        &&& self.conflicts@.len() == self.n_turns
        &&& forall|a: int| 0 <= a < self.n_turns ==> (#[trigger] self.conflicts@[a])@.len() == self.n_turns
        &&& forall|a: int, b: int| 0 <= a < self.n_turns && 0 <= b < self.n_turns
            ==> self.spec_conflict(a, b) == self.spec_conflict(b, a)
        &&& self.banned@.len() == self.n_turns
        &&& policy_wf(self.n_turns as int, self.policy)
        &&& forall|k: int| 0 <= k < self.granted@.len() ==> (#[trigger] self.granted@[k]).1 < self.n_turns
        &&& forall|k: int| 0 <= k < self.queue@.len() ==> (#[trigger] self.queue@[k]).turn < self.n_turns
        &&& self.granted_ok(self.granted@)
    }

    /// A fresh controller with the given conflict table and policy: nothing
    /// granted, nothing queued, nothing banned.
    pub fn new(n_turns: usize, conflicts: Vec<Vec<bool>>, policy: ControlPolicy) -> (c: IntersectionCtrl)
        requires
            conflicts@.len() == n_turns,
            forall|a: int| 0 <= a < n_turns ==> (#[trigger] conflicts@[a])@.len() == n_turns,
            forall|a: int, b: int| 0 <= a < n_turns && 0 <= b < n_turns
                ==> conflicts@[a]@[b] == conflicts@[b]@[a],
            policy_wf(n_turns as int, policy),
        ensures
            c.wf(),
            c.n_turns == n_turns,
            c.conflicts == conflicts,
            c.policy == policy,
            c.granted@ =~= Seq::<(AgentId, usize)>::empty(),
            c.queue@ =~= Seq::<TurnRequest>::empty(),
            forall|t: int| 0 <= t < n_turns ==> !c.banned@[t],
    {
        let mut banned: Vec<bool> = Vec::new();
        let mut i: usize = 0;
        while i < n_turns
            invariant
                i <= n_turns,
                banned@.len() == i,
                forall|t: int| 0 <= t < i ==> !banned@[t],
            decreases n_turns - i,
        {
            banned.push(false);
            i = i + 1;
        }
        IntersectionCtrl {
            n_turns,
            conflicts,
            banned,
            policy,
            granted: Vec::new(),
            queue: Vec::new(),
        }
    }

    /// Does turn `t` conflict with any currently granted turn?
    fn conflicts_with_granted(&self, t: usize) -> (r: bool)
        requires
            self.wf(),
            t < self.n_turns,
        ensures
            r == !self.compat_with(self.granted@, t as int),
    {
        let mut k: usize = 0;
        while k < self.granted.len()
            invariant
                self.wf(),
                t < self.n_turns,
                k <= self.granted@.len(),
                forall|j: int| 0 <= j < k
                    ==> !self.spec_conflict((#[trigger] self.granted@[j]).1 as int, t as int),
            decreases self.granted@.len() - k,
        {
            let g = self.granted[k];
            if self.conflicts[g.1][t] {
                return true;
            }
            k = k + 1;
        }
        false
    }

    /// Does turn `t` conflict with any request in `q`?
    fn conflicts_with_requests(&self, q: &Vec<TurnRequest>, t: usize) -> (r: bool)
        requires
            self.wf(),
            t < self.n_turns,
            forall|j: int| 0 <= j < q@.len() ==> (#[trigger] q@[j]).turn < self.n_turns,
        ensures
            r == !self.no_conflicting_request(q@, t as int),
    {
        let mut k: usize = 0;
        while k < q.len()
            invariant
                self.wf(),
                t < self.n_turns,
                k <= q@.len(),
                forall|j: int| 0 <= j < q@.len() ==> (#[trigger] q@[j]).turn < self.n_turns,
                forall|j: int| 0 <= j < k
                    ==> !self.spec_conflict((#[trigger] q@[j]).turn as int, t as int),
            decreases q@.len() - k,
        {
            let r = q[k];
            if self.conflicts[r.turn][t] {
                return true;
            }
            k = k + 1;
        }
        false
    }

    /// Does the current phase admit turn `t`?
    fn phase_allows(&self, t: usize) -> (r: bool)
        requires
            self.wf(),
            t < self.n_turns,
        ensures
            r == self.spec_phase_allows(t as int),
    {
        match &self.policy {
            ControlPolicy::Signal { phase_allowed, current, .. } => phase_allowed[*current][t],
            ControlPolicy::StopSign => true,
            ControlPolicy::Yield => true,
        }
    }

    /// Arbitrate a fresh turn request at time `now`. Denied exactly when the
    /// turn is banned; otherwise Granted exactly when the policy admits it
    /// (see `would_grant`), else Queued with the wait clock starting at
    /// `now`. Granting never breaks the pairwise non-conflict invariant.
    pub fn request_turn(&mut self, agent: AgentId, turn: usize, now: Time) -> (d: TurnDecision)
        requires
            old(self).wf(),
            turn < old(self).n_turns,
        ensures
            final(self).wf(),
            final(self).n_turns == old(self).n_turns,
            final(self).conflicts == old(self).conflicts,
            final(self).banned == old(self).banned,
            final(self).policy == old(self).policy,
            d == TurnDecision::Denied <==> old(self).banned@[turn as int],
            d == TurnDecision::Granted <==> old(self).would_grant(turn as int),
            d == TurnDecision::Denied ==> *final(self) == *old(self),
            d == TurnDecision::Granted ==> {
                &&& final(self).granted@ =~= old(self).granted@.push((agent, turn))
                &&& final(self).queue@ == old(self).queue@
            },
            d == TurnDecision::Queued ==> {
                &&& final(self).queue@ =~= old(self).queue@.push(
                    TurnRequest { agent, turn, since: now })
                &&& final(self).granted@ == old(self).granted@
            },
    {
        if self.banned[turn] {
            return TurnDecision::Denied;
        }
        let compat = !self.conflicts_with_granted(turn);
        let admitted = match &self.policy {
            ControlPolicy::Signal { .. } => self.phase_allows(turn),
            ControlPolicy::StopSign => !self.conflicts_with_requests(&self.queue, turn),
            ControlPolicy::Yield => true,
        };
        if compat && admitted {
            self.granted.push((agent, turn));
            proof {
                lemma_symmetry_carries(old(self), self);
                assert forall|i: int, j: int|
                    0 <= i < self.granted@.len() && 0 <= j < self.granted@.len() && i != j
                    implies !self.spec_conflict(
                        (#[trigger] self.granted@[i]).1 as int,
                        (#[trigger] self.granted@[j]).1 as int) by {
                    let n = self.granted@.len() - 1;
                    if i < n && j < n {
                        assert(old(self).granted_ok(old(self).granted@));
                        assert(!old(self).spec_conflict(
                            old(self).granted@[i].1 as int, old(self).granted@[j].1 as int));
                    } else if i == n {
                        let gj = self.granted@[j].1 as int;
                        assert(self.granted@[j] == old(self).granted@[j]);
                        assert(!old(self).spec_conflict(gj, turn as int));
                        assert(old(self).spec_conflict(turn as int, gj)
                            == old(self).spec_conflict(gj, turn as int));
                    } else {
                        let gi = self.granted@[i].1 as int;
                        assert(self.granted@[i] == old(self).granted@[i]);
                        assert(!old(self).spec_conflict(gi, turn as int));
                    }
                }
            }
            TurnDecision::Granted
        } else {
            self.queue.push(TurnRequest { agent, turn, since: now });
            proof {
                lemma_symmetry_carries(old(self), self);
            }
            TurnDecision::Queued
        }
    }

    /// Drop every grant held by `agent` (it has finished crossing). The
    /// grants of other agents are untouched; promotion of waiting requests
    /// is a separate step.
    pub fn release_turn(&mut self, agent: AgentId)
        requires
            old(self).wf(),
        ensures
            final(self).wf(),
            final(self).n_turns == old(self).n_turns,
            final(self).conflicts == old(self).conflicts,
            final(self).banned == old(self).banned,
            final(self).policy == old(self).policy,
            final(self).queue@ == old(self).queue@,
            final(self).granted@ =~= old(self).granted@.filter(
                |g: (AgentId, usize)| g.0 != agent),
    {
        let mut kept: Vec<(AgentId, usize)> = Vec::new();
        let mut k: usize = 0;
        while k < self.granted.len()
            invariant
                self.wf(),
                k <= self.granted@.len(),
                kept@ =~= self.granted@.take(k as int).filter(|g: (AgentId, usize)| g.0 != agent),
            decreases self.granted@.len() - k,
        {
            proof {
                broadcast use Seq::lemma_filter_push;
                assert(self.granted@.take(k + 1) =~= self.granted@.take(k as int).push(
                    self.granted@[k as int]));
            }
            let g = self.granted[k];
            if g.0 != agent {
                kept.push(g);
            }
            k = k + 1;
        }
        proof {
            assert(self.granted@.take(self.granted@.len() as int) =~= self.granted@);
        }
        self.granted = kept;
        proof {
            lemma_symmetry_carries(old(self), self);
            let f = |g: (AgentId, usize)| g.0 != agent;
            assert forall|k2: int| 0 <= k2 < self.granted@.len()
                implies (#[trigger] self.granted@[k2]).1 < self.n_turns by {
                lemma_filter_elem_in_source(old(self).granted@, f, k2);
                let orig = choose|m: int| 0 <= m < old(self).granted@.len()
                    && old(self).granted@[m] == old(self).granted@.filter(f)[k2];
                assert(old(self).granted@[orig].1 < self.n_turns);
            }
            assert forall|i: int, j: int|
                0 <= i < self.granted@.len() && 0 <= j < self.granted@.len() && i != j
                implies !self.spec_conflict(
                    (#[trigger] self.granted@[i]).1 as int,
                    (#[trigger] self.granted@[j]).1 as int) by {
                lemma_filter_pair_in_source(old(self).granted@, f, i, j);
            }
        }
    }

    /// Whether the request `r` can be granted during promotion, given what
    /// has been granted so far and which earlier requests stay queued:
    /// earlier requests keep priority, so a turn conflicting with a
    /// still-queued earlier request must keep waiting.
    pub open spec fn grantable_in(
        &self,
        r: TurnRequest,
        granted: Seq<(AgentId, usize)>,
        kept: Seq<TurnRequest>,
    ) -> bool {
        &&& !self.banned@[r.turn as int]
        &&& self.spec_phase_allows(r.turn as int)
        &&& self.compat_with(granted, r.turn as int)
        &&& self.no_conflicting_request(kept, r.turn as int)
    }

    /// The result of promoting a queue in arrival order: walk `q` front to
    /// back, granting each request that is grantable against the grants and
    /// skipped requests accumulated so far, keeping the rest queued. Returns
    /// the final granted set and the remaining queue.
    pub open spec fn promote_rec(
        &self,
        q: Seq<TurnRequest>,
        granted: Seq<(AgentId, usize)>,
        kept: Seq<TurnRequest>,
    ) -> (Seq<(AgentId, usize)>, Seq<TurnRequest>)
        decreases q.len(),
    {
        if q.len() == 0 {
            (granted, kept)
        } else {
            let r = q[0];
            if self.grantable_in(r, granted, kept) {
                self.promote_rec(q.subrange(1, q.len() as int), granted.push((r.agent, r.turn)), kept)
            } else {
                self.promote_rec(q.subrange(1, q.len() as int), granted, kept.push(r))
            }
        }
    }

    /// Promote waiting requests in arrival order (after a release or a phase
    /// change): the queue and granted set become exactly what `promote_rec`
    /// says, and the newly granted (agent, turn) pairs are returned in
    /// grant order. Every newly granted pair comes from the old queue.
    pub fn promote(&mut self) -> (newly: Vec<(AgentId, usize)>)
        requires
            old(self).wf(),
        ensures
            final(self).wf(),
            final(self).n_turns == old(self).n_turns,
            final(self).conflicts == old(self).conflicts,
            final(self).banned == old(self).banned,
            final(self).policy == old(self).policy,
            (final(self).granted@, final(self).queue@)
                == old(self).promote_rec(old(self).queue@, old(self).granted@, Seq::empty()),
            final(self).granted@ =~= old(self).granted@ + newly@,
            forall|k: int| 0 <= k < newly@.len()
                ==> exists|m: int| 0 <= m < old(self).queue@.len()
                    && (#[trigger] newly@[k]).0 == old(self).queue@[m].agent
                    && newly@[k].1 == old(self).queue@[m].turn,
            forall|k: int| 0 <= k < final(self).queue@.len()
                ==> exists|m: int| 0 <= m < old(self).queue@.len()
                    && (#[trigger] final(self).queue@[k]) == old(self).queue@[m],
    {
        let ghost q0 = self.queue@;
        let ghost g0 = self.granted@;
        let mut newly: Vec<(AgentId, usize)> = Vec::new();
        let mut kept: Vec<TurnRequest> = Vec::new();
        let mut i: usize = 0;
        proof {
            assert(q0.subrange(0, q0.len() as int) =~= q0);
            assert(kept@ =~= Seq::<TurnRequest>::empty());
        }
        while i < self.queue.len()
            invariant
                old(self).wf(),
                self.wf(),
                self.queue@ == q0,
                g0 == old(self).granted@,
                q0 == old(self).queue@,
                self.n_turns == old(self).n_turns,
                self.conflicts == old(self).conflicts,
                self.banned == old(self).banned,
                self.policy == old(self).policy,
                i <= q0.len(),
                self.granted@ =~= g0 + newly@,
                forall|j: int| 0 <= j < kept@.len() ==> (#[trigger] kept@[j]).turn < self.n_turns,
                old(self).promote_rec(q0, g0, Seq::empty())
                    == old(self).promote_rec(q0.subrange(i as int, q0.len() as int), self.granted@, kept@),
                forall|k: int| 0 <= k < newly@.len()
                    ==> exists|m: int| 0 <= m < q0.len()
                        && (#[trigger] newly@[k]).0 == q0[m].agent
                        && newly@[k].1 == q0[m].turn,
                forall|k: int| 0 <= k < kept@.len()
                    ==> exists|m: int| 0 <= m < q0.len()
                        && (#[trigger] kept@[k]) == q0[m],
            decreases q0.len() - i,
        {
            let r = self.queue[i];
            let ok = !self.banned[r.turn] && self.phase_allows(r.turn)
                && !self.conflicts_with_granted(r.turn)
                && !self.conflicts_with_requests(&kept, r.turn);
            proof {
                let tail = q0.subrange(i as int, q0.len() as int);
                assert(tail[0] == q0[i as int]);
                assert(tail.subrange(1, tail.len() as int)
                    =~= q0.subrange(i + 1, q0.len() as int));
                assert(self.banned@ == old(self).banned@);
                assert(self.spec_phase_allows(r.turn as int)
                    == old(self).spec_phase_allows(r.turn as int));
                assert(self.compat_with(self.granted@, r.turn as int)
                    == old(self).compat_with(self.granted@, r.turn as int)) by {
                    assert(forall|a: int, b: int| old(self).spec_conflict(a, b)
                        == self.spec_conflict(a, b));
                }
                assert(self.no_conflicting_request(kept@, r.turn as int)
                    == old(self).no_conflicting_request(kept@, r.turn as int)) by {
                    assert(forall|a: int, b: int| old(self).spec_conflict(a, b)
                        == self.spec_conflict(a, b));
                }
                assert(ok == old(self).grantable_in(r, self.granted@, kept@));
            }
            if ok {
                self.granted.push((r.agent, r.turn));
                newly.push((r.agent, r.turn));
                proof {
                    lemma_symmetry_carries(old(self), self);
                    assert forall|i2: int, j2: int|
                        0 <= i2 < self.granted@.len() && 0 <= j2 < self.granted@.len() && i2 != j2
                        implies !self.spec_conflict(
                            (#[trigger] self.granted@[i2]).1 as int,
                            (#[trigger] self.granted@[j2]).1 as int) by {
                        let n = self.granted@.len() - 1;
                        if i2 < n && j2 < n {
                        } else if i2 == n {
                            let gj = self.granted@[j2].1 as int;
                            assert(!self.spec_conflict(gj, r.turn as int));
                            assert(self.spec_conflict(r.turn as int, gj)
                                == self.spec_conflict(gj, r.turn as int));
                        } else {
                            let gi = self.granted@[i2].1 as int;
                            assert(!self.spec_conflict(gi, r.turn as int));
                        }
                    }
                    assert(exists|m: int| 0 <= m < q0.len()
                        && newly@.last().0 == q0[m].agent && newly@.last().1 == q0[m].turn) by {
                        assert(q0[i as int].agent == r.agent && q0[i as int].turn == r.turn);
                    }
                }
            } else {
                kept.push(r);
                proof {
                    assert(exists|m: int| 0 <= m < q0.len() && kept@.last() == q0[m]) by {
                        assert(kept@.last() == q0[i as int]);
                    }
                }
            }
            i = i + 1;
        }
        proof {
            assert(q0.subrange(q0.len() as int, q0.len() as int) =~= Seq::<TurnRequest>::empty());
        }
        self.queue = kept;
        proof {
            lemma_symmetry_carries(old(self), self);
        }
        newly
    }

    /// Advance a signal to its next phase (round-robin); a stop sign or
    /// yield is unchanged. Promotion of newly admitted turns is a separate
    /// step.
    pub fn advance_phase(&mut self)
        requires
            old(self).wf(),
        ensures
            final(self).wf(),
            final(self).n_turns == old(self).n_turns,
            final(self).conflicts == old(self).conflicts,
            final(self).banned == old(self).banned,
            final(self).granted == old(self).granted,
            final(self).queue == old(self).queue,
            match old(self).policy {
                ControlPolicy::Signal { phase_allowed, current, phase_len } =>
                    final(self).policy == (ControlPolicy::Signal {
                        phase_allowed,
                        current: if current + 1 < phase_allowed@.len() { (current + 1) as usize } else { 0 },
                        phase_len,
                    }),
                ControlPolicy::StopSign => final(self).policy == old(self).policy,
                ControlPolicy::Yield => final(self).policy == old(self).policy,
            },
    {
        let mut pol = ControlPolicy::Yield;
        core::mem::swap(&mut self.policy, &mut pol);
        match pol {
            ControlPolicy::Signal { phase_allowed, current, phase_len } => {
                let n = phase_allowed.len();
                proof {
                    assert(policy_wf(old(self).n_turns as int, old(self).policy));
                    assert(current < n);
                }
                let next = if current + 1 < n { current + 1 } else { 0 };
                self.policy = ControlPolicy::Signal { phase_allowed, current: next, phase_len };
            },
            other => {
                self.policy = other;
            },
        }
        proof {
            lemma_symmetry_carries(old(self), self);
        }
    }

    /// The phase length of a signal, if this intersection is one.
    pub fn phase_duration(&self) -> (r: Option<TimeDelta>)
        ensures
            match self.policy {
                ControlPolicy::Signal { phase_len, .. } => r == Some(phase_len),
                ControlPolicy::StopSign => r is None,
                ControlPolicy::Yield => r is None,
            },
    {
        match &self.policy {
            ControlPolicy::Signal { phase_len, .. } => Some(*phase_len),
            ControlPolicy::StopSign => None,
            ControlPolicy::Yield => None,
        }
    }

    /// Whether some pending request has waited at least `threshold` as of
    /// `now` (the wait clock of a request starts when it is queued).
    pub fn has_delayed(&self, now: Time, threshold: TimeDelta) -> (r: bool)
        requires
            forall|k: int| 0 <= k < self.queue@.len() ==> (#[trigger] self.queue@[k]).since <= now,
        ensures
            r == exists|k: int| 0 <= k < self.queue@.len()
                && now - (#[trigger] self.queue@[k]).since >= threshold,
    {
        let mut k: usize = 0;
        while k < self.queue.len()
            invariant
                k <= self.queue@.len(),
                forall|j: int| 0 <= j < self.queue@.len()
                    ==> (#[trigger] self.queue@[j]).since <= now,
                forall|j: int| 0 <= j < k
                    ==> now - (#[trigger] self.queue@[j]).since < threshold,
            decreases self.queue@.len() - k,
        {
            let q = self.queue[k];
            if now - q.since >= threshold {
                return true;
            }
            k = k + 1;
        }
        false
    }

    /// Mark a turn structurally allowed or banned, as a network edit does.
    pub fn set_banned(&mut self, turn: usize, flag: bool)
        requires
            old(self).wf(),
            turn < old(self).n_turns,
        ensures
            final(self).wf(),
            final(self).n_turns == old(self).n_turns,
            final(self).conflicts == old(self).conflicts,
            final(self).policy == old(self).policy,
            final(self).granted == old(self).granted,
            final(self).queue == old(self).queue,
            final(self).banned@ =~= old(self).banned@.update(turn as int, flag),
    {
        self.banned.set(turn, flag);
        proof {
            lemma_symmetry_carries(old(self), self);
        }
    }

    /// Replace the control policy, as an intersection edit (signal retiming
    /// or stop-sign conversion) does. Grants and the queue survive; the
    /// non-conflict invariant does not depend on the policy.
    pub fn set_policy(&mut self, policy: ControlPolicy)
        requires
            old(self).wf(),
            policy_wf(old(self).n_turns as int, policy),
        ensures
            final(self).wf(),
            final(self).n_turns == old(self).n_turns,
            final(self).conflicts == old(self).conflicts,
            final(self).banned == old(self).banned,
            final(self).granted == old(self).granted,
            final(self).queue == old(self).queue,
            final(self).policy == policy,
    {
        self.policy = policy;
        proof {
            lemma_symmetry_carries(old(self), self);
        }
    }

    /// Drop all grants and pending requests and rewind a signal to its first
    /// phase: the controller's start-of-day state, for a simulation reset.
    pub fn reset_dynamic(&mut self)
        requires
            old(self).wf(),
        ensures
            final(self).wf(),
            final(self).n_turns == old(self).n_turns,
            final(self).conflicts == old(self).conflicts,
            final(self).banned == old(self).banned,
            final(self).granted@ =~= Seq::<(AgentId, usize)>::empty(),
            final(self).queue@ =~= Seq::<TurnRequest>::empty(),
            match old(self).policy {
                ControlPolicy::Signal { phase_allowed, current, phase_len } =>
                    final(self).policy == (ControlPolicy::Signal {
                        phase_allowed,
                        current: 0,
                        phase_len,
                    }),
                ControlPolicy::StopSign => final(self).policy == old(self).policy,
                ControlPolicy::Yield => final(self).policy == old(self).policy,
            },
    {
        self.granted.clear();
        self.queue.clear();
        let mut pol = ControlPolicy::Yield;
        core::mem::swap(&mut self.policy, &mut pol);
        match pol {
            ControlPolicy::Signal { phase_allowed, current: _, phase_len } => {
                self.policy = ControlPolicy::Signal { phase_allowed, current: 0, phase_len };
            },
            other => {
                self.policy = other;
            },
        }
        proof {
            lemma_symmetry_carries(old(self), self);
        }
    }
}

/// Symmetry of the conflict table carries from one controller state to
/// another that keeps the same table.
proof fn lemma_symmetry_carries(pre: &IntersectionCtrl, post: &IntersectionCtrl)
    requires
        pre.wf(),
        post.conflicts == pre.conflicts,
        post.n_turns == pre.n_turns,
    ensures
        forall|a: int, b: int| 0 <= a < post.n_turns && 0 <= b < post.n_turns
            ==> post.spec_conflict(a, b) == post.spec_conflict(b, a),
{
    assert forall|a: int, b: int| 0 <= a < post.n_turns && 0 <= b < post.n_turns
        implies post.spec_conflict(a, b) == post.spec_conflict(b, a) by {
        assert(pre.spec_conflict(a, b) == pre.spec_conflict(b, a));
    }
}

/// Every element of a filtered sequence occurs in the source sequence.
proof fn lemma_filter_elem_in_source<A>(s: Seq<A>, f: spec_fn(A) -> bool, i: int)
    requires
        0 <= i < s.filter(f).len(),
    ensures
        exists|m: int| 0 <= m < s.len() && s[m] == s.filter(f)[i],
    decreases s.len(),
{
    reveal(Seq::filter);
    if s.len() > 0 {
        let rest = s.drop_last();
        let fl = s.filter(f);
        if f(s.last()) && i == fl.len() - 1 {
            assert(s[s.len() - 1] == fl[i]);
        } else {
            lemma_filter_elem_in_source(rest, f, i);
            let m = choose|m: int| 0 <= m < rest.len() && rest[m] == rest.filter(f)[i];
            assert(s[m] == rest[m]);
        }
    }
}

/// Two distinct positions of a filtered sequence come from distinct
/// positions of the source, so any pairwise property of the source's
/// elements carries over to the filtered sequence.
proof fn lemma_filter_pair_in_source<A>(s: Seq<A>, f: spec_fn(A) -> bool, i: int, j: int)
    requires
        0 <= i < s.filter(f).len(),
        0 <= j < s.filter(f).len(),
        i != j,
    ensures
        exists|a: int, b: int| 0 <= a < s.len() && 0 <= b < s.len() && a != b
            && s[a] == s.filter(f)[i] && s[b] == s.filter(f)[j],
    decreases s.len(),
{
    reveal(Seq::filter);
    if s.len() > 0 {
        let rest = s.drop_last();
        let fl = s.filter(f);
        if f(s.last()) {
            if i < fl.len() - 1 && j < fl.len() - 1 {
                lemma_filter_pair_in_source(rest, f, i, j);
                let (a, b) = choose|a: int, b: int| 0 <= a < rest.len() && 0 <= b < rest.len()
                    && a != b && rest[a] == rest.filter(f)[i] && rest[b] == rest.filter(f)[j];
                assert(s[a] == rest[a] && s[b] == rest[b]);
            } else if i == fl.len() - 1 {
                lemma_filter_elem_in_source(rest, f, j);
                let b = choose|b: int| 0 <= b < rest.len() && rest[b] == rest.filter(f)[j];
                assert(s[s.len() - 1] == fl[i]);
                assert(s[b] == fl[j]);
            } else {
                lemma_filter_elem_in_source(rest, f, i);
                let a = choose|a: int| 0 <= a < rest.len() && rest[a] == rest.filter(f)[i];
                assert(s[s.len() - 1] == fl[j]);
                assert(s[a] == fl[i]);
            }
        } else {
            lemma_filter_pair_in_source(rest, f, i, j);
            let (a, b) = choose|a: int, b: int| 0 <= a < rest.len() && 0 <= b < rest.len()
                && a != b && rest[a] == rest.filter(f)[i] && rest[b] == rest.filter(f)[j];
            assert(s[a] == rest[a] && s[b] == rest[b]);
        }
    }
}

/// The non-conflict law: in any well-formed controller state, the granted
/// turns are pairwise non-conflicting per the conflict table.
pub proof fn lemma_granted_nonconflicting(c: &IntersectionCtrl)
    requires
        c.wf(),
    ensures
        forall|i: int, j: int| 0 <= i < c.granted@.len() && 0 <= j < c.granted@.len() && i != j
            ==> !c.spec_conflict(
                (#[trigger] c.granted@[i]).1 as int,
                (#[trigger] c.granted@[j]).1 as int),
{
}

} // verus!
