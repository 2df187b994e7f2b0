//! The road network model and the router.
//!
//! The network is a static graph: lanes with per-mode traversal permission,
//! turns connecting lanes through intersections, and buildings fronting
//! lanes. Edits (lane type, speed limit) mutate it and bump an edit-set
//! version so cached routes can be detected as stale.
//!
//! The router computes a path for a mode between two lanes and fails with
//! `NoPath` exactly when no connected path exists for that mode.

use vstd::prelude::*;
use vstd::pervasive::VecAdditionalExecFns;
use crate::types::{BuildingId, IntersectionId, LaneId, SimError, TimeDelta, TravelMode, TripEndpoint};

verus! {

/// One lane: which modes may traverse it, and how long traversal takes.
#[derive(Clone, Copy, PartialEq, Eq, Structural, Debug)]
pub struct Lane {
    pub allow_car: bool,
    pub allow_bike: bool,
    pub allow_ped: bool,
    pub allow_bus: bool,
    pub travel_time: TimeDelta,
}

/// A directed movement from one lane to another through an intersection;
/// `turn_idx` names this turn within that intersection's controller.
#[derive(Clone, Copy, PartialEq, Eq, Structural, Debug)]
pub struct Turn {
    pub from: LaneId,
    pub to: LaneId,
    pub intersection: IntersectionId,
    pub turn_idx: usize,
}

/// A building fronting a lane.
#[derive(Clone, Copy, PartialEq, Eq, Structural, Debug)]
pub struct Building {
    pub lane: LaneId,
}

/// Whether a lane admits a travel mode.
pub open spec fn spec_lane_allows(l: Lane, mode: TravelMode) -> bool {
    match mode {
        TravelMode::Car => l.allow_car,
        TravelMode::Bike => l.allow_bike,
        TravelMode::Pedestrian => l.allow_ped,
        TravelMode::Bus => l.allow_bus,
    }
}

/// Exec twin of `spec_lane_allows`.
pub fn lane_allows(l: &Lane, mode: TravelMode) -> (b: bool)
    ensures
        b == spec_lane_allows(*l, mode),
{
    match mode {
        TravelMode::Car => l.allow_car,
        TravelMode::Bike => l.allow_bike,
        TravelMode::Pedestrian => l.allow_ped,
        TravelMode::Bus => l.allow_bus,
    }
}

/// The static road network, versioned by an edit-set identifier.
#[derive(Debug)]
pub struct Network {
    pub lanes: Vec<Lane>,
    pub turns: Vec<Turn>,
    pub buildings: Vec<Building>,
    pub edit_version: u64,
}

impl Network {
    /// Turns and buildings reference lanes in range.
    pub open spec fn wf(&self) -> bool {
        &&& forall|t: int| 0 <= t < self.turns@.len()
            ==> (#[trigger] self.turns@[t]).from < self.lanes@.len()
                && self.turns@[t].to < self.lanes@.len()
        &&& forall|b: int| 0 <= b < self.buildings@.len()
            ==> (#[trigger] self.buildings@[b]).lane < self.lanes@.len()
    }

    /// Some turn leads directly from lane `a` to lane `b`.
    pub open spec fn valid_step(&self, a: int, b: int) -> bool {
        exists|t: int| 0 <= t < self.turns@.len()
            && (#[trigger] self.turns@[t]).from == a && self.turns@[t].to == b
    }

    /// `r` is a connected path from `from` to `to` whose every lane admits
    /// `mode`.
    pub open spec fn valid_route(&self, mode: TravelMode, r: Seq<LaneId>, from: int, to: int) -> bool {
        &&& r.len() > 0
        &&& r[0] == from
        &&& r[r.len() - 1] == to
        &&& forall|i: int| 0 <= i < r.len() ==> (#[trigger] r[i]) < self.lanes@.len()
            && spec_lane_allows(self.lanes@[r[i] as int], mode)
        &&& forall|i: int| 0 <= i < r.len() - 1
            ==> self.valid_step((#[trigger] r[i]) as int, r[i + 1] as int)
    }

    /// A connected path for `mode` exists from `from` to `to`.
    pub open spec fn has_route(&self, mode: TravelMode, from: int, to: int) -> bool {
        exists|r: Seq<LaneId>| self.valid_route(mode, r, from, to)
    }

    /// The lane an endpoint sits on; None exactly for an out-of-range
    /// building or lane reference.
    pub open spec fn spec_endpoint_lane(&self, ep: TripEndpoint) -> Option<LaneId> {
        match ep {
            TripEndpoint::Bldg(b) => if b < self.buildings@.len() {
                Some(self.buildings@[b as int].lane)
            } else {
                None
            },
            TripEndpoint::Parking(b) => if b < self.buildings@.len() {
                Some(self.buildings@[b as int].lane)
            } else {
                None
            },
            TripEndpoint::Border(l) => if l < self.lanes@.len() {
                Some(l)
            } else {
                None
            },
        }
    }

    /// Exec twin of `spec_endpoint_lane`.
    pub fn endpoint_lane(&self, ep: TripEndpoint) -> (r: Option<LaneId>)
        ensures
            r == self.spec_endpoint_lane(ep),
    {
        match ep {
            TripEndpoint::Bldg(b) => {
                if b < self.buildings.len() {
                    Some(self.buildings[b].lane)
                } else {
                    None
                }
            },
            TripEndpoint::Parking(b) => {
                if b < self.buildings.len() {
                    Some(self.buildings[b].lane)
                } else {
                    None
                }
            },
            TripEndpoint::Border(l) => {
                if l < self.lanes.len() {
                    Some(l)
                } else {
                    None
                }
            },
        }
    }

    /// Replace a lane's permissions and traversal time, as a lane-type or
    /// speed-limit edit does, bumping the edit-set version.
    pub fn set_lane(&mut self, lane: LaneId, l: Lane)
        requires
            old(self).wf(),
            lane < old(self).lanes@.len(),
        ensures
            final(self).wf(),
            final(self).lanes@ =~= old(self).lanes@.update(lane as int, l),
            final(self).turns == old(self).turns,
            final(self).buildings == old(self).buildings,
            final(self).edit_version as int == if old(self).edit_version < u64::MAX {
                old(self).edit_version + 1
            } else {
                old(self).edit_version as int
            },
    {
        self.lanes.set(lane, l);
        if self.edit_version < u64::MAX {
            self.edit_version = self.edit_version + 1;
        }
    }

    /// Compute a route for `mode` from lane `from` to lane `to`: breadth of
    /// reachable lanes is explored until `to` is found. Returns a valid
    /// route exactly when one exists, and `NoPath` exactly when none does.
    pub fn compute_route(&self, mode: TravelMode, from: LaneId, to: LaneId) -> (r: Result<
        Vec<LaneId>,
        SimError,
    >)
        requires
            self.wf(),
            from < self.lanes@.len(),
            to < self.lanes@.len(),
        ensures
            match r {
                Ok(path) => self.valid_route(mode, path@, from as int, to as int)
                    && self.has_route(mode, from as int, to as int),
                Err(e) => e == SimError::NoPath && !self.has_route(mode, from as int, to as int),
            },
    {
        let nl = self.lanes.len();
        if !lane_allows(&self.lanes[from], mode) {
            proof {
                assert forall|rt: Seq<LaneId>| !self.valid_route(mode, rt, from as int, to as int) by {
                    if rt.len() > 0 && rt[0] == from {
                        assert(!spec_lane_allows(self.lanes@[from as int], mode));
                    }
                }
            }
            return Err(SimError::NoPath);
        }
        let mut visited: Vec<bool> = Vec::new();
        let mut routes: Vec<Vec<LaneId>> = Vec::new();
        let mut i: usize = 0;
        while i < nl
            invariant
                i <= nl,
                visited@.len() == i,
                routes@.len() == i,
                forall|k: int| 0 <= k < i ==> !(#[trigger] visited@[k]),
            decreases nl - i,
        {
            visited.push(false);
            routes.push(Vec::new());
            i = i + 1;
        }
        proof {
            lemma_count_true_all_false(visited@);
            lemma_count_true_update(visited@, from as int);
        }
        visited.set(from, true);
        let mut start_route: Vec<LaneId> = Vec::new();
        start_route.push(from);
        routes.set(from, start_route);
        let mut worklist: Vec<LaneId> = Vec::new();
        worklist.push(from);
        let mut visited_count: usize = 1;
        proof {
            let r0 = routes@[from as int]@;
            assert(r0.len() == 1 && r0[0] == from);
            assert(self.valid_route(mode, r0, from as int, from as int));
            assert(forall|v: int| 0 <= v < nl && v != from ==> !(#[trigger] visited@[v]));
        }
        while worklist.len() > 0
            invariant
                self.wf(),
                from < self.lanes@.len(),
                to < self.lanes@.len(),
                nl == self.lanes@.len(),
                spec_lane_allows(self.lanes@[from as int], mode),
                visited@.len() == nl,
                routes@.len() == nl,
                visited_count == count_true(visited@),
                visited_count <= nl,
                visited@[from as int],
                forall|k: int| 0 <= k < worklist@.len() ==> (#[trigger] worklist@[k]) < nl
                    && visited@[worklist@[k] as int],
                forall|v: int| 0 <= v < nl && #[trigger] visited@[v]
                    ==> spec_lane_allows(self.lanes@[v], mode)
                        && self.valid_route(mode, routes@[v]@, from as int, v),
                forall|v: int, t: int| 0 <= v < nl && #[trigger] visited@[v]
                    && !worklist@.contains(v as usize)
                    && 0 <= t < self.turns@.len()
                    && (#[trigger] self.turns@[t]).from == v
                    && spec_lane_allows(self.lanes@[self.turns@[t].to as int], mode)
                    ==> visited@[self.turns@[t].to as int],
            decreases nl - visited_count, worklist@.len(),
        {
            let ghost pre_count = visited_count;
            let ghost pre_worklist = worklist@;
            let v = match worklist.pop() {
                Some(v) => v,
                None => {
                    proof {
                        assert(false);
                    }
                    0
                },
            };
            let ghost base_len = worklist@.len();
            proof {
                assert forall|x: usize| !worklist@.contains(x) && x != v
                    implies !pre_worklist.contains(x) by {
                    if pre_worklist.contains(x) {
                        let idx = choose|idx: int| 0 <= idx < pre_worklist.len()
                            && pre_worklist[idx] == x;
                        if idx < pre_worklist.len() - 1 {
                            assert(worklist@[idx] == x);
                        }
                    }
                }
            }
            let mut ti: usize = 0;
            while ti < self.turns.len()
                invariant
                    self.wf(),
                    from < self.lanes@.len(),
                    nl == self.lanes@.len(),
                    spec_lane_allows(self.lanes@[from as int], mode),
                    v < nl,
                    ti <= self.turns@.len(),
                    visited@.len() == nl,
                    routes@.len() == nl,
                    visited_count == count_true(visited@),
                    visited_count <= nl,
                    visited_count >= pre_count,
                    worklist@.len() == base_len + (visited_count - pre_count),
                    visited@[from as int],
                    visited@[v as int],
                    forall|k: int| 0 <= k < worklist@.len() ==> (#[trigger] worklist@[k]) < nl
                        && visited@[worklist@[k] as int],
                    forall|v2: int| 0 <= v2 < nl && #[trigger] visited@[v2]
                        ==> spec_lane_allows(self.lanes@[v2], mode)
                            && self.valid_route(mode, routes@[v2]@, from as int, v2),
                    forall|v2: int, t: int| 0 <= v2 < nl && #[trigger] visited@[v2]
                        && v2 != v
                        && !worklist@.contains(v2 as usize)
                        && 0 <= t < self.turns@.len()
                        && (#[trigger] self.turns@[t]).from == v2
                        && spec_lane_allows(self.lanes@[self.turns@[t].to as int], mode)
                        ==> visited@[self.turns@[t].to as int],
                    forall|t: int| 0 <= t < ti
                        && (#[trigger] self.turns@[t]).from == v
                        && spec_lane_allows(self.lanes@[self.turns@[t].to as int], mode)
                        ==> visited@[self.turns@[t].to as int],
                decreases self.turns@.len() - ti,
            {
                let tn = self.turns[ti];
                if tn.from == v {
                    let w = tn.to;
                    if !visited[w] && lane_allows(&self.lanes[w], mode) {
                        proof {
                            lemma_count_true_update(visited@, w as int);
                            lemma_count_true_bound(visited@.update(w as int, true));
                        }
                        visited.set(w, true);
                        visited_count = visited_count + 1;
                        let src = &routes[v];
                        let mut rw: Vec<LaneId> = Vec::new();
                        let mut ci: usize = 0;
                        while ci < src.len()
                            invariant
                                ci <= src@.len(),
                                rw@ =~= src@.take(ci as int),
                            decreases src@.len() - ci,
                        {
                            rw.push(src[ci]);
                            ci = ci + 1;
                        }
                        proof {
                            assert(src@.take(src@.len() as int) =~= src@);
                        }
                        rw.push(w);
                        proof {
                            let old_route = routes@[v as int]@;
                            let new_route = rw@;
                            assert(new_route =~= old_route.push(w));
                            assert(self.turns@[ti as int].from == v
                                && self.turns@[ti as int].to == w);
                            assert(self.valid_step(v as int, w as int));
                            assert(self.valid_route(mode, new_route, from as int, w as int)) by {
                                assert(self.valid_route(mode, old_route, from as int, v as int));
                                assert(new_route[new_route.len() - 1] == w);
                                assert forall|i2: int| 0 <= i2 < new_route.len() - 1
                                    implies self.valid_step(
                                        (#[trigger] new_route[i2]) as int, new_route[i2 + 1] as int) by {
                                    if i2 < old_route.len() - 1 {
                                        assert(new_route[i2] == old_route[i2]);
                                        assert(new_route[i2 + 1] == old_route[i2 + 1]);
                                    } else {
                                        assert(new_route[i2] == old_route[old_route.len() - 1]);
                                        assert(old_route[old_route.len() - 1] == v);
                                    }
                                }
                            }
                        }
                        routes.set(w, rw);
                        let ghost before_push = worklist@;
                        worklist.push(w);
                        proof {
                            assert(worklist@[worklist@.len() - 1] == w);
                            assert(worklist@.contains(w));
                            assert forall|x: usize| !worklist@.contains(x)
                                implies !before_push.contains(x) by {
                                if before_push.contains(x) {
                                    let idx = choose|idx: int| 0 <= idx < before_push.len()
                                        && before_push[idx] == x;
                                    assert(worklist@[idx] == x);
                                }
                            }
                        }
                    }
                }
                ti = ti + 1;
            }
            proof {
                assert forall|v2: int, t: int| 0 <= v2 < nl && #[trigger] visited@[v2]
                    && !worklist@.contains(v2 as usize)
                    && 0 <= t < self.turns@.len()
                    && (#[trigger] self.turns@[t]).from == v2
                    && spec_lane_allows(self.lanes@[self.turns@[t].to as int], mode)
                    implies visited@[self.turns@[t].to as int] by {
                    if v2 == v as int {
                        assert(self.turns@[t].from == v);
                    }
                }
            }
        }
        if visited[to] {
            let mut out: Vec<LaneId> = Vec::new();
            routes.set_and_swap(to, &mut out);
            return Ok(out);
        }
        proof {
            assert forall|rt: Seq<LaneId>| !self.valid_route(mode, rt, from as int, to as int) by {
                if self.valid_route(mode, rt, from as int, to as int) {
                    self.lemma_closed_set_reaches(mode, visited@, rt, from as int, to as int);
                }
            }
        }
        Err(SimError::NoPath)
    }

    /// In a visited set that contains `from` and is closed under taking any
    /// mode-permitted turn, every lane a valid route reaches is visited.
    proof fn lemma_closed_set_reaches(
        &self,
        mode: TravelMode,
        visited: Seq<bool>,
        rt: Seq<LaneId>,
        from: int,
        to: int,
    )
        requires
            self.wf(),
            visited.len() == self.lanes@.len(),
            0 <= from < self.lanes@.len(),
            visited[from],
            forall|v: int, t: int| 0 <= v < visited.len() && #[trigger] visited[v]
                && 0 <= t < self.turns@.len()
                && (#[trigger] self.turns@[t]).from == v
                && spec_lane_allows(self.lanes@[self.turns@[t].to as int], mode)
                ==> visited[self.turns@[t].to as int],
            self.valid_route(mode, rt, from, to),
        ensures
            visited[to],
        decreases rt.len(),
    {
        if rt.len() == 1 {
            assert(rt[0] == from && rt[0] == to);
        } else {
            let prefix = rt.drop_last();
            let mid = prefix[prefix.len() - 1] as int;
            assert(self.valid_route(mode, prefix, from, mid)) by {
                assert(prefix[0] == rt[0]);
                assert forall|i: int| 0 <= i < prefix.len()
                    implies (#[trigger] prefix[i]) < self.lanes@.len()
                        && spec_lane_allows(self.lanes@[prefix[i] as int], mode) by {
                    assert(prefix[i] == rt[i]);
                }
                assert forall|i: int| 0 <= i < prefix.len() - 1
                    implies self.valid_step((#[trigger] prefix[i]) as int, prefix[i + 1] as int) by {
                    assert(prefix[i] == rt[i] && prefix[i + 1] == rt[i + 1]);
                    assert(self.valid_step(rt[i] as int, rt[i + 1] as int));
                }
            }
            self.lemma_closed_set_reaches(mode, visited, prefix, from, mid);
            assert(self.valid_step(rt[rt.len() - 2] as int, rt[rt.len() - 1] as int));
            let t = choose|t: int| 0 <= t < self.turns@.len()
                && (#[trigger] self.turns@[t]).from == mid && self.turns@[t].to == to;
            assert(spec_lane_allows(self.lanes@[to], mode));
            assert(visited[self.turns@[t].to as int]);
        }
    }
}

/// How many entries of a boolean sequence are true.
pub open spec fn count_true(s: Seq<bool>) -> int
    decreases s.len(),
{
    if s.len() == 0 {
        0
    } else {
        count_true(s.drop_last()) + if s.last() { 1int } else { 0int }
    }
}

/// An all-false sequence has no true entries.
proof fn lemma_count_true_all_false(s: Seq<bool>)
    requires
        forall|k: int| 0 <= k < s.len() ==> !(#[trigger] s[k]),
    ensures
        count_true(s) == 0,
    decreases s.len(),
{
    if s.len() > 0 {
        lemma_count_true_all_false(s.drop_last());
    }
}

/// Setting a false entry true increases the count by one.
proof fn lemma_count_true_update(s: Seq<bool>, i: int)
    requires
        0 <= i < s.len(),
        !s[i],
    ensures
        count_true(s.update(i, true)) == count_true(s) + 1,
    decreases s.len(),
{
    let u = s.update(i, true);
    if i == s.len() - 1 {
        assert(u.drop_last() =~= s.drop_last());
    } else {
        assert(u.drop_last() =~= s.drop_last().update(i, true));
        lemma_count_true_update(s.drop_last(), i);
        assert(u.last() == s.last());
    }
}

/// The count never exceeds the length.
proof fn lemma_count_true_bound(s: Seq<bool>)
    ensures
        0 <= count_true(s) <= s.len(),
    decreases s.len(),
{
    if s.len() > 0 {
        lemma_count_true_bound(s.drop_last());
    }
}

} // verus!
