//! The election of a region for each connected component, and the migration
//! of the components that no longer belong to the simulator that holds them.

use crate::api_types::messages::{bodies_view, BodyAssignment, BodyAssignmentView, RunnerMessage};
use crate::api_types::objects::{ColdBodyObject, ColdBodyObjectView, WarmBodyObject};
use crate::api_types::partitionner::SceneUuid;
use crate::api_types::simulation::{region_lt, SimulationBounds};
use crate::geometry::{point_bounded, Aabb};
use crate::runner::connected_components::ConnectedComponent;
use crate::runner::physics::{report_wf, BodyState, RigidBodyHandle};
use crate::runner::runner::{
    watching_region, BodyRecord, QueryableWatchedObjects, SimulationState,
};
use vstd::prelude::*;

verus! {

broadcast use vstd::array::group_array_axioms;

/// How many times a body is kept by its simulator although it belongs to a
/// smaller region, before it is sent there.
pub const MIN_SENDBACK_DELAY: u64 = 50;

/// The bodies that leave a simulator at the end of a step.
pub struct RegionAssignments {
    /// The bodies that leave, by the region that they leave for. No region is listed twice.
    pub bodies_to_reassign: Vec<(SimulationBounds, Vec<RigidBodyHandle>)>,
    /// All the bodies that leave.
    pub reassigned_bodies: Vec<RigidBodyHandle>,
}

impl Default for RegionAssignments {
    fn default() -> (r: Self)
        ensures
            r.bodies_to_reassign@.len() == 0,
            r.reassigned_bodies@.len() == 0,
    {
        Self { bodies_to_reassign: Vec::new(), reassigned_bodies: Vec::new() }
    }
}

/// Where the body `handle` stands among `records`.
pub open spec fn position_of(records: Seq<BodyRecord>, handle: RigidBodyHandle) -> int {
    choose|i: int| 0 <= i < records.len() && records[i].handle == handle
}

/// What an election is held on: the bodies of a simulator and what the
/// physics engine reports of them, the watch sets read of the neighbours,
/// and the region of the simulator.
pub struct Election {
    pub records: Seq<BodyRecord>,
    pub reported: Seq<BodyState>,
    pub watched: Seq<(SimulationBounds, Aabb)>,
    pub own: SimulationBounds,
}

impl Election {
    /// The region that the body at `p` points to, before any delay: the region
    /// that watches it, where the simulator holds it for a neighbour; else the
    /// greatest region whose watch set touches its extent; else the region of
    /// the grid whose cell holds its upper corner.
    pub open spec fn raw_candidate(&self, p: int) -> SimulationBounds {
        match self.records[p].watched {
            Some(w) => w.region,
            None => match watching_region(
                self.watched,
                self.reported[p].aabb,
                self.watched.len(),
            ) {
                Some(region) => region,
                None => SimulationBounds::from_point_spec(
                    self.reported[p].upper_corner,
                    SimulationBounds::DEFAULT_WIDTH,
                ),
            },
        }
    }

    /// Whether the body at `p` is kept for now although it points to a smaller
    /// region: it has not been kept `MIN_SENDBACK_DELAY` times yet.
    pub open spec fn held_back(&self, p: int) -> bool {
        region_lt(self.raw_candidate(p), self.own) && self.records[p].sendback_delay
            < MIN_SENDBACK_DELAY
    }

    /// The region that the body at `p` votes for.
    pub open spec fn candidate(&self, p: int) -> SimulationBounds {
        if self.held_back(p) {
            self.own
        } else {
            self.raw_candidate(p)
        }
    }

    /// The greatest of the votes of the first `n` of `bodies`; of votes that
    /// are level in the order, the first.
    pub open spec fn best(&self, bodies: Seq<RigidBodyHandle>, n: nat) -> SimulationBounds
        decreases n,
    {
        if n == 0 {
            SimulationBounds::smallest_spec()
        } else {
            let before = self.best(bodies, (n - 1) as nat);
            let vote = self.candidate(position_of(self.records, bodies[n - 1]));
            if region_lt(before, vote) {
                vote
            } else {
                before
            }
        }
    }

    /// The region that the component of `bodies` is elected to: the greatest
    /// vote of its bodies. A component without bodies stays.
    pub open spec fn elected(&self, bodies: Seq<RigidBodyHandle>) -> SimulationBounds {
        if bodies.len() == 0 {
            self.own
        } else {
            self.best(bodies, bodies.len())
        }
    }

    /// Whether the component of `bodies` leaves: it is elected to a region
    /// that comes before or after that of the simulator.
    pub open spec fn migrates(&self, bodies: Seq<RigidBodyHandle>) -> bool {
        region_lt(self.own, self.elected(bodies)) || region_lt(self.elected(bodies), self.own)
    }

    /// Those of the first `n` of `bodies` that the simulator owns and can send
    /// away: those that it does not hold for a neighbour.
    pub open spec fn movable(&self, bodies: Seq<RigidBodyHandle>, n: nat) -> Seq<RigidBodyHandle>
        decreases n,
    {
        if n == 0 {
            Seq::empty()
        } else if self.records[position_of(self.records, bodies[n - 1])].watched.is_some() {
            self.movable(bodies, (n - 1) as nat)
        } else {
            self.movable(bodies, (n - 1) as nat).push(bodies[n - 1])
        }
    }

    /// The bodies that leave for `region` with the first `n` components.
    pub open spec fn leaving_for(
        &self,
        components: Seq<ConnectedComponent>,
        region: SimulationBounds,
        n: nat,
    ) -> Seq<RigidBodyHandle>
        decreases n,
    {
        if n == 0 {
            Seq::empty()
        } else {
            let bodies = components[n - 1].bodies@;
            if self.migrates(bodies) && self.elected(bodies) == region {
                self.leaving_for(components, region, (n - 1) as nat) + self.movable(
                    bodies,
                    bodies.len(),
                )
            } else {
                self.leaving_for(components, region, (n - 1) as nat)
            }
        }
    }

    /// The bodies that leave with the first `n` components.
    pub open spec fn leaving(&self, components: Seq<ConnectedComponent>, n: nat) -> Seq<
        RigidBodyHandle,
    >
        decreases n,
    {
        if n == 0 {
            Seq::empty()
        } else {
            let bodies = components[n - 1].bodies@;
            if self.migrates(bodies) {
                self.leaving(components, (n - 1) as nat) + self.movable(bodies, bodies.len())
            } else {
                self.leaving(components, (n - 1) as nat)
            }
        }
    }

    /// Whether the body at `p` stands in one of the first `n` components and is held back.
    pub open spec fn delayed(&self, components: Seq<ConnectedComponent>, n: nat, p: int) -> bool {
        self.held_back(p) && exists|c: int, k: int|
            0 <= c < n && 0 <= k < components[c].bodies@.len() && #[trigger] components[c].bodies@[k]
                == self.records[p].handle
    }

    /// The record of the body at `p` once the election is over: the body has
    /// been kept once more if it was held back.
    pub open spec fn record_after(&self, components: Seq<ConnectedComponent>, p: int) -> BodyRecord {
        if self.delayed(components, components.len(), p) {
            BodyRecord {
                sendback_delay: (self.records[p].sendback_delay + 1) as u64,
                ..self.records[p]
            }
        } else {
            self.records[p]
        }
    }
}

/// Whether every body of every component is a body of the simulator.
pub open spec fn components_known(
    components: Seq<ConnectedComponent>,
    sim_state: &SimulationState,
) -> bool {
    forall|c: int, k: int|
        0 <= c < components.len() && 0 <= k < components[c].bodies@.len()
            ==> sim_state.has_handle(#[trigger] components[c].bodies@[k])
}

/// The election that a simulator holds on what is reported of its bodies.
pub open spec fn election_of(
    sim_state: &SimulationState,
    watched_objects: &QueryableWatchedObjects,
    reported: Seq<BodyState>,
) -> Election {
    Election {
        records: sim_state.bodies@,
        reported,
        watched: watched_objects.objects@,
        own: sim_state.sim_bounds,
    }
}

/// In the order of regions, nothing comes before itself, and what comes
/// before something that comes before a third comes before the third.
pub proof fn lemma_region_order(a: SimulationBounds, b: SimulationBounds, c: SimulationBounds)
    ensures
        !region_lt(a, a),
        region_lt(a, b) ==> !region_lt(b, a),
        region_lt(a, b) && region_lt(b, c) ==> region_lt(a, c),
        region_lt(a, b) && !region_lt(c, b) ==> region_lt(a, c),
        !region_lt(b, a) && region_lt(b, c) ==> region_lt(a, c),
{
}

/// The vote of the body at `p`, and whether the body is held back.
fn vote_of(
    sim_state: &SimulationState,
    watched_objects: &QueryableWatchedObjects,
    reported: &Vec<BodyState>,
    p: usize,
) -> (r: (SimulationBounds, bool))
    requires
        sim_state.matches(reported@),
        report_wf(reported@),
        p < reported@.len(),
    ensures
        r.0 == election_of(sim_state, watched_objects, reported@).candidate(p as int),
        r.1 == election_of(sim_state, watched_objects, reported@).held_back(p as int),
{
    let record = sim_state.bodies[p];
    let body = &reported[p];
    assert(point_bounded(body.upper_corner));
    let raw = match record.watched {
        Some(w) => w.region,
        None => match watched_objects.watching_region(&body.aabb) {
            Some(region) => region,
            None => SimulationBounds::from_point(
                body.upper_corner,
                SimulationBounds::DEFAULT_WIDTH,
            ),
        },
    };
    if raw < sim_state.sim_bounds && record.sendback_delay < MIN_SENDBACK_DELAY {
        (sim_state.sim_bounds, true)
    } else {
        (raw, false)
    }
}

/// Where the body `handle` stands among the bodies of the simulator.
fn position(sim_state: &SimulationState, handle: RigidBodyHandle) -> (p: usize)
    requires
        sim_state.wf(),
        sim_state.has_handle(handle),
    ensures
        p < sim_state.bodies@.len(),
        p == position_of(sim_state.bodies@, handle),
        sim_state.bodies@[p as int].handle == handle,
{
    let found = sim_state.find_handle(handle);
    let p = found.unwrap();
    proof {
        let q = position_of(sim_state.bodies@, handle);
        assert(0 <= q < sim_state.bodies@.len() && sim_state.bodies@[q].handle == handle);
        if q < p {
            assert(sim_state.bodies@[q].handle != sim_state.bodies@[p as int].handle);
        } else if p < q {
            assert(sim_state.bodies@[p as int].handle != sim_state.bodies@[q].handle);
        }
    }
    p
}

/// Holds the election of one component, and marks in `held` the bodies that are held back.
fn elect_component(
    sim_state: &SimulationState,
    watched_objects: &QueryableWatchedObjects,
    reported: &Vec<BodyState>,
    bodies: &Vec<RigidBodyHandle>,
    held: &mut Vec<bool>,
) -> (region: SimulationBounds)
    requires
        sim_state.wf(),
        sim_state.matches(reported@),
        report_wf(reported@),
        old(held)@.len() == sim_state.bodies@.len(),
        forall|k: int| 0 <= k < bodies@.len() ==> sim_state.has_handle(#[trigger] bodies@[k]),
    ensures
        region == election_of(sim_state, watched_objects, reported@).elected(bodies@),
        final(held)@.len() == old(held)@.len(),
        forall|p: int|
            0 <= p < old(held)@.len() ==> #[trigger] final(held)@[p] == (old(held)@[p] || (
            election_of(sim_state, watched_objects, reported@).held_back(p) && exists|k: int|
                0 <= k < bodies@.len() && #[trigger] bodies@[k] == sim_state.bodies@[p].handle)),
{
    let ghost e = election_of(sim_state, watched_objects, reported@);
    if bodies.len() == 0 {
        return sim_state.sim_bounds;
    }
    let mut best = SimulationBounds::smallest();
    let mut k: usize = 0;
    while k < bodies.len()
        invariant
            k <= bodies@.len(),
            sim_state.wf(),
            sim_state.matches(reported@),
            report_wf(reported@),
            e == election_of(sim_state, watched_objects, reported@),
            held@.len() == old(held)@.len(),
            old(held)@.len() == sim_state.bodies@.len(),
            forall|j: int| 0 <= j < bodies@.len() ==> sim_state.has_handle(#[trigger] bodies@[j]),
            best == e.best(bodies@, k as nat),
            forall|p: int|
                0 <= p < held@.len() ==> #[trigger] held@[p] == (old(held)@[p] || (e.held_back(p)
                    && exists|j: int|
                    0 <= j < k && #[trigger] bodies@[j] == sim_state.bodies@[p].handle)),
        decreases bodies@.len() - k,
    {
        let handle = bodies[k];
        let p = position(sim_state, handle);
        let (vote, is_held) = vote_of(sim_state, watched_objects, reported, p);
        let ghost marks = held@;
        if is_held {
            held.set(p, true);
        }
        if vote > best {
            best = vote;
        }
        proof {
            assert forall|q: int| 0 <= q < held@.len() implies #[trigger] held@[q] == (old(held)@[q] || (e.held_back(q) && exists|j: int|
                0 <= j < k + 1 && #[trigger] bodies@[j] == sim_state.bodies@[q].handle)) by {
                if q == p {
                    assert(bodies@[k as int] == sim_state.bodies@[q].handle);
                } else {
                    assert(held@[q] == marks[q]);
                    if q < p {
                        assert(sim_state.bodies@[q].handle != sim_state.bodies@[p as int].handle);
                    } else {
                        assert(sim_state.bodies@[p as int].handle != sim_state.bodies@[q].handle);
                    }
                }
            }
        }
        k += 1;
    }
    best
}

/// Those of `bodies` that the simulator does not hold for a neighbour.
fn movable_bodies(sim_state: &SimulationState, bodies: &Vec<RigidBodyHandle>, Ghost(e): Ghost<
    Election,
>) -> (r: Vec<RigidBodyHandle>)
    requires
        sim_state.wf(),
        e.records == sim_state.bodies@,
        forall|k: int| 0 <= k < bodies@.len() ==> sim_state.has_handle(#[trigger] bodies@[k]),
    ensures
        r@ == e.movable(bodies@, bodies@.len()),
{
    let mut r: Vec<RigidBodyHandle> = Vec::new();
    let mut k: usize = 0;
    while k < bodies.len()
        invariant
            k <= bodies@.len(),
            sim_state.wf(),
            e.records == sim_state.bodies@,
            forall|j: int| 0 <= j < bodies@.len() ==> sim_state.has_handle(#[trigger] bodies@[j]),
            r@ == e.movable(bodies@, k as nat),
        decreases bodies@.len() - k,
    {
        let handle = bodies[k];
        let p = position(sim_state, handle);
        if sim_state.bodies[p].watched.is_none() {
            r.push(handle);
        }
        k += 1;
    }
    r
}

/// Where `region` is listed among `entries`, if it is.
fn find_entry(entries: &Vec<(SimulationBounds, Vec<RigidBodyHandle>)>, region: SimulationBounds) -> (r: Option<usize>)
    ensures
        r.is_some() ==> r.unwrap() < entries@.len() && entries@[r.unwrap() as int].0 == region,
        r.is_none() ==> forall|i: int| 0 <= i < entries@.len() ==> entries@[i].0 != region,
{
    let mut i: usize = 0;
    while i < entries.len()
        invariant
            i <= entries@.len(),
            forall|j: int| 0 <= j < i ==> entries@[j].0 != region,
        decreases entries@.len() - i,
    {
        if entries[i].0 == region {
            return Some(i);
        }
        i += 1;
    }
    None
}

/// Appends a copy of `more` to `list`.
fn extend_handles(list: &mut Vec<RigidBodyHandle>, more: &Vec<RigidBodyHandle>)
    ensures
        final(list)@ == old(list)@ + more@,
{
    let mut k: usize = 0;
    while k < more.len()
        invariant
            k <= more@.len(),
            list@ == old(list)@ + more@.take(k as int),
        decreases more@.len() - k,
    {
        list.push(more[k]);
        assert(list@ =~= old(list)@ + more@.take(k + 1));
        k += 1;
    }
    assert(more@.take(k as int) =~= more@);
}

impl Election {
    /// No vote of the first `n` bodies comes after the best of them.
    pub proof fn lemma_best_is_greatest(&self, bodies: Seq<RigidBodyHandle>, n: nat, k: int)
        requires
            0 <= k < n,
        ensures
            !region_lt(
                self.best(bodies, n),
                self.candidate(position_of(self.records, bodies[k])),
            ),
        decreases n,
    {
        let before = self.best(bodies, (n - 1) as nat);
        let vote = self.candidate(position_of(self.records, bodies[n - 1]));
        let kth = self.candidate(position_of(self.records, bodies[k]));
        if k < n - 1 {
            self.lemma_best_is_greatest(bodies, (n - 1) as nat, k);
            lemma_region_order(kth, before, vote);
            lemma_region_order(before, vote, kth);
        } else {
            lemma_region_order(before, vote, vote);
        }
    }

    /// A component is elected to a region that comes before that of its
    /// simulator only if each of its bodies points to a smaller region and
    /// has been kept `MIN_SENDBACK_DELAY` times already.
    pub proof fn lemma_sent_back_only_after_delay(&self, bodies: Seq<RigidBodyHandle>, k: int)
        requires
            0 <= k < bodies.len(),
            region_lt(self.elected(bodies), self.own),
        ensures
            !self.held_back(position_of(self.records, bodies[k])),
            region_lt(self.raw_candidate(position_of(self.records, bodies[k])), self.own),
            self.records[position_of(self.records, bodies[k])].sendback_delay
                >= MIN_SENDBACK_DELAY,
    {
        let p = position_of(self.records, bodies[k]);
        self.lemma_best_is_greatest(bodies, bodies.len(), k);
        lemma_region_order(self.candidate(p), self.elected(bodies), self.own);
    }

    /// A component that migrates is elected to a region that comes after that
    /// of its simulator, or to one that comes before it and then each of its
    /// bodies has been kept `MIN_SENDBACK_DELAY` times.
    pub proof fn lemma_election_order(&self, bodies: Seq<RigidBodyHandle>)
        requires
            self.migrates(bodies),
        ensures
            region_lt(self.own, self.elected(bodies)) || (region_lt(self.elected(bodies), self.own)
                && forall|k: int|
                0 <= k < bodies.len() ==> self.records[position_of(
                    self.records,
                    #[trigger] bodies[k],
                )].sendback_delay >= MIN_SENDBACK_DELAY),
    {
        if region_lt(self.elected(bodies), self.own) {
            assert forall|k: int| 0 <= k < bodies.len() implies self.records[position_of(
                self.records,
                #[trigger] bodies[k],
            )].sendback_delay >= MIN_SENDBACK_DELAY by {
                self.lemma_sent_back_only_after_delay(bodies, k);
            }
        }
    }
}

/// Whether `region` is listed among `entries`.
pub open spec fn is_listed(
    entries: Seq<(SimulationBounds, Vec<RigidBodyHandle>)>,
    region: SimulationBounds,
) -> bool {
    exists|i: int| 0 <= i < entries.len() && (#[trigger] entries[i]).0 == region
}

impl Election {
    /// Whether one of the first `n` components migrates to `region`.
    pub open spec fn is_target(
        &self,
        components: Seq<ConnectedComponent>,
        n: nat,
        region: SimulationBounds,
    ) -> bool {
        exists|c: int|
            0 <= c < n && self.migrates(#[trigger] components[c].bodies@) && self.elected(
                components[c].bodies@,
            ) == region
    }
}

/// Whether `assignments` lists, region by region, the bodies that leave after
/// the election `e` on `components`.
pub open spec fn assignments_of(
    assignments: &RegionAssignments,
    e: Election,
    components: Seq<ConnectedComponent>,
) -> bool {
    let entries = assignments.bodies_to_reassign@;
    &&& forall|i: int, j: int| 0 <= i < j < entries.len() ==> entries[i].0 != entries[j].0
    &&& forall|i: int|
        0 <= i < entries.len() ==> (#[trigger] entries[i]).1@ == e.leaving_for(
            components,
            entries[i].0,
            components.len(),
        )
    &&& forall|i: int|
        0 <= i < entries.len() ==> e.is_target(
            components,
            components.len(),
            (#[trigger] entries[i]).0,
        )
    &&& forall|c: int|
        0 <= c < components.len() && e.migrates(#[trigger] components[c].bodies@) ==> is_listed(
            entries,
            e.elected(components[c].bodies@),
        )
    &&& assignments.reassigned_bodies@ == e.leaving(components, components.len())
}

/// Elects a region for each component and lists the bodies that leave.
///
/// Each body of a component votes for a region; the component is elected to
/// the greatest vote. A body that points to a region before that of the
/// simulator is held back `MIN_SENDBACK_DELAY` times, and votes for the
/// simulator's own region meanwhile. A component that is elected to another
/// region than the simulator's leaves for it with all its bodies, but for
/// those that the simulator holds for a neighbour.
pub fn calculate_region_assignments(
    sim_state: &mut SimulationState,
    connected_components: &Vec<ConnectedComponent>,
    watched_objects: &QueryableWatchedObjects,
    reported: &Vec<BodyState>,
) -> (result: RegionAssignments)
    requires
        old(sim_state).wf(),
        old(sim_state).matches(reported@),
        report_wf(reported@),
        components_known(connected_components@, old(sim_state)),
    ensures
        final(sim_state).wf(),
        final(sim_state).matches(reported@),
        final(sim_state).scene == old(sim_state).scene,
        final(sim_state).step_id == old(sim_state).step_id,
        final(sim_state).killed == old(sim_state).killed,
        final(sim_state).sim_bounds == old(sim_state).sim_bounds,
        final(sim_state).bodies@.len() == old(sim_state).bodies@.len(),
        forall|p: int|
            0 <= p < old(sim_state).bodies@.len() ==> #[trigger] final(sim_state).bodies@[p]
                == election_of(old(sim_state), watched_objects, reported@).record_after(
                connected_components@,
                p,
            ),
        assignments_of(
            &result,
            election_of(old(sim_state), watched_objects, reported@),
            connected_components@,
        ),
        forall|c: int|
            0 <= c < connected_components@.len() && election_of(
                old(sim_state),
                watched_objects,
                reported@,
            ).migrates(#[trigger] connected_components@[c].bodies@) ==> {
                let e = election_of(old(sim_state), watched_objects, reported@);
                let bodies = connected_components@[c].bodies@;
                region_lt(e.own, e.elected(bodies)) || (region_lt(e.elected(bodies), e.own)
                    && forall|k: int|
                    0 <= k < bodies.len() ==> e.records[position_of(
                        e.records,
                        #[trigger] bodies[k],
                    )].sendback_delay >= MIN_SENDBACK_DELAY)
            },
{
    let ghost e = election_of(sim_state, watched_objects, reported@);
    let ghost components = connected_components@;
    let n = sim_state.bodies.len();
    let own = sim_state.sim_bounds;
    // Who is held back, body by body.
    let mut held: Vec<bool> = Vec::new();
    while held.len() < n
        invariant
            held@.len() <= n,
            forall|p: int| 0 <= p < held@.len() ==> !held@[p],
        decreases n - held@.len(),
    {
        held.push(false);
    }
    let mut entries: Vec<(SimulationBounds, Vec<RigidBodyHandle>)> = Vec::new();
    let mut all: Vec<RigidBodyHandle> = Vec::new();
    let mut c: usize = 0;
    while c < connected_components.len()
        invariant
            c <= components.len(),
            components == connected_components@,
            n == sim_state.bodies@.len(),
            own == sim_state.sim_bounds,
            *sim_state == *old(sim_state),
            sim_state.wf(),
            sim_state.matches(reported@),
            report_wf(reported@),
            components_known(components, sim_state),
            e == election_of(sim_state, watched_objects, reported@),
            held@.len() == n,
            forall|p: int| 0 <= p < n ==> #[trigger] held@[p] == e.delayed(components, c as nat, p),
            forall|i: int, j: int| 0 <= i < j < entries@.len() ==> entries@[i].0 != entries@[j].0,
            forall|i: int|
                0 <= i < entries@.len() ==> (#[trigger] entries@[i]).1@ == e.leaving_for(
                    components,
                    entries@[i].0,
                    c as nat,
                ),
            forall|i: int|
                0 <= i < entries@.len() ==> e.is_target(
                    components,
                    c as nat,
                    (#[trigger] entries@[i]).0,
                ),
            forall|d: int|
                0 <= d < c && e.migrates(#[trigger] components[d].bodies@) ==> is_listed(
                    entries@,
                    e.elected(components[d].bodies@),
                ),
            all@ == e.leaving(components, c as nat),
        decreases components.len() - c,
    {
        let component = &connected_components[c];
        assert forall|k: int| 0 <= k < component.bodies@.len() implies sim_state.has_handle(
            #[trigger] component.bodies@[k],
        ) by {
            assert(sim_state.has_handle(components[c as int].bodies@[k]));
        }
        let ghost marks = held@;
        let ghost listed = entries@;
        let region = elect_component(
            sim_state,
            watched_objects,
            reported,
            &component.bodies,
            &mut held,
        );
        proof {
            assert forall|p: int| 0 <= p < n implies #[trigger] held@[p] == e.delayed(
                components,
                (c + 1) as nat,
                p,
            ) by {
                let here = exists|k: int|
                    0 <= k < component.bodies@.len() && #[trigger] component.bodies@[k]
                        == sim_state.bodies@[p].handle;
                assert(held@[p] == (marks[p] || (e.held_back(p) && here)));
                assert(marks[p] == e.delayed(components, c as nat, p));
                if e.held_back(p) {
                    if here {
                        let k = choose|k: int|
                            0 <= k < component.bodies@.len() && #[trigger] component.bodies@[k]
                                == sim_state.bodies@[p].handle;
                        assert(components[c as int].bodies@[k] == e.records[p].handle);
                    }
                    if e.delayed(components, (c + 1) as nat, p) && !marks[p] {
                        let (d, k) = choose|d: int, k: int|
                            0 <= d < c + 1 && 0 <= k < components[d].bodies@.len()
                                && #[trigger] components[d].bodies@[k] == e.records[p].handle;
                        if d < c {
                            assert(e.delayed(components, c as nat, p));
                        } else {
                            assert(component.bodies@[k] == sim_state.bodies@[p].handle);
                        }
                    }
                    if marks[p] {
                        let (d, k) = choose|d: int, k: int|
                            0 <= d < c && 0 <= k < components[d].bodies@.len()
                                && #[trigger] components[d].bodies@[k] == e.records[p].handle;
                        assert(0 <= d < c + 1);
                    }
                }
            }
        }
        if region > own || region < own {
            let movable = movable_bodies(sim_state, &component.bodies, Ghost(e));
            extend_handles(&mut all, &movable);
            let ghost mut slot: int = 0;
            match find_entry(&entries, region) {
                Some(i) => {
                    let (listed_region, mut handles) = entries.remove(i);
                    extend_handles(&mut handles, &movable);
                    entries.insert(i, (listed_region, handles));
                    proof {
                        assert(entries@.len() == listed.len());
                        assert forall|a: int| 0 <= a < entries@.len() implies (
                        #[trigger] entries@[a]).0 == listed[a].0 by {}
                        assert forall|a: int| 0 <= a < entries@.len() && a != i implies
                            #[trigger] entries@[a] == listed[a] by {}
                        slot = i as int;
                        assert(entries@[slot].0 == region);
                    }
                },
                None => {
                    entries.push((region, movable));
                    proof {
                        assert forall|a: int| 0 <= a < listed.len() implies
                            #[trigger] entries@[a] == listed[a] by {}
                        assert forall|d: int|
                            0 <= d < c && e.migrates(#[trigger] components[d].bodies@)
                            implies e.elected(components[d].bodies@) != region by {
                            if e.elected(components[d].bodies@) == region {
                                assert(is_listed(listed, region));
                            }
                        }
                        e.lemma_none_left_for(components, region, c as nat);
                        slot = listed.len() as int;
                        assert(entries@[slot].0 == region);
                    }
                },
            }
            proof {
                assert(e.migrates(components[c as int].bodies@));
                assert forall|a: int| 0 <= a < entries@.len() implies e.is_target(
                    components,
                    (c + 1) as nat,
                    (#[trigger] entries@[a]).0,
                ) by {
                    if a < listed.len() {
                        assert(e.is_target(components, c as nat, listed[a].0));
                        let d = choose|d: int|
                            0 <= d < c && e.migrates(#[trigger] components[d].bodies@)
                                && e.elected(components[d].bodies@) == listed[a].0;
                        assert(e.migrates(components[d].bodies@));
                    }
                }
                assert forall|d: int|
                    0 <= d < c + 1 && e.migrates(#[trigger] components[d].bodies@) implies is_listed(
                    entries@,
                    e.elected(components[d].bodies@),
                ) by {
                    if d < c {
                        assert(is_listed(listed, e.elected(components[d].bodies@)));
                        let a = choose|a: int|
                            0 <= a < listed.len() && (#[trigger] listed[a]).0 == e.elected(
                                components[d].bodies@,
                            );
                        assert(entries@[a].0 == listed[a].0);
                    } else {
                        assert(0 <= slot < entries@.len() && entries@[slot].0 == region);
                    }
                }
            }
        } else {
            proof {
                assert forall|a: int| 0 <= a < entries@.len() implies e.is_target(
                    components,
                    (c + 1) as nat,
                    (#[trigger] entries@[a]).0,
                ) by {
                    assert(e.is_target(components, c as nat, entries@[a].0));
                    let d = choose|d: int|
                        0 <= d < c && e.migrates(#[trigger] components[d].bodies@) && e.elected(
                            components[d].bodies@,
                        ) == entries@[a].0;
                    assert(e.migrates(components[d].bodies@));
                }
            }
        }
        c += 1;
    }
    // Each body that was held back has been kept once more.
    let mut p: usize = 0;
    while p < n
        invariant
            p <= n,
            n == old(sim_state).bodies@.len(),
            sim_state.bodies@.len() == n,
            held@.len() == n,
            e.records == old(sim_state).bodies@,
            sim_state.scene == old(sim_state).scene,
            sim_state.step_id == old(sim_state).step_id,
            sim_state.killed == old(sim_state).killed,
            sim_state.sim_bounds == old(sim_state).sim_bounds,
            forall|q: int|
                0 <= q < n ==> #[trigger] held@[q] == e.delayed(components, components.len(), q),
            forall|q: int|
                0 <= q < p ==> #[trigger] sim_state.bodies@[q] == e.record_after(components, q),
            forall|q: int| p <= q < n ==> #[trigger] sim_state.bodies@[q] == e.records[q],
        decreases n - p,
    {
        if held[p] {
            let record = sim_state.bodies[p];
            assert(e.held_back(p as int));
            sim_state.bodies.set(
                p,
                BodyRecord { sendback_delay: record.sendback_delay + 1, ..record },
            );
        }
        p += 1;
    }
    proof {
        let after = sim_state.bodies@;
        assert forall|a: int, b: int| 0 <= a < b < after.len() implies after[a].handle
            != after[b].handle && after[a].uuid != after[b].uuid by {
            assert(after[a] == e.record_after(components, a));
            assert(after[b] == e.record_after(components, b));
        }
        assert forall|a: int| 0 <= a < reported@.len() implies (#[trigger] reported@[a]).handle
            == after[a].handle && reported@[a].body_type == after[a].body_type by {
            assert(after[a] == e.record_after(components, a));
        }
        assert forall|d: int|
            0 <= d < components.len() && e.migrates(#[trigger] components[d].bodies@) implies {
            let bodies = components[d].bodies@;
            region_lt(e.own, e.elected(bodies)) || (region_lt(e.elected(bodies), e.own)
                && forall|k: int|
                0 <= k < bodies.len() ==> e.records[position_of(
                    e.records,
                    #[trigger] bodies[k],
                )].sendback_delay >= MIN_SENDBACK_DELAY)
        } by {
            e.lemma_election_order(components[d].bodies@);
        }
    }
    RegionAssignments { bodies_to_reassign: entries, reassigned_bodies: all }
}

impl Election {
    /// No body has left for a region that none of the first `n` components
    /// that migrate is elected to.
    pub proof fn lemma_none_left_for(
        &self,
        components: Seq<ConnectedComponent>,
        region: SimulationBounds,
        n: nat,
    )
        requires
            n <= components.len(),
            forall|d: int|
                0 <= d < n && self.migrates(#[trigger] components[d].bodies@) ==> self.elected(
                    components[d].bodies@,
                ) != region,
        ensures
            self.leaving_for(components, region, n) == Seq::<RigidBodyHandle>::empty(),
        decreases n,
    {
        if n > 0 {
            self.lemma_none_left_for(components, region, (n - 1) as nat);
            assert(self.migrates(components[n - 1].bodies@) ==> self.elected(
                components[n - 1].bodies@,
            ) != region);
        }
    }
}

/// A body as it travels to its new owner: what the physics engine reports
/// of it at the end of the step `step_id`.
pub open spec fn travelling_body(record: BodyRecord, body: BodyState, step_id: u64) -> BodyAssignmentView {
    BodyAssignmentView {
        uuid: record.uuid,
        warm: WarmBodyObject {
            timestamp: step_id,
            position: body.position,
            linvel: body.linvel,
            angvel: body.angvel,
        },
        cold: ColdBodyObjectView {
            body_type: body.body_type,
            density: body.density,
            shape: body.shape@,
            animations: Seq::empty(),
        },
    }
}

/// The bodies `handles` as they travel.
pub open spec fn travelling_bodies(
    records: Seq<BodyRecord>,
    reported: Seq<BodyState>,
    step_id: u64,
    handles: Seq<RigidBodyHandle>,
) -> Seq<BodyAssignmentView> {
    handles.map_values(
        |h: RigidBodyHandle|
            travelling_body(
                records[position_of(records, h)],
                reported[position_of(records, h)],
                step_id,
            ),
    )
}

/// Whether `handle` is listed to leave for some region.
pub open spec fn is_sent(
    entries: Seq<(SimulationBounds, Vec<RigidBodyHandle>)>,
    handle: RigidBodyHandle,
) -> bool {
    exists|i: int, k: int|
        0 <= i < entries.len() && 0 <= k < entries[i].1@.len() && #[trigger] entries[i].1@[k]
            == handle
}

/// Where the bodies that stay stand among the first `n` records.
pub open spec fn kept_indices(
    records: Seq<BodyRecord>,
    entries: Seq<(SimulationBounds, Vec<RigidBodyHandle>)>,
    n: nat,
) -> Seq<int>
    decreases n,
{
    if n == 0 {
        Seq::empty()
    } else if is_sent(entries, records[n - 1].handle) {
        kept_indices(records, entries, (n - 1) as nat)
    } else {
        kept_indices(records, entries, (n - 1) as nat).push(n - 1)
    }
}

/// The records of the bodies that stay, in order.
pub open spec fn kept_records(
    records: Seq<BodyRecord>,
    entries: Seq<(SimulationBounds, Vec<RigidBodyHandle>)>,
) -> Seq<BodyRecord> {
    kept_indices(records, entries, records.len()).map_values(|i: int| records[i])
}

/// The entries among the first `n` that list a body: those for which a message is sent.
pub open spec fn sending(entries: Seq<(SimulationBounds, Vec<RigidBodyHandle>)>, n: nat) -> Seq<
    int,
>
    decreases n,
{
    if n == 0 {
        Seq::empty()
    } else if entries[n - 1].1@.len() == 0 {
        sending(entries, (n - 1) as nat)
    } else {
        sending(entries, (n - 1) as nat).push(n - 1)
    }
}

/// Whether `message` hands the bodies `bodies` of `scene` over to `region`.
pub open spec fn is_island_message(
    message: (SimulationBounds, RunnerMessage),
    scene: SceneUuid,
    region: SimulationBounds,
    bodies: Seq<BodyAssignmentView>,
) -> bool {
    &&& message.0 == region
    &&& match message.1 {
        RunnerMessage::AssignIsland { scene: s, region: r, bodies: b, impulse_joints: j } => {
            s == scene && r == region && bodies_view(b@) == bodies && j@.len() == 0
        },
        _ => false,
    }
}

/// The indices of the bodies that stay are in range and ascend.
pub proof fn lemma_kept_indices(
    records: Seq<BodyRecord>,
    entries: Seq<(SimulationBounds, Vec<RigidBodyHandle>)>,
    n: nat,
)
    requires
        n <= records.len(),
    ensures
        forall|t: int|
            0 <= t < kept_indices(records, entries, n).len() ==> 0 <= #[trigger] kept_indices(
                records,
                entries,
                n,
            )[t] < n && !is_sent(entries, records[kept_indices(records, entries, n)[t]].handle),
        forall|t: int, u: int|
            0 <= t < u < kept_indices(records, entries, n).len() ==> kept_indices(
                records,
                entries,
                n,
            )[t] < kept_indices(records, entries, n)[u],
        forall|i: int|
            0 <= i < n && !is_sent(entries, #[trigger] records[i].handle) ==> kept_indices(
                records,
                entries,
                n,
            ).contains(i),
    decreases n,
{
    if n > 0 {
        lemma_kept_indices(records, entries, (n - 1) as nat);
        let before = kept_indices(records, entries, (n - 1) as nat);
        let now = kept_indices(records, entries, n);
        assert forall|i: int|
            0 <= i < n && !is_sent(entries, #[trigger] records[i].handle) implies now.contains(
            i,
        ) by {
            if i < n - 1 {
                assert(before.contains(i));
                let t = choose|t: int| 0 <= t < before.len() && before[t] == i;
                assert(now[t] == i);
            } else {
                assert(now[now.len() - 1] == i);
            }
        }
    }
}

/// Whether `handle` is listed to leave for some region.
fn entries_contain(entries: &Vec<(SimulationBounds, Vec<RigidBodyHandle>)>, handle: RigidBodyHandle) -> (r: bool)
    ensures
        r == is_sent(entries@, handle),
{
    let mut i: usize = 0;
    while i < entries.len()
        invariant
            i <= entries@.len(),
            forall|a: int, k: int|
                0 <= a < i && 0 <= k < entries@[a].1@.len() ==> #[trigger] entries@[a].1@[k]
                    != handle,
        decreases entries@.len() - i,
    {
        let list = &entries[i].1;
        let mut k: usize = 0;
        while k < list.len()
            invariant
                k <= list@.len(),
                i < entries@.len(),
                *list == entries@[i as int].1,
                forall|j: int| 0 <= j < k ==> list@[j] != handle,
            decreases list@.len() - k,
        {
            if list[k] == handle {
                assert(entries@[i as int].1@[k as int] == handle);
                return true;
            }
            k += 1;
        }
        i += 1;
    }
    false
}

/// Carries out the migrations that were decided.
///
/// For each region that bodies leave for, a message hands the bodies over as
/// the physics engine reports them at the end of the step. The simulator
/// forgets the bodies that leave; the caller sends the messages and takes
/// the bodies out of the physics engine.
pub fn apply_and_send_region_assignments(
    sim_state: &mut SimulationState,
    assignments: &RegionAssignments,
    reported: &Vec<BodyState>,
) -> (islands: Vec<(SimulationBounds, RunnerMessage)>)
    requires
        old(sim_state).wf(),
        old(sim_state).matches(reported@),
        forall|i: int, k: int|
            0 <= i < assignments.bodies_to_reassign@.len() && 0 <= k
                < assignments.bodies_to_reassign@[i].1@.len() ==> old(sim_state).has_handle(
                #[trigger] assignments.bodies_to_reassign@[i].1@[k],
            ),
    ensures
        final(sim_state).wf(),
        final(sim_state).scene == old(sim_state).scene,
        final(sim_state).step_id == old(sim_state).step_id,
        final(sim_state).killed == old(sim_state).killed,
        final(sim_state).sim_bounds == old(sim_state).sim_bounds,
        final(sim_state).bodies@ == kept_records(
            old(sim_state).bodies@,
            assignments.bodies_to_reassign@,
        ),
        islands@.len() == sending(
            assignments.bodies_to_reassign@,
            assignments.bodies_to_reassign@.len(),
        ).len(),
        forall|m: int|
            0 <= m < islands@.len() ==> is_island_message(
                #[trigger] islands@[m],
                old(sim_state).scene,
                assignments.bodies_to_reassign@[sending(
                    assignments.bodies_to_reassign@,
                    assignments.bodies_to_reassign@.len(),
                )[m]].0,
                travelling_bodies(
                    old(sim_state).bodies@,
                    reported@,
                    old(sim_state).step_id,
                    assignments.bodies_to_reassign@[sending(
                        assignments.bodies_to_reassign@,
                        assignments.bodies_to_reassign@.len(),
                    )[m]].1@,
                ),
            ),
{
    let ghost entries = assignments.bodies_to_reassign@;
    let ghost records = sim_state.bodies@;
    let ghost scene = sim_state.scene;
    let ghost step_id = sim_state.step_id;
    let mut islands: Vec<(SimulationBounds, RunnerMessage)> = Vec::new();
    let ghost mut sent: Seq<int> = Seq::empty();
    let mut i: usize = 0;
    while i < assignments.bodies_to_reassign.len()
        invariant
            i <= entries.len(),
            entries == assignments.bodies_to_reassign@,
            records == sim_state.bodies@,
            scene == sim_state.scene,
            step_id == sim_state.step_id,
            *sim_state == *old(sim_state),
            sim_state.wf(),
            sim_state.matches(reported@),
            forall|a: int, k: int|
                0 <= a < entries.len() && 0 <= k < entries[a].1@.len() ==> sim_state.has_handle(
                    #[trigger] entries[a].1@[k],
                ),
            sent == sending(entries, i as nat),
            islands@.len() == sent.len(),
            forall|m: int| 0 <= m < sent.len() ==> 0 <= #[trigger] sent[m] < i,
            forall|m: int|
                0 <= m < islands@.len() ==> is_island_message(
                    #[trigger] islands@[m],
                    scene,
                    entries[sent[m]].0,
                    travelling_bodies(records, reported@, step_id, entries[sent[m]].1@),
                ),
        decreases entries.len() - i,
    {
        let region = assignments.bodies_to_reassign[i].0;
        let handles = &assignments.bodies_to_reassign[i].1;
        let ghost islands_before = islands@;
        let ghost sent_before = sent;
        if handles.len() > 0 {
            let mut bodies: Vec<BodyAssignment> = Vec::new();
            let mut k: usize = 0;
            while k < handles.len()
                invariant
                    k <= handles@.len(),
                    i < entries.len(),
                    *handles == entries[i as int].1,
                    records == sim_state.bodies@,
                    step_id == sim_state.step_id,
                    sim_state.wf(),
                    sim_state.matches(reported@),
                    forall|j: int| 0 <= j < handles@.len() ==> sim_state.has_handle(
                        #[trigger] handles@[j],
                    ),
                    bodies_view(bodies@) == travelling_bodies(
                        records,
                        reported@,
                        step_id,
                        handles@.take(k as int),
                    ),
                decreases handles@.len() - k,
            {
                let handle = handles[k];
                let p = position(sim_state, handle);
                let record = sim_state.bodies[p];
                let body = &reported[p];
                let ghost shown = bodies_view(bodies@);
                let travelling = BodyAssignment {
                    uuid: record.uuid,
                    warm: WarmBodyObject::from_body(body, sim_state.step_id),
                    cold: ColdBodyObject::from_body_collider(body),
                };
                assert(travelling@ == travelling_body(records[p as int], reported@[p as int], step_id));
                bodies.push(travelling);
                assert(bodies_view(bodies@) =~= shown.push(
                    travelling_body(records[p as int], reported@[p as int], step_id),
                ));
                assert(travelling_bodies(records, reported@, step_id, handles@.take(k + 1))
                    =~= travelling_bodies(records, reported@, step_id, handles@.take(k as int)).push(
                    travelling_body(records[p as int], reported@[p as int], step_id),
                ));
                k += 1;
            }
            assert(handles@.take(k as int) =~= handles@);
            let message = (
                region,
                RunnerMessage::AssignIsland {
                    scene: sim_state.scene,
                    region,
                    bodies,
                    impulse_joints: Vec::new(),
                },
            );
            assert(is_island_message(
                message,
                scene,
                entries[i as int].0,
                travelling_bodies(records, reported@, step_id, entries[i as int].1@),
            ));
            islands.push(message);
            proof {
                sent = sent.push(i as int);
                assert forall|m: int| 0 <= m < islands@.len() implies is_island_message(
                    #[trigger] islands@[m],
                    scene,
                    entries[sent[m]].0,
                    travelling_bodies(records, reported@, step_id, entries[sent[m]].1@),
                ) by {
                    if m < islands_before.len() {
                        assert(islands@[m] == islands_before[m]);
                        assert(sent[m] == sent_before[m]);
                    }
                }
            }
        }
        i += 1;
    }
    // The bodies that stay.
    let n = sim_state.bodies.len();
    let mut kept: Vec<BodyRecord> = Vec::new();
    let mut p: usize = 0;
    while p < n
        invariant
            p <= n,
            n == records.len(),
            records == sim_state.bodies@,
            entries == assignments.bodies_to_reassign@,
            kept@ == kept_indices(records, entries, p as nat).map_values(|i: int| records[i]),
        decreases n - p,
    {
        let record = sim_state.bodies[p];
        let ghost before = kept_indices(records, entries, p as nat);
        if !entries_contain(&assignments.bodies_to_reassign, record.handle) {
            kept.push(record);
            assert(kept@ =~= before.push(p as int).map_values(|i: int| records[i]));
        }
        p += 1;
    }
    proof {
        lemma_kept_indices(records, entries, n as nat);
        let indices = kept_indices(records, entries, n as nat);
        assert forall|a: int, b: int| 0 <= a < b < kept@.len() implies kept@[a].handle
            != kept@[b].handle && kept@[a].uuid != kept@[b].uuid by {
            assert(indices[a] < indices[b]);
            assert(kept@[a] == records[indices[a]] && kept@[b] == records[indices[b]]);
        }
    }
    sim_state.bodies = kept;
    islands
}

} // verus!
