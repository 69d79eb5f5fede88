//! The simulator of one region: what it knows of its bodies between the
//! steps of its physics engine, and what it publishes of them.

use crate::api_types::messages::{BodyAssignment, RunnerMessage};
use crate::api_types::objects::{
    ClientBodyObject, ClientBodyObjectSet, ClientBodyObjectView, RigidBodyType,
};
use crate::api_types::partitionner::{SceneUuid, NUM_INTERNAL_STEPS};
use crate::api_types::objects::WatchedObjects;
use crate::api_types::simulation::{region_lt, SimulationBounds};
use crate::geometry::Aabb;
use crate::runner::physics::{BodyState, RigidBodyHandle};
use crate::runner::watch::WatchedObject;
use crate::sequences::take_reversed;
use vstd::prelude::*;

verus! {

/// All the watch sets that a simulator has read of its neighbours, each
/// extent with the region that published it.
pub struct QueryableWatchedObjects {
    pub objects: Vec<(SimulationBounds, Aabb)>,
}

/// The watch sets read of the neighbours, one extent after the other: each
/// extent of each set, with the region that published the set.
pub open spec fn flatten_watched(watched: Seq<(WatchedObjects, SimulationBounds)>) -> Seq<
    (SimulationBounds, Aabb),
>
    decreases watched.len(),
{
    if watched.len() == 0 {
        Seq::empty()
    } else {
        flatten_watched(watched.drop_last()) + watched.last().0.objects@.map_values(
            |o: (u128, Aabb)| (watched.last().1, o.1),
        )
    }
}

/// The greatest of the regions that published one of the first `n` extents
/// and whose extent touches `aabb`; of regions that are level in the order,
/// the one that is listed last. Nothing where no extent touches `aabb`.
pub open spec fn watching_region(
    objects: Seq<(SimulationBounds, Aabb)>,
    aabb: Aabb,
    n: nat,
) -> Option<SimulationBounds>
    decreases n,
{
    if n == 0 {
        None
    } else {
        let before = watching_region(objects, aabb, (n - 1) as nat);
        let (region, extent) = objects[n - 1];
        if !extent.intersects_spec(&aabb) {
            before
        } else if before.is_some() && region_lt(region, before.unwrap()) {
            before
        } else {
            Some(region)
        }
    }
}

impl QueryableWatchedObjects {
    /// Gathers the watch sets that were read of the neighbours.
    pub fn new(watched: &Vec<(WatchedObjects, SimulationBounds)>) -> (r: Self)
        ensures
            r.objects@ == flatten_watched(watched@),
    {
        let mut objects: Vec<(SimulationBounds, Aabb)> = Vec::new();
        let mut i: usize = 0;
        while i < watched.len()
            invariant
                i <= watched@.len(),
                objects@ == flatten_watched(watched@.take(i as int)),
            decreases watched@.len() - i,
        {
            let ghost done = objects@;
            let set = &watched[i].0;
            let region = watched[i].1;
            let mut j: usize = 0;
            while j < set.objects.len()
                invariant
                    j <= set.objects@.len(),
                    objects@ == done + set.objects@.take(j as int).map_values(
                        |o: (u128, Aabb)| (region, o.1),
                    ),
                decreases set.objects@.len() - j,
            {
                let extent = set.objects[j].1;
                objects.push((region, extent));
                assert(set.objects@.take(j + 1).map_values(|o: (u128, Aabb)| (region, o.1))
                    =~= set.objects@.take(j as int).map_values(
                    |o: (u128, Aabb)| (region, o.1),
                ).push((region, extent)));
                j += 1;
            }
            assert(set.objects@.take(j as int) =~= set.objects@);
            assert(watched@.take(i + 1).drop_last() =~= watched@.take(i as int));
            assert(watched@.take(i + 1).last() == watched@[i as int]);
            i += 1;
        }
        assert(watched@.take(i as int) =~= watched@);
        QueryableWatchedObjects { objects }
    }

    /// The greatest region that published an extent that touches `aabb`.
    pub fn watching_region(&self, aabb: &Aabb) -> (r: Option<SimulationBounds>)
        ensures
            r == watching_region(self.objects@, *aabb, self.objects@.len()),
    {
        let mut best: Option<SimulationBounds> = None;
        let mut i: usize = 0;
        while i < self.objects.len()
            invariant
                i <= self.objects@.len(),
                best == watching_region(self.objects@, *aabb, i as nat),
            decreases self.objects@.len() - i,
        {
            let region = self.objects[i].0;
            let extent = self.objects[i].1;
            if extent.intersects(aabb) {
                best = match best {
                    Some(b) => if region < b {
                        Some(b)
                    } else {
                        Some(region)
                    },
                    None => Some(region),
                };
            }
            i += 1;
        }
        best
    }
}

/// What a simulator remembers of a body from step to step.
#[derive(Default, Clone, Copy)]
pub struct BodyAttributes {
    /// The timestamp at which the body was first seen asleep, while it stays asleep.
    pub sleep_step_id: Option<u64>,
}

/// A body in the physics engine of a simulator.
#[derive(Clone, Copy)]
pub struct BodyRecord {
    pub handle: RigidBodyHandle,
    pub uuid: u128,
    pub body_type: RigidBodyType,
    /// How often the body was kept although it belonged to a smaller region.
    pub sendback_delay: u64,
    pub attributes: BodyAttributes,
    /// The region that watches the body, where the simulator holds the body
    /// for a neighbour and does not own it.
    pub watched: Option<WatchedObject>,
}

impl BodyRecord {
    /// Whether the simulator owns the body: the body moves, and no other region watches it.
    pub open spec fn owned(&self) -> bool {
        self.body_type == RigidBodyType::Dynamic && self.watched.is_none()
    }
}

/// The state of the simulator of one region.
pub struct SimulationState {
    pub scene: SceneUuid,
    pub step_id: u64,
    pub killed: bool,
    pub sim_bounds: SimulationBounds,
    /// The bodies in the physics engine.
    pub bodies: Vec<BodyRecord>,
}

/// The bodies of `pending` that are due at `step_id`: those captured at that
/// step or before it.
pub open spec fn due_assignments(pending: Seq<BodyAssignment>, step_id: u64) -> Seq<BodyAssignment>
    decreases pending.len(),
{
    if pending.len() == 0 {
        pending
    } else if pending.last().warm.timestamp <= step_id {
        due_assignments(pending.drop_last(), step_id).push(pending.last())
    } else {
        due_assignments(pending.drop_last(), step_id)
    }
}

/// The bodies of `pending` that come from the future of `step_id`.
pub open spec fn future_assignments(pending: Seq<BodyAssignment>, step_id: u64) -> Seq<
    BodyAssignment,
>
    decreases pending.len(),
{
    if pending.len() == 0 {
        pending
    } else if pending.last().warm.timestamp > step_id {
        future_assignments(pending.drop_last(), step_id).push(pending.last())
    } else {
        future_assignments(pending.drop_last(), step_id)
    }
}

/// Whether one of `records` is the body `uuid`.
pub open spec fn has_uuid_among(records: Seq<BodyRecord>, uuid: u128) -> bool {
    exists|i: int| 0 <= i < records.len() && (#[trigger] records[i]).uuid == uuid
}

/// Where the body `uuid` stands among `records`.
pub open spec fn index_of_uuid(records: Seq<BodyRecord>, uuid: u128) -> int {
    choose|i: int| 0 <= i < records.len() && (#[trigger] records[i]).uuid == uuid
}

/// The bodies of a simulator once the body of `record` has entered the
/// physics engine: a body that was there under the same identifier is gone,
/// and the new body stands last.
pub open spec fn after_insert(records: Seq<BodyRecord>, record: BodyRecord) -> Seq<BodyRecord> {
    if has_uuid_among(records, record.uuid) {
        records.remove(index_of_uuid(records, record.uuid)).push(record)
    } else {
        records.push(record)
    }
}

/// A body stays when a body of another identifier enters.
pub proof fn lemma_insert_keeps_others(records: Seq<BodyRecord>, record: BodyRecord, q: int)
    requires
        0 <= q < records.len(),
        records[q].uuid != record.uuid,
    ensures
        after_insert(records, record).contains(records[q]),
{
    let after = after_insert(records, record);
    if has_uuid_among(records, record.uuid) {
        let at = index_of_uuid(records, record.uuid);
        assert(0 <= at < records.len() && records[at].uuid == record.uuid);
        let o = if q < at { q } else { q - 1 };
        assert(after[o] == records[q]);
    } else {
        assert(after[q] == records[q]);
    }
}

impl SimulationState {
    /// Whether no two bodies share a handle or an identifier.
    pub open spec fn wf(&self) -> bool {
        forall|i: int, j: int|
            0 <= i < j < self.bodies@.len() ==> self.bodies@[i].handle != self.bodies@[j].handle
                && self.bodies@[i].uuid != self.bodies@[j].uuid
    }

    /// Whether `reported` tells of the bodies of this simulator, one by one and in order.
    pub open spec fn matches(&self, reported: Seq<BodyState>) -> bool {
        &&& reported.len() == self.bodies@.len()
        &&& forall|i: int|
            0 <= i < reported.len() ==> (#[trigger] reported[i]).handle == self.bodies@[i].handle
                && reported[i].body_type == self.bodies@[i].body_type
    }

    /// Whether the simulator has a body with the identifier `uuid`.
    pub open spec fn has_uuid(&self, uuid: u128) -> bool {
        exists|i: int| 0 <= i < self.bodies@.len() && self.bodies@[i].uuid == uuid
    }

    /// Whether the simulator has a body with the handle `handle`.
    pub open spec fn has_handle(&self, handle: RigidBodyHandle) -> bool {
        exists|i: int| 0 <= i < self.bodies@.len() && self.bodies@[i].handle == handle
    }

    /// Decides `matches`.
    pub fn is_matched_by(&self, reported: &Vec<BodyState>) -> (r: bool)
        ensures
            r == self.matches(reported@),
    {
        if reported.len() != self.bodies.len() {
            return false;
        }
        let mut i: usize = 0;
        while i < reported.len()
            invariant
                i <= reported@.len(),
                reported@.len() == self.bodies@.len(),
                forall|j: int|
                    0 <= j < i ==> (#[trigger] reported@[j]).handle == self.bodies@[j].handle
                        && reported@[j].body_type == self.bodies@[j].body_type,
            decreases reported@.len() - i,
        {
            if !(reported[i].handle == self.bodies[i].handle && reported[i].body_type
                == self.bodies[i].body_type) {
                return false;
            }
            i += 1;
        }
        true
    }

    /// The simulator of the region `sim_bounds` of `scene`, before its first step.
    pub fn new(scene: SceneUuid, sim_bounds: SimulationBounds) -> (r: Self)
        ensures
            r.wf(),
            r.scene == scene,
            r.sim_bounds == sim_bounds,
            r.step_id == 0,
            !r.killed,
            r.bodies@.len() == 0,
    {
        Self { scene, step_id: 0, killed: false, sim_bounds, bodies: Vec::new() }
    }

    /// The handles of the bodies, in the order in which a report lists them.
    pub fn handles(&self) -> (r: Vec<RigidBodyHandle>)
        ensures
            r@.len() == self.bodies@.len(),
            forall|i: int| 0 <= i < r@.len() ==> r@[i] == self.bodies@[i].handle,
    {
        let mut r: Vec<RigidBodyHandle> = Vec::new();
        let mut i: usize = 0;
        while i < self.bodies.len()
            invariant
                i <= self.bodies@.len(),
                r@.len() == i,
                forall|k: int| 0 <= k < i ==> r@[k] == self.bodies@[k].handle,
            decreases self.bodies@.len() - i,
        {
            r.push(self.bodies[i].handle);
            i += 1;
        }
        r
    }

    /// Where the body `uuid` stands among the bodies, if the simulator has it.
    pub fn find_uuid(&self, uuid: u128) -> (r: Option<usize>)
        ensures
            r.is_some() == self.has_uuid(uuid),
            r.is_some() ==> r.unwrap() < self.bodies@.len() && self.bodies@[r.unwrap() as int].uuid
                == uuid,
    {
        let mut i: usize = 0;
        while i < self.bodies.len()
            invariant
                i <= self.bodies@.len(),
                forall|j: int| 0 <= j < i ==> self.bodies@[j].uuid != uuid,
            decreases self.bodies@.len() - i,
        {
            if self.bodies[i].uuid == uuid {
                return Some(i);
            }
            i += 1;
        }
        None
    }

    /// Where the body `handle` stands among the bodies, if the simulator has it.
    pub fn find_handle(&self, handle: RigidBodyHandle) -> (r: Option<usize>)
        ensures
            r.is_some() == self.has_handle(handle),
            r.is_some() ==> r.unwrap() < self.bodies@.len()
                && self.bodies@[r.unwrap() as int].handle == handle,
    {
        let mut i: usize = 0;
        while i < self.bodies.len()
            invariant
                i <= self.bodies@.len(),
                forall|j: int| 0 <= j < i ==> self.bodies@[j].handle != handle,
            decreases self.bodies@.len() - i,
        {
            if self.bodies[i].handle == handle {
                return Some(i);
            }
            i += 1;
        }
        None
    }

    /// Whether the simulator has a body with the handle `handle`.
    pub fn contains_handle(&self, handle: RigidBodyHandle) -> (r: bool)
        ensures
            r == self.has_handle(handle),
    {
        self.find_handle(handle).is_some()
    }

    /// Takes note that the body `uuid` now stands in the physics engine under
    /// `handle`. A body that the simulator had under the same identifier is
    /// superseded: its record is dropped and its handle is returned, for the
    /// caller to take the old body out of the engine.
    pub fn insert_body(&mut self, uuid: u128, body_type: RigidBodyType, handle: RigidBodyHandle) -> (superseded: Option<RigidBodyHandle>)
        requires
            old(self).wf(),
            !old(self).has_handle(handle),
        ensures
            final(self).wf(),
            final(self).scene == old(self).scene,
            final(self).step_id == old(self).step_id,
            final(self).killed == old(self).killed,
            final(self).sim_bounds == old(self).sim_bounds,
            superseded.is_some() == old(self).has_uuid(uuid),
            final(self).bodies@ == after_insert(
                old(self).bodies@,
                (BodyRecord {
                    handle,
                    uuid,
                    body_type,
                    sendback_delay: 0,
                    attributes: BodyAttributes { sleep_step_id: None },
                    watched: None,
                }),
            ),
            superseded.is_some() ==> superseded.unwrap() == old(self).bodies@[index_of_uuid(
                old(self).bodies@,
                uuid,
            )].handle,
            final(self).bodies@.len() > 0,
            final(self).bodies@.last() == (BodyRecord {
                handle,
                uuid,
                body_type,
                sendback_delay: 0,
                attributes: BodyAttributes { sleep_step_id: None },
                watched: None,
            }),
            !old(self).has_uuid(uuid) ==> final(self).bodies@.drop_last() == old(self).bodies@,
            forall|i: int|
                0 <= i < old(self).bodies@.len() && old(self).bodies@[i].uuid == uuid ==> {
                    &&& superseded == Some(old(self).bodies@[i].handle)
                    &&& final(self).bodies@.drop_last() == old(self).bodies@.remove(i)
                },
    {
        let found = self.find_uuid(uuid);
        let record = BodyRecord {
            handle,
            uuid,
            body_type,
            sendback_delay: 0,
            attributes: BodyAttributes { sleep_step_id: None },
            watched: None,
        };
        let ghost before = self.bodies@;
        match found {
            Some(at) => {
                let old_record = self.bodies.remove(at);
                self.bodies.push(record);
                proof {
                    let after = self.bodies@;
                    let chosen = index_of_uuid(before, uuid);
                    assert(0 <= chosen < before.len() && before[chosen].uuid == uuid);
                    if chosen < at {
                        assert(before[chosen].uuid != before[at as int].uuid);
                    } else if at < chosen {
                        assert(before[at as int].uuid != before[chosen].uuid);
                    }
                    assert(after.drop_last() =~= before.remove(at as int));
                    assert forall|i: int, j: int| 0 <= i < j < after.len() implies after[i].handle
                        != after[j].handle && after[i].uuid != after[j].uuid by {
                        let oi = if i < at { i } else { i + 1 };
                        let oj = if j < at { j } else { j + 1 };
                        if j < after.len() - 1 {
                            assert(after[i] == before[oi] && after[j] == before[oj]);
                        } else {
                            assert(after[i] == before[oi]);
                            assert(before[oi].uuid != before[at as int].uuid);
                        }
                    }
                }
                Some(old_record.handle)
            },
            None => {
                self.bodies.push(record);
                proof {
                    let after = self.bodies@;
                    assert(after.drop_last() =~= before);
                }
                None
            },
        }
    }

    /// Forgets the body `handle`, which has left the physics engine.
    pub fn remove_body(&mut self, handle: RigidBodyHandle) -> (removed: Option<u128>)
        requires
            old(self).wf(),
        ensures
            final(self).wf(),
            final(self).scene == old(self).scene,
            final(self).step_id == old(self).step_id,
            final(self).killed == old(self).killed,
            final(self).sim_bounds == old(self).sim_bounds,
            removed.is_some() == old(self).has_handle(handle),
            !old(self).has_handle(handle) ==> final(self).bodies@ == old(self).bodies@,
            forall|i: int|
                0 <= i < old(self).bodies@.len() && old(self).bodies@[i].handle == handle ==> {
                    &&& removed == Some(old(self).bodies@[i].uuid)
                    &&& final(self).bodies@ == old(self).bodies@.remove(i)
                },
            !final(self).has_handle(handle),
    {
        let ghost before = self.bodies@;
        match self.find_handle(handle) {
            Some(at) => {
                let record = self.bodies.remove(at);
                proof {
                    let after = self.bodies@;
                    assert forall|i: int, j: int| 0 <= i < j < after.len() implies after[i].handle
                        != after[j].handle && after[i].uuid != after[j].uuid by {
                        let oi = if i < at { i } else { i + 1 };
                        let oj = if j < at { j } else { j + 1 };
                        assert(after[i] == before[oi] && after[j] == before[oj]);
                    }
                    assert forall|i: int| 0 <= i < after.len() implies after[i].handle
                        != handle by {
                        let oi = if i < at { i } else { i + 1 };
                        assert(after[i] == before[oi]);
                    }
                }
                Some(record.uuid)
            },
            None => None,
        }
    }
}

/// Takes out of `pending_assignments` the bodies that are due: those whose
/// state was captured at the step of the simulator or before it. Bodies from
/// the future stay, in their order, until their step has come.
pub fn resolve_pending_assignments(
    sim_state: &SimulationState,
    pending_assignments: &mut Vec<BodyAssignment>,
) -> (due: Vec<BodyAssignment>)
    ensures
        due@ == due_assignments(old(pending_assignments)@, sim_state.step_id),
        final(pending_assignments)@ == future_assignments(
            old(pending_assignments)@,
            sim_state.step_id,
        ),
{
    let ghost all = pending_assignments@;
    let mut rest = take_reversed(pending_assignments);
    let mut due: Vec<BodyAssignment> = Vec::new();
    let n = rest.len();
    assert(rest@ =~= all.reverse().take(n as int));
    let mut i: usize = 0;
    while i < n
        invariant
            i <= n,
            n == all.len(),
            rest@ == all.reverse().take(n - i),
            due@ == due_assignments(all.take(i as int), sim_state.step_id),
            pending_assignments@ == future_assignments(all.take(i as int), sim_state.step_id),
        decreases n - i,
    {
        let ghost waiting = rest@;
        let body = rest.pop().unwrap();
        assert(body == all.reverse()[n - 1 - i]);
        assert(body == all[i as int]);
        assert(rest@ =~= all.reverse().take(n - i - 1));
        assert(all.take(i + 1).drop_last() =~= all.take(i as int));
        assert(all.take(i + 1).last() == all[i as int]);
        if body.warm.timestamp > sim_state.step_id {
            pending_assignments.push(body);
        } else {
            due.push(body);
        }
        i += 1;
    }
    assert(all.take(n as int) =~= all);
    due
}

/// The timestamp of what is published at the step `step_id`.
pub open spec fn timestamp_at(step_id: u64) -> int {
    step_id * NUM_INTERNAL_STEPS
}

/// What is remembered of a body once it has been seen asleep or awake at
/// `timestamp`: the time at which it fell asleep is set when it is first seen
/// asleep, kept while it sleeps, and cleared when it wakes.
pub open spec fn observed_attributes(attributes: BodyAttributes, sleeping: bool, timestamp: u64) -> BodyAttributes {
    if !sleeping {
        BodyAttributes { sleep_step_id: None }
    } else if attributes.sleep_step_id.is_none() {
        BodyAttributes { sleep_step_id: Some(timestamp) }
    } else {
        attributes
    }
}

/// The time at which a body fell asleep is set once: while the body is seen
/// asleep, step after step, the time stays as it was set at first.
pub proof fn lemma_sleep_start_is_kept(attributes: BodyAttributes, first: u64, later: u64)
    ensures
        observed_attributes(attributes, true, first).sleep_step_id.is_some(),
        observed_attributes(observed_attributes(attributes, true, first), true, later)
            == observed_attributes(attributes, true, first),
        attributes.sleep_step_id.is_none() ==> observed_attributes(
            attributes,
            true,
            first,
        ).sleep_step_id == Some(first),
{
}

/// The record of a body once a snapshot has been made at `timestamp`. Bodies
/// that are held for a neighbour are not looked at.
pub open spec fn observed_record(record: BodyRecord, body: BodyState, timestamp: u64) -> BodyRecord {
    if record.watched.is_some() {
        record
    } else {
        BodyRecord {
            attributes: observed_attributes(record.attributes, body.sleeping, timestamp),
            ..record
        }
    }
}

/// How a viewer sees a body of the physics engine.
pub open spec fn live_client_object(record: BodyRecord, body: BodyState, timestamp: u64) -> ClientBodyObjectView {
    ClientBodyObjectView {
        uuid: record.uuid,
        position: body.position,
        shape: body.shape@,
        body_type: body.body_type,
        sleep_start_frame: observed_attributes(
            record.attributes,
            body.sleeping,
            timestamp,
        ).sleep_step_id,
    }
}

/// How a viewer sees a body that waits to enter the physics engine.
pub open spec fn pending_client_object(body: BodyAssignment) -> ClientBodyObjectView {
    ClientBodyObjectView {
        uuid: body.uuid,
        position: body.warm.position,
        shape: body.cold.shape@,
        body_type: body.cold.body_type,
        sleep_start_frame: None,
    }
}

/// How a viewer sees the first `n` bodies of the physics engine: those held
/// for a neighbour left out, the others in order.
pub open spec fn live_client_objects(
    records: Seq<BodyRecord>,
    reported: Seq<BodyState>,
    timestamp: u64,
    n: nat,
) -> Seq<ClientBodyObjectView>
    decreases n,
{
    if n == 0 {
        Seq::empty()
    } else if records[n - 1].watched.is_some() {
        live_client_objects(records, reported, timestamp, (n - 1) as nat)
    } else {
        live_client_objects(records, reported, timestamp, (n - 1) as nat).push(
            live_client_object(records[n - 1], reported[n - 1], timestamp),
        )
    }
}

/// The snapshot of a region for viewers: every body of the physics engine
/// that is not held for a neighbour, then every body of `pending`, which
/// waits to enter the engine. The time at which a body fell asleep is noted
/// in passing.
pub fn compute_client_objects(
    sim_state: &mut SimulationState,
    reported: &Vec<BodyState>,
    pending: &Vec<BodyAssignment>,
) -> (snapshot: ClientBodyObjectSet)
    requires
        old(sim_state).wf(),
        old(sim_state).matches(reported@),
        timestamp_at(old(sim_state).step_id) <= u64::MAX,
    ensures
        final(sim_state).wf(),
        final(sim_state).matches(reported@),
        final(sim_state).scene == old(sim_state).scene,
        final(sim_state).step_id == old(sim_state).step_id,
        final(sim_state).killed == old(sim_state).killed,
        final(sim_state).sim_bounds == old(sim_state).sim_bounds,
        final(sim_state).bodies@.len() == old(sim_state).bodies@.len(),
        forall|i: int|
            0 <= i < old(sim_state).bodies@.len() ==> #[trigger] final(sim_state).bodies@[i]
                == observed_record(
                old(sim_state).bodies@[i],
                reported@[i],
                timestamp_at(old(sim_state).step_id) as u64,
            ),
        snapshot.timestamp == timestamp_at(old(sim_state).step_id),
        snapshot.objects_view() == live_client_objects(
            old(sim_state).bodies@,
            reported@,
            timestamp_at(old(sim_state).step_id) as u64,
            reported@.len(),
        ) + pending@.map_values(|b: BodyAssignment| pending_client_object(b)),
{
    let timestamp = sim_state.step_id * NUM_INTERNAL_STEPS;
    let mut objects: Vec<ClientBodyObject> = Vec::new();
    let ghost before = sim_state.bodies@;
    let n = sim_state.bodies.len();
    let mut i: usize = 0;
    while i < n
        invariant
            i <= n,
            n == before.len(),
            reported@.len() == n,
            sim_state.bodies@.len() == n,
            sim_state.scene == old(sim_state).scene,
            sim_state.step_id == old(sim_state).step_id,
            sim_state.killed == old(sim_state).killed,
            sim_state.sim_bounds == old(sim_state).sim_bounds,
            forall|k: int| 0 <= k < i ==> #[trigger] sim_state.bodies@[k] == observed_record(before[k], reported@[k], timestamp),
            forall|k: int| i <= k < n ==> #[trigger] sim_state.bodies@[k] == before[k],
            objects@.map_values(|o: ClientBodyObject| o@) == live_client_objects(
                before,
                reported@,
                timestamp,
                i as nat,
            ),
        decreases n - i,
    {
        let record = sim_state.bodies[i];
        let ghost shown = objects@.map_values(|o: ClientBodyObject| o@);
        if record.watched.is_none() {
            let body = &reported[i];
            let attributes = if body.sleeping {
                if record.attributes.sleep_step_id.is_none() {
                    BodyAttributes { sleep_step_id: Some(timestamp) }
                } else {
                    record.attributes
                }
            } else {
                BodyAttributes { sleep_step_id: None }
            };
            sim_state.bodies.set(i, BodyRecord { attributes, ..record });
            let object = ClientBodyObject {
                uuid: record.uuid,
                position: body.position,
                shape: body.shape.clone(),
                body_type: body.body_type,
                sleep_start_frame: attributes.sleep_step_id,
            };
            objects.push(object);
            assert(objects@.map_values(|o: ClientBodyObject| o@) =~= shown.push(
                live_client_object(before[i as int], reported@[i as int], timestamp),
            ));
        }
        i += 1;
    }
    let ghost live = objects@.map_values(|o: ClientBodyObject| o@);
    let m = pending.len();
    let mut j: usize = 0;
    while j < m
        invariant
            j <= m,
            m == pending@.len(),
            objects@.map_values(|o: ClientBodyObject| o@) == live + pending@.take(
                j as int,
            ).map_values(|b: BodyAssignment| pending_client_object(b)),
        decreases m - j,
    {
        let ghost shown = objects@.map_values(|o: ClientBodyObject| o@);
        let body = &pending[j];
        let object = ClientBodyObject {
            uuid: body.uuid,
            position: body.warm.position,
            shape: body.cold.shape.clone(),
            body_type: body.cold.body_type,
            sleep_start_frame: None,
        };
        objects.push(object);
        assert(objects@.map_values(|o: ClientBodyObject| o@) =~= shown.push(
            pending_client_object(pending@[j as int]),
        ));
        assert(pending@.take(j + 1).map_values(|b: BodyAssignment| pending_client_object(b))
            =~= pending@.take(j as int).map_values(|b: BodyAssignment| pending_client_object(b)).push(
            pending_client_object(pending@[j as int]),
        ));
        j += 1;
    }
    assert(pending@.take(m as int) =~= pending@);
    proof {
        let after = sim_state.bodies@;
        assert forall|a: int, b: int| 0 <= a < b < after.len() implies after[a].handle
            != after[b].handle && after[a].uuid != after[b].uuid by {
            assert(after[a] == observed_record(before[a], reported@[a], timestamp));
            assert(after[b] == observed_record(before[b], reported@[b], timestamp));
        }
        assert forall|a: int| 0 <= a < reported@.len() implies (#[trigger] reported@[a]).handle
            == after[a].handle && reported@[a].body_type == after[a].body_type by {
            assert(after[a] == observed_record(before[a], reported@[a], timestamp));
        }
    }
    ClientBodyObjectSet { timestamp, objects }
}

/// Before a simulator has run a step, its snapshot shows the bodies that
/// wait to enter its physics engine, each once and in order.
pub proof fn lemma_snapshot_before_first_step(
    reported: Seq<BodyState>,
    timestamp: u64,
    pending: Seq<BodyAssignment>,
)
    ensures
        (live_client_objects(Seq::empty(), reported, timestamp, 0) + pending.map_values(
            |b: BodyAssignment| pending_client_object(b),
        )).map_values(|o: ClientBodyObjectView| o.uuid) == pending.map_values(
            |b: BodyAssignment| b.uuid,
        ),
{
    let shown = live_client_objects(Seq::empty(), reported, timestamp, 0) + pending.map_values(
        |b: BodyAssignment| pending_client_object(b),
    );
    assert(shown.map_values(|o: ClientBodyObjectView| o.uuid) =~= pending.map_values(
        |b: BodyAssignment| b.uuid,
    ));
}

/// What a simulator does about a message.
pub enum Reaction {
    /// Nothing more than taking note; the next message may be read.
    Noted,
    /// The snapshot is to be published for viewers; then the next message may be read.
    Publish(ClientBodyObjectSet),
    /// The step whose number was taken from the message is to be run.
    RunStep,
    /// The simulator has been told to stop.
    Stop,
}

/// Deals with a message that arrives between two steps.
///
/// New bodies join `pending_assignments`, behind those that wait there
/// already. A request for the snapshot is answered from the bodies in the
/// physics engine and those that wait. `Step` sets the number of the step to
/// run. `Exit` kills the simulator; a simulator that is killed stays so, and
/// is told to stop whatever the message. Messages that are meant for the
/// worker, and not for its simulators, are passed over.
pub fn process_message(
    sim_state: &mut SimulationState,
    message: RunnerMessage,
    pending_assignments: &mut Vec<BodyAssignment>,
    reported: &Vec<BodyState>,
) -> (reaction: Reaction)
    requires
        old(sim_state).wf(),
        old(sim_state).matches(reported@),
        timestamp_at(old(sim_state).step_id) <= u64::MAX,
    ensures
        final(sim_state).wf(),
        final(sim_state).matches(reported@),
        final(sim_state).scene == old(sim_state).scene,
        final(sim_state).sim_bounds == old(sim_state).sim_bounds,
        old(sim_state).killed ==> {
            &&& reaction is Stop
            &&& *final(sim_state) == *old(sim_state)
            &&& final(pending_assignments)@ == old(pending_assignments)@
        },
        !old(sim_state).killed ==> match message {
            RunnerMessage::Exit => {
                &&& reaction is Stop
                &&& final(sim_state).killed
                &&& final(sim_state).step_id == old(sim_state).step_id
                &&& final(sim_state).bodies@ == old(sim_state).bodies@
                &&& final(pending_assignments)@ == old(pending_assignments)@
            },
            RunnerMessage::AssignIsland { bodies, .. } => {
                &&& reaction is Noted
                &&& *final(sim_state) == *old(sim_state)
                &&& final(pending_assignments)@ == old(pending_assignments)@ + bodies@
            },
            RunnerMessage::SyncClientObjects => {
                &&& reaction is Publish
                &&& !final(sim_state).killed
                &&& final(sim_state).step_id == old(sim_state).step_id
                &&& final(pending_assignments)@ == old(pending_assignments)@
                &&& reaction->Publish_0.timestamp == timestamp_at(old(sim_state).step_id)
                &&& reaction->Publish_0.objects_view() == live_client_objects(
                    old(sim_state).bodies@,
                    reported@,
                    timestamp_at(old(sim_state).step_id) as u64,
                    reported@.len(),
                ) + old(pending_assignments)@.map_values(
                    |b: BodyAssignment| pending_client_object(b),
                )
                &&& forall|i: int|
                    0 <= i < old(sim_state).bodies@.len()
                        ==> #[trigger] final(sim_state).bodies@[i] == observed_record(
                        old(sim_state).bodies@[i],
                        reported@[i],
                        timestamp_at(old(sim_state).step_id) as u64,
                    )
            },
            RunnerMessage::Step { step_id } => {
                &&& reaction is RunStep
                &&& !final(sim_state).killed
                &&& final(sim_state).step_id == step_id
                &&& final(sim_state).bodies@ == old(sim_state).bodies@
                &&& final(pending_assignments)@ == old(pending_assignments)@
            },
            RunnerMessage::AssignStaticBodies { .. } | RunnerMessage::Ack => {
                &&& reaction is Noted
                &&& *final(sim_state) == *old(sim_state)
                &&& final(pending_assignments)@ == old(pending_assignments)@
            },
        },
{
    if sim_state.killed {
        return Reaction::Stop;
    }
    match message {
        RunnerMessage::Exit => {
            sim_state.killed = true;
            Reaction::Stop
        },
        RunnerMessage::AssignIsland { scene, region, bodies, impulse_joints } => {
            let mut bodies = bodies;
            pending_assignments.append(&mut bodies);
            Reaction::Noted
        },
        RunnerMessage::SyncClientObjects => {
            let snapshot = compute_client_objects(sim_state, reported, pending_assignments);
            Reaction::Publish(snapshot)
        },
        RunnerMessage::Step { step_id } => {
            sim_state.step_id = step_id;
            Reaction::RunStep
        },
        RunnerMessage::AssignStaticBodies { .. } => Reaction::Noted,
        RunnerMessage::Ack => Reaction::Noted,
    }
}

/// Lets the static bodies of the scene that this simulator has not met yet
/// wait with the pending bodies, and counts them as met.
pub fn add_missing_static_bodies(
    static_bodies_in_scene: &Vec<BodyAssignment>,
    static_bodies_added: &mut usize,
    pending_assignments: &mut Vec<BodyAssignment>,
)
    ensures
        *old(static_bodies_added) >= static_bodies_in_scene@.len() ==> {
            &&& *final(static_bodies_added) == *old(static_bodies_added)
            &&& final(pending_assignments)@ == old(pending_assignments)@
        },
        *old(static_bodies_added) < static_bodies_in_scene@.len() ==> {
            &&& *final(static_bodies_added) == static_bodies_in_scene@.len()
            &&& final(pending_assignments)@.len() == old(pending_assignments)@.len()
                + static_bodies_in_scene@.len() - *old(static_bodies_added)
            &&& final(pending_assignments)@.take(old(pending_assignments)@.len() as int)
                == old(pending_assignments)@
            &&& forall|k: int|
                *old(static_bodies_added) <= k < static_bodies_in_scene@.len()
                    ==> #[trigger] final(pending_assignments)@[old(pending_assignments)@.len() + k
                    - *old(static_bodies_added)]@ == static_bodies_in_scene@[k]@
        },
{
    let n = static_bodies_in_scene.len();
    if n <= *static_bodies_added {
        return ;
    }
    let start = *static_bodies_added;
    let ghost before = pending_assignments@;
    let mut k: usize = start;
    while k < n
        invariant
            start <= k <= n,
            n == static_bodies_in_scene@.len(),
            pending_assignments@.len() == before.len() + k - start,
            pending_assignments@.take(before.len() as int) == before,
            forall|j: int|
                start <= j < k ==> #[trigger] pending_assignments@[before.len() + j - start]@
                    == static_bodies_in_scene@[j]@,
        decreases n - k,
    {
        let ghost prev = pending_assignments@;
        let body = static_bodies_in_scene[k].clone();
        pending_assignments.push(body);
        assert(pending_assignments@.take(before.len() as int) =~= prev.take(before.len() as int));
        assert forall|j: int| start <= j < k + 1 implies #[trigger] pending_assignments@[before.len()
            + j - start]@ == static_bodies_in_scene@[j]@ by {
            if j < k {
                assert(pending_assignments@[before.len() + j - start] == prev[before.len() + j
                    - start]);
            }
        }
        k += 1;
    }
    *static_bodies_added = n;
}

} // verus!
