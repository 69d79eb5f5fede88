//! The two ends of the step of a simulator: before the physics engine runs,
//! the bodies that are due enter it; after it has run, the bodies are looked
//! at, regions are elected, and what leaves and what is published is decided.

use crate::api_types::messages::{BodyAssignment, RunnerMessage};
use crate::api_types::partitionner::SceneUuid;
use crate::api_types::objects::{ClientBodyObjectSet, WatchedObjects};
use crate::api_types::simulation::{region_lt, SimulationBounds};
use crate::runner::connected_components::{
    are_components, calculate_connected_components, groups_of, joints_listed, members, swept_hull,
    ConnectedComponent,
};
use crate::runner::ownership::{
    carried, carries_at, islands_of, lemma_components_of_report,
    lemma_election_sends_owned_once, lemma_handover, lemma_position_of, lemma_reassigned_are_sent,
    lemma_sending, owned_among, sends_owned_once,
};
use crate::runner::physics::{report_wf, BodyState, RigidBodyHandle};
use crate::runner::region_assignment::{
    apply_and_send_region_assignments, assignments_of, calculate_region_assignments, election_of,
    is_island_message, is_sent, kept_indices, kept_records, lemma_kept_indices, position_of,
    sending, travelling_bodies, Election, RegionAssignments,
};
use crate::runner::runner::{
    after_insert, compute_client_objects, has_uuid_among, index_of_uuid, lemma_insert_keeps_others,
    live_client_objects, observed_record, timestamp_at, BodyAttributes, BodyRecord,
    QueryableWatchedObjects, SimulationState,
};
use crate::runner::watch::{compute_watch_data, watch_entries};
use vstd::prelude::*;

verus! {

/// What a simulator hands out at the end of a step.
pub struct StepOutcome {
    /// The snapshot for viewers.
    pub client_objects: ClientBodyObjectSet,
    /// The watch set for the lower neighbours.
    pub watched: WatchedObjects,
    /// The messages that hand over the bodies that leave, each with the
    /// region that it is for.
    pub islands: Vec<(SimulationBounds, RunnerMessage)>,
    /// The connected components of the bodies, as the step found them.
    pub components: Vec<ConnectedComponent>,
    /// The bodies that leave, region by region and all together: they are to
    /// be taken out of the physics engine.
    pub assignments: RegionAssignments,
}

/// Whether `components` are the connected components of what is reported:
/// each body that moves stands in one of them, with all that it is linked to
/// and nothing else; each component knows its bodies by their handles, the
/// extent of all that they sweep, and their joints.
pub open spec fn components_of(
    reported: Seq<BodyState>,
    components: Seq<ConnectedComponent>,
) -> bool {
    &&& are_components(reported, groups_of(reported, components))
    &&& forall|c: int, k: int|
        0 <= c < components.len() && 0 <= k < components[c].bodies@.len() ==> {
            let i = members(reported, components[c])[k];
            0 <= i < reported.len() && reported[i].handle == #[trigger] components[c].bodies@[k]
        }
    &&& forall|c: int|
        0 <= c < components.len() ==> (#[trigger] components[c]).swept_aabb == swept_hull(
            reported,
            members(reported, components[c]),
            components[c].bodies@.len(),
        )
    &&& joints_listed(reported, components)
}

/// What a simulator remembers of its bodies once the election `e` on
/// `components` is over and the bodies have been seen asleep or awake at
/// `timestamp`, before any body is forgotten.
pub open spec fn records_at_end(
    e: Election,
    components: Seq<ConnectedComponent>,
    timestamp: u64,
) -> Seq<BodyRecord> {
    Seq::new(
        e.records.len(),
        |p: int| observed_record(e.record_after(components, p), e.reported[p], timestamp),
    )
}

/// Whether `a` and `b` tell the same of each body, but for what is
/// remembered of its sleep and of how often it was held back.
pub open spec fn same_bodies(a: Seq<BodyRecord>, b: Seq<BodyRecord>) -> bool {
    &&& a.len() == b.len()
    &&& forall|i: int|
        0 <= i < a.len() ==> (#[trigger] a[i]).handle == b[i].handle && a[i].uuid == b[i].uuid
            && a[i].body_type == b[i].body_type && a[i].watched == b[i].watched
}

/// The bodies that a simulator owns do not depend on what it remembers of them.
pub proof fn lemma_same_owned(a: Seq<BodyRecord>, b: Seq<BodyRecord>)
    requires
        same_bodies(a, b),
    ensures
        owned_among(a) == owned_among(b),
{
    assert forall|uuid: u128| owned_among(a).contains(uuid) == owned_among(b).contains(uuid) by {
        if owned_among(a).contains(uuid) {
            let i = choose|i: int| 0 <= i < a.len() && (#[trigger] a[i]).uuid == uuid
                && a[i].owned();
            assert(b[i].uuid == uuid && b[i].owned());
        }
        if owned_among(b).contains(uuid) {
            let i = choose|i: int| 0 <= i < b.len() && (#[trigger] b[i]).uuid == uuid
                && b[i].owned();
            assert(a[i].uuid == uuid && a[i].owned());
        }
    }
    assert(owned_among(a) =~= owned_among(b));
}

/// The bodies travel as they are reported, whatever is remembered of them.
pub proof fn lemma_travelling_same(
    a: Seq<BodyRecord>,
    b: Seq<BodyRecord>,
    reported: Seq<BodyState>,
    step_id: u64,
    handles: Seq<RigidBodyHandle>,
)
    requires
        same_bodies(a, b),
        forall|i: int, j: int| 0 <= i < j < a.len() ==> a[i].handle != a[j].handle,
        forall|k: int|
            0 <= k < handles.len() ==> 0 <= position_of(a, #[trigger] handles[k]) < a.len()
                && a[position_of(a, handles[k])].handle == handles[k],
    ensures
        travelling_bodies(a, reported, step_id, handles) == travelling_bodies(
            b,
            reported,
            step_id,
            handles,
        ),
{
    let left = travelling_bodies(a, reported, step_id, handles);
    let right = travelling_bodies(b, reported, step_id, handles);
    assert forall|k: int| 0 <= k < handles.len() implies left[k] == right[k] by {
        let q = position_of(a, handles[k]);
        assert(b[q].handle == a[q].handle);
        assert forall|i: int, j: int| 0 <= i < j < b.len() implies b[i].handle
            != b[j].handle by {
            assert(a[i].handle == b[i].handle && a[j].handle == b[j].handle);
        }
        lemma_position_of(b, q);
        assert(a[q].uuid == b[q].uuid);
    }
    assert(left =~= right);
}

/// The messages hand the bodies over as they are reported, whatever is
/// remembered of them.
pub proof fn lemma_islands_same(
    a: Seq<BodyRecord>,
    b: Seq<BodyRecord>,
    reported: Seq<BodyState>,
    scene: SceneUuid,
    step_id: u64,
    entries: Seq<(SimulationBounds, Vec<RigidBodyHandle>)>,
    islands: Seq<(SimulationBounds, RunnerMessage)>,
)
    requires
        same_bodies(a, b),
        forall|i: int, j: int| 0 <= i < j < a.len() ==> a[i].handle != a[j].handle,
        sends_owned_once(a, entries),
        islands_of(islands, b, reported, scene, step_id, entries),
    ensures
        islands_of(islands, a, reported, scene, step_id, entries),
{
    assert forall|m: int| 0 <= m < islands.len() implies is_island_message(
        #[trigger] islands[m],
        scene,
        entries[sending(entries, entries.len())[m]].0,
        travelling_bodies(a, reported, step_id, entries[sending(entries, entries.len())[m]].1@),
    ) by {
        lemma_sending(entries, entries.len());
        let at = sending(entries, entries.len())[m];
        assert(0 <= at < entries.len());
        assert forall|k: int| 0 <= k < entries[at].1@.len() implies 0 <= position_of(
            a,
            #[trigger] entries[at].1@[k],
        ) < a.len() && a[position_of(a, entries[at].1@[k])].handle == entries[at].1@[k] by {}
        lemma_travelling_same(a, b, reported, step_id, entries[at].1@);
    }
}

/// Being the same bodies, but for what is remembered of them, carries over.
pub proof fn lemma_same_chain(a: Seq<BodyRecord>, b: Seq<BodyRecord>, c: Seq<BodyRecord>)
    requires
        same_bodies(a, b),
        same_bodies(b, c),
    ensures
        same_bodies(a, c),
{
    assert forall|i: int| 0 <= i < a.len() implies (#[trigger] a[i]).handle == c[i].handle
        && a[i].uuid == c[i].uuid && a[i].body_type == c[i].body_type && a[i].watched
        == c[i].watched by {
        assert(b[i].handle == a[i].handle);
    }
}

/// What is remembered after the election and after the bodies have been
/// looked at is what is remembered at the end of the step.
pub proof fn lemma_records_at_end(
    e: Election,
    components: Seq<ConnectedComponent>,
    timestamp: u64,
    elected: Seq<BodyRecord>,
    observed: Seq<BodyRecord>,
)
    requires
        elected.len() == e.records.len(),
        observed.len() == e.records.len(),
        forall|p: int|
            0 <= p < e.records.len() ==> #[trigger] elected[p] == e.record_after(components, p),
        forall|p: int|
            0 <= p < e.records.len() ==> #[trigger] observed[p] == observed_record(
                elected[p],
                e.reported[p],
                timestamp,
            ),
    ensures
        observed == records_at_end(e, components, timestamp),
{
    assert forall|p: int| 0 <= p < observed.len() implies observed[p] == records_at_end(
        e,
        components,
        timestamp,
    )[p] by {
        assert(elected[p] == e.record_after(components, p));
    }
    assert(observed =~= records_at_end(e, components, timestamp));
}

/// The watch set does not depend on what is remembered of the sleep of the
/// bodies and of how often they were held back.
pub proof fn lemma_watch_same(
    a: Seq<BodyRecord>,
    b: Seq<BodyRecord>,
    reported: Seq<BodyState>,
    leaving: Seq<RigidBodyHandle>,
    own: SimulationBounds,
    n: nat,
)
    requires
        same_bodies(a, b),
        n <= a.len(),
    ensures
        watch_entries(a, reported, leaving, own, n) == watch_entries(b, reported, leaving, own, n),
    decreases n,
{
    if n > 0 {
        lemma_watch_same(a, b, reported, leaving, own, (n - 1) as nat);
        assert(a[n - 1].handle == b[n - 1].handle && a[n - 1].uuid == b[n - 1].uuid && a[n
            - 1].watched == b[n - 1].watched);
    }
}

/// What viewers see of the bodies does not depend on how often a body was held back.
pub proof fn lemma_snapshot_same(
    a: Seq<BodyRecord>,
    b: Seq<BodyRecord>,
    reported: Seq<BodyState>,
    timestamp: u64,
    n: nat,
)
    requires
        n <= a.len(),
        a.len() == b.len(),
        forall|i: int|
            0 <= i < a.len() ==> (#[trigger] a[i]).uuid == b[i].uuid && a[i].attributes
                == b[i].attributes && a[i].watched == b[i].watched,
    ensures
        live_client_objects(a, reported, timestamp, n) == live_client_objects(
            b,
            reported,
            timestamp,
            n,
        ),
    decreases n,
{
    if n > 0 {
        lemma_snapshot_same(a, b, reported, timestamp, (n - 1) as nat);
        assert(a[n - 1].uuid == b[n - 1].uuid);
    }
}

/// Ends the step of a simulator, once the physics engine has run and
/// `reported` tells of each body.
///
/// The bodies are gathered in connected components, and each component is
/// elected to a region. The snapshot for viewers is made of all bodies that
/// the simulator does not hold for a neighbour, those that leave included.
/// The watch set is made of the bodies that stay and may reach beyond the
/// region. The bodies of the components that are elected elsewhere are handed
/// over and forgotten.
///
/// Each body that the simulator owned is then either still owned by it, or
/// handed over by one message, once; no other body is handed over.
///
/// The outcome tells the components and what the election on them makes
/// leave. There is one message for each region that bodies leave for, with
/// these bodies as they are reported. The simulator remembers the bodies that
/// stay, in their order, each held back once more where the election held it
/// back.
#[verifier::rlimit(60)]
#[verifier::spinoff_prover]
pub fn complete_step(
    sim_state: &mut SimulationState,
    reported: &Vec<BodyState>,
    watched_objects: &QueryableWatchedObjects,
) -> (outcome: StepOutcome)
    requires
        old(sim_state).wf(),
        old(sim_state).matches(reported@),
        report_wf(reported@),
        timestamp_at(old(sim_state).step_id) <= u64::MAX,
    ensures
        final(sim_state).wf(),
        final(sim_state).scene == old(sim_state).scene,
        final(sim_state).step_id == old(sim_state).step_id,
        final(sim_state).killed == old(sim_state).killed,
        final(sim_state).sim_bounds == old(sim_state).sim_bounds,
        owned_among(final(sim_state).bodies@).union(carried(outcome.islands@)) == owned_among(
            old(sim_state).bodies@,
        ),
        owned_among(final(sim_state).bodies@).disjoint(carried(outcome.islands@)),
        forall|m: int, k: int, o: int, l: int, uuid: u128|
            #[trigger] carries_at(outcome.islands@, m, k, uuid) && #[trigger] carries_at(
                outcome.islands@,
                o,
                l,
                uuid,
            ) ==> m == o && k == l,
        forall|m: int|
            0 <= m < outcome.islands@.len() ==> {
                let region = (#[trigger] outcome.islands@[m]).0;
                &&& region_lt(old(sim_state).sim_bounds, region) || region_lt(
                    region,
                    old(sim_state).sim_bounds,
                )
                &&& match outcome.islands@[m].1 {
                    RunnerMessage::AssignIsland { scene, region: r, .. } => scene == old(sim_state).scene && r == region,
                    _ => false,
                }
            },
        components_of(reported@, outcome.components@),
        assignments_of(
            &outcome.assignments,
            election_of(old(sim_state), watched_objects, reported@),
            outcome.components@,
        ),
        islands_of(
            outcome.islands@,
            old(sim_state).bodies@,
            reported@,
            old(sim_state).scene,
            old(sim_state).step_id,
            outcome.assignments.bodies_to_reassign@,
        ),
        final(sim_state).bodies@ == kept_records(
            records_at_end(
                election_of(old(sim_state), watched_objects, reported@),
                outcome.components@,
                timestamp_at(old(sim_state).step_id) as u64,
            ),
            outcome.assignments.bodies_to_reassign@,
        ),
        outcome.watched.objects@ == watch_entries(
            old(sim_state).bodies@,
            reported@,
            outcome.assignments.reassigned_bodies@,
            old(sim_state).sim_bounds,
            reported@.len(),
        ),
        forall|handle: RigidBodyHandle|
            outcome.assignments.reassigned_bodies@.contains(handle) <==> old(sim_state).has_handle(handle) && !final(sim_state).has_handle(handle),
        forall|handle: RigidBodyHandle|
            final(sim_state).has_handle(handle) ==> old(sim_state).has_handle(handle),
        outcome.client_objects.timestamp == timestamp_at(old(sim_state).step_id),
        outcome.client_objects.objects_view() == live_client_objects(
            old(sim_state).bodies@,
            reported@,
            timestamp_at(old(sim_state).step_id) as u64,
            reported@.len(),
        ),
{
    let ghost before = sim_state.bodies@;
    let ghost own = sim_state.sim_bounds;
    let connected_components = calculate_connected_components(reported);
    proof {
        lemma_components_of_report(before, reported@, connected_components@);
        assert forall|c: int, k: int|
            0 <= c < connected_components@.len() && 0 <= k
                < connected_components@[c].bodies@.len() implies sim_state.has_handle(
            #[trigger] connected_components@[c].bodies@[k],
        ) by {
            let p = position_of(before, connected_components@[c].bodies@[k]);
            assert(before[p].handle == connected_components@[c].bodies@[k]);
        }
    }
    let ghost e = election_of(sim_state, watched_objects, reported@);
    let region_assignments = calculate_region_assignments(
        sim_state,
        &connected_components,
        watched_objects,
        reported,
    );
    let ghost elected = sim_state.bodies@;
    let ghost entries = region_assignments.bodies_to_reassign@;
    proof {
        lemma_election_sends_owned_once(e, connected_components@, &region_assignments);
        assert(same_bodies(before, elected)) by {
            assert forall|i: int| 0 <= i < before.len() implies (#[trigger] before[i]).handle
                == elected[i].handle && before[i].uuid == elected[i].uuid && before[i].body_type
                == elected[i].body_type && before[i].watched == elected[i].watched by {
                assert(elected[i] == e.record_after(connected_components@, i));
            }
        }
    }
    let no_pending: Vec<BodyAssignment> = Vec::new();
    let client_objects = compute_client_objects(sim_state, reported, &no_pending);
    let ghost observed = sim_state.bodies@;
    proof {
        let timestamp = timestamp_at(sim_state.step_id) as u64;
        assert forall|i: int| 0 <= i < before.len() implies (#[trigger] elected[i]).uuid
            == before[i].uuid && elected[i].attributes == before[i].attributes
            && elected[i].watched == before[i].watched by {
            assert(elected[i] == e.record_after(connected_components@, i));
        }
        lemma_snapshot_same(elected, before, reported@, timestamp, reported@.len());
        assert(no_pending@.map_values(
            |b: BodyAssignment| crate::runner::runner::pending_client_object(b),
        ) =~= Seq::empty());
        assert(client_objects.objects_view() =~= live_client_objects(
            before,
            reported@,
            timestamp,
            reported@.len(),
        ));
    }
    proof {
        assert(same_bodies(elected, observed)) by {
            assert forall|i: int| 0 <= i < elected.len() implies (#[trigger] elected[i]).handle
                == observed[i].handle && elected[i].uuid == observed[i].uuid
                && elected[i].body_type == observed[i].body_type && elected[i].watched
                == observed[i].watched by {
                assert(observed[i] == observed_record(
                    elected[i],
                    reported@[i],
                    timestamp_at(sim_state.step_id) as u64,
                ));
            }
        }
        // What holds of the bodies that leave holds whatever is remembered of them.
        assert(sends_owned_once(observed, entries)) by {
            assert forall|i: int, k: int|
                0 <= i < entries.len() && 0 <= k < entries[i].1@.len() implies {
                let p = position_of(observed, #[trigger] entries[i].1@[k]);
                &&& 0 <= p < observed.len()
                &&& observed[p].handle == entries[i].1@[k]
                &&& observed[p].owned()
            } by {
                let q = position_of(before, entries[i].1@[k]);
                assert(0 <= q < before.len() && before[q].handle == entries[i].1@[k]
                    && before[q].owned());
                assert(elected[q].handle == before[q].handle);
                assert(observed[q].handle == elected[q].handle);
                lemma_position_of(observed, q);
                assert(elected[q].watched == before[q].watched && elected[q].body_type
                    == before[q].body_type);
                assert(observed[q].watched == elected[q].watched && observed[q].body_type
                    == elected[q].body_type);
            }
        }
        assert forall|i: int, k: int|
            0 <= i < entries.len() && 0 <= k < entries[i].1@.len() implies sim_state.has_handle(
            #[trigger] entries[i].1@[k],
        ) by {
            let p = position_of(observed, entries[i].1@[k]);
            assert(observed[p].handle == entries[i].1@[k]);
        }
    }
    let watched = compute_watch_data(sim_state, reported, &region_assignments);
    let islands = apply_and_send_region_assignments(sim_state, &region_assignments, reported);
    proof {
        let kept = sim_state.bodies@;
        assert(islands_of(
            islands@,
            observed,
            reported@,
            sim_state.scene,
            sim_state.step_id,
            entries,
        ));
        lemma_handover(observed, reported@, sim_state.scene, sim_state.step_id, entries, islands@);
        lemma_same_owned(before, elected);
        lemma_same_owned(elected, observed);
        lemma_sending(entries, entries.len());
        lemma_kept_indices(observed, entries, observed.len());
        let indices = kept_indices(observed, entries, observed.len());
        // Each message is for a region that a component migrates to.
        assert forall|m: int| 0 <= m < islands@.len() implies {
            let region = (#[trigger] islands@[m]).0;
            &&& region_lt(own, region) || region_lt(region, own)
            &&& match islands@[m].1 {
                RunnerMessage::AssignIsland { scene, region: r, .. } => scene == sim_state.scene
                    && r == region,
                _ => false,
            }
        } by {
            let a = sending(entries, entries.len())[m];
            assert(e.is_target(connected_components@, connected_components@.len(), entries[a].0));
        }
        // The bodies that leave are those that the simulator no longer has.
        assert forall|handle: RigidBodyHandle|
            region_assignments.reassigned_bodies@.contains(handle) <==> old(sim_state).has_handle(
                handle,
            ) && !sim_state.has_handle(handle) by {
            lemma_reassigned_are_sent(e, connected_components@, &region_assignments, handle);
            if is_sent(entries, handle) {
                let (i, k) = choose|i: int, k: int|
                    0 <= i < entries.len() && 0 <= k < entries[i].1@.len()
                        && #[trigger] entries[i].1@[k] == handle;
                let p = position_of(before, entries[i].1@[k]);
                assert(before[p].handle == handle);
                if sim_state.has_handle(handle) {
                    let t = choose|t: int| 0 <= t < kept.len() && kept[t].handle == handle;
                    assert(kept[t] == observed[indices[t]]);
                    assert(!is_sent(entries, observed[indices[t]].handle));
                }
            } else if old(sim_state).has_handle(handle) {
                let q = choose|q: int| 0 <= q < before.len() && before[q].handle == handle;
                assert(elected[q].handle == before[q].handle);
                assert(observed[q].handle == handle);
                assert(indices.contains(q));
                let t = choose|t: int| 0 <= t < indices.len() && indices[t] == q;
                assert(kept[t] == observed[q]);
                assert(kept[t].handle == handle);
            }
        }
        assert forall|handle: RigidBodyHandle| sim_state.has_handle(handle) implies old(sim_state).has_handle(handle) by {
            let t = choose|t: int| 0 <= t < kept.len() && kept[t].handle == handle;
            assert(kept[t] == observed[indices[t]]);
            assert(elected[indices[t]].handle == before[indices[t]].handle);
            assert(before[indices[t]].handle == handle);
        }
        // What leaves and what is published is told of the bodies as they were.
        lemma_same_chain(before, elected, observed);
        lemma_watch_same(
            before,
            observed,
            reported@,
            region_assignments.reassigned_bodies@,
            own,
            reported@.len(),
        );
        lemma_islands_same(
            before,
            observed,
            reported@,
            sim_state.scene,
            sim_state.step_id,
            entries,
            islands@,
        );
        lemma_records_at_end(
            e,
            connected_components@,
            timestamp_at(sim_state.step_id) as u64,
            elected,
            observed,
        );
    }
    StepOutcome {
        client_objects,
        watched,
        islands,
        components: connected_components,
        assignments: region_assignments,
    }
}

/// The record of a body that has just entered the physics engine.
pub open spec fn fresh_record(body: BodyAssignment, handle: RigidBodyHandle) -> BodyRecord {
    BodyRecord {
        handle,
        uuid: body.uuid,
        body_type: body.cold.body_type,
        sendback_delay: 0,
        attributes: BodyAttributes { sleep_step_id: None },
        watched: None,
    }
}

/// The bodies of a simulator once the first `n` of `due` have entered the
/// physics engine, one after the other, each under the handle of `handles`
/// that goes with it.
pub open spec fn adopted(
    records: Seq<BodyRecord>,
    due: Seq<BodyAssignment>,
    handles: Seq<RigidBodyHandle>,
    n: nat,
) -> Seq<BodyRecord>
    decreases n,
{
    if n == 0 {
        records
    } else {
        after_insert(
            adopted(records, due, handles, (n - 1) as nat),
            fresh_record(due[n - 1], handles[n - 1]),
        )
    }
}

/// The handles of the bodies that are superseded as the first `n` of `due`
/// enter the physics engine, in the order in which they are superseded.
pub open spec fn superseded_handles(
    records: Seq<BodyRecord>,
    due: Seq<BodyAssignment>,
    handles: Seq<RigidBodyHandle>,
    n: nat,
) -> Seq<RigidBodyHandle>
    decreases n,
{
    if n == 0 {
        Seq::empty()
    } else {
        let entered = adopted(records, due, handles, (n - 1) as nat);
        let gone = superseded_handles(records, due, handles, (n - 1) as nat);
        if has_uuid_among(entered, due[n - 1].uuid) {
            gone.push(entered[index_of_uuid(entered, due[n - 1].uuid)].handle)
        } else {
            gone
        }
    }
}

/// Whether each handle of `current` is a handle of `before` or one of the first `n` of `handles`.
pub open spec fn handles_known(
    before: Seq<BodyRecord>,
    current: Seq<BodyRecord>,
    handles: Seq<RigidBodyHandle>,
    n: int,
) -> bool {
    forall|q: int|
        0 <= q < current.len() ==> has_handle_among(before, (#[trigger] current[q]).handle)
            || entered(handles, n, current[q].handle)
}

/// Whether one of the first `n` of `handles` is `h`.
pub open spec fn entered(handles: Seq<RigidBodyHandle>, n: int, h: RigidBodyHandle) -> bool {
    exists|a: int| 0 <= a < n && #[trigger] handles[a] == h
}

/// Whether one of `records` has the handle `h`.
pub open spec fn has_handle_among(records: Seq<BodyRecord>, h: RigidBodyHandle) -> bool {
    exists|p: int| 0 <= p < records.len() && (#[trigger] records[p]).handle == h
}

/// When a body enters, the handles in use are those that were in use and the
/// handle of the body.
proof fn lemma_handles_after_insert(
    before: Seq<BodyRecord>,
    current: Seq<BodyRecord>,
    handles: Seq<RigidBodyHandle>,
    i: int,
    record: BodyRecord,
)
    requires
        0 <= i < handles.len(),
        record.handle == handles[i],
        handles_known(before, current, handles, i),
    ensures
        handles_known(before, after_insert(current, record), handles, i + 1),
{
    let after = after_insert(current, record);
    assert forall|q: int| 0 <= q < after.len() implies has_handle_among(
        before,
        (#[trigger] after[q]).handle,
    ) || entered(handles, i + 1, after[q].handle) by {
        if q == after.len() - 1 {
            assert(handles[i] == after[q].handle);
        } else {
            let o = if has_uuid_among(current, record.uuid) && q >= index_of_uuid(
                current,
                record.uuid,
            ) {
                q + 1
            } else {
                q
            };
            assert(after[q] == current[o]);
            if !has_handle_among(before, current[o].handle) {
                assert(entered(handles, i, current[o].handle));
                let a = choose|a: int| 0 <= a < i && #[trigger] handles[a] == current[o].handle;
                assert(handles[a] == after[q].handle);
            }
        }
    }
}

/// Whether the bodies `due` can enter under `handles`: there is a handle for
/// each body, no handle is there twice, and none is in use.
pub open spec fn can_adopt(
    sim_state: &SimulationState,
    due: Seq<BodyAssignment>,
    handles: Seq<RigidBodyHandle>,
) -> bool {
    &&& handles.len() == due.len()
    &&& forall|i: int, j: int| 0 <= i < j < handles.len() ==> handles[i] != handles[j]
    &&& forall|i: int| 0 <= i < handles.len() ==> !sim_state.has_handle(#[trigger] handles[i])
}

/// Decides `can_adopt`.
pub fn is_adoptable(
    sim_state: &SimulationState,
    due: &Vec<BodyAssignment>,
    handles: &Vec<RigidBodyHandle>,
) -> (r: bool)
    ensures
        r == can_adopt(sim_state, due@, handles@),
{
    if handles.len() != due.len() {
        return false;
    }
    let n = handles.len();
    let mut i: usize = 0;
    while i < n
        invariant
            i <= n,
            n == handles@.len(),
            forall|a: int, b: int| 0 <= a < b < i ==> handles@[a] != handles@[b],
            forall|a: int| 0 <= a < i ==> !sim_state.has_handle(#[trigger] handles@[a]),
        decreases n - i,
    {
        if sim_state.contains_handle(handles[i]) {
            return false;
        }
        let mut j: usize = 0;
        while j < i
            invariant
                j <= i,
                i < n,
                n == handles@.len(),
                forall|a: int| 0 <= a < j ==> handles@[a] != handles@[i as int],
            decreases i - j,
        {
            if handles[j] == handles[i] {
                return false;
            }
            j += 1;
        }
        i += 1;
    }
    true
}

/// Takes note that the bodies `due` have entered the physics engine, each
/// under the handle of `handles` that goes with it. A body that the
/// simulator had under the same identifier is superseded. The handles of the
/// bodies that are superseded are returned: these bodies are to be taken out
/// of the physics engine.
pub fn adopt_bodies(
    sim_state: &mut SimulationState,
    due: &Vec<BodyAssignment>,
    handles: &Vec<RigidBodyHandle>,
) -> (superseded: Vec<RigidBodyHandle>)
    requires
        old(sim_state).wf(),
        can_adopt(old(sim_state), due@, handles@),
    ensures
        final(sim_state).wf(),
        final(sim_state).scene == old(sim_state).scene,
        final(sim_state).step_id == old(sim_state).step_id,
        final(sim_state).killed == old(sim_state).killed,
        final(sim_state).sim_bounds == old(sim_state).sim_bounds,
        final(sim_state).bodies@ == adopted(old(sim_state).bodies@, due@, handles@, due@.len()),
        superseded@ == superseded_handles(old(sim_state).bodies@, due@, handles@, due@.len()),
        forall|i: int|
            0 <= i < due@.len() ==> final(sim_state).has_uuid((#[trigger] due@[i]).uuid),
{
    let ghost before = sim_state.bodies@;
    let mut superseded: Vec<RigidBodyHandle> = Vec::new();
    let n = due.len();
    let mut i: usize = 0;
    assert(handles_known(before, before, handles@, 0)) by {
        assert forall|q: int| 0 <= q < before.len() implies has_handle_among(
            before,
            (#[trigger] before[q]).handle,
        ) by {}
    }
    while i < n
        invariant
            i <= n,
            n == due@.len(),
            handles@.len() == n,
            sim_state.wf(),
            sim_state.scene == old(sim_state).scene,
            sim_state.step_id == old(sim_state).step_id,
            sim_state.killed == old(sim_state).killed,
            sim_state.sim_bounds == old(sim_state).sim_bounds,
            before == old(sim_state).bodies@,
            forall|a: int, b: int| 0 <= a < b < handles@.len() ==> handles@[a] != handles@[b],
            forall|a: int| 0 <= a < handles@.len() ==> !has_handle_among(
                before,
                #[trigger] handles@[a],
            ),
            sim_state.bodies@ == adopted(before, due@, handles@, i as nat),
            superseded@ == superseded_handles(before, due@, handles@, i as nat),
            handles_known(before, sim_state.bodies@, handles@, i as int),
            forall|a: int| 0 <= a < i ==> sim_state.has_uuid((#[trigger] due@[a]).uuid),
        decreases n - i,
    {
        let ghost current = sim_state.bodies@;
        let body = &due[i];
        let handle = handles[i];
        proof {
            if sim_state.has_handle(handle) {
                let q = choose|q: int| 0 <= q < current.len() && current[q].handle == handle;
                assert(has_handle_among(before, current[q].handle) || entered(
                    handles@,
                    i as int,
                    current[q].handle,
                ));
                if entered(handles@, i as int, handle) {
                    let a = choose|a: int| 0 <= a < i && #[trigger] handles@[a] == handle;
                    assert(handles@[a] != handles@[i as int]);
                }
                assert(false);
            }
            lemma_handles_after_insert(
                before,
                current,
                handles@,
                i as int,
                fresh_record(due@[i as int], handle),
            );
        }
        let replaced = sim_state.insert_body(body.uuid, body.cold.body_type, handle);
        proof {
            let after = sim_state.bodies@;
            assert(after[after.len() - 1].uuid == body.uuid);
            assert forall|a: int| 0 <= a < i + 1 implies sim_state.has_uuid(
                (#[trigger] due@[a]).uuid,
            ) by {
                if a < i && due@[a].uuid != body.uuid {
                    let q = choose|q: int| 0 <= q < current.len() && current[q].uuid == due@[a].uuid;
                    lemma_insert_keeps_others(current, fresh_record(due@[i as int], handle), q);
                    let t = choose|t: int| 0 <= t < after.len() && after[t] == current[q];
                    assert(after[t].uuid == due@[a].uuid);
                }
            }
        }
        match replaced {
            Some(old_handle) => {
                superseded.push(old_handle);
            },
            None => {},
        }
        i += 1;
    }
    proof {
        assert forall|a: int| 0 <= a < handles@.len() implies !has_handle_among(
            old(sim_state).bodies@,
            #[trigger] handles@[a],
        ) by {}
    }
    superseded
}

} // verus!
