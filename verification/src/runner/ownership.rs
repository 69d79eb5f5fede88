//! Who owns a body: why a body that leaves a simulator leaves it for exactly
//! one other, and why no body is lost or doubled on the way.

use crate::api_types::messages::{BodyAssignment, RunnerMessage};
use crate::api_types::objects::RigidBodyType;
use crate::api_types::simulation::SimulationBounds;
use crate::runner::connected_components::{
    are_components, dynamic_at, groups_of, handles_distinct, members, ConnectedComponent,
};
use crate::runner::physics::{BodyState, RigidBodyHandle};
use crate::api_types::messages::bodies_view;
use crate::api_types::partitionner::SceneUuid;
use crate::runner::region_assignment::{
    assignments_of, is_listed, is_island_message, is_sent, kept_indices, kept_records, lemma_kept_indices,
    position_of, sending, travelling_bodies, Election, RegionAssignments,
};
use crate::runner::runner::{after_insert, has_uuid_among, index_of_uuid, BodyRecord};
use vstd::prelude::*;

verus! {

/// Whether no body stands twice in `components`, be it in one or in two of them.
pub open spec fn components_disjoint(components: Seq<ConnectedComponent>) -> bool {
    forall|c: int, k: int, d: int, l: int|
        0 <= c < components.len() && 0 <= k < components[c].bodies@.len() && 0 <= d
            < components.len() && 0 <= l < components[d].bodies@.len()
            && #[trigger] components[c].bodies@[k] == #[trigger] components[d].bodies@[l] ==> c
            == d && k == l
}

/// Whether each body of `components` is a dynamic body of `records`.
pub open spec fn components_dynamic(
    components: Seq<ConnectedComponent>,
    records: Seq<BodyRecord>,
) -> bool {
    forall|c: int, k: int|
        0 <= c < components.len() && 0 <= k < components[c].bodies@.len() ==> {
            let p = position_of(records, #[trigger] components[c].bodies@[k]);
            &&& 0 <= p < records.len()
            &&& records[p].handle == components[c].bodies@[k]
            &&& records[p].body_type == RigidBodyType::Dynamic
        }
}

/// The connected components of a report are disjoint, and their bodies are
/// dynamic bodies of the simulator that the report tells of.
pub proof fn lemma_components_of_report(
    records: Seq<BodyRecord>,
    reported: Seq<BodyState>,
    components: Seq<ConnectedComponent>,
)
    requires
        handles_distinct(reported),
        reported.len() == records.len(),
        forall|i: int|
            0 <= i < reported.len() ==> (#[trigger] reported[i]).handle == records[i].handle
                && reported[i].body_type == records[i].body_type,
        are_components(reported, groups_of(reported, components)),
        forall|c: int, k: int|
            0 <= c < components.len() && 0 <= k < components[c].bodies@.len() ==> {
                let i = members(reported, components[c])[k];
                0 <= i < reported.len() && reported[i].handle == #[trigger] components[c].bodies@[k]
            },
    ensures
        components_disjoint(components),
        components_dynamic(components, records),
{
    let groups = groups_of(reported, components);
    assert forall|c: int, k: int, d: int, l: int|
        0 <= c < components.len() && 0 <= k < components[c].bodies@.len() && 0 <= d
            < components.len() && 0 <= l < components[d].bodies@.len()
            && #[trigger] components[c].bodies@[k] == #[trigger] components[d].bodies@[l] implies c
        == d && k == l by {
        let i = members(reported, components[c])[k];
        let j = members(reported, components[d])[l];
        assert(groups[c][k] == i && groups[d][l] == j);
        assert(reported[i].handle == reported[j].handle);
        if i < j {
            assert(reported[i].handle != reported[j].handle);
        } else if j < i {
            assert(reported[j].handle != reported[i].handle);
        }
        assert(groups[c][k] == groups[d][l]);
    }
    assert forall|c: int, k: int|
        0 <= c < components.len() && 0 <= k < components[c].bodies@.len() implies {
        let p = position_of(records, #[trigger] components[c].bodies@[k]);
        &&& 0 <= p < records.len()
        &&& records[p].handle == components[c].bodies@[k]
        &&& records[p].body_type == RigidBodyType::Dynamic
    } by {
        let i = members(reported, components[c])[k];
        assert(groups[c][k] == i);
        assert(dynamic_at(reported, groups[c][k]));
        assert(records[i].handle == components[c].bodies@[k]);
        let p = position_of(records, components[c].bodies@[k]);
        assert(0 <= p < records.len() && records[p].handle == components[c].bodies@[k]);
        if p < i {
            assert(reported[p].handle != reported[i].handle);
        } else if i < p {
            assert(reported[i].handle != reported[p].handle);
        }
    }
}

impl Election {
    /// Whether `handle` is one of the first `n` of `bodies` and is not held for a neighbour.
    pub open spec fn is_movable(&self, bodies: Seq<RigidBodyHandle>, n: nat, handle: RigidBodyHandle) -> bool {
        exists|k: int|
            0 <= k < n && #[trigger] bodies[k] == handle && self.records[position_of(
                self.records,
                handle,
            )].watched.is_none()
    }

    /// Whether `handle` is a body, not held for a neighbour, of one of the
    /// first `n` components, and that component migrates to `region`.
    pub open spec fn leaves_for(
        &self,
        components: Seq<ConnectedComponent>,
        region: SimulationBounds,
        n: nat,
        handle: RigidBodyHandle,
    ) -> bool {
        exists|c: int|
            0 <= c < n && self.migrates(#[trigger] components[c].bodies@) && self.elected(
                components[c].bodies@,
            ) == region && self.is_movable(components[c].bodies@, components[c].bodies@.len(), handle)
    }

    /// The bodies of a component that can be sent away are bodies of the
    /// component that are not held for a neighbour, each listed once.
    pub proof fn lemma_movable(&self, bodies: Seq<RigidBodyHandle>, n: nat)
        requires
            n <= bodies.len(),
            forall|k: int, l: int| 0 <= k < l < bodies.len() ==> bodies[k] != bodies[l],
        ensures
            forall|t: int|
                0 <= t < self.movable(bodies, n).len() ==> self.is_movable(
                    bodies,
                    n,
                    #[trigger] self.movable(bodies, n)[t],
                ),
            forall|t: int, u: int|
                0 <= t < u < self.movable(bodies, n).len() ==> self.movable(bodies, n)[t]
                    != self.movable(bodies, n)[u],
        decreases n,
    {
        if n > 0 {
            self.lemma_movable(bodies, (n - 1) as nat);
            let before = self.movable(bodies, (n - 1) as nat);
            let now = self.movable(bodies, n);
            assert forall|t: int| 0 <= t < now.len() implies self.is_movable(
                bodies,
                n,
                #[trigger] now[t],
            ) by {
                if t < before.len() {
                    assert(now[t] == before[t]);
                    assert(self.is_movable(bodies, (n - 1) as nat, before[t]));
                    let k = choose|k: int|
                        0 <= k < n - 1 && #[trigger] bodies[k] == before[t]
                            && self.records[position_of(
                            self.records,
                            before[t],
                        )].watched.is_none();
                    assert(bodies[k] == now[t]);
                } else {
                    assert(bodies[n - 1] == now[t]);
                }
            }
            assert forall|t: int, u: int| 0 <= t < u < now.len() implies now[t] != now[u] by {
                if u < before.len() {
                    assert(now[t] == before[t] && now[u] == before[u]);
                } else {
                    assert(now[t] == before[t]);
                    assert(self.is_movable(bodies, (n - 1) as nat, before[t]));
                    let k = choose|k: int|
                        0 <= k < n - 1 && #[trigger] bodies[k] == before[t]
                            && self.records[position_of(
                            self.records,
                            before[t],
                        )].watched.is_none();
                    assert(bodies[k] != bodies[n - 1]);
                }
            }
        }
    }

    /// The bodies that leave for a region are bodies of components that
    /// migrate there, each listed once.
    pub proof fn lemma_leaving_for(
        &self,
        components: Seq<ConnectedComponent>,
        region: SimulationBounds,
        n: nat,
    )
        requires
            n <= components.len(),
            components_disjoint(components),
        ensures
            forall|t: int|
                0 <= t < self.leaving_for(components, region, n).len() ==> self.leaves_for(
                    components,
                    region,
                    n,
                    #[trigger] self.leaving_for(components, region, n)[t],
                ),
            forall|t: int, u: int|
                0 <= t < u < self.leaving_for(components, region, n).len() ==> self.leaving_for(
                    components,
                    region,
                    n,
                )[t] != self.leaving_for(components, region, n)[u],
        decreases n,
    {
        if n > 0 {
            self.lemma_leaving_for(components, region, (n - 1) as nat);
            let before = self.leaving_for(components, region, (n - 1) as nat);
            let now = self.leaving_for(components, region, n);
            let bodies = components[n - 1].bodies@;
            let added = self.movable(bodies, bodies.len());
            assert forall|k: int, l: int| 0 <= k < l < bodies.len() implies bodies[k]
                != bodies[l] by {
                if components[n - 1].bodies@[k] == components[n - 1].bodies@[l] {
                    assert(k == l);
                }
            }
            self.lemma_movable(bodies, bodies.len());
            let joins = self.migrates(bodies) && self.elected(bodies) == region;
            assert forall|t: int| 0 <= t < now.len() implies self.leaves_for(
                components,
                region,
                n,
                #[trigger] now[t],
            ) by {
                if t < before.len() {
                    assert(now[t] == before[t]);
                    assert(self.leaves_for(components, region, (n - 1) as nat, before[t]));
                    let c = choose|c: int|
                        0 <= c < n - 1 && self.migrates(#[trigger] components[c].bodies@)
                            && self.elected(components[c].bodies@) == region && self.is_movable(
                            components[c].bodies@,
                            components[c].bodies@.len(),
                            before[t],
                        );
                    assert(self.migrates(components[c].bodies@));
                } else {
                    assert(joins);
                    assert(now[t] == added[t - before.len()]);
                    assert(self.is_movable(bodies, bodies.len(), added[t - before.len()]));
                    assert(self.migrates(components[n - 1].bodies@));
                }
            }
            assert forall|t: int, u: int| 0 <= t < u < now.len() implies now[t] != now[u] by {
                if u < before.len() {
                    assert(now[t] == before[t] && now[u] == before[u]);
                } else if t >= before.len() {
                    assert(now[t] == added[t - before.len()] && now[u] == added[u - before.len()]);
                } else {
                    assert(joins);
                    assert(now[t] == before[t]);
                    assert(now[u] == added[u - before.len()]);
                    assert(self.leaves_for(components, region, (n - 1) as nat, before[t]));
                    let c = choose|c: int|
                        0 <= c < n - 1 && self.migrates(#[trigger] components[c].bodies@)
                            && self.elected(components[c].bodies@) == region && self.is_movable(
                            components[c].bodies@,
                            components[c].bodies@.len(),
                            before[t],
                        );
                    let k = choose|k: int|
                        0 <= k < components[c].bodies@.len() && #[trigger] components[c].bodies@[k]
                            == before[t] && self.records[position_of(
                            self.records,
                            before[t],
                        )].watched.is_none();
                    assert(self.is_movable(bodies, bodies.len(), added[u - before.len()]));
                    let l = choose|l: int|
                        0 <= l < bodies.len() && #[trigger] bodies[l] == added[u - before.len()]
                            && self.records[position_of(
                            self.records,
                            added[u - before.len()],
                        )].watched.is_none();
                    if before[t] == added[u - before.len()] {
                        assert(components[c].bodies@[k] == components[n - 1].bodies@[l]);
                        assert(c == n - 1);
                    }
                }
            }
        }
    }
}

/// Whether each body that is listed to leave is a body of `records` that the
/// simulator owns, and is listed once.
pub open spec fn sends_owned_once(
    records: Seq<BodyRecord>,
    entries: Seq<(SimulationBounds, Vec<RigidBodyHandle>)>,
) -> bool {
    &&& forall|i: int, k: int|
        0 <= i < entries.len() && 0 <= k < entries[i].1@.len() ==> {
            let p = position_of(records, #[trigger] entries[i].1@[k]);
            &&& 0 <= p < records.len()
            &&& records[p].handle == entries[i].1@[k]
            &&& records[p].owned()
        }
    &&& forall|i: int, k: int, j: int, l: int|
        0 <= i < entries.len() && 0 <= k < entries[i].1@.len() && 0 <= j < entries.len() && 0 <= l
            < entries[j].1@.len() && #[trigger] entries[i].1@[k] == #[trigger] entries[j].1@[l]
            ==> i == j && k == l
}

/// After an election on disjoint components of dynamic bodies, each body
/// that leaves is owned by the simulator and leaves for one region only.
pub proof fn lemma_election_sends_owned_once(
    e: Election,
    components: Seq<ConnectedComponent>,
    assignments: &RegionAssignments,
)
    requires
        assignments_of(assignments, e, components),
        components_disjoint(components),
        components_dynamic(components, e.records),
    ensures
        sends_owned_once(e.records, assignments.bodies_to_reassign@),
{
    let entries = assignments.bodies_to_reassign@;
    let n = components.len();
    assert forall|i: int, k: int| 0 <= i < entries.len() && 0 <= k < entries[i].1@.len() implies {
        let p = position_of(e.records, #[trigger] entries[i].1@[k]);
        &&& 0 <= p < e.records.len()
        &&& e.records[p].handle == entries[i].1@[k]
        &&& e.records[p].owned()
    } by {
        let h = entries[i].1@[k];
        e.lemma_leaving_for(components, entries[i].0, n);
        assert(entries[i].1@ == e.leaving_for(components, entries[i].0, n));
        assert(e.leaves_for(components, entries[i].0, n, h));
        let c = choose|c: int|
            0 <= c < n && e.migrates(#[trigger] components[c].bodies@) && e.elected(
                components[c].bodies@,
            ) == entries[i].0 && e.is_movable(components[c].bodies@, components[c].bodies@.len(), h);
        let m = choose|m: int|
            0 <= m < components[c].bodies@.len() && #[trigger] components[c].bodies@[m] == h
                && e.records[position_of(e.records, h)].watched.is_none();
        assert(components[c].bodies@[m] == h);
    }
    assert forall|i: int, k: int, j: int, l: int|
        0 <= i < entries.len() && 0 <= k < entries[i].1@.len() && 0 <= j < entries.len() && 0 <= l
            < entries[j].1@.len() && #[trigger] entries[i].1@[k]
            == #[trigger] entries[j].1@[l] implies i == j && k == l by {
        let h = entries[i].1@[k];
        e.lemma_leaving_for(components, entries[i].0, n);
        e.lemma_leaving_for(components, entries[j].0, n);
        assert(entries[i].1@ == e.leaving_for(components, entries[i].0, n));
        assert(entries[j].1@ == e.leaving_for(components, entries[j].0, n));
        if i != j {
            assert(e.leaves_for(components, entries[i].0, n, h));
            assert(e.leaves_for(components, entries[j].0, n, h));
            let c = choose|c: int|
                0 <= c < n && e.migrates(#[trigger] components[c].bodies@) && e.elected(
                    components[c].bodies@,
                ) == entries[i].0 && e.is_movable(
                    components[c].bodies@,
                    components[c].bodies@.len(),
                    h,
                );
            let d = choose|d: int|
                0 <= d < n && e.migrates(#[trigger] components[d].bodies@) && e.elected(
                    components[d].bodies@,
                ) == entries[j].0 && e.is_movable(
                    components[d].bodies@,
                    components[d].bodies@.len(),
                    h,
                );
            let m = choose|m: int|
                0 <= m < components[c].bodies@.len() && #[trigger] components[c].bodies@[m] == h
                    && e.records[position_of(e.records, h)].watched.is_none();
            let o = choose|o: int|
                0 <= o < components[d].bodies@.len() && #[trigger] components[d].bodies@[o] == h
                    && e.records[position_of(e.records, h)].watched.is_none();
            assert(components[c].bodies@[m] == components[d].bodies@[o]);
            assert(c == d);
            if i < j {
                assert(entries[i].0 != entries[j].0);
            } else {
                assert(entries[j].0 != entries[i].0);
            }
        } else if k != l {
            if k < l {
                assert(entries[i].1@[k] != entries[i].1@[l]);
            } else {
                assert(entries[i].1@[l] != entries[i].1@[k]);
            }
        }
    }
}

/// The bodies that the simulator of `records` owns: those that move and that
/// it does not hold for a neighbour.
pub open spec fn owned_among(records: Seq<BodyRecord>) -> Set<u128> {
    Set::new(
        |uuid: u128|
            exists|i: int| 0 <= i < records.len() && (#[trigger] records[i]).uuid == uuid
                && records[i].owned(),
    )
}

/// The identifiers of the bodies that `message` hands over.
pub open spec fn island_uuids(message: RunnerMessage) -> Seq<u128> {
    match message {
        RunnerMessage::AssignIsland { bodies, .. } => bodies@.map_values(
            |b: BodyAssignment| b.uuid,
        ),
        _ => Seq::empty(),
    }
}

/// Whether the `k`-th body of the `m`-th of `islands` is the body `uuid`.
pub open spec fn carries_at(
    islands: Seq<(SimulationBounds, RunnerMessage)>,
    m: int,
    k: int,
    uuid: u128,
) -> bool {
    0 <= m < islands.len() && 0 <= k < island_uuids(islands[m].1).len() && island_uuids(
        islands[m].1,
    )[k] == uuid
}

/// The bodies that `islands` hand over.
pub open spec fn carried(islands: Seq<(SimulationBounds, RunnerMessage)>) -> Set<u128> {
    Set::new(|uuid: u128| exists|m: int, k: int| #[trigger] carries_at(islands, m, k, uuid))
}

/// Whether `islands` are the messages for the entries that list a body, in order.
pub open spec fn islands_of(
    islands: Seq<(SimulationBounds, RunnerMessage)>,
    records: Seq<BodyRecord>,
    reported: Seq<BodyState>,
    scene: SceneUuid,
    step_id: u64,
    entries: Seq<(SimulationBounds, Vec<RigidBodyHandle>)>,
) -> bool {
    &&& islands.len() == sending(entries, entries.len()).len()
    &&& forall|m: int|
        0 <= m < islands.len() ==> is_island_message(
            #[trigger] islands[m],
            scene,
            entries[sending(entries, entries.len())[m]].0,
            travelling_bodies(
                records,
                reported,
                step_id,
                entries[sending(entries, entries.len())[m]].1@,
            ),
        )
}

/// The entries for which a message is sent are those that list a body, in order.
pub proof fn lemma_sending(entries: Seq<(SimulationBounds, Vec<RigidBodyHandle>)>, n: nat)
    requires
        n <= entries.len(),
    ensures
        forall|m: int|
            0 <= m < sending(entries, n).len() ==> 0 <= #[trigger] sending(entries, n)[m] < n
                && entries[sending(entries, n)[m]].1@.len() > 0,
        forall|m: int, o: int|
            0 <= m < o < sending(entries, n).len() ==> sending(entries, n)[m] < sending(
                entries,
                n,
            )[o],
        forall|a: int|
            0 <= a < n && (#[trigger] entries[a]).1@.len() > 0 ==> sending(entries, n).contains(a),
    decreases n,
{
    if n > 0 {
        lemma_sending(entries, (n - 1) as nat);
        let before = sending(entries, (n - 1) as nat);
        let now = sending(entries, n);
        assert forall|a: int| 0 <= a < n && (#[trigger] entries[a]).1@.len() > 0
            implies now.contains(a) by {
            if a < n - 1 {
                assert(before.contains(a));
                let m = choose|m: int| 0 <= m < before.len() && before[m] == a;
                assert(now[m] == a);
            } else {
                assert(now[now.len() - 1] == a);
            }
        }
    }
}

/// A body is found where it stands.
pub proof fn lemma_position_of(records: Seq<BodyRecord>, i: int)
    requires
        0 <= i < records.len(),
        forall|a: int, b: int| 0 <= a < b < records.len() ==> records[a].handle != records[b].handle,
    ensures
        position_of(records, records[i].handle) == i,
{
    let p = position_of(records, records[i].handle);
    assert(0 <= p < records.len() && records[p].handle == records[i].handle);
    if p < i {
        assert(records[p].handle != records[i].handle);
    } else if i < p {
        assert(records[i].handle != records[p].handle);
    }
}

/// When bodies leave a simulator, each body that the simulator owned is
/// either still owned by it or handed over by exactly one message, once.
/// Nothing else is handed over, and nothing that is handed over stays.
pub proof fn lemma_handover(
    records: Seq<BodyRecord>,
    reported: Seq<BodyState>,
    scene: SceneUuid,
    step_id: u64,
    entries: Seq<(SimulationBounds, Vec<RigidBodyHandle>)>,
    islands: Seq<(SimulationBounds, RunnerMessage)>,
)
    requires
        forall|a: int, b: int|
            0 <= a < b < records.len() ==> records[a].handle != records[b].handle
                && records[a].uuid != records[b].uuid,
        sends_owned_once(records, entries),
        islands_of(islands, records, reported, scene, step_id, entries),
    ensures
        owned_among(kept_records(records, entries)).union(carried(islands)) == owned_among(records),
        owned_among(kept_records(records, entries)).disjoint(carried(islands)),
        forall|m: int, k: int, o: int, l: int, uuid: u128|
            #[trigger] carries_at(islands, m, k, uuid) && #[trigger] carries_at(islands, o, l, uuid)
                ==> m == o && k == l,
{
    let n = entries.len();
    let sent = sending(entries, n);
    let kept = kept_records(records, entries);
    let indices = kept_indices(records, entries, records.len());
    lemma_sending(entries, n);
    lemma_kept_indices(records, entries, records.len());
    // What a message carries is the body of a handle that is listed.
    assert forall|m: int, k: int, uuid: u128| #[trigger]
        carries_at(islands, m, k, uuid) implies 0 <= sent[m] < n && 0 <= k
        < entries[sent[m]].1@.len() && records[position_of(records, entries[sent[m]].1@[k])].uuid
        == uuid by {
        let a = sent[m];
        let expected = travelling_bodies(records, reported, step_id, entries[a].1@);
        assert(is_island_message(islands[m], scene, entries[a].0, expected));
        match islands[m].1 {
            RunnerMessage::AssignIsland { bodies, .. } => {
                assert(bodies_view(bodies@) == expected);
                assert(bodies_view(bodies@).len() == bodies@.len());
                assert(bodies_view(bodies@)[k].uuid == bodies@[k].uuid);
            },
            _ => {},
        }
    }
    assert forall|uuid: u128|
        owned_among(kept).union(carried(islands)).contains(uuid) == owned_among(records).contains(
            uuid,
        ) by {
        if owned_among(kept).contains(uuid) {
            let t = choose|t: int| 0 <= t < kept.len() && (#[trigger] kept[t]).uuid == uuid
                && kept[t].owned();
            assert(kept[t] == records[indices[t]]);
            assert(records[indices[t]].uuid == uuid);
        }
        if carried(islands).contains(uuid) {
            let (m, k) = choose|m: int, k: int| #[trigger] carries_at(islands, m, k, uuid);
            assert(carries_at(islands, m, k, uuid));
            let p = position_of(records, entries[sent[m]].1@[k]);
            assert(records[p].uuid == uuid && records[p].owned());
        }
        if owned_among(records).contains(uuid) {
            let i = choose|i: int| 0 <= i < records.len() && (#[trigger] records[i]).uuid == uuid
                && records[i].owned();
            if is_sent(entries, records[i].handle) {
                let (a, k) = choose|a: int, k: int|
                    0 <= a < entries.len() && 0 <= k < entries[a].1@.len()
                        && #[trigger] entries[a].1@[k] == records[i].handle;
                assert(entries[a].1@.len() > 0);
                assert(sent.contains(a));
                let m = choose|m: int| 0 <= m < sent.len() && sent[m] == a;
                let expected = travelling_bodies(records, reported, step_id, entries[a].1@);
                assert(is_island_message(islands[m], scene, entries[a].0, expected));
                lemma_position_of(records, i);
                match islands[m].1 {
                    RunnerMessage::AssignIsland { bodies, .. } => {
                        assert(bodies_view(bodies@) == expected);
                        assert(bodies_view(bodies@).len() == bodies@.len());
                        assert(bodies_view(bodies@)[k].uuid == bodies@[k].uuid);
                        assert(carries_at(islands, m, k, uuid));
                    },
                    _ => {},
                }
                assert(carried(islands).contains(uuid));
            } else {
                assert(indices.contains(i));
                let t = choose|t: int| 0 <= t < indices.len() && indices[t] == i;
                assert(kept[t] == records[i]);
                assert(owned_among(kept).contains(uuid));
            }
        }
    }
    assert(owned_among(kept).union(carried(islands)) =~= owned_among(records));
    assert forall|uuid: u128|
        !(owned_among(kept).contains(uuid) && carried(islands).contains(uuid)) by {
        if owned_among(kept).contains(uuid) && carried(islands).contains(uuid) {
            let t = choose|t: int| 0 <= t < kept.len() && (#[trigger] kept[t]).uuid == uuid
                && kept[t].owned();
            let i = indices[t];
            assert(kept[t] == records[i]);
            let (m, k) = choose|m: int, k: int| #[trigger] carries_at(islands, m, k, uuid);
            assert(carries_at(islands, m, k, uuid));
            let h = entries[sent[m]].1@[k];
            let p = position_of(records, h);
            assert(records[p].uuid == records[i].uuid);
            if p < i {
                assert(records[p].uuid != records[i].uuid);
            } else if i < p {
                assert(records[i].uuid != records[p].uuid);
            }
            assert(is_sent(entries, records[i].handle));
        }
    }
    assert forall|m: int, k: int, o: int, l: int, uuid: u128|
        #[trigger] carries_at(islands, m, k, uuid) && #[trigger] carries_at(
            islands,
            o,
            l,
            uuid,
        ) implies m == o && k == l by {
        let h1 = entries[sent[m]].1@[k];
        let h2 = entries[sent[o]].1@[l];
        let p = position_of(records, h1);
        let q = position_of(records, h2);
        assert(records[p].uuid == uuid && records[q].uuid == uuid);
        if p < q {
            assert(records[p].uuid != records[q].uuid);
        } else if q < p {
            assert(records[q].uuid != records[p].uuid);
        }
        assert(h1 == h2);
        assert(sent[m] == sent[o] && k == l);
        if m < o {
            assert(sent[m] < sent[o]);
        } else if o < m {
            assert(sent[o] < sent[m]);
        }
    }
}

impl Election {
    /// A body leaves with the first `n` components exactly if it leaves for
    /// the region that one of them is elected to.
    pub proof fn lemma_leaving(
        &self,
        components: Seq<ConnectedComponent>,
        n: nat,
        handle: RigidBodyHandle,
    )
        requires
            n <= components.len(),
        ensures
            self.leaving(components, n).contains(handle) <==> exists|c: int|
                0 <= c < n && self.migrates(#[trigger] components[c].bodies@) && self.movable(
                    components[c].bodies@,
                    components[c].bodies@.len(),
                ).contains(handle),
        decreases n,
    {
        if n > 0 {
            self.lemma_leaving(components, (n - 1) as nat, handle);
            let before = self.leaving(components, (n - 1) as nat);
            let now = self.leaving(components, n);
            let bodies = components[n - 1].bodies@;
            let added = self.movable(bodies, bodies.len());
            if self.migrates(bodies) {
                assert(now == before + added);
                if before.contains(handle) {
                    let t = choose|t: int| 0 <= t < before.len() && before[t] == handle;
                    assert(now[t] == handle);
                }
                if added.contains(handle) {
                    let t = choose|t: int| 0 <= t < added.len() && added[t] == handle;
                    assert(now[before.len() + t] == handle);
                    assert(self.migrates(components[n - 1].bodies@));
                }
                if now.contains(handle) {
                    let t = choose|t: int| 0 <= t < now.len() && now[t] == handle;
                    if t < before.len() {
                        assert(before[t] == handle);
                    } else {
                        assert(added[t - before.len()] == handle);
                        assert(self.migrates(components[n - 1].bodies@));
                    }
                }
            }
            if exists|c: int|
                0 <= c < n && self.migrates(#[trigger] components[c].bodies@) && self.movable(
                    components[c].bodies@,
                    components[c].bodies@.len(),
                ).contains(handle) {
                let c = choose|c: int|
                    0 <= c < n && self.migrates(#[trigger] components[c].bodies@) && self.movable(
                        components[c].bodies@,
                        components[c].bodies@.len(),
                    ).contains(handle);
                if c < n - 1 {
                    assert(self.migrates(components[c].bodies@));
                }
            }
            if before.contains(handle) {
                let c = choose|c: int|
                    0 <= c < n - 1 && self.migrates(#[trigger] components[c].bodies@)
                        && self.movable(
                        components[c].bodies@,
                        components[c].bodies@.len(),
                    ).contains(handle);
                assert(self.migrates(components[c].bodies@));
            }
        }
    }

    /// A body leaves for `region` with the first `n` components exactly if
    /// one of them migrates there and can send the body away.
    pub proof fn lemma_leaving_for_contains(
        &self,
        components: Seq<ConnectedComponent>,
        region: SimulationBounds,
        n: nat,
        handle: RigidBodyHandle,
    )
        requires
            n <= components.len(),
        ensures
            self.leaving_for(components, region, n).contains(handle) <==> exists|c: int|
                0 <= c < n && self.migrates(#[trigger] components[c].bodies@) && self.elected(
                    components[c].bodies@,
                ) == region && self.movable(
                    components[c].bodies@,
                    components[c].bodies@.len(),
                ).contains(handle),
        decreases n,
    {
        if n > 0 {
            self.lemma_leaving_for_contains(components, region, (n - 1) as nat, handle);
            let before = self.leaving_for(components, region, (n - 1) as nat);
            let now = self.leaving_for(components, region, n);
            let bodies = components[n - 1].bodies@;
            let added = self.movable(bodies, bodies.len());
            if self.migrates(bodies) && self.elected(bodies) == region {
                assert(now == before + added);
                if before.contains(handle) {
                    let t = choose|t: int| 0 <= t < before.len() && before[t] == handle;
                    assert(now[t] == handle);
                }
                if added.contains(handle) {
                    let t = choose|t: int| 0 <= t < added.len() && added[t] == handle;
                    assert(now[before.len() + t] == handle);
                    assert(self.migrates(components[n - 1].bodies@));
                }
                if now.contains(handle) {
                    let t = choose|t: int| 0 <= t < now.len() && now[t] == handle;
                    if t < before.len() {
                        assert(before[t] == handle);
                    } else {
                        assert(added[t - before.len()] == handle);
                        assert(self.migrates(components[n - 1].bodies@));
                    }
                }
            }
            if exists|c: int|
                0 <= c < n && self.migrates(#[trigger] components[c].bodies@) && self.elected(
                    components[c].bodies@,
                ) == region && self.movable(
                    components[c].bodies@,
                    components[c].bodies@.len(),
                ).contains(handle) {
                let c = choose|c: int|
                    0 <= c < n && self.migrates(#[trigger] components[c].bodies@) && self.elected(
                        components[c].bodies@,
                    ) == region && self.movable(
                        components[c].bodies@,
                        components[c].bodies@.len(),
                    ).contains(handle);
                if c < n - 1 {
                    assert(self.migrates(components[c].bodies@));
                }
            }
            if before.contains(handle) {
                let c = choose|c: int|
                    0 <= c < n - 1 && self.migrates(#[trigger] components[c].bodies@)
                        && self.elected(components[c].bodies@) == region && self.movable(
                        components[c].bodies@,
                        components[c].bodies@.len(),
                    ).contains(handle);
                assert(self.migrates(components[c].bodies@));
            }
        }
    }
}

/// The bodies that are listed as leaving are those that are listed to leave
/// for some region.
pub proof fn lemma_reassigned_are_sent(
    e: Election,
    components: Seq<ConnectedComponent>,
    assignments: &RegionAssignments,
    handle: RigidBodyHandle,
)
    requires
        assignments_of(assignments, e, components),
    ensures
        assignments.reassigned_bodies@.contains(handle) <==> is_sent(
            assignments.bodies_to_reassign@,
            handle,
        ),
{
    let entries = assignments.bodies_to_reassign@;
    let n = components.len();
    e.lemma_leaving(components, n, handle);
    if assignments.reassigned_bodies@.contains(handle) {
        let c = choose|c: int|
            0 <= c < n && e.migrates(#[trigger] components[c].bodies@) && e.movable(
                components[c].bodies@,
                components[c].bodies@.len(),
            ).contains(handle);
        let region = e.elected(components[c].bodies@);
        assert(is_listed(entries, region));
        let i = choose|i: int| 0 <= i < entries.len() && (#[trigger] entries[i]).0 == region;
        e.lemma_leaving_for_contains(components, region, n, handle);
        assert(entries[i].1@ == e.leaving_for(components, region, n));
        assert(entries[i].1@.contains(handle));
        let k = choose|k: int| 0 <= k < entries[i].1@.len() && entries[i].1@[k] == handle;
        assert(entries[i].1@[k] == handle);
    }
    if is_sent(entries, handle) {
        let (i, k) = choose|i: int, k: int|
            0 <= i < entries.len() && 0 <= k < entries[i].1@.len() && #[trigger] entries[i].1@[k]
                == handle;
        assert(entries[i].1@ == e.leaving_for(components, entries[i].0, n));
        assert(e.leaving_for(components, entries[i].0, n).contains(handle));
        e.lemma_leaving_for_contains(components, entries[i].0, n, handle);
        let c = choose|c: int|
            0 <= c < n && e.migrates(#[trigger] components[c].bodies@) && e.elected(
                components[c].bodies@,
            ) == entries[i].0 && e.movable(
                components[c].bodies@,
                components[c].bodies@.len(),
            ).contains(handle);
        assert(e.migrates(components[c].bodies@));
    }
}

/// The bodies that wait to enter the physics engine of a simulator and that
/// forces move.
pub open spec fn waiting(pending: Seq<BodyAssignment>) -> Set<u128> {
    Set::new(
        |uuid: u128|
            exists|i: int|
                0 <= i < pending.len() && (#[trigger] pending[i]).uuid == uuid
                    && pending[i].cold.body_type == RigidBodyType::Dynamic,
    )
}

/// The bodies that a simulator holds: those that it owns in its physics
/// engine and those that wait to enter it.
pub open spec fn held(records: Seq<BodyRecord>, pending: Seq<BodyAssignment>) -> Set<u128> {
    owned_among(records).union(waiting(pending))
}

/// The bodies that wait once more bodies have arrived are those that waited
/// and those that arrived.
pub proof fn lemma_waiting_grows(pending: Seq<BodyAssignment>, arrived: Seq<BodyAssignment>)
    ensures
        waiting(pending + arrived) == waiting(pending).union(waiting(arrived)),
{
    let all = pending + arrived;
    assert forall|uuid: u128|
        waiting(all).contains(uuid) == waiting(pending).union(waiting(arrived)).contains(uuid) by {
        if waiting(all).contains(uuid) {
            let i = choose|i: int|
                0 <= i < all.len() && (#[trigger] all[i]).uuid == uuid && all[i].cold.body_type
                    == RigidBodyType::Dynamic;
            if i < pending.len() {
                assert(pending[i] == all[i]);
            } else {
                assert(arrived[i - pending.len()] == all[i]);
            }
        }
        if waiting(pending).contains(uuid) {
            let i = choose|i: int|
                0 <= i < pending.len() && (#[trigger] pending[i]).uuid == uuid
                    && pending[i].cold.body_type == RigidBodyType::Dynamic;
            assert(all[i] == pending[i]);
        }
        if waiting(arrived).contains(uuid) {
            let i = choose|i: int|
                0 <= i < arrived.len() && (#[trigger] arrived[i]).uuid == uuid
                    && arrived[i].cold.body_type == RigidBodyType::Dynamic;
            assert(all[pending.len() + i] == arrived[i]);
        }
    }
    assert(waiting(all) =~= waiting(pending).union(waiting(arrived)));
}

/// When a body enters the physics engine, the simulator owns it from then on
/// if forces move it, and owns what it owned of the other bodies.
pub proof fn lemma_insert_owned(records: Seq<BodyRecord>, record: BodyRecord)
    requires
        forall|a: int, b: int| 0 <= a < b < records.len() ==> records[a].uuid != records[b].uuid,
    ensures
        owned_among(after_insert(records, record)) == if record.owned() {
            owned_among(records).insert(record.uuid)
        } else {
            owned_among(records).remove(record.uuid)
        },
{
    let after = after_insert(records, record);
    let expected = if record.owned() {
        owned_among(records).insert(record.uuid)
    } else {
        owned_among(records).remove(record.uuid)
    };
    assert forall|uuid: u128| owned_among(after).contains(uuid) == expected.contains(uuid) by {
        if owned_among(after).contains(uuid) {
            let q = choose|q: int| 0 <= q < after.len() && (#[trigger] after[q]).uuid == uuid
                && after[q].owned();
            if q < after.len() - 1 {
                if has_uuid_among(records, record.uuid) {
                    let at = index_of_uuid(records, record.uuid);
                    let o = if q < at { q } else { q + 1 };
                    assert(after[q] == records[o]);
                    if o < at {
                        assert(records[o].uuid != records[at].uuid);
                    } else {
                        assert(records[at].uuid != records[o].uuid);
                    }
                } else {
                    assert(after[q] == records[q]);
                }
            }
        }
        if uuid != record.uuid && owned_among(records).contains(uuid) {
            let p = choose|p: int| 0 <= p < records.len() && (#[trigger] records[p]).uuid == uuid
                && records[p].owned();
            crate::runner::runner::lemma_insert_keeps_others(records, record, p);
            let t = choose|t: int| 0 <= t < after.len() && after[t] == records[p];
            assert(after[t].uuid == uuid && after[t].owned());
        }
        if uuid == record.uuid && record.owned() {
            assert(after[after.len() - 1] == record);
        }
        if uuid == record.uuid && !record.owned() && owned_among(after).contains(uuid) {
            let q = choose|q: int| 0 <= q < after.len() && (#[trigger] after[q]).uuid == uuid
                && after[q].owned();
            assert(q < after.len() - 1);
        }
    }
    assert(owned_among(after) =~= expected);
}

/// Whether no body is held by two of the simulators.
pub open spec fn single_owner(holders: Seq<Set<u128>>) -> bool {
    forall|i: int, j: int|
        0 <= i < j < holders.len() ==> (#[trigger] holders[i]).disjoint(#[trigger] holders[j])
}

/// Whether one of the simulators holds the body.
pub open spec fn is_held(holders: Seq<Set<u128>>, uuid: u128) -> bool {
    exists|i: int| 0 <= i < holders.len() && (#[trigger] holders[i]).contains(uuid)
}

/// Whether `after` is what the simulators hold once the simulator `from`
/// has handed the bodies `moved[j]` over to each other simulator `j`: it
/// hands over bodies that it holds, each to one simulator, and keeps the rest.
pub open spec fn handed_over(
    before: Seq<Set<u128>>,
    after: Seq<Set<u128>>,
    from: int,
    moved: Seq<Set<u128>>,
) -> bool {
    &&& after.len() == before.len()
    &&& moved.len() == before.len()
    &&& 0 <= from < before.len()
    &&& forall|uuid: u128| !moved[from].contains(uuid)
    &&& forall|j: int| 0 <= j < moved.len() ==> (#[trigger] moved[j]).subset_of(before[from])
    &&& forall|j: int, k: int|
        0 <= j < k < moved.len() ==> (#[trigger] moved[j]).disjoint(#[trigger] moved[k])
    &&& forall|uuid: u128|
        after[from].contains(uuid) <==> before[from].contains(uuid) && forall|j: int|
            0 <= j < moved.len() ==> !(#[trigger] moved[j]).contains(uuid)
    &&& forall|j: int|
        0 <= j < before.len() && j != from ==> #[trigger] after[j] == before[j].union(moved[j])
}

/// Where no body is held by two simulators, none is once a simulator has
/// handed bodies over to others; and each body that was held by a simulator
/// still is, and no other.
pub proof fn lemma_handover_keeps_single_owner(
    before: Seq<Set<u128>>,
    after: Seq<Set<u128>>,
    from: int,
    moved: Seq<Set<u128>>,
)
    requires
        single_owner(before),
        handed_over(before, after, from, moved),
    ensures
        single_owner(after),
        forall|uuid: u128| is_held(before, uuid) <==> is_held(after, uuid),
{
    assert forall|i: int, j: int| 0 <= i < j < after.len() implies (#[trigger] after[i]).disjoint(
        #[trigger] after[j],
    ) by {
        assert forall|uuid: u128| !(after[i].contains(uuid) && after[j].contains(uuid)) by {
            if after[i].contains(uuid) && after[j].contains(uuid) {
                assert(before[i].disjoint(before[j]));
                if i == from {
                    assert(after[j] == before[j].union(moved[j]));
                    assert(before[from].contains(uuid));
                    assert(!moved[j].contains(uuid));
                } else if j == from {
                    assert(after[i] == before[i].union(moved[i]));
                    assert(before[from].contains(uuid));
                    assert(!moved[i].contains(uuid));
                } else {
                    assert(after[i] == before[i].union(moved[i]));
                    assert(after[j] == before[j].union(moved[j]));
                    assert(moved[i].disjoint(moved[j]));
                    if moved[i].contains(uuid) {
                        assert(before[from].contains(uuid));
                        if from < j {
                            assert(before[from].disjoint(before[j]));
                        } else {
                            assert(before[j].disjoint(before[from]));
                        }
                    }
                    if moved[j].contains(uuid) {
                        assert(before[from].contains(uuid));
                        if from < i {
                            assert(before[from].disjoint(before[i]));
                        } else {
                            assert(before[i].disjoint(before[from]));
                        }
                    }
                }
            }
        }
    }
    assert forall|uuid: u128| is_held(before, uuid) <==> is_held(after, uuid) by {
        if is_held(before, uuid) {
            let i = choose|i: int| 0 <= i < before.len() && (#[trigger] before[i]).contains(uuid);
            if i != from {
                assert(after[i] == before[i].union(moved[i]));
                assert(after[i].contains(uuid));
            } else if exists|j: int| 0 <= j < moved.len() && (#[trigger] moved[j]).contains(uuid) {
                let j = choose|j: int| 0 <= j < moved.len() && (#[trigger] moved[j]).contains(uuid);
                assert(j != from);
                assert(after[j] == before[j].union(moved[j]));
                assert(after[j].contains(uuid));
            } else {
                assert(after[from].contains(uuid));
            }
        }
        if is_held(after, uuid) {
            let i = choose|i: int| 0 <= i < after.len() && (#[trigger] after[i]).contains(uuid);
            if i != from {
                assert(after[i] == before[i].union(moved[i]));
                if moved[i].contains(uuid) {
                    assert(before[from].contains(uuid));
                } else {
                    assert(before[i].contains(uuid));
                }
            } else {
                assert(before[from].contains(uuid));
            }
        }
    }
}

} // verus!
