//! What holds of the bodies that arrive at a simulator: none is lost between
//! the list of those that wait and the physics engine, and of each body that
//! has entered, the simulator remembers one instance, the one that came last.

use crate::api_types::messages::BodyAssignment;
use crate::runner::physics::RigidBodyHandle;
use crate::runner::runner::{
    after_insert, due_assignments, future_assignments, has_uuid_among, index_of_uuid,
    lemma_insert_keeps_others, BodyRecord,
};
use crate::runner::step::{adopted, fresh_record};
use vstd::prelude::*;

verus! {

/// Whether no two of `records` are the same body.
pub open spec fn uuids_distinct(records: Seq<BodyRecord>) -> bool {
    forall|a: int, b: int| 0 <= a < b < records.len() ==> records[a].uuid != records[b].uuid
}

/// A body that waits is due or waits on: it is not lost when the bodies that
/// are due are taken out of the list.
pub proof fn lemma_due_or_waiting(pending: Seq<BodyAssignment>, step_id: u64, i: int)
    requires
        0 <= i < pending.len(),
    ensures
        pending[i].warm.timestamp <= step_id ==> due_assignments(pending, step_id).contains(
            pending[i],
        ),
        pending[i].warm.timestamp > step_id ==> future_assignments(pending, step_id).contains(
            pending[i],
        ),
    decreases pending.len(),
{
    let due = due_assignments(pending, step_id);
    let future = future_assignments(pending, step_id);
    if i == pending.len() - 1 {
        if pending[i].warm.timestamp <= step_id {
            assert(due[due.len() - 1] == pending[i]);
        } else {
            assert(future[future.len() - 1] == pending[i]);
        }
    } else {
        let rest = pending.drop_last();
        lemma_due_or_waiting(rest, step_id, i);
        assert(rest[i] == pending[i]);
        if pending[i].warm.timestamp <= step_id {
            let before = due_assignments(rest, step_id);
            let t = choose|t: int| 0 <= t < before.len() && before[t] == pending[i];
            assert(due[t] == pending[i]);
        } else {
            let before = future_assignments(rest, step_id);
            let t = choose|t: int| 0 <= t < before.len() && before[t] == pending[i];
            assert(future[t] == pending[i]);
        }
    }
}

/// When a body enters, there is still one instance of each body.
pub proof fn lemma_insert_distinct(records: Seq<BodyRecord>, record: BodyRecord)
    requires
        uuids_distinct(records),
    ensures
        uuids_distinct(after_insert(records, record)),
{
    let after = after_insert(records, record);
    assert forall|a: int, b: int| 0 <= a < b < after.len() implies after[a].uuid
        != after[b].uuid by {
        if has_uuid_among(records, record.uuid) {
            let at = index_of_uuid(records, record.uuid);
            let oa = if a < at { a } else { a + 1 };
            assert(after[a] == records[oa]);
            if b < after.len() - 1 {
                let ob = if b < at { b } else { b + 1 };
                assert(after[b] == records[ob]);
            } else if oa < at {
                assert(records[oa].uuid != records[at].uuid);
            } else {
                assert(records[at].uuid != records[oa].uuid);
            }
        } else {
            assert(after[a] == records[a]);
            if b < after.len() - 1 {
                assert(after[b] == records[b]);
            }
        }
    }
}

/// However many bodies have entered, there is one instance of each body.
pub proof fn lemma_adopted_distinct(
    records: Seq<BodyRecord>,
    due: Seq<BodyAssignment>,
    handles: Seq<RigidBodyHandle>,
    n: nat,
)
    requires
        uuids_distinct(records),
    ensures
        uuids_distinct(adopted(records, due, handles, n)),
    decreases n,
{
    if n > 0 {
        lemma_adopted_distinct(records, due, handles, (n - 1) as nat);
        lemma_insert_distinct(
            adopted(records, due, handles, (n - 1) as nat),
            fresh_record(due[n - 1], handles[n - 1]),
        );
    }
}

/// Of a body that has entered several times, the instance that came last is
/// the one that the simulator has: the body is remembered once, under the
/// handle that the last instance entered with.
pub proof fn lemma_last_arrival_wins(
    records: Seq<BodyRecord>,
    due: Seq<BodyAssignment>,
    handles: Seq<RigidBodyHandle>,
    n: nat,
    i: int,
)
    requires
        uuids_distinct(records),
        0 <= i < n <= due.len(),
        handles.len() == due.len(),
        forall|j: int| i < j < n ==> (#[trigger] due[j]).uuid != due[i].uuid,
    ensures
        uuids_distinct(adopted(records, due, handles, n)),
        adopted(records, due, handles, n).contains(fresh_record(due[i], handles[i])),
        forall|q: int|
            0 <= q < adopted(records, due, handles, n).len() && (#[trigger] adopted(
                records,
                due,
                handles,
                n,
            )[q]).uuid == due[i].uuid ==> adopted(records, due, handles, n)[q] == fresh_record(
                due[i],
                handles[i],
            ),
    decreases n,
{
    let before = adopted(records, due, handles, (n - 1) as nat);
    let after = adopted(records, due, handles, n);
    let mine = fresh_record(due[i], handles[i]);
    lemma_adopted_distinct(records, due, handles, n);
    if i == n - 1 {
        assert(after[after.len() - 1] == mine);
    } else {
        lemma_last_arrival_wins(records, due, handles, (n - 1) as nat, i);
        let t = choose|t: int| 0 <= t < before.len() && before[t] == mine;
        assert(due[n - 1].uuid != due[i].uuid);
        lemma_insert_keeps_others(before, fresh_record(due[n - 1], handles[n - 1]), t);
    }
    let at = choose|at: int| 0 <= at < after.len() && after[at] == mine;
    assert forall|q: int| 0 <= q < after.len() && (#[trigger] after[q]).uuid
        == due[i].uuid implies after[q] == mine by {
        if q < at {
            assert(after[q].uuid != after[at].uuid);
        } else if at < q {
            assert(after[at].uuid != after[q].uuid);
        }
    }
}

/// A body of the simulator stays as it is while no instance of it enters.
pub proof fn lemma_others_stay(
    records: Seq<BodyRecord>,
    due: Seq<BodyAssignment>,
    handles: Seq<RigidBodyHandle>,
    n: nat,
    q: int,
)
    requires
        0 <= q < records.len(),
        n <= due.len(),
        forall|j: int| 0 <= j < n ==> (#[trigger] due[j]).uuid != records[q].uuid,
    ensures
        adopted(records, due, handles, n).contains(records[q]),
    decreases n,
{
    if n == 0 {
        assert(adopted(records, due, handles, n)[q] == records[q]);
    } else {
        let before = adopted(records, due, handles, (n - 1) as nat);
        lemma_others_stay(records, due, handles, (n - 1) as nat, q);
        let t = choose|t: int| 0 <= t < before.len() && before[t] == records[q];
        assert(due[n - 1].uuid != records[q].uuid);
        lemma_insert_keeps_others(before, fresh_record(due[n - 1], handles[n - 1]), t);
    }
}

/// Each body that has entered is a body of the simulator.
pub proof fn lemma_arrived_is_held(
    records: Seq<BodyRecord>,
    due: Seq<BodyAssignment>,
    handles: Seq<RigidBodyHandle>,
    n: nat,
    i: int,
)
    requires
        0 <= i < n <= due.len(),
    ensures
        has_uuid_among(adopted(records, due, handles, n), due[i].uuid),
    decreases n,
{
    let before = adopted(records, due, handles, (n - 1) as nat);
    let after = adopted(records, due, handles, n);
    let last = fresh_record(due[n - 1], handles[n - 1]);
    if due[n - 1].uuid == due[i].uuid {
        assert(after[after.len() - 1] == last);
    } else {
        lemma_arrived_is_held(records, due, handles, (n - 1) as nat, i);
        let p = choose|p: int| 0 <= p < before.len() && (#[trigger] before[p]).uuid == due[i].uuid;
        lemma_insert_keeps_others(before, last, p);
        let t = choose|t: int| 0 <= t < after.len() && after[t] == before[p];
        assert(after[t].uuid == due[i].uuid);
    }
}

/// Where the last instance of the body `uuid` stands among the first `n` of `due`.
pub proof fn lemma_last_instance(due: Seq<BodyAssignment>, uuid: u128, n: nat) -> (t: int)
    requires
        n <= due.len(),
        exists|j: int| 0 <= j < n && (#[trigger] due[j]).uuid == uuid,
    ensures
        0 <= t < n,
        due[t].uuid == uuid,
        forall|j: int| t < j < n ==> (#[trigger] due[j]).uuid != uuid,
    decreases n,
{
    if due[n - 1].uuid == uuid {
        n - 1
    } else {
        let j = choose|j: int| 0 <= j < n && (#[trigger] due[j]).uuid == uuid;
        assert(j < n - 1);
        lemma_last_instance(due, uuid, (n - 1) as nat)
    }
}

/// A body that waits and is due is in the physics engine once the bodies
/// that are due have entered it, and it is there once: the simulator has one
/// body of that identifier, under the handle that an instance of the body
/// entered with, the last of them.
pub proof fn lemma_due_body_is_live_once(
    records: Seq<BodyRecord>,
    pending: Seq<BodyAssignment>,
    handles: Seq<RigidBodyHandle>,
    step_id: u64,
    i: int,
) -> (t: int)
    requires
        uuids_distinct(records),
        0 <= i < pending.len(),
        pending[i].warm.timestamp <= step_id,
        handles.len() == due_assignments(pending, step_id).len(),
    ensures
        ({
            let due = due_assignments(pending, step_id);
            let after = adopted(records, due, handles, due.len());
            &&& 0 <= t < due.len()
            &&& due[t].uuid == pending[i].uuid
            &&& forall|j: int| t < j < due.len() ==> (#[trigger] due[j]).uuid != pending[i].uuid
            &&& uuids_distinct(after)
            &&& after.contains(fresh_record(due[t], handles[t]))
            &&& forall|q: int|
                0 <= q < after.len() && (#[trigger] after[q]).uuid == pending[i].uuid ==> after[q]
                    == fresh_record(due[t], handles[t])
        }),
{
    let due = due_assignments(pending, step_id);
    lemma_due_or_waiting(pending, step_id, i);
    let first = choose|a: int| 0 <= a < due.len() && due[a] == pending[i];
    assert(due[first].uuid == pending[i].uuid);
    let t = lemma_last_instance(due, pending[i].uuid, due.len());
    lemma_last_arrival_wins(records, due, handles, due.len(), t);
    t
}

/// No body is lost on arrival. Of the bodies that wait at a simulator when
/// a step begins, each one either waits on, because it comes from the
/// future, or is a body of the simulator once those that are due have
/// entered the physics engine.
pub proof fn lemma_arrival_loses_nothing(
    records: Seq<BodyRecord>,
    pending: Seq<BodyAssignment>,
    handles: Seq<RigidBodyHandle>,
    step_id: u64,
    i: int,
)
    requires
        0 <= i < pending.len(),
    ensures
        future_assignments(pending, step_id).contains(pending[i]) || has_uuid_among(
            adopted(
                records,
                due_assignments(pending, step_id),
                handles,
                due_assignments(pending, step_id).len(),
            ),
            pending[i].uuid,
        ),
{
    let due = due_assignments(pending, step_id);
    lemma_due_or_waiting(pending, step_id, i);
    if pending[i].warm.timestamp <= step_id {
        let t = choose|t: int| 0 <= t < due.len() && due[t] == pending[i];
        lemma_arrived_is_held(records, due, handles, due.len(), t);
    }
}

} // verus!
