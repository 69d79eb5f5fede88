//! Watch sets: what a region publishes of the bodies near its border, and
//! what it reads of its neighbours.

use crate::api_types::objects::{RigidBodyType, WatchedObjects};
use crate::api_types::simulation::{region_lt, SimulationBounds};
use crate::geometry::Aabb;
use crate::runner::neighbors::{NeighborRunner, Neighbors};
use crate::runner::physics::{BodyState, RigidBodyHandle};
use crate::runner::region_assignment::RegionAssignments;
use crate::runner::runner::{BodyRecord, SimulationState};
use vstd::prelude::*;

verus! {

broadcast use vstd::array::group_array_axioms;

/// A body that a simulator holds for another region, which watches it.
#[derive(Copy, Clone, Debug)]
pub struct WatchedObject {
    pub region: SimulationBounds,
    pub watch_iteration_id: usize,
}

impl WatchedObject {
    pub fn new(region: SimulationBounds, watch_iteration_id: usize) -> (r: Self)
        ensures
            r.region == region,
            r.watch_iteration_id == watch_iteration_id,
    {
        Self { region, watch_iteration_id }
    }
}

/// A neighbour whose watch set a simulator reads.
#[derive(Copy, Clone, Debug)]
pub enum WatchedNeighbor {
    /// The neighbour runs in the same worker.
    Local { bounds: SimulationBounds },
    /// The neighbour runs in the worker `uuid`.
    Remote { uuid: u128, bounds: SimulationBounds },
}

pub type WatchedNeighbors = [WatchedNeighbor; 3];

/// The shift to the neighbour that lies one region up the axis `axis`.
pub open spec fn axis_shift(axis: int) -> [i64; 3] {
    if axis == 0 {
        [1i64, 0i64, 0i64]
    } else if axis == 1 {
        [0i64, 1i64, 0i64]
    } else {
        [0i64, 0i64, 1i64]
    }
}

/// The three regions whose watch sets the simulator of `bounds` reads before
/// it decides on migrations: the neighbours one region up each axis. Each
/// comes after `bounds` in the order of regions, so that of two regions that
/// share a face exactly one reads the other.
pub fn watched_regions(bounds: &SimulationBounds) -> (r: [SimulationBounds; 3])
    requires
        bounds.bounded(),
    ensures
        forall|i: int| 0 <= i < 3 ==> #[trigger] r[i] == bounds.shifted(axis_shift(i)),
        bounds.has_volume() ==> forall|i: int| 0 <= i < 3 ==> region_lt(*bounds, #[trigger] r[i]),
{
    let sx: [i64; 3] = [1, 0, 0];
    let sy: [i64; 3] = [0, 1, 0];
    let sz: [i64; 3] = [0, 0, 1];
    proof {
        bounds.lemma_unit_shifts_fit();
        assert(forall|k: int| 0 <= k < 3 ==> -1 <= #[trigger] sx[k] <= 1);
        assert(forall|k: int| 0 <= k < 3 ==> -1 <= #[trigger] sy[k] <= 1);
        assert(forall|k: int| 0 <= k < 3 ==> -1 <= #[trigger] sz[k] <= 1);
        assert(bounds.shift_fits(sx) && bounds.shift_fits(sy) && bounds.shift_fits(sz));
        assert(axis_shift(0) =~= sx);
        assert(axis_shift(1) =~= sy);
        assert(axis_shift(2) =~= sz);
    }
    let r = [
        bounds.relative_neighbor(sx),
        bounds.relative_neighbor(sy),
        bounds.relative_neighbor(sz),
    ];
    proof {
        if bounds.has_volume() {
            assert(bounds.mins[0] < bounds.maxs[0] && bounds.mins[1] < bounds.maxs[1]
                && bounds.mins[2] < bounds.maxs[2]);
            assert(bounds.shift_fits(sx));
            assert(i64::MIN <= bounds.extent(0) <= i64::MAX);
            assert(i64::MIN <= bounds.extent(1) <= i64::MAX);
            assert(i64::MIN <= bounds.extent(2) <= i64::MAX);
            assert(region_lt(*bounds, r[0]));
            assert(region_lt(*bounds, r[1]));
            assert(region_lt(*bounds, r[2]));
        }
    }
    r
}

/// How the watch set of `bounds` is read, given how its simulator is reached.
pub open spec fn watched_as(bounds: SimulationBounds, runner: NeighborRunner) -> WatchedNeighbor {
    match runner {
        NeighborRunner::Local => WatchedNeighbor::Local { bounds },
        NeighborRunner::Remote { uuid } => WatchedNeighbor::Remote { uuid, bounds },
    }
}

/// Whether `watched` is how the watch set of `bounds` is read, as far as `neighbors` tells.
pub open spec fn reads_as(
    neighbors: &Neighbors,
    bounds: SimulationBounds,
    watched: WatchedNeighbor,
) -> bool {
    exists|runner: NeighborRunner| #[trigger]
        neighbors.reaches(bounds, runner) && watched == watched_as(bounds, runner)
}

/// How the watch set of `bounds` is read.
fn watched_neighbor(neighbors: &Neighbors, bounds: SimulationBounds) -> (r: WatchedNeighbor)
    requires
        neighbors.knows(bounds),
    ensures
        reads_as(neighbors, bounds, r),
{
    let runner = neighbors.fetch_neighbor(bounds);
    match runner {
        NeighborRunner::Local => WatchedNeighbor::Local { bounds },
        NeighborRunner::Remote { uuid } => WatchedNeighbor::Remote { uuid, bounds },
    }
}

/// The three neighbours whose watch sets the simulator of `bounds` reads, and
/// how each is read: from this worker, or by asking the worker that
/// simulates it. The simulators of the three regions must be known.
pub fn init_watched_neighbors(neighbors: &Neighbors, bounds: SimulationBounds) -> (r: WatchedNeighbors)
    requires
        bounds.bounded(),
        forall|i: int| 0 <= i < 3 ==> neighbors.knows(#[trigger] bounds.shifted(axis_shift(i))),
    ensures
        reads_as(neighbors, bounds.shifted(axis_shift(0)), r[0]),
        reads_as(neighbors, bounds.shifted(axis_shift(1)), r[1]),
        reads_as(neighbors, bounds.shifted(axis_shift(2)), r[2]),
{
    let regions = watched_regions(&bounds);
    assert(regions[0] == bounds.shifted(axis_shift(0)));
    assert(regions[1] == bounds.shifted(axis_shift(1)));
    assert(regions[2] == bounds.shifted(axis_shift(2)));
    let r = [
        watched_neighbor(neighbors, regions[0]),
        watched_neighbor(neighbors, regions[1]),
        watched_neighbor(neighbors, regions[2]),
    ];
    r
}

/// Whether a simulator publishes the extent of a body in its watch set: the
/// body moves, the simulator owns it and keeps it, and what the body sweeps
/// during the next step does not lie within the region of the simulator.
pub open spec fn is_watch_entry(
    record: BodyRecord,
    body: BodyState,
    leaving: Seq<RigidBodyHandle>,
    own: SimulationBounds,
) -> bool {
    &&& body.body_type == RigidBodyType::Dynamic
    &&& record.watched.is_none()
    &&& !leaving.contains(record.handle)
    &&& !own.aabb_spec().contains_spec(&body.swept_aabb)
}

/// The watch set of the first `n` bodies of a simulator.
pub open spec fn watch_entries(
    records: Seq<BodyRecord>,
    reported: Seq<BodyState>,
    leaving: Seq<RigidBodyHandle>,
    own: SimulationBounds,
    n: nat,
) -> Seq<(u128, Aabb)>
    decreases n,
{
    if n == 0 {
        Seq::empty()
    } else if is_watch_entry(records[n - 1], reported[n - 1], leaving, own) {
        watch_entries(records, reported, leaving, own, (n - 1) as nat).push(
            (records[n - 1].uuid, reported[n - 1].swept_aabb),
        )
    } else {
        watch_entries(records, reported, leaving, own, (n - 1) as nat)
    }
}

/// Whether `entry` is what is published of one of the first `n` bodies.
pub open spec fn is_published(
    records: Seq<BodyRecord>,
    reported: Seq<BodyState>,
    leaving: Seq<RigidBodyHandle>,
    own: SimulationBounds,
    n: nat,
    entry: (u128, Aabb),
) -> bool {
    exists|i: int|
        0 <= i < n && is_watch_entry(#[trigger] records[i], reported[i], leaving, own) && entry == (
            records[i].uuid,
            reported[i].swept_aabb,
        )
}

/// Every body that is to be published stands in the watch set, and the watch
/// set holds nothing else.
pub proof fn lemma_watch_entries(
    records: Seq<BodyRecord>,
    reported: Seq<BodyState>,
    leaving: Seq<RigidBodyHandle>,
    own: SimulationBounds,
    n: nat,
)
    requires
        n <= records.len(),
        n <= reported.len(),
    ensures
        forall|i: int|
            0 <= i < n && is_watch_entry(#[trigger] records[i], reported[i], leaving, own)
                ==> watch_entries(records, reported, leaving, own, n).contains(
                (records[i].uuid, reported[i].swept_aabb),
            ),
        forall|t: int|
            0 <= t < watch_entries(records, reported, leaving, own, n).len() ==> is_published(
                records,
                reported,
                leaving,
                own,
                n,
                #[trigger] watch_entries(records, reported, leaving, own, n)[t],
            ),
    decreases n,
{
    if n > 0 {
        let before = watch_entries(records, reported, leaving, own, (n - 1) as nat);
        let now = watch_entries(records, reported, leaving, own, n);
        lemma_watch_entries(records, reported, leaving, own, (n - 1) as nat);
        assert forall|i: int|
            0 <= i < n && is_watch_entry(
                #[trigger] records[i],
                reported[i],
                leaving,
                own,
            ) implies now.contains((records[i].uuid, reported[i].swept_aabb)) by {
            if i < n - 1 {
                let entry = (records[i].uuid, reported[i].swept_aabb);
                assert(before.contains(entry));
                let t = choose|t: int| 0 <= t < before.len() && before[t] == entry;
                assert(now[t] == entry);
            } else {
                assert(now[now.len() - 1] == (records[i].uuid, reported[i].swept_aabb));
            }
        }
        assert forall|t: int| 0 <= t < now.len() implies is_published(
            records,
            reported,
            leaving,
            own,
            n,
            #[trigger] now[t],
        ) by {
            if t < before.len() {
                assert(now[t] == before[t]);
                assert(is_published(records, reported, leaving, own, (n - 1) as nat, before[t]));
                let i = choose|i: int|
                    0 <= i < n - 1 && is_watch_entry(
                        #[trigger] records[i],
                        reported[i],
                        leaving,
                        own,
                    ) && before[t] == (records[i].uuid, reported[i].swept_aabb);
                assert(is_watch_entry(records[i], reported[i], leaving, own));
            } else {
                assert(is_watch_entry(records[n - 1], reported[n - 1], leaving, own));
            }
        }
    }
}

/// Whether `handle` stands in `list`.
fn contains_handle(list: &Vec<RigidBodyHandle>, handle: RigidBodyHandle) -> (r: bool)
    ensures
        r == list@.contains(handle),
{
    let mut i: usize = 0;
    while i < list.len()
        invariant
            i <= list@.len(),
            forall|j: int| 0 <= j < i ==> list@[j] != handle,
        decreases list@.len() - i,
    {
        if list[i] == handle {
            return true;
        }
        i += 1;
    }
    false
}

/// The watch set that a simulator publishes at the end of a step: the extent
/// that each of its bodies sweeps during the next step, for the bodies that
/// move, that it owns and keeps, and that may reach beyond its region. Bodies
/// that stay well inside the region are not published.
pub fn compute_watch_data(
    sim_state: &SimulationState,
    reported: &Vec<BodyState>,
    reassignments: &RegionAssignments,
) -> (watched: WatchedObjects)
    requires
        sim_state.matches(reported@),
    ensures
        watched.objects@ == watch_entries(
            sim_state.bodies@,
            reported@,
            reassignments.reassigned_bodies@,
            sim_state.sim_bounds,
            reported@.len(),
        ),
        forall|i: int|
            0 <= i < reported@.len() && is_watch_entry(
                #[trigger] sim_state.bodies@[i],
                reported@[i],
                reassignments.reassigned_bodies@,
                sim_state.sim_bounds,
            ) ==> watched.objects@.contains((sim_state.bodies@[i].uuid, reported@[i].swept_aabb)),
{
    let mut objects: Vec<(u128, Aabb)> = Vec::new();
    let my_region_aabb = sim_state.sim_bounds.aabb();
    let n = reported.len();
    let mut i: usize = 0;
    while i < n
        invariant
            i <= n,
            n == reported@.len(),
            sim_state.matches(reported@),
            my_region_aabb == sim_state.sim_bounds.aabb_spec(),
            objects@ == watch_entries(
                sim_state.bodies@,
                reported@,
                reassignments.reassigned_bodies@,
                sim_state.sim_bounds,
                i as nat,
            ),
        decreases n - i,
    {
        let body = &reported[i];
        let record = sim_state.bodies[i];
        if body.body_type.is_dynamic() && record.watched.is_none() && !contains_handle(
            &reassignments.reassigned_bodies,
            record.handle,
        ) {
            // A body that stays within the region is of no concern to the neighbours.
            if !my_region_aabb.contains(&body.swept_aabb) {
                objects.push((record.uuid, body.swept_aabb));
            }
        }
        i += 1;
    }
    proof {
        lemma_watch_entries(
            sim_state.bodies@,
            reported@,
            reassignments.reassigned_bodies@,
            sim_state.sim_bounds,
            n as nat,
        );
    }
    WatchedObjects { objects }
}

} // verus!
