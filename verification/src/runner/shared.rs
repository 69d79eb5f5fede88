//! What the simulators of a worker share: which regions have a simulator,
//! and what each simulator published last. Each is kept in a concurrent map
//! by the two corners of the region.
//!
//! What a map holds is named here, and the few operations that the worker
//! needs are stated over these names; nothing of them is proved.

use crate::api_types::objects::{ClientBodyObjectSet, ClientBodyObjectView, WatchedObjects};
use crate::api_types::simulation::SimulationBounds;
use crate::geometry::Aabb;
use vstd::prelude::*;

verus! {

/// `dashmap::DashMap`, a map that several threads may read and fill at a
/// time. It is carried as it is: nothing is known of a value of it but what
/// the operations below tell.
#[verifier::external_type_specification]
#[verifier::external_body]
#[verifier::reject_recursive_types(K)]
#[verifier::reject_recursive_types(V)]
#[verifier::reject_recursive_types(S)]
pub struct ExDashMap<K, V, S>(dashmap::DashMap<K, V, S>);

/// The regions that `regions` holds.
pub uninterp spec fn regions_held(regions: dashmap::DashMap<([i64; 3], [i64; 3]), ()>) -> Set<
    SimulationBounds,
>;

/// The watch sets that `sets` holds, by region.
pub uninterp spec fn watch_sets_held(
    sets: dashmap::DashMap<([i64; 3], [i64; 3]), WatchedObjects>,
) -> Map<SimulationBounds, Seq<(u128, Aabb)>>;

/// The snapshots that `sets` holds, by region: the time and the bodies of each.
pub uninterp spec fn client_sets_held(
    sets: dashmap::DashMap<([i64; 3], [i64; 3]), ClientBodyObjectSet>,
) -> Map<SimulationBounds, (u64, Seq<ClientBodyObjectView>)>;

/// Whether `order` lists each of `regions` once, and nothing else.
pub open spec fn is_listing(order: Seq<SimulationBounds>, regions: Set<SimulationBounds>) -> bool {
    &&& forall|i: int, j: int| 0 <= i < j < order.len() ==> order[i] != order[j]
    &&& forall|region: SimulationBounds| order.contains(region) <==> regions.contains(region)
}

/// `DashMap::new`: the map is made empty.
#[verifier::external_body]
pub(crate) fn no_regions() -> (regions: dashmap::DashMap<([i64; 3], [i64; 3]), ()>)
    ensures
        regions_held(regions) == Set::<SimulationBounds>::empty(),
{
    dashmap::DashMap::new()
}

/// `DashMap::contains_key`: whether the map holds the key.
#[verifier::external_body]
pub(crate) fn holds_region(
    regions: &dashmap::DashMap<([i64; 3], [i64; 3]), ()>,
    region: SimulationBounds,
) -> (r: bool)
    ensures
        r == regions_held(*regions).contains(region),
{
    regions.contains_key(&(region.mins, region.maxs))
}

/// `DashMap::insert`, on the map of regions: the map then holds the key as
/// well, and what it held before.
#[verifier::external_body]
pub(crate) fn add_region(
    regions: &mut dashmap::DashMap<([i64; 3], [i64; 3]), ()>,
    region: SimulationBounds,
)
    ensures
        regions_held(*final(regions)) == regions_held(*old(regions)).insert(region),
{
    regions.insert((region.mins, region.maxs), ());
}

/// `DashMap::iter`: each key of the map is handed out once. The order in
/// which they come is not told.
#[verifier::external_body]
pub(crate) fn listed_regions(regions: &dashmap::DashMap<([i64; 3], [i64; 3]), ()>) -> (order: Vec<
    SimulationBounds,
>)
    ensures
        is_listing(order@, regions_held(*regions)),
{
    regions.iter().map(|entry| SimulationBounds { mins: entry.key().0, maxs: entry.key().1 }).collect()
}

/// `DashMap::new`: the map is made empty.
#[verifier::external_body]
pub(crate) fn no_watch_sets() -> (sets: dashmap::DashMap<([i64; 3], [i64; 3]), WatchedObjects>)
    ensures
        watch_sets_held(sets).dom() == Set::<SimulationBounds>::empty(),
{
    dashmap::DashMap::new()
}

/// `DashMap::insert`, on the map of watch sets: the value is kept under the
/// key, in place of what was kept under it; the rest of the map stays.
#[verifier::external_body]
pub(crate) fn keep_watch_set(
    sets: &mut dashmap::DashMap<([i64; 3], [i64; 3]), WatchedObjects>,
    region: SimulationBounds,
    watched: WatchedObjects,
)
    ensures
        watch_sets_held(*final(sets)) == watch_sets_held(*old(sets)).insert(
            region,
            watched.objects@,
        ),
{
    sets.insert((region.mins, region.maxs), watched);
}

/// `DashMap::get`, on the map of watch sets: a copy of what is kept under the
/// key, where something is.
#[verifier::external_body]
pub(crate) fn kept_watch_set(
    sets: &dashmap::DashMap<([i64; 3], [i64; 3]), WatchedObjects>,
    region: SimulationBounds,
) -> (r: Option<WatchedObjects>)
    ensures
        r.is_some() == watch_sets_held(*sets).dom().contains(region),
        r.is_some() ==> r.unwrap().objects@ == watch_sets_held(*sets)[region],
{
    sets.get(&(region.mins, region.maxs)).map(|entry| entry.value().clone())
}

/// `DashMap::new`: the map is made empty.
#[verifier::external_body]
pub(crate) fn no_client_sets() -> (sets: dashmap::DashMap<
    ([i64; 3], [i64; 3]),
    ClientBodyObjectSet,
>)
    ensures
        client_sets_held(sets).dom() == Set::<SimulationBounds>::empty(),
{
    dashmap::DashMap::new()
}

/// `DashMap::insert`, on the map of snapshots: the value is kept under the
/// key, in place of what was kept under it; the rest of the map stays.
#[verifier::external_body]
pub(crate) fn keep_client_set(
    sets: &mut dashmap::DashMap<([i64; 3], [i64; 3]), ClientBodyObjectSet>,
    region: SimulationBounds,
    client_objects: ClientBodyObjectSet,
)
    ensures
        client_sets_held(*final(sets)) == client_sets_held(*old(sets)).insert(
            region,
            (client_objects.timestamp, client_objects.objects_view()),
        ),
{
    sets.insert((region.mins, region.maxs), client_objects);
}

/// `DashMap::get`, on the map of snapshots: a copy of what is kept under the
/// key, where something is.
#[verifier::external_body]
pub(crate) fn kept_client_set(
    sets: &dashmap::DashMap<([i64; 3], [i64; 3]), ClientBodyObjectSet>,
    region: SimulationBounds,
) -> (r: Option<ClientBodyObjectSet>)
    ensures
        r.is_some() == client_sets_held(*sets).dom().contains(region),
        r.is_some() ==> (r.unwrap().timestamp, r.unwrap().objects_view()) == client_sets_held(
            *sets,
        )[region],
{
    sets.get(&(region.mins, region.maxs)).map(|entry| entry.value().clone())
}

} // verus!
