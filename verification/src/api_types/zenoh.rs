//! The keys of the publish/subscribe transport.

use crate::api_types::ids::{uuid_hyphenated, uuid_text};
use crate::api_types::partitionner::SceneUuid;
use crate::api_types::simulation::SimulationBounds;
use vstd::prelude::*;

verus! {

/// The key of the command queue of the worker `uuid`.
pub open spec fn commands_key_text(uuid: u128) -> Seq<char> {
    "runner/"@ + uuid_hyphenated(uuid)
}

/// The key on which the step of `region` in `scene` is acknowledged.
pub open spec fn ack_key_text(scene: SceneUuid, region: SimulationBounds) -> Seq<char> {
    "ack/"@ + uuid_hyphenated(scene.0) + "/"@ + region.text()
}

/// The key of the command queue of the worker `uuid`.
pub fn runner_zenoh_commands_key(uuid: u128) -> (key: String)
    ensures
        key@ == commands_key_text(uuid),
{
    let mut key = String::from_str("runner/");
    let id = uuid_text(uuid);
    key.append(id.as_str());
    key
}

/// The key on which the step of `region` in `scene` is acknowledged.
pub fn runner_zenoh_ack_key(scene: SceneUuid, region: &SimulationBounds) -> (key: String)
    ensures
        key@ == ack_key_text(scene, *region),
{
    let mut key = String::from_str("ack/");
    let id = uuid_text(scene.0);
    key.append(id.as_str());
    key.append("/");
    let name = region.to_string();
    key.append(name.as_str());
    key
}

/// The key under which the store keeps the value named `key`.
pub fn zenoh_storage_key(key: &str) -> (full: String)
    ensures
        full@ == "steadyum/kv/"@ + key@,
{
    let mut full = String::from_str("steadyum/kv/");
    full.append(key);
    full
}

} // verus!
