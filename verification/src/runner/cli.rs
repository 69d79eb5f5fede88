//! The arguments of a worker.

use crate::api_types::ids::{bytes_reversed, uuid_from_u128_le};
use vstd::prelude::*;

verus! {

/// The arguments that a worker is started with.
#[derive(Debug, Clone)]
pub struct CliArgs {
    /// The identifier of the worker, as a number in little-endian order.
    pub uuid: u128,
    /// The identifier of the scene, as a number in little-endian order.
    pub scene_uuid: u128,
    pub time_origin: u64,
    /// Whether the worker runs on the host of its coordinator, without a router.
    pub dev: bool,
}

impl CliArgs {
    /// The identifier of the worker.
    pub fn typed_uuid(&self) -> (id: u128)
        ensures
            id == bytes_reversed(self.uuid),
    {
        uuid_from_u128_le(self.uuid)
    }

    /// The identifier of the scene.
    pub fn typed_scene_uuid(&self) -> (id: u128)
        ensures
            id == bytes_reversed(self.scene_uuid),
    {
        uuid_from_u128_le(self.scene_uuid)
    }
}

} // verus!
