//! The control plane of the coordinators: its paths and the bodies of its requests.

use crate::api_types::ids::{is_random_uuid, random_uuid};
use crate::api_types::messages::BodyAssignment;
use crate::api_types::simulation::SimulationBounds;
use crate::geometry::Aabb;
use vstd::prelude::*;

verus! {

/// How many times the physics engine advances within one step of a scene.
pub const NUM_INTERNAL_STEPS: u64 = 10;

pub const SHUTDOWN: &'static str = "/shutdown";

pub const GET_EXES: &'static str = "/getbins";

pub const HEARTBEAT: &'static str = "/heartbeat";

pub const RUNNER_INITIALIZED_ENDPOINT: &'static str = "/initialized";

pub const ASSIGN_RUNNER_ENDPOINT: &'static str = "/region";

pub const INSERT_OBJECTS_ENDPOINT: &'static str = "/insert";

pub const LIST_REGIONS_ENDPOINT: &'static str = "/list_regions";

pub const LIST_SCENES_ENDPOINT: &'static str = "/list_scenes";

pub const START_STOP_ENDPOINT: &'static str = "/start_stop";

pub const CREATE_SCENE_ENDPOINT: &'static str = "/create_scene";

pub const REMOVE_SCENE_ENDPOINT: &'static str = "/remove_scene";

pub const REGISTER_CHILD_ENDPOINT: &'static str = "/register_child";

pub const ACK_ENDPOINT: &'static str = "/ack";

pub const STEP_ENDPOINT: &'static str = "/step";

pub const CLIENT_INPUT_ENDPOINT: &'static str = "/input";

/// The name of a scene: an isolated simulation universe.
#[derive(Copy, Clone, Debug, PartialEq, Eq, Hash, Structural)]
pub struct SceneUuid(pub u128);

impl Default for SceneUuid {
    /// A scene that no one has named before: its identifier is drawn at random.
    fn default() -> (r: Self)
        ensures
            is_random_uuid(r.0),
    {
        SceneUuid(random_uuid())
    }
}

#[derive(Copy, Clone, Debug, PartialEq, Structural)]
pub struct RunnerInitializedRequest {
    pub scene: SceneUuid,
    pub uuid: u128,
}

#[derive(Copy, Clone, Debug)]
pub struct AssignRunnerRequest {
    pub scene: SceneUuid,
    pub region: SimulationBounds,
}

#[derive(Copy, Clone, Debug)]
pub struct AssignRunnerResponse {
    pub scene: SceneUuid,
    pub region: SimulationBounds,
    pub uuid: u128,
}

#[derive(Clone)]
pub struct AckRequest {
    pub scene: SceneUuid,
}

#[derive(Clone)]
pub struct StepRequest {
    pub scene: SceneUuid,
    pub step_id: u64,
}

#[derive(Clone)]
pub struct ClientInputRequest {
    pub scene: SceneUuid,
    pub step_id: u64,
    pub input: usize,
}

pub struct InsertObjectsRequest {
    pub scene: SceneUuid,
    pub bodies: Vec<BodyAssignment>,
}

#[derive(Clone)]
pub struct ListRegionsRequest {
    pub scene: SceneUuid,
}

#[derive(Copy, Clone)]
pub struct StartStopRequest {
    pub scene: SceneUuid,
    pub running: bool,
}

/// Where a child coordinator listens.
#[derive(Clone, Debug)]
pub struct ChildPartitionner {
    pub addr: String,
    pub port: u16,
}

#[derive(Clone, Debug)]
pub struct RegisterChildRequest {
    pub child: ChildPartitionner,
}

#[derive(Clone, Debug)]
pub struct CreateSceneRequest {
    pub scene: SceneUuid,
    pub bounds: Aabb,
}

#[derive(Clone, Debug)]
pub struct CreateSceneResponse {
    pub runner: u128,
}

#[derive(Clone, Debug)]
pub struct RemoveSceneRequest {
    pub scene: SceneUuid,
}

/// The two programs that an updating agent fetches from its coordinator.
#[derive(Clone, Debug)]
pub struct GetExesResponse {
    pub runner: Vec<u8>,
    pub partitionner: Vec<u8>,
}

} // verus!
