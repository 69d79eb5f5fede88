//! What is said to a worker, and by its simulators to each other.

use crate::api_types::objects::{ColdBodyObject, ColdBodyObjectView, WarmBodyObject};
use crate::api_types::partitionner::SceneUuid;
use crate::api_types::simulation::SimulationBounds;
use vstd::prelude::*;

verus! {

/// A body on its way to an owner.
pub struct BodyAssignment {
    pub uuid: u128,
    pub warm: WarmBodyObject,
    pub cold: ColdBodyObject,
}

/// What a `BodyAssignment` holds.
pub struct BodyAssignmentView {
    pub uuid: u128,
    pub warm: WarmBodyObject,
    pub cold: ColdBodyObjectView,
}

impl View for BodyAssignment {
    type V = BodyAssignmentView;

    open spec fn view(&self) -> BodyAssignmentView {
        BodyAssignmentView { uuid: self.uuid, warm: self.warm, cold: self.cold@ }
    }
}

impl Clone for BodyAssignment {
    fn clone(&self) -> (r: Self)
        ensures
            r@ == self@,
    {
        BodyAssignment { uuid: self.uuid, warm: self.warm, cold: self.cold.clone() }
    }
}

/// What a list of bodies holds, in order.
pub open spec fn bodies_view(bodies: Seq<BodyAssignment>) -> Seq<BodyAssignmentView> {
    bodies.map_values(|b: BodyAssignment| b@)
}

/// A joint between two bodies that travel together.
pub struct ImpulseJointAssignment {
    pub body1: u128,
    pub body2: u128,
    /// The encoded joint.
    pub joint: Vec<u8>,
}

/// A message to a worker or to one of its simulators.
pub enum RunnerMessage {
    /// These bodies, joined or in contact, now belong to `region`.
    AssignIsland {
        scene: SceneUuid,
        region: SimulationBounds,
        bodies: Vec<BodyAssignment>,
        impulse_joints: Vec<ImpulseJointAssignment>,
    },
    /// These bodies do not move and exist in every region of the scene.
    AssignStaticBodies { bodies: Vec<BodyAssignment> },
    /// Run the step `step_id`.
    Step { step_id: u64 },
    /// Publish the snapshot for viewers now.
    SyncClientObjects,
    /// A simulator has finished its step.
    Ack,
    /// Stop.
    Exit,
}

} // verus!
