//! What is known of a body: the part that travels with it when it changes
//! owner, and the part that viewers see.

use crate::api_types::partitionner::SceneUuid;
use crate::api_types::simulation::SimulationBounds;
use crate::geometry::Aabb;
use crate::runner::physics::BodyState;
use vstd::prelude::*;

verus! {

/// A rigid motion, held as the bit patterns of its seven single-precision
/// numbers: a displacement, then a unit quaternion.
pub type Isometry = [u32; 7];

/// A vector, held as the bit patterns of its three single-precision numbers.
pub type Vector = [u32; 3];

/// How a body takes part in the simulation. Only dynamic bodies are owned by
/// a region and migrate; all others are known to every worker of the scene.
#[derive(Copy, Clone, Debug, PartialEq, Eq, Hash, Structural)]
pub enum RigidBodyType {
    Dynamic,
    Fixed,
    KinematicPositionBased,
    KinematicVelocityBased,
}

impl RigidBodyType {
    /// Whether forces move a body of this type.
    pub open spec fn is_dynamic_spec(&self) -> bool {
        *self == RigidBodyType::Dynamic
    }

    /// Whether forces move a body of this type.
    pub fn is_dynamic(&self) -> (r: bool)
        ensures
            r == self.is_dynamic_spec(),
    {
        match self {
            RigidBodyType::Dynamic => true,
            _ => false,
        }
    }
}

/// A body as a viewer sees it.
pub struct ClientBodyObject {
    pub uuid: u128,
    pub position: Isometry,
    /// The encoded shape. It is sent again with every snapshot.
    pub shape: Vec<u8>,
    pub body_type: RigidBodyType,
    /// The timestamp at which the body was first seen asleep, while it stays asleep.
    pub sleep_start_frame: Option<u64>,
}

/// What a `ClientBodyObject` holds.
pub struct ClientBodyObjectView {
    pub uuid: u128,
    pub position: Isometry,
    pub shape: Seq<u8>,
    pub body_type: RigidBodyType,
    pub sleep_start_frame: Option<u64>,
}

impl View for ClientBodyObject {
    type V = ClientBodyObjectView;

    open spec fn view(&self) -> ClientBodyObjectView {
        ClientBodyObjectView {
            uuid: self.uuid,
            position: self.position,
            shape: self.shape@,
            body_type: self.body_type,
            sleep_start_frame: self.sleep_start_frame,
        }
    }
}

impl Clone for ClientBodyObject {
    fn clone(&self) -> (r: Self)
        ensures
            r@ == self@,
    {
        ClientBodyObject {
            uuid: self.uuid,
            position: self.position,
            shape: self.shape.clone(),
            body_type: self.body_type,
            sleep_start_frame: self.sleep_start_frame,
        }
    }
}

/// The snapshot that one region publishes for viewers.
#[derive(Clone)]
pub struct ClientBodyObjectSet {
    pub timestamp: u64,
    pub objects: Vec<ClientBodyObject>,
}

impl ClientBodyObjectSet {
    /// What the bodies of the snapshot hold, in order.
    pub open spec fn objects_view(&self) -> Seq<ClientBodyObjectView> {
        self.objects@.map_values(|o: ClientBodyObject| o@)
    }
}

impl Default for ClientBodyObjectSet {
    fn default() -> (r: Self)
        ensures
            r.timestamp == 0,
            r.objects@.len() == 0,
    {
        ClientBodyObjectSet { timestamp: 0, objects: Vec::new() }
    }
}

/// The state of a body that changes with every step.
#[derive(Copy, Clone, Debug)]
pub struct WarmBodyObject {
    /// The step at which this state was captured.
    pub timestamp: u64,
    pub position: Isometry,
    pub linvel: Vector,
    pub angvel: Vector,
}

impl WarmBodyObject {
    /// The state of a body as the physics engine reports it at `timestamp`.
    pub fn from_body(body: &BodyState, timestamp: u64) -> (r: Self)
        ensures
            r == (WarmBodyObject {
                timestamp,
                position: body.position,
                linvel: body.linvel,
                angvel: body.angvel,
            }),
    {
        Self { timestamp, position: body.position, linvel: body.linvel, angvel: body.angvel }
    }
}

/// The description of a body that stays the same from step to step.
pub struct ColdBodyObject {
    pub body_type: RigidBodyType,
    /// The bit pattern of the density.
    pub density: u32,
    /// The encoded shape.
    pub shape: Vec<u8>,
    /// The encoded animations of a kinematic body.
    pub animations: Vec<u8>,
}

/// What a `ColdBodyObject` holds.
pub struct ColdBodyObjectView {
    pub body_type: RigidBodyType,
    pub density: u32,
    pub shape: Seq<u8>,
    pub animations: Seq<u8>,
}

impl View for ColdBodyObject {
    type V = ColdBodyObjectView;

    open spec fn view(&self) -> ColdBodyObjectView {
        ColdBodyObjectView {
            body_type: self.body_type,
            density: self.density,
            shape: self.shape@,
            animations: self.animations@,
        }
    }
}

impl Clone for ColdBodyObject {
    fn clone(&self) -> (r: Self)
        ensures
            r@ == self@,
    {
        ColdBodyObject {
            body_type: self.body_type,
            density: self.density,
            shape: self.shape.clone(),
            animations: self.animations.clone(),
        }
    }
}

impl ColdBodyObject {
    /// The description of a body as the physics engine reports it. A body
    /// that is described from the engine has no animations.
    pub fn from_body_collider(body: &BodyState) -> (r: Self)
        ensures
            r@ == (ColdBodyObjectView {
                body_type: body.body_type,
                density: body.density,
                shape: body.shape@,
                animations: Seq::empty(),
            }),
    {
        let r = Self {
            body_type: body.body_type,
            density: body.density,
            shape: body.shape.clone(),
            animations: Vec::new(),
        };
        assert(r@.animations =~= Seq::<u8>::empty());
        r
    }
}

/// The extents that a region publishes for its lower neighbours: for each
/// body near its border, the box that the body sweeps during the next step.
#[derive(Clone)]
pub struct WatchedObjects {
    pub objects: Vec<(u128, Aabb)>,
}

impl Default for WatchedObjects {
    fn default() -> (r: Self)
        ensures
            r.objects@.len() == 0,
    {
        WatchedObjects { objects: Vec::new() }
    }
}

/// The regions of a scene that have an owner.
pub struct RegionList {
    pub bounds: Vec<SimulationBounds>,
}

/// The scenes that a coordinator runs.
pub struct SceneList {
    pub scenes: Vec<SceneUuid>,
}

} // verus!
