//! What a simulator knows of its physics engine: the names that the engine
//! gives to bodies and joints, and what it reports of each body after a step.

use crate::api_types::objects::{Isometry, RigidBodyType, Vector};
use crate::geometry::{is_point_bounded, point_bounded, Aabb, Point};
use vstd::prelude::*;

verus! {

/// The name of a body in the physics engine of one simulator.
#[derive(Copy, Clone, Debug, PartialEq, Eq, Hash, Structural)]
pub struct RigidBodyHandle {
    pub index: u32,
    pub generation: u32,
}

/// The name of a joint in the physics engine of one simulator.
#[derive(Copy, Clone, Debug, PartialEq, Eq, Hash, Structural)]
pub struct ImpulseJointHandle {
    pub index: u32,
    pub generation: u32,
}

/// A joint between two bodies.
#[derive(Copy, Clone, Debug, PartialEq, Eq, Hash, Structural)]
pub struct JointLink {
    pub body1: RigidBodyHandle,
    pub body2: RigidBodyHandle,
    pub joint: ImpulseJointHandle,
}

impl JointLink {
    /// The body at the other end of the joint, seen from `from`.
    pub open spec fn other_end(&self, from: RigidBodyHandle) -> RigidBodyHandle {
        if self.body1 == from {
            self.body2
        } else {
            self.body1
        }
    }
}

/// What the physics engine reports of one body.
pub struct BodyState {
    pub handle: RigidBodyHandle,
    pub body_type: RigidBodyType,
    pub sleeping: bool,
    pub position: Isometry,
    pub linvel: Vector,
    pub angvel: Vector,
    /// The bit pattern of the density.
    pub density: u32,
    /// The encoded shape.
    pub shape: Vec<u8>,
    /// The extent of the body where it is, rounded outwards.
    pub aabb: Aabb,
    /// The upper corner of the extent of the body where it is, rounded down:
    /// the point whose cell tells which region of the grid holds the body.
    pub upper_corner: Point,
    /// The extent of what the body sweeps during the next step, as far as its
    /// velocity and the forces on it tell.
    pub swept_aabb: Aabb,
    /// The bodies that this body touches.
    pub contacts: Vec<RigidBodyHandle>,
    /// The joints that hold this body.
    pub joints: Vec<JointLink>,
}

/// Whether no body is reported twice and every upper corner is within the
/// range that the grid can place.
pub open spec fn report_wf(reported: Seq<BodyState>) -> bool {
    &&& forall|i: int, j: int|
        0 <= i < j < reported.len() ==> reported[i].handle != reported[j].handle
    &&& forall|i: int|
        0 <= i < reported.len() ==> point_bounded((#[trigger] reported[i]).upper_corner)
}

/// Where `handle` stands in the report, if it does.
pub fn find_body(reported: &Vec<BodyState>, handle: RigidBodyHandle) -> (r: Option<usize>)
    ensures
        r.is_some() ==> r.unwrap() < reported.len() && reported[r.unwrap() as int].handle
            == handle,
        r.is_none() ==> forall|i: int| 0 <= i < reported.len() ==> reported[i].handle != handle,
{
    let mut i: usize = 0;
    while i < reported.len()
        invariant
            i <= reported.len(),
            forall|j: int| 0 <= j < i ==> reported[j].handle != handle,
        decreases reported.len() - i,
    {
        if reported[i].handle == handle {
            return Some(i);
        }
        i += 1;
    }
    None
}

/// Decides `report_wf`.
pub fn is_report_wf(reported: &Vec<BodyState>) -> (r: bool)
    ensures
        r == report_wf(reported@),
{
    let n = reported.len();
    let mut i: usize = 0;
    while i < n
        invariant
            i <= n,
            n == reported@.len(),
            forall|a: int, b: int| 0 <= a < b < i ==> reported@[a].handle != reported@[b].handle,
            forall|a: int|
                0 <= a < i ==> point_bounded((#[trigger] reported@[a]).upper_corner),
        decreases n - i,
    {
        if !is_point_bounded(&reported[i].upper_corner) {
            return false;
        }
        let mut j: usize = 0;
        while j < i
            invariant
                j <= i,
                i < n,
                n == reported@.len(),
                forall|a: int| 0 <= a < j ==> reported@[a].handle != reported@[i as int].handle,
            decreases i - j,
        {
            if reported[j].handle == reported[i].handle {
                return false;
            }
            j += 1;
        }
        i += 1;
    }
    true
}

} // verus!
