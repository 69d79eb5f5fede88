//! Axis-aligned boxes on the integer lattice of simulation units.
//!
//! A box stands for the extent of a body or of a scene: its corners are whole
//! numbers of simulation units, rounded outwards by whoever measured it, so
//! that what the box holds or touches is held or touched for certain. Which
//! cell of the grid holds a corner is another matter: that is told by the
//! corner rounded down, which is kept beside the box where it is needed.

use vstd::prelude::*;

verus! {

broadcast use vstd::array::group_array_axioms;

/// The largest magnitude of a coordinate for which the arithmetic of the grid
/// stays within 64 bits.
pub const MAX_COORDINATE: i64 = 0x1000_0000_0000_0000;

/// A point in simulation units.
pub type Point = [i64; 3];

/// An axis-aligned bounding box.
#[derive(Copy, Clone, Debug, Eq, Hash)]
pub struct Aabb {
    pub mins: Point,
    pub maxs: Point,
}

impl PartialEq for Aabb {
    fn eq(&self, other: &Self) -> (r: bool) {
        let r = self.mins[0] == other.mins[0] && self.mins[1] == other.mins[1] && self.mins[2]
            == other.mins[2] && self.maxs[0] == other.maxs[0] && self.maxs[1] == other.maxs[1]
            && self.maxs[2] == other.maxs[2];
        proof {
            if r {
                assert(self.mins =~= other.mins);
                assert(self.maxs =~= other.maxs);
            }
        }
        r
    }
}

impl vstd::std_specs::cmp::PartialEqSpecImpl for Aabb {
    open spec fn obeys_eq_spec() -> bool {
        true
    }

    open spec fn eq_spec(&self, other: &Self) -> bool {
        *self == *other
    }
}

/// Whether each coordinate of `p` is within `MAX_COORDINATE` of zero.
pub open spec fn point_bounded(p: Point) -> bool {
    forall|k: int| 0 <= k < 3 ==> -MAX_COORDINATE <= #[trigger] p[k] <= MAX_COORDINATE
}

/// The smaller of two coordinates.
pub open spec fn min_coord(a: i64, b: i64) -> i64 {
    if a <= b {
        a
    } else {
        b
    }
}

/// The larger of two coordinates.
pub open spec fn max_coord(a: i64, b: i64) -> i64 {
    if a >= b {
        a
    } else {
        b
    }
}

/// Decides `point_bounded`.
pub fn is_point_bounded(p: &Point) -> (r: bool)
    ensures
        r == point_bounded(*p),
{
    let mut k: usize = 0;
    while k < 3
        invariant
            k <= 3,
            forall|j: int| 0 <= j < k ==> -MAX_COORDINATE <= #[trigger] p[j] <= MAX_COORDINATE,
        decreases 3 - k,
    {
        if p[k] < -MAX_COORDINATE || p[k] > MAX_COORDINATE {
            return false;
        }
        k += 1;
    }
    true
}

impl Aabb {
    /// Whether `other` lies within this box, borders included.
    pub open spec fn contains_spec(&self, other: &Aabb) -> bool {
        forall|k: int|
            0 <= k < 3 ==> self.mins[k] <= #[trigger] other.mins[k] && other.maxs[k]
                <= self.maxs[k]
    }

    /// Whether this box and `other` share a point, borders included.
    pub open spec fn intersects_spec(&self, other: &Aabb) -> bool {
        forall|k: int|
            0 <= k < 3 ==> self.mins[k] <= #[trigger] other.maxs[k] && other.mins[k]
                <= self.maxs[k]
    }

    /// Whether `point` lies within this box, borders included.
    pub open spec fn contains_point_spec(&self, point: Point) -> bool {
        forall|k: int| 0 <= k < 3 ==> self.mins[k] <= #[trigger] point[k] <= self.maxs[k]
    }

    /// The smallest box around this box and `other`.
    pub open spec fn merged_spec(&self, other: &Aabb) -> Aabb {
        Aabb {
            mins: [
                min_coord(self.mins[0], other.mins[0]),
                min_coord(self.mins[1], other.mins[1]),
                min_coord(self.mins[2], other.mins[2]),
            ],
            maxs: [
                max_coord(self.maxs[0], other.maxs[0]),
                max_coord(self.maxs[1], other.maxs[1]),
                max_coord(self.maxs[2], other.maxs[2]),
            ],
        }
    }

    /// The box that holds nothing: merging it with a box gives that box.
    pub open spec fn invalid() -> Aabb {
        Aabb { mins: [i64::MAX, i64::MAX, i64::MAX], maxs: [i64::MIN, i64::MIN, i64::MIN] }
    }

    /// Whether both corners are within `MAX_COORDINATE` of the origin on each axis.
    pub open spec fn bounded(&self) -> bool {
        point_bounded(self.mins) && point_bounded(self.maxs)
    }

    /// The box between two corners.
    pub fn new(mins: Point, maxs: Point) -> (r: Aabb)
        ensures
            r == (Aabb { mins, maxs }),
    {
        Aabb { mins, maxs }
    }

    /// The box that holds nothing.
    pub fn new_invalid() -> (r: Aabb)
        ensures
            r == Aabb::invalid(),
    {
        let r = Aabb { mins: [i64::MAX, i64::MAX, i64::MAX], maxs: [i64::MIN, i64::MIN, i64::MIN] };
        assert(r.mins =~= Aabb::invalid().mins);
        assert(r.maxs =~= Aabb::invalid().maxs);
        r
    }

    /// Decides `bounded`.
    pub fn is_bounded(&self) -> (r: bool)
        ensures
            r == self.bounded(),
    {
        is_point_bounded(&self.mins) && is_point_bounded(&self.maxs)
    }

    /// Whether `other` lies within this box, borders included.
    pub fn contains(&self, other: &Aabb) -> (r: bool)
        ensures
            r == self.contains_spec(other),
    {
        let mut k: usize = 0;
        while k < 3
            invariant
                k <= 3,
                forall|j: int|
                    0 <= j < k ==> self.mins[j] <= #[trigger] other.mins[j] && other.maxs[j]
                        <= self.maxs[j],
            decreases 3 - k,
        {
            if self.mins[k] > other.mins[k] || other.maxs[k] > self.maxs[k] {
                return false;
            }
            k += 1;
        }
        true
    }

    /// Whether this box and `other` share a point, borders included.
    pub fn intersects(&self, other: &Aabb) -> (r: bool)
        ensures
            r == self.intersects_spec(other),
    {
        let mut k: usize = 0;
        while k < 3
            invariant
                k <= 3,
                forall|j: int|
                    0 <= j < k ==> self.mins[j] <= #[trigger] other.maxs[j] && other.mins[j]
                        <= self.maxs[j],
            decreases 3 - k,
        {
            if self.mins[k] > other.maxs[k] || other.mins[k] > self.maxs[k] {
                return false;
            }
            k += 1;
        }
        true
    }

    /// Whether `point` lies within this box, borders included.
    pub fn contains_local_point(&self, point: &Point) -> (r: bool)
        ensures
            r == self.contains_point_spec(*point),
    {
        let mut k: usize = 0;
        while k < 3
            invariant
                k <= 3,
                forall|j: int| 0 <= j < k ==> self.mins[j] <= #[trigger] point[j] <= self.maxs[j],
            decreases 3 - k,
        {
            if point[k] < self.mins[k] || point[k] > self.maxs[k] {
                return false;
            }
            k += 1;
        }
        true
    }

    /// The smallest box around this box and `other`.
    pub fn merged(&self, other: &Aabb) -> (r: Aabb)
        ensures
            r == self.merged_spec(other),
    {
        let r = Aabb {
            mins: [
                lesser(self.mins[0], other.mins[0]),
                lesser(self.mins[1], other.mins[1]),
                lesser(self.mins[2], other.mins[2]),
            ],
            maxs: [
                greater(self.maxs[0], other.maxs[0]),
                greater(self.maxs[1], other.maxs[1]),
                greater(self.maxs[2], other.maxs[2]),
            ],
        };
        assert(r.mins =~= self.merged_spec(other).mins);
        assert(r.maxs =~= self.merged_spec(other).maxs);
        r
    }

    /// Grows this box to hold `other` too.
    pub fn merge(&mut self, other: &Aabb)
        ensures
            *final(self) == old(self).merged_spec(other),
    {
        let r = self.merged(other);
        *self = r;
    }
}

/// The smaller of two coordinates.
pub fn lesser(a: i64, b: i64) -> (r: i64)
    ensures
        r == min_coord(a, b),
{
    if a <= b {
        a
    } else {
        b
    }
}

/// The larger of two coordinates.
pub fn greater(a: i64, b: i64) -> (r: i64)
    ensures
        r == max_coord(a, b),
{
    if a >= b {
        a
    } else {
        b
    }
}

} // verus!
