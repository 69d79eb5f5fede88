//! How a coordinator cuts the bounds of a scene among its children, and how
//! it picks the child for a region.

use crate::api_types::simulation::SimulationBounds;
use crate::geometry::{Aabb, MAX_COORDINATE};
use vstd::prelude::*;

verus! {

broadcast use vstd::array::group_array_axioms;

/// The whole number halfway between `a` and `b`, rounded down.
pub open spec fn midpoint(a: int, b: int) -> int {
    (a + b) / 2
}

/// The horizontal axis along which `aabb` is widest: the first axis, unless
/// the box is wider along the third.
pub open spec fn split_axis(aabb: Aabb) -> int {
    if aabb.maxs[2] - aabb.mins[2] > aabb.maxs[0] - aabb.mins[0] {
        2
    } else {
        0
    }
}

/// The half of `aabb` below the middle of its widest horizontal axis.
pub open spec fn lower_half(aabb: Aabb) -> Aabb {
    if split_axis(aabb) == 0 {
        Aabb {
            mins: aabb.mins,
            maxs: [midpoint(aabb.mins[0] as int, aabb.maxs[0] as int) as i64, aabb.maxs[1], aabb.maxs[2]],
        }
    } else {
        Aabb {
            mins: aabb.mins,
            maxs: [aabb.maxs[0], aabb.maxs[1], midpoint(aabb.mins[2] as int, aabb.maxs[2] as int) as i64],
        }
    }
}

/// The half of `aabb` above the middle of its widest horizontal axis.
pub open spec fn upper_half(aabb: Aabb) -> Aabb {
    if split_axis(aabb) == 0 {
        Aabb {
            mins: [midpoint(aabb.mins[0] as int, aabb.maxs[0] as int) as i64, aabb.mins[1], aabb.mins[2]],
            maxs: aabb.maxs,
        }
    } else {
        Aabb {
            mins: [aabb.mins[0], aabb.mins[1], midpoint(aabb.mins[2] as int, aabb.maxs[2] as int) as i64],
            maxs: aabb.maxs,
        }
    }
}

/// The whole number halfway between `a` and `b`, rounded down.
fn halfway(a: i64, b: i64) -> (m: i64)
    requires
        -MAX_COORDINATE <= a <= MAX_COORDINATE,
        -MAX_COORDINATE <= b <= MAX_COORDINATE,
    ensures
        m == midpoint(a as int, b as int),
        -MAX_COORDINATE <= m <= MAX_COORDINATE,
        a <= b ==> a <= m <= b,
{
    if a <= b {
        a + (b - a) / 2
    } else {
        b + (a - b) / 2
    }
}

/// Cuts `aabb` in two at the middle of its widest horizontal axis.
pub fn split_aabb(aabb: Aabb) -> (halves: [Aabb; 2])
    requires
        aabb.bounded(),
    ensures
        halves[0] == lower_half(aabb),
        halves[1] == upper_half(aabb),
        halves[0].bounded(),
        halves[1].bounded(),
{
    assert(-MAX_COORDINATE <= aabb.mins[0] <= MAX_COORDINATE && -MAX_COORDINATE <= aabb.mins[1]
        <= MAX_COORDINATE && -MAX_COORDINATE <= aabb.mins[2] <= MAX_COORDINATE);
    assert(-MAX_COORDINATE <= aabb.maxs[0] <= MAX_COORDINATE && -MAX_COORDINATE <= aabb.maxs[1]
        <= MAX_COORDINATE && -MAX_COORDINATE <= aabb.maxs[2] <= MAX_COORDINATE);
    let wider_along_z = aabb.maxs[2] - aabb.mins[2] > aabb.maxs[0] - aabb.mins[0];
    let (left, right) = if wider_along_z {
        let mid = halfway(aabb.mins[2], aabb.maxs[2]);
        (
            Aabb { mins: aabb.mins, maxs: [aabb.maxs[0], aabb.maxs[1], mid] },
            Aabb { mins: [aabb.mins[0], aabb.mins[1], mid], maxs: aabb.maxs },
        )
    } else {
        let mid = halfway(aabb.mins[0], aabb.maxs[0]);
        (
            Aabb { mins: aabb.mins, maxs: [mid, aabb.maxs[1], aabb.maxs[2]] },
            Aabb { mins: [mid, aabb.mins[1], aabb.mins[2]], maxs: aabb.maxs },
        )
    };
    assert(left.maxs =~= lower_half(aabb).maxs);
    assert(right.mins =~= upper_half(aabb).mins);
    [left, right]
}

/// The `n` boxes that `domain` is cut into: the box that has waited longest
/// is cut in two, again and again, until there are `n`. No box where `n` is
/// zero.
pub open spec fn subdivided(domain: Aabb, n: nat) -> Seq<Aabb>
    decreases n,
{
    if n == 0 {
        Seq::empty()
    } else if n == 1 {
        seq![domain]
    } else {
        let waiting = subdivided(domain, (n - 1) as nat);
        waiting.skip(1).push(lower_half(waiting[0])).push(upper_half(waiting[0]))
    }
}

/// Whether each of `boxes` is within the range of coordinates.
pub open spec fn all_bounded(boxes: Seq<Aabb>) -> bool {
    forall|i: int| 0 <= i < boxes.len() ==> (#[trigger] boxes[i]).bounded()
}

/// Cuts `domain` into `num_subdivs` boxes.
pub fn subdivide_domain(domain: Aabb, num_subdivs: usize) -> (boxes: Vec<Aabb>)
    requires
        domain.bounded(),
    ensures
        boxes@ == subdivided(domain, num_subdivs as nat),
        boxes@.len() == num_subdivs,
        all_bounded(boxes@),
{
    let mut boxes: Vec<Aabb> = Vec::new();
    if num_subdivs == 0 {
        return boxes;
    }
    boxes.push(domain);
    let mut n: usize = 1;
    while n < num_subdivs
        invariant
            1 <= n <= num_subdivs,
            boxes@ == subdivided(domain, n as nat),
            boxes@.len() == n,
            all_bounded(boxes@),
        decreases num_subdivs - n,
    {
        let ghost waiting = boxes@;
        let first = boxes.remove(0);
        assert(first == waiting[0]);
        assert(boxes@ =~= waiting.skip(1));
        let halves = split_aabb(first);
        boxes.push(halves[0]);
        boxes.push(halves[1]);
        n += 1;
        assert(boxes@ =~= waiting.skip(1).push(lower_half(waiting[0])).push(
            upper_half(waiting[0]),
        ));
        assert forall|i: int| 0 <= i < boxes@.len() implies (#[trigger] boxes@[i]).bounded() by {
            if i < waiting.len() - 1 {
                assert(boxes@[i] == waiting[i + 1]);
            }
        }
    }
    boxes
}

/// Twice the coordinate of the centre of `region` along the axis `k`.
pub open spec fn center_twice(region: SimulationBounds, k: int) -> int {
    region.mins[k] + region.maxs[k]
}

/// Whether the centre of `region` lies in `child`, borders included.
pub open spec fn holds_center(child: Aabb, region: SimulationBounds) -> bool {
    forall|k: int|
        0 <= k < 3 ==> 2 * child.mins[k] <= #[trigger] center_twice(region, k) <= 2
            * child.maxs[k]
}

/// Twice the distance along the axis `k` from the centre of `region` to `child`.
pub open spec fn gap_twice(child: Aabb, region: SimulationBounds, k: int) -> int {
    let c = center_twice(region, k);
    if c < 2 * child.mins[k] {
        2 * child.mins[k] - c
    } else if c > 2 * child.maxs[k] {
        c - 2 * child.maxs[k]
    } else {
        0
    }
}

/// Four times the square of the distance from the centre of `region` to `child`.
pub open spec fn distance_sq(child: Aabb, region: SimulationBounds) -> int {
    gap_twice(child, region, 0) * gap_twice(child, region, 0) + gap_twice(child, region, 1)
        * gap_twice(child, region, 1) + gap_twice(child, region, 2) * gap_twice(child, region, 2)
}

/// Whether the `i`-th child is the one that gets `region`: the first whose
/// box holds the centre of the region; where none does, the nearest to the
/// centre, and of several that are equally near the first.
pub open spec fn is_child_for(children: Seq<Aabb>, region: SimulationBounds, i: int) -> bool {
    &&& 0 <= i < children.len()
    &&& if holds_center(children[i], region) {
        forall|j: int| 0 <= j < i ==> !holds_center(#[trigger] children[j], region)
    } else {
        &&& forall|j: int| 0 <= j < children.len() ==> !holds_center(#[trigger] children[j], region)
        &&& forall|j: int|
            0 <= j < i ==> distance_sq(#[trigger] children[j], region) > distance_sq(
                children[i],
                region,
            )
        &&& forall|j: int|
            i < j < children.len() ==> distance_sq(#[trigger] children[j], region) >= distance_sq(
                children[i],
                region,
            )
    }
}

/// Whether the centre of `region` lies in `child`.
fn has_center(child: &Aabb, region: &SimulationBounds) -> (r: bool)
    requires
        child.bounded(),
        region.bounded(),
    ensures
        r == holds_center(*child, *region),
{
    let mut k: usize = 0;
    while k < 3
        invariant
            k <= 3,
            child.bounded(),
            region.bounded(),
            forall|j: int|
                0 <= j < k ==> 2 * child.mins[j] <= #[trigger] center_twice(*region, j) <= 2
                    * child.maxs[j],
        decreases 3 - k,
    {
        assert(-MAX_COORDINATE <= child.mins[k as int] <= MAX_COORDINATE);
        assert(-MAX_COORDINATE <= child.maxs[k as int] <= MAX_COORDINATE);
        assert(-2 * MAX_COORDINATE <= region.mins[k as int] <= 2 * MAX_COORDINATE);
        let c = region.mins[k] + region.maxs[k];
        assert(c == center_twice(*region, k as int));
        if c < 2 * child.mins[k] || c > 2 * child.maxs[k] {
            return false;
        }
        k += 1;
    }
    true
}

/// The square of twice the distance along one axis.
fn gap_sq(child: &Aabb, region: &SimulationBounds, k: usize) -> (r: u128)
    requires
        child.bounded(),
        region.bounded(),
        k < 3,
    ensures
        r == gap_twice(*child, *region, k as int) * gap_twice(*child, *region, k as int),
        r <= 0x4000_0000_0000_0000_0000_0000_0000_0000u128,
{
    assert(-MAX_COORDINATE <= child.mins[k as int] <= MAX_COORDINATE);
    assert(-MAX_COORDINATE <= child.maxs[k as int] <= MAX_COORDINATE);
    assert(-2 * MAX_COORDINATE <= region.mins[k as int] <= 2 * MAX_COORDINATE);
    let c = region.mins[k] + region.maxs[k];
    assert(c == center_twice(*region, k as int));
    let gap: i64 = if c < 2 * child.mins[k] {
        2 * child.mins[k] - c
    } else if c > 2 * child.maxs[k] {
        c - 2 * child.maxs[k]
    } else {
        0
    };
    let g = gap as u128;
    assert(g * g <= 0x4000_0000_0000_0000_0000_0000_0000_0000u128) by (nonlinear_arith)
        requires
            0 <= g <= 0x8000_0000_0000_0000u128,
    ;
    g * g
}

/// Four times the square of the distance from the centre of `region` to `child`.
fn distance_to(child: &Aabb, region: &SimulationBounds) -> (r: u128)
    requires
        child.bounded(),
        region.bounded(),
    ensures
        r == distance_sq(*child, *region),
{
    gap_sq(child, region, 0) + gap_sq(child, region, 1) + gap_sq(child, region, 2)
}

/// The child that gets `region`, where there is a child at all.
pub fn child_for_region(children: &Vec<Aabb>, region: &SimulationBounds) -> (r: Option<usize>)
    requires
        all_bounded(children@),
        region.bounded(),
    ensures
        r.is_some() == (children@.len() > 0),
        r.is_some() ==> is_child_for(children@, *region, r.unwrap() as int),
{
    let n = children.len();
    let mut i: usize = 0;
    while i < n
        invariant
            i <= n,
            n == children@.len(),
            all_bounded(children@),
            region.bounded(),
            forall|j: int| 0 <= j < i ==> !holds_center(#[trigger] children@[j], *region),
        decreases n - i,
    {
        assert(children@[i as int].bounded());
        if has_center(&children[i], region) {
            return Some(i);
        }
        i += 1;
    }
    if n == 0 {
        return None;
    }
    // The region lies outside of all the boxes: the nearest box gets it.
    assert(children@[0].bounded());
    let mut best: usize = 0;
    let mut closest = distance_to(&children[0], region);
    let mut j: usize = 1;
    while j < n
        invariant
            1 <= j <= n,
            n == children@.len(),
            all_bounded(children@),
            region.bounded(),
            best < j,
            closest == distance_sq(children@[best as int], *region),
            forall|k: int| 0 <= k < best ==> distance_sq(#[trigger] children@[k], *region) > closest,
            forall|k: int|
                best < k < j ==> distance_sq(#[trigger] children@[k], *region) >= closest,
        decreases n - j,
    {
        assert(children@[j as int].bounded());
        let d = distance_to(&children[j], region);
        if d < closest {
            closest = d;
            best = j;
        }
        j += 1;
    }
    Some(best)
}

/// Only one child gets a region.
pub proof fn lemma_child_unique(children: Seq<Aabb>, region: SimulationBounds, i: int)
    requires
        is_child_for(children, region, i),
    ensures
        forall|j: int| #[trigger] is_child_for(children, region, j) ==> j == i,
{
    assert forall|j: int| #[trigger] is_child_for(children, region, j) implies j == i by {
        if j < i {
            if holds_center(children[i], region) {
                assert(!holds_center(children[j], region));
                assert(distance_sq(children[j], region) > distance_sq(children[j], region));
            } else {
                assert(distance_sq(children[j], region) > distance_sq(children[i], region));
                assert(distance_sq(children[i], region) >= distance_sq(children[j], region));
            }
        } else if i < j {
            if holds_center(children[j], region) {
                assert(!holds_center(children[i], region));
                assert(distance_sq(children[i], region) > distance_sq(children[i], region));
            } else {
                assert(distance_sq(children[i], region) > distance_sq(children[j], region));
                assert(distance_sq(children[j], region) >= distance_sq(children[i], region));
            }
        }
    }
}

} // verus!
