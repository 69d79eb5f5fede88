//! Regions: the cells of the grid that tiles simulation space, their order,
//! their neighbours and their names in the store.

use crate::api_types::ids::{uuid_hyphenated, uuid_text};
use crate::api_types::partitionner::SceneUuid;
use crate::geometry::{point_bounded, Aabb, Point, MAX_COORDINATE};
use crate::text::{
    chars_of, decimal, decimal_digits, field, find_sep, joined, lemma_decimal_free,
    lemma_fields_of_joined, lemma_parse_decimal, lemma_single_field, parse_i64, push_i64,
    push_u64, read_i64_field, rest_after,
};
use std::cmp::Ordering;
use vstd::prelude::*;

verus! {

broadcast use vstd::array::group_array_axioms;

/// The bounds of a region, in simulation units.
///
/// Regions are ordered by their lower corner, axis after axis. Wherever a body
/// could belong to several regions, this order decides.
#[derive(Copy, Clone, Debug, Eq, Hash)]
pub struct SimulationBounds {
    pub mins: Point,
    pub maxs: Point,
}

impl PartialEq for SimulationBounds {
    fn eq(&self, other: &Self) -> (r: bool) {
        let r = self.mins[0] == other.mins[0] && self.mins[1] == other.mins[1] && self.mins[2]
            == other.mins[2] && self.maxs[0] == other.maxs[0] && self.maxs[1] == other.maxs[1]
            && self.maxs[2] == other.maxs[2];
        proof {
            if r {
                assert(self.mins =~= other.mins);
                assert(self.maxs =~= other.maxs);
            }
        }
        r
    }
}

impl vstd::std_specs::cmp::PartialEqSpecImpl for SimulationBounds {
    open spec fn obeys_eq_spec() -> bool {
        true
    }

    open spec fn eq_spec(&self, other: &Self) -> bool {
        *self == *other
    }
}

/// The bounds of a region as forty-eight bytes: the six coordinates, lower
/// corner first, each in the byte order of the machine.
#[derive(Copy, Clone, Debug, PartialEq)]
pub struct SimulationBoundsU8 {
    pub bytes: [u8; 48],
}

/// The number from 0 to 2^64 - 1 that has the sixty-four bits of `v`.
pub open spec fn bits_of(v: i64) -> int {
    if v >= 0 {
        v as int
    } else {
        v + 0x1_0000_0000_0000_0000
    }
}

/// What the `k`-th of the eight bytes of a coordinate counts for, the least
/// significant byte being the first: 256 to the power `k`.
pub open spec fn place_value(k: int) -> int {
    if k == 0 {
        0x1
    } else if k == 1 {
        0x100
    } else if k == 2 {
        0x1_0000
    } else if k == 3 {
        0x100_0000
    } else if k == 4 {
        0x1_0000_0000
    } else if k == 5 {
        0x100_0000_0000
    } else if k == 6 {
        0x1_0000_0000_0000
    } else {
        0x100_0000_0000_0000
    }
}

/// The `k`-th byte of `v`, the least significant byte being the first.
pub open spec fn byte_of(v: i64, k: int) -> u8 {
    ((bits_of(v) / place_value(k)) % 256) as u8
}

/// The eight bytes of `v`: the most significant one first where
/// `big_endian`, the least significant one first where not.
pub open spec fn coordinate_bytes(v: i64, big_endian: bool) -> Seq<u8> {
    Seq::new(
        8,
        |k: int|
            if big_endian {
                byte_of(v, 7 - k)
            } else {
                byte_of(v, k)
            },
    )
}

/// The forty-eight bytes of two corners: the eight bytes of each coordinate,
/// the coordinates of `mins` before those of `maxs`.
pub open spec fn corner_bytes(mins: Point, maxs: Point, big_endian: bool) -> Seq<u8> {
    coordinate_bytes(mins[0], big_endian) + coordinate_bytes(mins[1], big_endian)
        + coordinate_bytes(mins[2], big_endian) + coordinate_bytes(maxs[0], big_endian)
        + coordinate_bytes(maxs[1], big_endian) + coordinate_bytes(maxs[2], big_endian)
}

/// `bytemuck::cast`, from the two corners to their bytes: the memory of the
/// six coordinates, read byte by byte. A coordinate lies in memory in the byte
/// order of the machine, which is one of two: the result is the bytes of the
/// coordinates least significant byte first, or most significant byte first.
#[verifier::external_body]
fn cast_corners(corners: [[i64; 3]; 2]) -> (bytes: [u8; 48])
    ensures
        bytes@ == corner_bytes(corners[0], corners[1], false) || bytes@ == corner_bytes(
            corners[0],
            corners[1],
            true,
        ),
{
    bytemuck::cast(corners)
}

/// Whether `a` comes strictly before `b` in the order of regions: the lower
/// corners are compared axis after axis.
pub open spec fn region_lt(a: SimulationBounds, b: SimulationBounds) -> bool {
    a.mins[0] < b.mins[0] || (a.mins[0] == b.mins[0] && (a.mins[1] < b.mins[1] || (a.mins[1]
        == b.mins[1] && a.mins[2] < b.mins[2])))
}

impl PartialOrd for SimulationBounds {
    fn partial_cmp(&self, other: &Self) -> (r: Option<Ordering>) {
        let mut k: usize = 0;
        while k < 3
            invariant
                k <= 3,
                forall|j: int| 0 <= j < k ==> self.mins[j] == other.mins[j],
            decreases 3 - k,
        {
            if self.mins[k] < other.mins[k] {
                return Some(Ordering::Less);
            } else if self.mins[k] > other.mins[k] {
                return Some(Ordering::Greater);
            }
            k += 1;
        }
        Some(Ordering::Equal)
    }
}

impl vstd::std_specs::cmp::PartialOrdSpecImpl for SimulationBounds {
    open spec fn obeys_partial_cmp_spec() -> bool {
        true
    }

    open spec fn partial_cmp_spec(&self, other: &Self) -> Option<Ordering> {
        if region_lt(*self, *other) {
            Some(Ordering::Less)
        } else if region_lt(*other, *self) {
            Some(Ordering::Greater)
        } else {
            Some(Ordering::Equal)
        }
    }
}

impl Default for SimulationBounds {
    fn default() -> (r: Self)
        ensures
            r == SimulationBounds::default_spec(),
    {
        let r = SimulationBounds { mins: [-10_000, -10_000, -10_000], maxs: [10_000, 10_000, 10_000] };
        assert(r.mins =~= SimulationBounds::default_spec().mins);
        assert(r.maxs =~= SimulationBounds::default_spec().maxs);
        r
    }
}

/// The start of the grid cell of edge `width` that holds the coordinate `e`.
pub open spec fn cell_start(e: int, width: int) -> int {
    (e / width) * width
}

/// Whether `e` and `width` are such that the cell of `e` can be computed in 64 bits.
pub open spec fn width_in_range(width: u64) -> bool {
    0 < width <= MAX_COORDINATE
}

/// The start of the grid cell that holds `e`.
pub fn cell_start_of(e: i64, width: u64) -> (r: i64)
    requires
        width_in_range(width),
        -MAX_COORDINATE <= e <= MAX_COORDINATE,
    ensures
        r == cell_start(e as int, width as int),
        r <= e < r + width,
{
    let ghost w = width as int;
    let ghost q = e as int / w;
    proof {
        vstd::arithmetic::div_mod::lemma_fundamental_div_mod(e as int, w);
        vstd::arithmetic::div_mod::lemma_mod_bound(e as int, w);
        assert(q * w == w * q) by (nonlinear_arith);
    }
    if e >= 0 {
        let cells: u64 = (e as u64) / width;
        assert(cells as int == q);
        assert(cells * width <= e) by (nonlinear_arith)
            requires
                cells == (e as int) / (width as int),
                e >= 0,
                width > 0,
        ;
        (cells * width) as i64
    } else {
        // Round the magnitude up, so that the cell starts at or below `e`.
        let magnitude: u64 = (-e) as u64;
        let cells: u64 = (magnitude + (width - 1)) / width;
        assert(-(cells as int) == q && cells * width < magnitude + width) by (nonlinear_arith)
            requires
                cells == (magnitude + (width - 1)) / (width as int),
                magnitude == -(e as int),
                q == (e as int) / (width as int),
                width > 0,
                magnitude > 0,
        ;
        assert((-(cells as int)) * w == -(cells * width)) by (nonlinear_arith)
            requires
                w == width as int,
        ;
        -((cells * width) as i64)
    }
}

impl SimulationBounds {
    /// The edge of a region where nothing else is said.
    pub const DEFAULT_WIDTH: u64 = 100;

    /// The bounds that `default` returns.
    pub open spec fn default_spec() -> SimulationBounds {
        SimulationBounds {
            mins: [(-10_000) as i64, (-10_000) as i64, (-10_000) as i64],
            maxs: [10_000i64, 10_000i64, 10_000i64],
        }
    }

    /// The bounds that come before all others.
    pub open spec fn smallest_spec() -> SimulationBounds {
        SimulationBounds { mins: [i64::MIN, i64::MIN, i64::MIN], maxs: [i64::MIN, i64::MIN, i64::MIN] }
    }

    /// The region of edge `width` whose cell holds `point`.
    pub open spec fn from_point_spec(point: Point, width: u64) -> SimulationBounds {
        SimulationBounds {
            mins: [
                cell_start(point[0] as int, width as int) as i64,
                cell_start(point[1] as int, width as int) as i64,
                cell_start(point[2] as int, width as int) as i64,
            ],
            maxs: [
                (cell_start(point[0] as int, width as int) + width) as i64,
                (cell_start(point[1] as int, width as int) + width) as i64,
                (cell_start(point[2] as int, width as int) + width) as i64,
            ],
        }
    }

    /// The forty-eight bytes of the six coordinates, the lower corner first,
    /// each coordinate most significant byte first where `big_endian` and
    /// least significant byte first where not.
    pub open spec fn bytes_of(&self, big_endian: bool) -> Seq<u8> {
        corner_bytes(self.mins, self.maxs, big_endian)
    }

    /// The same extent as a box.
    pub open spec fn aabb_spec(&self) -> Aabb {
        Aabb { mins: self.mins, maxs: self.maxs }
    }

    /// The bounds that come before all others: no region is smaller.
    pub fn smallest() -> (r: Self)
        ensures
            r == Self::smallest_spec(),
    {
        let r = SimulationBounds {
            mins: [i64::MIN, i64::MIN, i64::MIN],
            maxs: [i64::MIN, i64::MIN, i64::MIN],
        };
        assert(r.mins =~= Self::smallest_spec().mins);
        assert(r.maxs =~= Self::smallest_spec().maxs);
        r
    }

    /// The region of edge `region_width` whose cell holds the upper corner of
    /// `aabb`, as the box gives it. Of a measured extent, whose box is rounded
    /// outwards, the owner is `from_point` of the upper corner rounded down.
    pub fn from_aabb(aabb: &Aabb, region_width: u64) -> (r: Self)
        requires
            width_in_range(region_width),
            point_bounded(aabb.maxs),
        ensures
            r == Self::from_point_spec(aabb.maxs, region_width),
    {
        Self::from_point(aabb.maxs, region_width)
    }

    /// The region of edge `region_width` whose cell holds `point`.
    pub fn from_point(point: Point, region_width: u64) -> (r: Self)
        requires
            width_in_range(region_width),
            point_bounded(point),
        ensures
            r == Self::from_point_spec(point, region_width),
    {
        let x = cell_start_of(point[0], region_width);
        let y = cell_start_of(point[1], region_width);
        let z = cell_start_of(point[2], region_width);
        let w = region_width as i64;
        let r = SimulationBounds { mins: [x, y, z], maxs: [x + w, y + w, z + w] };
        assert(r.mins =~= Self::from_point_spec(point, region_width).mins);
        assert(r.maxs =~= Self::from_point_spec(point, region_width).maxs);
        r
    }

    /// The coordinates as bytes, in the byte order of the machine: the eight
    /// bytes of each coordinate, the lower corner first. On a machine that
    /// puts the least significant byte first these are `bytes_of(false)`, on
    /// any other `bytes_of(true)`.
    pub fn as_bytes(&self) -> (r: SimulationBoundsU8)
        ensures
            r.bytes@ == self.bytes_of(false) || r.bytes@ == self.bytes_of(true),
    {
        let corners = [self.mins, self.maxs];
        assert(corners[0] == self.mins && corners[1] == self.maxs);
        SimulationBoundsU8 { bytes: cast_corners(corners) }
    }

    /// The same extent as a box.
    pub fn aabb(&self) -> (r: Aabb)
        ensures
            r == self.aabb_spec(),
    {
        Aabb { mins: self.mins, maxs: self.maxs }
    }

    /// Whether this region and `aabb` share a point.
    pub fn intersects_aabb(&self, aabb: &Aabb) -> (r: bool)
        ensures
            r == self.aabb_spec().intersects_spec(aabb),
    {
        self.aabb().intersects(aabb)
    }

    /// Whether the region that owns `aabb` comes before this one.
    pub fn is_in_smaller_region(&self, aabb: &Aabb) -> (r: bool)
        requires
            point_bounded(aabb.maxs),
        ensures
            r == region_lt(Self::from_point_spec(aabb.maxs, Self::DEFAULT_WIDTH), *self),
    {
        Self::from_aabb(aabb, Self::DEFAULT_WIDTH) < *self
    }

    /// Whether the region that owns `aabb` comes after this one.
    pub fn intersects_master_region(&self, aabb: &Aabb) -> (r: bool)
        requires
            point_bounded(aabb.maxs),
        ensures
            r == region_lt(*self, Self::from_point_spec(aabb.maxs, Self::DEFAULT_WIDTH)),
    {
        Self::from_aabb(aabb, Self::DEFAULT_WIDTH) > *self
    }

    /// The edge of this region along the axis `k`.
    pub open spec fn extent(&self, k: int) -> int {
        self.maxs[k] - self.mins[k]
    }

    /// The bounds moved by `shift[k]` edges along each axis `k`.
    pub open spec fn shifted(&self, shift: Point) -> SimulationBounds {
        SimulationBounds {
            mins: [
                (self.mins[0] + shift[0] * self.extent(0)) as i64,
                (self.mins[1] + shift[1] * self.extent(1)) as i64,
                (self.mins[2] + shift[2] * self.extent(2)) as i64,
            ],
            maxs: [
                (self.maxs[0] + shift[0] * self.extent(0)) as i64,
                (self.maxs[1] + shift[1] * self.extent(1)) as i64,
                (self.maxs[2] + shift[2] * self.extent(2)) as i64,
            ],
        }
    }

    /// Whether the bounds moved by `shift` can be computed in 64 bits.
    pub open spec fn shift_fits(&self, shift: Point) -> bool {
        forall|k: int|
            0 <= k < 3 ==> {
                &&& i64::MIN <= #[trigger] self.extent(k) <= i64::MAX
                &&& i64::MIN <= shift[k] * self.extent(k) <= i64::MAX
                &&& i64::MIN <= self.mins[k] + shift[k] * self.extent(k) <= i64::MAX
                &&& i64::MIN <= self.maxs[k] + shift[k] * self.extent(k) <= i64::MAX
            }
    }

    /// Whether all coordinates are within twice `MAX_COORDINATE` of zero, as
    /// those of every region around a bounded point are.
    pub open spec fn bounded(&self) -> bool {
        forall|k: int|
            0 <= k < 3 ==> {
                &&& -2 * MAX_COORDINATE <= #[trigger] self.mins[k] <= 2 * MAX_COORDINATE
                &&& -2 * MAX_COORDINATE <= self.maxs[k] <= 2 * MAX_COORDINATE
            }
    }

    /// Whether the upper corner is beyond the lower one along every axis.
    pub open spec fn has_volume(&self) -> bool {
        forall|k: int| 0 <= k < 3 ==> #[trigger] self.mins[k] < self.maxs[k]
    }

    /// Decides `bounded`.
    pub fn is_bounded(&self) -> (r: bool)
        ensures
            r == self.bounded(),
    {
        let mut k: usize = 0;
        while k < 3
            invariant
                k <= 3,
                forall|j: int|
                    0 <= j < k ==> {
                        &&& -2 * MAX_COORDINATE <= #[trigger] self.mins[j] <= 2 * MAX_COORDINATE
                        &&& -2 * MAX_COORDINATE <= self.maxs[j] <= 2 * MAX_COORDINATE
                    },
            decreases 3 - k,
        {
            if self.mins[k] < -2 * MAX_COORDINATE || self.mins[k] > 2 * MAX_COORDINATE
                || self.maxs[k] < -2 * MAX_COORDINATE || self.maxs[k] > 2 * MAX_COORDINATE {
                return false;
            }
            k += 1;
        }
        true
    }

    /// Decides `has_volume`.
    pub fn is_solid(&self) -> (r: bool)
        ensures
            r == self.has_volume(),
    {
        let mut k: usize = 0;
        while k < 3
            invariant
                k <= 3,
                forall|j: int| 0 <= j < k ==> #[trigger] self.mins[j] < self.maxs[j],
            decreases 3 - k,
        {
            if self.mins[k] >= self.maxs[k] {
                return false;
            }
            k += 1;
        }
        true
    }

    fn grid_extents(&self) -> (r: Point)
        requires
            forall|k: int| 0 <= k < 3 ==> i64::MIN <= #[trigger] self.extent(k) <= i64::MAX,
        ensures
            forall|k: int| 0 <= k < 3 ==> #[trigger] r[k] == self.extent(k),
    {
        assert(i64::MIN <= self.extent(0) <= i64::MAX);
        assert(i64::MIN <= self.extent(1) <= i64::MAX);
        assert(i64::MIN <= self.extent(2) <= i64::MAX);
        [self.maxs[0] - self.mins[0], self.maxs[1] - self.mins[1], self.maxs[2] - self.mins[2]]
    }

    /// The bounds of the region that lies `shift[k]` regions away along each axis `k`.
    pub fn relative_neighbor(&self, shift: Point) -> (r: Self)
        requires
            self.shift_fits(shift),
        ensures
            r == self.shifted(shift),
    {
        let extents = self.grid_extents();
        assert(extents[0] == self.extent(0) && extents[1] == self.extent(1) && extents[2]
            == self.extent(2));
        let r = SimulationBounds {
            mins: [
                self.mins[0] + shift[0] * extents[0],
                self.mins[1] + shift[1] * extents[1],
                self.mins[2] + shift[2] * extents[2],
            ],
            maxs: [
                self.maxs[0] + shift[0] * extents[0],
                self.maxs[1] + shift[1] * extents[1],
                self.maxs[2] + shift[2] * extents[2],
            ],
        };
        assert(r.mins =~= self.shifted(shift).mins);
        assert(r.maxs =~= self.shifted(shift).maxs);
        r
    }

    /// The region one edge away, or none, along each axis.
    fn unit_neighbor(&self, i: i64, j: i64, k: i64) -> (r: Self)
        requires
            self.bounded(),
            -1 <= i <= 1,
            -1 <= j <= 1,
            -1 <= k <= 1,
        ensures
            r == self.shifted([i, j, k]),
            r.mins[0] == self.mins[0] + i * self.extent(0),
            r.mins[1] == self.mins[1] + j * self.extent(1),
            r.mins[2] == self.mins[2] + k * self.extent(2),
            r.maxs[0] == self.maxs[0] + i * self.extent(0),
            r.maxs[1] == self.maxs[1] + j * self.extent(1),
            r.maxs[2] == self.maxs[2] + k * self.extent(2),
    {
        let shift: Point = [i, j, k];
        proof {
            self.lemma_unit_shifts_fit();
            assert(forall|a: int| 0 <= a < 3 ==> -1 <= #[trigger] shift[a] <= 1);
            assert(self.shift_fits(shift));
        }
        self.relative_neighbor(shift)
    }

    /// The shift to the `n`-th of the seven neighbours that
    /// `neighbors_to_watch` lists: all triples of 0 and 1 in ascending order,
    /// the zero triple left out.
    pub open spec fn watch_shift(n: int) -> Point {
        let m = n + 1;
        [(m / 4) as i64, ((m / 2) % 2) as i64, (m % 2) as i64]
    }

    /// The seven neighbours that lie no lower than this region along any
    /// axis. Where the region has an extent along every axis, each comes
    /// after it in the order of regions.
    pub fn neighbors_to_watch(&self) -> (r: [Self; 7])
        requires
            self.bounded(),
        ensures
            forall|n: int| 0 <= n < 7 ==> #[trigger] r[n] == self.shifted(Self::watch_shift(n)),
            self.has_volume() ==> forall|n: int| 0 <= n < 7 ==> region_lt(*self, #[trigger] r[n]),
    {
        let r = [
            self.unit_neighbor(0, 0, 1),
            self.unit_neighbor(0, 1, 0),
            self.unit_neighbor(0, 1, 1),
            self.unit_neighbor(1, 0, 0),
            self.unit_neighbor(1, 0, 1),
            self.unit_neighbor(1, 1, 0),
            self.unit_neighbor(1, 1, 1),
        ];
        proof {
            if self.has_volume() {
                assert(self.mins[0] < self.maxs[0] && self.mins[1] < self.maxs[1] && self.mins[2]
                    < self.maxs[2]);
            }
        }
        assert(r[0] == self.shifted(Self::watch_shift(0)) && (self.has_volume() ==> region_lt(
            *self,
            r[0],
        ))) by {
            let listed: Point = [0i64, 0i64, 1i64];
            assert(Self::watch_shift(0) =~= listed);
        }
        assert(r[1] == self.shifted(Self::watch_shift(1)) && (self.has_volume() ==> region_lt(
            *self,
            r[1],
        ))) by {
            let listed: Point = [0i64, 1i64, 0i64];
            assert(Self::watch_shift(1) =~= listed);
        }
        assert(r[2] == self.shifted(Self::watch_shift(2)) && (self.has_volume() ==> region_lt(
            *self,
            r[2],
        ))) by {
            let listed: Point = [0i64, 1i64, 1i64];
            assert(Self::watch_shift(2) =~= listed);
        }
        assert(r[3] == self.shifted(Self::watch_shift(3)) && (self.has_volume() ==> region_lt(
            *self,
            r[3],
        ))) by {
            let listed: Point = [1i64, 0i64, 0i64];
            assert(Self::watch_shift(3) =~= listed);
        }
        assert(r[4] == self.shifted(Self::watch_shift(4)) && (self.has_volume() ==> region_lt(
            *self,
            r[4],
        ))) by {
            let listed: Point = [1i64, 0i64, 1i64];
            assert(Self::watch_shift(4) =~= listed);
        }
        assert(r[5] == self.shifted(Self::watch_shift(5)) && (self.has_volume() ==> region_lt(
            *self,
            r[5],
        ))) by {
            let listed: Point = [1i64, 1i64, 0i64];
            assert(Self::watch_shift(5) =~= listed);
        }
        assert(r[6] == self.shifted(Self::watch_shift(6)) && (self.has_volume() ==> region_lt(
            *self,
            r[6],
        ))) by {
            let listed: Point = [1i64, 1i64, 1i64];
            assert(Self::watch_shift(6) =~= listed);
        }
        r
    }

    /// The shift of the `n`-th of the twenty-six neighbours: all triples of
    /// -1, 0 and 1 in ascending order, the zero triple left out.
    pub open spec fn neighbor_shift(n: int) -> Point {
        let m = if n < 13 {
            n
        } else {
            n + 1
        };
        [(m / 9 - 1) as i64, ((m / 3) % 3 - 1) as i64, (m % 3 - 1) as i64]
    }

    /// The `n`-th shift, coordinate by coordinate.
    proof fn lemma_neighbor_shift(n: int, i: i64, j: i64, k: i64)
        requires
            0 <= n < 26,
            i == (if n < 13 { n } else { n + 1 }) / 9 - 1,
            j == ((if n < 13 { n } else { n + 1 }) / 3) % 3 - 1,
            k == (if n < 13 { n } else { n + 1 }) % 3 - 1,
        ensures
            Self::neighbor_shift(n) == [i, j, k],
    {
        let listed: Point = [i, j, k];
        assert(Self::neighbor_shift(n) =~= listed);
    }

    /// All twenty-six regions that touch this one.
    #[verifier::rlimit(60)]
    #[verifier::spinoff_prover]
    pub fn all_neighbors(&self) -> (r: [Self; 26])
        requires
            self.bounded(),
        ensures
            forall|n: int| 0 <= n < 26 ==> #[trigger] r[n] == self.shifted(Self::neighbor_shift(n)),
    {
        let r = [
            self.unit_neighbor(-1, -1, -1),
            self.unit_neighbor(-1, -1, 0),
            self.unit_neighbor(-1, -1, 1),
            self.unit_neighbor(-1, 0, -1),
            self.unit_neighbor(-1, 0, 0),
            self.unit_neighbor(-1, 0, 1),
            self.unit_neighbor(-1, 1, -1),
            self.unit_neighbor(-1, 1, 0),
            self.unit_neighbor(-1, 1, 1),
            self.unit_neighbor(0, -1, -1),
            self.unit_neighbor(0, -1, 0),
            self.unit_neighbor(0, -1, 1),
            self.unit_neighbor(0, 0, -1),
            self.unit_neighbor(0, 0, 1),
            self.unit_neighbor(0, 1, -1),
            self.unit_neighbor(0, 1, 0),
            self.unit_neighbor(0, 1, 1),
            self.unit_neighbor(1, -1, -1),
            self.unit_neighbor(1, -1, 0),
            self.unit_neighbor(1, -1, 1),
            self.unit_neighbor(1, 0, -1),
            self.unit_neighbor(1, 0, 0),
            self.unit_neighbor(1, 0, 1),
            self.unit_neighbor(1, 1, -1),
            self.unit_neighbor(1, 1, 0),
            self.unit_neighbor(1, 1, 1),
        ];
        assert(r[0] == self.shifted(Self::neighbor_shift(0))) by {
            Self::lemma_neighbor_shift(0, (-1) as i64, (-1) as i64, (-1) as i64);
        }
        assert(r[1] == self.shifted(Self::neighbor_shift(1))) by {
            Self::lemma_neighbor_shift(1, (-1) as i64, (-1) as i64, 0i64);
        }
        assert(r[2] == self.shifted(Self::neighbor_shift(2))) by {
            Self::lemma_neighbor_shift(2, (-1) as i64, (-1) as i64, 1i64);
        }
        assert(r[3] == self.shifted(Self::neighbor_shift(3))) by {
            Self::lemma_neighbor_shift(3, (-1) as i64, 0i64, (-1) as i64);
        }
        assert(r[4] == self.shifted(Self::neighbor_shift(4))) by {
            Self::lemma_neighbor_shift(4, (-1) as i64, 0i64, 0i64);
        }
        assert(r[5] == self.shifted(Self::neighbor_shift(5))) by {
            Self::lemma_neighbor_shift(5, (-1) as i64, 0i64, 1i64);
        }
        assert(r[6] == self.shifted(Self::neighbor_shift(6))) by {
            Self::lemma_neighbor_shift(6, (-1) as i64, 1i64, (-1) as i64);
        }
        assert(r[7] == self.shifted(Self::neighbor_shift(7))) by {
            Self::lemma_neighbor_shift(7, (-1) as i64, 1i64, 0i64);
        }
        assert(r[8] == self.shifted(Self::neighbor_shift(8))) by {
            Self::lemma_neighbor_shift(8, (-1) as i64, 1i64, 1i64);
        }
        assert(r[9] == self.shifted(Self::neighbor_shift(9))) by {
            Self::lemma_neighbor_shift(9, 0i64, (-1) as i64, (-1) as i64);
        }
        assert(r[10] == self.shifted(Self::neighbor_shift(10))) by {
            Self::lemma_neighbor_shift(10, 0i64, (-1) as i64, 0i64);
        }
        assert(r[11] == self.shifted(Self::neighbor_shift(11))) by {
            Self::lemma_neighbor_shift(11, 0i64, (-1) as i64, 1i64);
        }
        assert(r[12] == self.shifted(Self::neighbor_shift(12))) by {
            Self::lemma_neighbor_shift(12, 0i64, 0i64, (-1) as i64);
        }
        assert(r[13] == self.shifted(Self::neighbor_shift(13))) by {
            Self::lemma_neighbor_shift(13, 0i64, 0i64, 1i64);
        }
        assert(r[14] == self.shifted(Self::neighbor_shift(14))) by {
            Self::lemma_neighbor_shift(14, 0i64, 1i64, (-1) as i64);
        }
        assert(r[15] == self.shifted(Self::neighbor_shift(15))) by {
            Self::lemma_neighbor_shift(15, 0i64, 1i64, 0i64);
        }
        assert(r[16] == self.shifted(Self::neighbor_shift(16))) by {
            Self::lemma_neighbor_shift(16, 0i64, 1i64, 1i64);
        }
        assert(r[17] == self.shifted(Self::neighbor_shift(17))) by {
            Self::lemma_neighbor_shift(17, 1i64, (-1) as i64, (-1) as i64);
        }
        assert(r[18] == self.shifted(Self::neighbor_shift(18))) by {
            Self::lemma_neighbor_shift(18, 1i64, (-1) as i64, 0i64);
        }
        assert(r[19] == self.shifted(Self::neighbor_shift(19))) by {
            Self::lemma_neighbor_shift(19, 1i64, (-1) as i64, 1i64);
        }
        assert(r[20] == self.shifted(Self::neighbor_shift(20))) by {
            Self::lemma_neighbor_shift(20, 1i64, 0i64, (-1) as i64);
        }
        assert(r[21] == self.shifted(Self::neighbor_shift(21))) by {
            Self::lemma_neighbor_shift(21, 1i64, 0i64, 0i64);
        }
        assert(r[22] == self.shifted(Self::neighbor_shift(22))) by {
            Self::lemma_neighbor_shift(22, 1i64, 0i64, 1i64);
        }
        assert(r[23] == self.shifted(Self::neighbor_shift(23))) by {
            Self::lemma_neighbor_shift(23, 1i64, 1i64, (-1) as i64);
        }
        assert(r[24] == self.shifted(Self::neighbor_shift(24))) by {
            Self::lemma_neighbor_shift(24, 1i64, 1i64, 0i64);
        }
        assert(r[25] == self.shifted(Self::neighbor_shift(25))) by {
            Self::lemma_neighbor_shift(25, 1i64, 1i64, 1i64);
        }
        r
    }

    /// A region within twice `MAX_COORDINATE` can be moved by one edge along
    /// any axes without leaving 64 bits.
    pub proof fn lemma_unit_shifts_fit(&self)
        requires
            self.bounded(),
        ensures
            forall|shift: Point|
                (forall|k: int| 0 <= k < 3 ==> -1 <= #[trigger] shift[k] <= 1)
                    ==> #[trigger] self.shift_fits(shift),
    {
        assert forall|shift: Point|
            (forall|k: int| 0 <= k < 3 ==> -1 <= #[trigger] shift[k] <= 1)
            implies #[trigger] self.shift_fits(shift) by {
            assert forall|k: int| 0 <= k < 3 implies {
                &&& i64::MIN <= #[trigger] self.extent(k) <= i64::MAX
                &&& i64::MIN <= shift[k] * self.extent(k) <= i64::MAX
                &&& i64::MIN <= self.mins[k] + shift[k] * self.extent(k) <= i64::MAX
                &&& i64::MIN <= self.maxs[k] + shift[k] * self.extent(k) <= i64::MAX
            } by {
                assert(-2 * MAX_COORDINATE <= self.mins[k] <= 2 * MAX_COORDINATE);
                assert(-1 <= shift[k] <= 1);
                let e = self.extent(k);
                assert(shift[k] * e == 0 || shift[k] * e == e || shift[k] * e == -e)
                    by (nonlinear_arith)
                    requires
                        -1 <= shift[k] <= 1,
                ;
            }
        }
    }
}

/// The number that the `k`-th field between underscores spells in `s`.
pub open spec fn number_field(s: Seq<char>, k: nat) -> Option<i64> {
    match field(s, '_', k) {
        Some(f) => parse_i64(f),
        None => None,
    }
}

/// The bounds that a text names: six numbers between underscores, lower
/// corner first, with one more field, which is not read, between the corners.
/// Fields behind the seventh are not read either.
pub open spec fn parse_region(s: Seq<char>) -> Option<SimulationBounds> {
    if number_field(s, 0).is_some() && number_field(s, 1).is_some() && number_field(s, 2).is_some()
        && number_field(s, 4).is_some() && number_field(s, 5).is_some() && number_field(
        s,
        6,
    ).is_some() {
        Some(
            SimulationBounds {
                mins: [
                    number_field(s, 0).unwrap(),
                    number_field(s, 1).unwrap(),
                    number_field(s, 2).unwrap(),
                ],
                maxs: [
                    number_field(s, 4).unwrap(),
                    number_field(s, 5).unwrap(),
                    number_field(s, 6).unwrap(),
                ],
            },
        )
    } else {
        None
    }
}

impl SimulationBounds {
    /// The name of these bounds in keys: the six coordinates in decimal, the
    /// lower corner first, joined by `_`, with `__` between the corners.
    pub open spec fn text(&self) -> Seq<char> {
        joined(
            decimal(self.mins[0] as int),
            '_',
            joined(
                decimal(self.mins[1] as int),
                '_',
                joined(
                    decimal(self.mins[2] as int),
                    '_',
                    joined(
                        Seq::empty(),
                        '_',
                        joined(
                            decimal(self.maxs[0] as int),
                            '_',
                            joined(decimal(self.maxs[1] as int), '_', decimal(self.maxs[2] as int)),
                        ),
                    ),
                ),
            ),
        )
    }

    /// The key of the command queue of this region in `scene`.
    pub open spec fn queue_key_text(&self, scene: SceneUuid) -> Seq<char> {
        "runner/"@ + uuid_hyphenated(scene.0) + "/"@ + self.text()
    }

    /// The key under which the worker `node` answers for the watch set of this region.
    pub open spec fn watch_key_text(&self, node: u128) -> Seq<char> {
        "steadyum/watch/"@ + uuid_hyphenated(node) + "?"@ + self.text()
    }

    /// The key under which the snapshot of this region is asked for, as of `step_id`.
    pub open spec fn client_objects_key_text(&self, scene: SceneUuid, step_id: u64) -> Seq<char> {
        "steadyum/client_bodies/"@ + uuid_hyphenated(scene.0) + "?"@ + self.text() + "&"@
            + decimal_digits(step_id as nat)
    }

    /// Appends the name of these bounds to `out`.
    fn push_text(&self, out: &mut String)
        ensures
            final(out)@ == old(out)@ + self.text(),
    {
        proof {
            reveal_strlit("_");
            reveal_strlit("__");
            assert("_"@ =~= seq!['_']);
            assert("__"@ =~= seq!['_', '_']);
        }
        let ghost sep = seq!['_'];
        let ghost t6 = decimal(self.maxs[2] as int);
        let ghost t5 = joined(decimal(self.maxs[1] as int), '_', t6);
        let ghost t4 = joined(decimal(self.maxs[0] as int), '_', t5);
        let ghost t3 = joined(Seq::empty(), '_', t4);
        let ghost t2 = joined(decimal(self.mins[2] as int), '_', t3);
        let ghost t1 = joined(decimal(self.mins[1] as int), '_', t2);
        push_i64(out, self.mins[0]);
        out.append("_");
        let ghost g1 = out@;
        push_i64(out, self.mins[1]);
        out.append("_");
        let ghost g2 = out@;
        push_i64(out, self.mins[2]);
        out.append("__");
        let ghost g4 = out@;
        push_i64(out, self.maxs[0]);
        out.append("_");
        let ghost g5 = out@;
        push_i64(out, self.maxs[1]);
        out.append("_");
        let ghost g6 = out@;
        push_i64(out, self.maxs[2]);
        proof {
            assert(out@ == g6 + t6);
            assert(g6 + t6 =~= g5 + t5);
            assert(g5 + t5 =~= g4 + t4);
            assert(g4 + t4 =~= g2 + t2) by {
                assert(seq!['_', '_'] =~= sep + Seq::<char>::empty() + sep);
                assert(t2 =~= decimal(self.mins[2] as int) + sep + (Seq::<char>::empty() + sep + t4));
            }
            assert(g2 + t2 =~= g1 + t1);
            assert(g1 + t1 =~= old(out)@ + self.text());
        }
    }

    /// The name of these bounds in keys.
    pub fn to_string(&self) -> (s: String)
        ensures
            s@ == self.text(),
    {
        let mut s = String::new();
        self.push_text(&mut s);
        assert(s@ =~= self.text());
        s
    }

    /// The bounds that `str` names, if it names any.
    pub fn from_str(str: &str) -> (r: Option<Self>)
        ensures
            r == parse_region(str@),
    {
        let chars = chars_of(str);
        let ghost s = str@;
        assert(chars@.skip(0) =~= s);
        assert(rest_after(s, '_', 0) == Some(chars@.skip(0)));
        let (v0, n0) = read_i64_field(&chars, 0, '_');
        let (Some(v0), Some(at1)) = (v0, n0) else {
            assert(number_field(s, 0).is_none() || number_field(s, 1).is_none());
            return None;
        };
        assert(rest_after(s, '_', 1) == Some(chars@.skip(at1 as int)));
        let (v1, n1) = read_i64_field(&chars, at1, '_');
        let (Some(v1), Some(at2)) = (v1, n1) else {
            assert(number_field(s, 1).is_none() || number_field(s, 2).is_none());
            return None;
        };
        assert(rest_after(s, '_', 2) == Some(chars@.skip(at2 as int)));
        let (v2, n2) = read_i64_field(&chars, at2, '_');
        let (Some(v2), Some(at3)) = (v2, n2) else {
            assert(rest_after(s, '_', 4) == None::<Seq<char>> || number_field(s, 2).is_none());
            assert(number_field(s, 2).is_none() || number_field(s, 4).is_none());
            return None;
        };
        assert(rest_after(s, '_', 3) == Some(chars@.skip(at3 as int)));
        let e3 = find_sep(&chars, at3, '_');
        if e3 >= chars.len() {
            assert(number_field(s, 4).is_none());
            return None;
        }
        let at4 = e3 + 1;
        assert(chars@.skip(at4 as int) =~= chars@.skip(at3 as int).skip(e3 - at3 + 1));
        assert(rest_after(s, '_', 4) == Some(chars@.skip(at4 as int)));
        let (v4, n4) = read_i64_field(&chars, at4, '_');
        let (Some(v4), Some(at5)) = (v4, n4) else {
            assert(number_field(s, 4).is_none() || number_field(s, 5).is_none());
            return None;
        };
        assert(rest_after(s, '_', 5) == Some(chars@.skip(at5 as int)));
        let (v5, n5) = read_i64_field(&chars, at5, '_');
        let (Some(v5), Some(at6)) = (v5, n5) else {
            assert(number_field(s, 5).is_none() || number_field(s, 6).is_none());
            return None;
        };
        assert(rest_after(s, '_', 6) == Some(chars@.skip(at6 as int)));
        let (v6, _) = read_i64_field(&chars, at6, '_');
        let Some(v6) = v6 else {
            assert(number_field(s, 6).is_none());
            return None;
        };
        let r = SimulationBounds { mins: [v0, v1, v2], maxs: [v4, v5, v6] };
        assert(r.mins =~= parse_region(s).unwrap().mins);
        assert(r.maxs =~= parse_region(s).unwrap().maxs);
        Some(r)
    }

    /// The key of the command queue of this region in `scene`.
    pub fn zenoh_queue_key(&self, scene: SceneUuid) -> (key: String)
        ensures
            key@ == self.queue_key_text(scene),
    {
        let mut key = String::from_str("runner/");
        let id = uuid_text(scene.0);
        key.append(id.as_str());
        key.append("/");
        self.push_text(&mut key);
        key
    }

    /// The key under which the worker `node` answers for the watch set of this region.
    pub fn watch_kvs_key(&self, node: u128) -> (key: String)
        ensures
            key@ == self.watch_key_text(node),
    {
        let mut key = String::from_str("steadyum/watch/");
        let id = uuid_text(node);
        key.append(id.as_str());
        key.append("?");
        self.push_text(&mut key);
        key
    }

    /// The key of the command queue of this region in `scene`.
    pub fn runner_key(&self, scene: SceneUuid) -> (key: String)
        ensures
            key@ == self.queue_key_text(scene),
    {
        self.zenoh_queue_key(scene)
    }

    /// The key under which the snapshot of this region is asked for, as of `step_id`.
    pub fn runner_client_objects_key(&self, scene: SceneUuid, step_id: u64) -> (key: String)
        ensures
            key@ == self.client_objects_key_text(scene, step_id),
    {
        let mut key = String::from_str("steadyum/client_bodies/");
        let id = uuid_text(scene.0);
        key.append(id.as_str());
        key.append("?");
        self.push_text(&mut key);
        key.append("&");
        push_u64(&mut key, step_id);
        key
    }

    /// Reading the name of bounds gives the bounds back.
    pub proof fn lemma_text_round_trip(&self)
        ensures
            parse_region(self.text()) == Some(*self),
    {
        let t6 = decimal(self.maxs[2] as int);
        let t5 = joined(decimal(self.maxs[1] as int), '_', t6);
        let t4 = joined(decimal(self.maxs[0] as int), '_', t5);
        let t3 = joined(Seq::empty(), '_', t4);
        let t2 = joined(decimal(self.mins[2] as int), '_', t3);
        let t1 = joined(decimal(self.mins[1] as int), '_', t2);
        let t0 = joined(decimal(self.mins[0] as int), '_', t1);
        lemma_number_field_last(self.maxs[2]);
        lemma_number_fields_joined(self.maxs[1], t6, 0);
        assert(number_field(t5, 0) == Some(self.maxs[1]) && number_field(t5, 1) == Some(
            self.maxs[2],
        ));
        lemma_number_fields_joined(self.maxs[0], t5, 0);
        lemma_number_fields_joined(self.maxs[0], t5, 1);
        assert(number_field(t4, 0) == Some(self.maxs[0]) && number_field(t4, 1) == Some(
            self.maxs[1],
        ) && number_field(t4, 2) == Some(self.maxs[2]));
        lemma_number_fields_gap(t4, 0);
        lemma_number_fields_gap(t4, 1);
        lemma_number_fields_gap(t4, 2);
        assert(number_field(t3, 1) == Some(self.maxs[0]) && number_field(t3, 2) == Some(
            self.maxs[1],
        ) && number_field(t3, 3) == Some(self.maxs[2]));
        lemma_number_fields_joined(self.mins[2], t3, 1);
        lemma_number_fields_joined(self.mins[2], t3, 2);
        lemma_number_fields_joined(self.mins[2], t3, 3);
        assert(number_field(t2, 0) == Some(self.mins[2]) && number_field(t2, 2) == Some(
            self.maxs[0],
        ) && number_field(t2, 3) == Some(self.maxs[1]) && number_field(t2, 4) == Some(
            self.maxs[2],
        ));
        lemma_number_fields_joined(self.mins[1], t2, 0);
        lemma_number_fields_joined(self.mins[1], t2, 2);
        lemma_number_fields_joined(self.mins[1], t2, 3);
        lemma_number_fields_joined(self.mins[1], t2, 4);
        assert(number_field(t1, 0) == Some(self.mins[1]) && number_field(t1, 1) == Some(
            self.mins[2],
        ) && number_field(t1, 3) == Some(self.maxs[0]) && number_field(t1, 4) == Some(
            self.maxs[1],
        ) && number_field(t1, 5) == Some(self.maxs[2]));
        lemma_number_fields_joined(self.mins[0], t1, 0);
        lemma_number_fields_joined(self.mins[0], t1, 1);
        lemma_number_fields_joined(self.mins[0], t1, 3);
        lemma_number_fields_joined(self.mins[0], t1, 4);
        lemma_number_fields_joined(self.mins[0], t1, 5);
        assert(self.text() == t0);
        assert(number_field(t0, 0) == Some(self.mins[0]));
        assert(number_field(t0, 1) == Some(self.mins[1]));
        assert(number_field(t0, 2) == Some(self.mins[2]));
        assert(number_field(t0, 4) == Some(self.maxs[0]));
        assert(number_field(t0, 5) == Some(self.maxs[1]));
        assert(number_field(t0, 6) == Some(self.maxs[2]));
        let r = parse_region(t0).unwrap();
        assert(r.mins =~= self.mins);
        assert(r.maxs =~= self.maxs);
    }
}

/// A number in front of a text is its first field, and shifts the others by one.
proof fn lemma_number_fields_joined(n: i64, rest: Seq<char>, k: nat)
    ensures
        number_field(joined(decimal(n as int), '_', rest), 0) == Some(n),
        number_field(joined(decimal(n as int), '_', rest), k + 1) == number_field(rest, k),
{
    lemma_decimal_free(n as int);
    lemma_parse_decimal(n);
    lemma_fields_of_joined(decimal(n as int), '_', rest, k);
}

/// An empty field in front of a text shifts its fields by one.
proof fn lemma_number_fields_gap(rest: Seq<char>, k: nat)
    ensures
        number_field(joined(Seq::empty(), '_', rest), k + 1) == number_field(rest, k),
{
    lemma_fields_of_joined(Seq::empty(), '_', rest, k);
}

/// A number alone is its own single field.
proof fn lemma_number_field_last(n: i64)
    ensures
        number_field(decimal(n as int), 0) == Some(n),
{
    lemma_decimal_free(n as int);
    lemma_parse_decimal(n);
    lemma_single_field(decimal(n as int), '_');
}

/// The end of the last grid cell of edge `width` that `e` reaches into: the
/// first start of a cell at or above `e`.
pub open spec fn cell_end(e: int, width: int) -> int {
    if cell_start(e, width) == e {
        e
    } else {
        cell_start(e, width) + width
    }
}

/// Whether `region` is one of the cells of edge `width` that `aabb` reaches
/// into: along each axis it starts at a cell start, no lower than the cell
/// that holds the lower corner of the box and below the upper corner.
pub open spec fn is_cell_under(aabb: Aabb, width: u64, region: SimulationBounds) -> bool {
    forall|k: int|
        0 <= k < 3 ==> {
            &&& is_cell_start(#[trigger] region.mins[k] as int, width as int)
            &&& cell_start(aabb.mins[k] as int, width as int) <= region.mins[k] < cell_end(
                aabb.maxs[k] as int,
                width as int,
            )
            &&& region.maxs[k] == region.mins[k] + width
        }
}

/// Whether a cell of edge `w` starts at `v`.
pub open spec fn is_cell_start(v: int, w: int) -> bool {
    v % w == 0
}

/// Whether `region` comes before the cell that starts at `(x, y, z)`.
pub open spec fn before_cell(region: SimulationBounds, x: int, y: int, z: int) -> bool {
    region.mins[0] < x || (region.mins[0] == x && (region.mins[1] < y || (region.mins[1] == y
        && region.mins[2] < z)))
}

/// Of two different cell starts, the greater is at least a cell away.
proof fn lemma_cell_starts_apart(a: int, b: int, w: int)
    requires
        w > 0,
        a % w == 0,
        b % w == 0,
        a < b,
    ensures
        a + w <= b,
        (a + w) % w == 0,
{
    vstd::arithmetic::div_mod::lemma_fundamental_div_mod(a, w);
    vstd::arithmetic::div_mod::lemma_fundamental_div_mod(b, w);
    let qa = a / w;
    let qb = b / w;
    assert(qa < qb) by (nonlinear_arith)
        requires
            w > 0,
            a == w * qa,
            b == w * qb,
            a < b,
    ;
    assert(w * (qa + 1) <= w * qb) by (nonlinear_arith)
        requires
            w > 0,
            qa + 1 <= qb,
    ;
    assert(w * (qa + 1) == a + w) by (nonlinear_arith)
        requires
            a == w * qa,
    ;
    vstd::arithmetic::div_mod::lemma_mod_multiples_basic(qa + 1, w);
    assert((qa + 1) * w == w * (qa + 1)) by (nonlinear_arith);
}

/// The start of a cell is a cell start.
proof fn lemma_cell_start_is_multiple(e: int, w: int)
    requires
        w > 0,
    ensures
        cell_start(e, w) % w == 0,
        cell_end(e, w) % w == 0,
        cell_start(e, w) <= e <= cell_end(e, w),
        cell_end(e, w) < e + w,
{
    vstd::arithmetic::div_mod::lemma_mod_multiples_basic(e / w, w);
    vstd::arithmetic::div_mod::lemma_fundamental_div_mod(e, w);
    vstd::arithmetic::div_mod::lemma_mod_bound(e, w);
    assert((e / w) * w == w * (e / w)) by (nonlinear_arith);
    if cell_start(e, w) != e {
        vstd::arithmetic::div_mod::lemma_mod_multiples_basic(e / w + 1, w);
        assert((e / w + 1) * w == (e / w) * w + w) by (nonlinear_arith);
    }
}

/// The first start of a cell at or above `e`.
fn cell_end_of(e: i64, width: u64) -> (r: i64)
    requires
        width_in_range(width),
        -MAX_COORDINATE <= e <= MAX_COORDINATE,
    ensures
        r == cell_end(e as int, width as int),
        e <= r < e + width,
{
    let start = cell_start_of(e, width);
    if start == e {
        e
    } else {
        start + width as i64
    }
}

/// The cell of edge `width` that starts at `(x, y, z)`.
fn cell_at(x: i64, y: i64, z: i64, width: u64) -> (r: SimulationBounds)
    requires
        width_in_range(width),
        -2 * MAX_COORDINATE <= x <= 2 * MAX_COORDINATE,
        -2 * MAX_COORDINATE <= y <= 2 * MAX_COORDINATE,
        -2 * MAX_COORDINATE <= z <= 2 * MAX_COORDINATE,
    ensures
        r.mins[0] == x && r.mins[1] == y && r.mins[2] == z,
        r.maxs[0] == x + width && r.maxs[1] == y + width && r.maxs[2] == z + width,
{
    let w = width as i64;
    SimulationBounds { mins: [x, y, z], maxs: [x + w, y + w, z + w] }
}

impl SimulationBounds {
    /// The cells of edge `region_width` that `aabb` reaches into, in the
    /// order of regions.
    pub fn intersecting_aabb(aabb: Aabb, region_width: u64) -> (result: Vec<Self>)
        requires
            width_in_range(region_width),
            aabb.bounded(),
        ensures
            forall|r: SimulationBounds| #[trigger]
                result@.contains(r) <==> is_cell_under(aabb, region_width, r),
            forall|i: int, j: int|
                0 <= i < j < result@.len() ==> region_lt(result@[i], result@[j]),
    {
        let ghost w = region_width as int;
        let step = region_width as i64;
        assert(-MAX_COORDINATE <= aabb.mins[0] <= MAX_COORDINATE && -MAX_COORDINATE
            <= aabb.mins[1] <= MAX_COORDINATE && -MAX_COORDINATE <= aabb.mins[2]
            <= MAX_COORDINATE);
        assert(-MAX_COORDINATE <= aabb.maxs[0] <= MAX_COORDINATE && -MAX_COORDINATE
            <= aabb.maxs[1] <= MAX_COORDINATE && -MAX_COORDINATE <= aabb.maxs[2]
            <= MAX_COORDINATE);
        let lo0 = cell_start_of(aabb.mins[0], region_width);
        let lo1 = cell_start_of(aabb.mins[1], region_width);
        let lo2 = cell_start_of(aabb.mins[2], region_width);
        let hi0 = cell_end_of(aabb.maxs[0], region_width);
        let hi1 = cell_end_of(aabb.maxs[1], region_width);
        let hi2 = cell_end_of(aabb.maxs[2], region_width);
        proof {
            lemma_cell_start_is_multiple(aabb.mins[0] as int, w);
            lemma_cell_start_is_multiple(aabb.mins[1] as int, w);
            lemma_cell_start_is_multiple(aabb.mins[2] as int, w);
            lemma_cell_start_is_multiple(aabb.maxs[0] as int, w);
            lemma_cell_start_is_multiple(aabb.maxs[1] as int, w);
            lemma_cell_start_is_multiple(aabb.maxs[2] as int, w);
        }
        let mut result: Vec<Self> = Vec::new();
        let mut x = lo0;
        while x < hi0
            invariant
                w == region_width as int,
                step == region_width as i64,
                width_in_range(region_width),
                aabb.bounded(),
                lo0 == cell_start(aabb.mins[0] as int, w),
                lo1 == cell_start(aabb.mins[1] as int, w),
                lo2 == cell_start(aabb.mins[2] as int, w),
                hi0 == cell_end(aabb.maxs[0] as int, w),
                hi1 == cell_end(aabb.maxs[1] as int, w),
                hi2 == cell_end(aabb.maxs[2] as int, w),
                is_cell_start(lo0 as int, w) && is_cell_start(lo1 as int, w) && is_cell_start(lo2 as int, w),
                is_cell_start(hi0 as int, w) && is_cell_start(hi1 as int, w) && is_cell_start(hi2 as int, w),
                -2 * MAX_COORDINATE <= lo0 && hi0 <= 2 * MAX_COORDINATE,
                -2 * MAX_COORDINATE <= lo1 && hi1 <= 2 * MAX_COORDINATE,
                -2 * MAX_COORDINATE <= lo2 && hi2 <= 2 * MAX_COORDINATE,
                lo0 <= x,
                x <= hi0 || x == lo0,
                is_cell_start(x as int, w),
                forall|r: SimulationBounds| #[trigger]
                    result@.contains(r) <==> is_cell_under(aabb, region_width, r) && before_cell(
                        r,
                        x as int,
                        lo1 as int,
                        lo2 as int,
                    ),
                forall|i: int, j: int|
                    0 <= i < j < result@.len() ==> region_lt(result@[i], result@[j]),
            decreases hi0 - x,
        {
            let mut y = lo1;
            while y < hi1
                invariant
                    w == region_width as int,
                    step == region_width as i64,
                    width_in_range(region_width),
                    aabb.bounded(),
                    lo0 == cell_start(aabb.mins[0] as int, w),
                    lo1 == cell_start(aabb.mins[1] as int, w),
                    lo2 == cell_start(aabb.mins[2] as int, w),
                    hi0 == cell_end(aabb.maxs[0] as int, w),
                    hi1 == cell_end(aabb.maxs[1] as int, w),
                    hi2 == cell_end(aabb.maxs[2] as int, w),
                    is_cell_start(lo0 as int, w) && is_cell_start(lo1 as int, w) && is_cell_start(lo2 as int, w),
                    is_cell_start(hi0 as int, w) && is_cell_start(hi1 as int, w) && is_cell_start(hi2 as int, w),
                    -2 * MAX_COORDINATE <= lo0 && hi0 <= 2 * MAX_COORDINATE,
                    -2 * MAX_COORDINATE <= lo1 && hi1 <= 2 * MAX_COORDINATE,
                    -2 * MAX_COORDINATE <= lo2 && hi2 <= 2 * MAX_COORDINATE,
                    lo0 <= x < hi0,
                    is_cell_start(x as int, w),
                    lo1 <= y,
                    y <= hi1 || y == lo1,
                    is_cell_start(y as int, w),
                    forall|r: SimulationBounds| #[trigger]
                        result@.contains(r) <==> is_cell_under(aabb, region_width, r)
                            && before_cell(r, x as int, y as int, lo2 as int),
                    forall|i: int, j: int|
                        0 <= i < j < result@.len() ==> region_lt(result@[i], result@[j]),
                decreases hi1 - y,
            {
                let mut z = lo2;
                while z < hi2
                    invariant
                        w == region_width as int,
                        step == region_width as i64,
                        width_in_range(region_width),
                        aabb.bounded(),
                        lo0 == cell_start(aabb.mins[0] as int, w),
                        lo1 == cell_start(aabb.mins[1] as int, w),
                        lo2 == cell_start(aabb.mins[2] as int, w),
                        hi0 == cell_end(aabb.maxs[0] as int, w),
                        hi1 == cell_end(aabb.maxs[1] as int, w),
                        hi2 == cell_end(aabb.maxs[2] as int, w),
                        is_cell_start(lo0 as int, w) && is_cell_start(lo1 as int, w) && is_cell_start(lo2 as int, w),
                        is_cell_start(hi0 as int, w) && is_cell_start(hi1 as int, w) && is_cell_start(hi2 as int, w),
                        -2 * MAX_COORDINATE <= lo0 && hi0 <= 2 * MAX_COORDINATE,
                        -2 * MAX_COORDINATE <= lo1 && hi1 <= 2 * MAX_COORDINATE,
                        -2 * MAX_COORDINATE <= lo2 && hi2 <= 2 * MAX_COORDINATE,
                        lo0 <= x < hi0,
                        is_cell_start(x as int, w),
                        lo1 <= y < hi1,
                        is_cell_start(y as int, w),
                        lo2 <= z,
                        z <= hi2 || z == lo2,
                        is_cell_start(z as int, w),
                        forall|r: SimulationBounds| #[trigger]
                            result@.contains(r) <==> is_cell_under(aabb, region_width, r)
                                && before_cell(r, x as int, y as int, z as int),
                        forall|i: int, j: int|
                            0 <= i < j < result@.len() ==> region_lt(result@[i], result@[j]),
                    decreases hi2 - z,
                {
                    let ghost listed = result@;
                    proof {
                        lemma_cell_starts_apart(z as int, hi2 as int, w);
                    }
                    let cell = cell_at(x, y, z, region_width);
                    result.push(cell);
                    proof {
                        assert(is_cell_under(aabb, region_width, cell)) by {
                            assert forall|k: int| 0 <= k < 3 implies {
                                &&& is_cell_start(#[trigger] cell.mins[k] as int, w)
                                &&& cell_start(aabb.mins[k] as int, w) <= cell.mins[k] < cell_end(
                                    aabb.maxs[k] as int,
                                    w,
                                )
                                &&& cell.maxs[k] == cell.mins[k] + region_width
                            } by {}
                        }
                        assert(result@[listed.len() as int] == cell);
                        assert forall|r: SimulationBounds| #[trigger]
                            result@.contains(r) <==> is_cell_under(aabb, region_width, r)
                                && before_cell(r, x as int, y as int, z + step) by {
                            if listed.contains(r) {
                                let i = choose|i: int| 0 <= i < listed.len() && listed[i] == r;
                                assert(result@[i] == r);
                            }
                            if result@.contains(r) {
                                let i = choose|i: int| 0 <= i < result@.len() && result@[i] == r;
                                if i < listed.len() {
                                    assert(listed[i] == r);
                                }
                            }
                            if is_cell_under(aabb, region_width, r) && before_cell(
                                r,
                                x as int,
                                y as int,
                                z + step,
                            ) && !before_cell(r, x as int, y as int, z as int) {
                                assert(is_cell_start(r.mins[0] as int, w) && is_cell_start(r.mins[1] as int, w) && is_cell_start(r.mins[2] as int, w));
                                assert(r.maxs[0] == r.mins[0] + region_width && r.maxs[1]
                                    == r.mins[1] + region_width && r.maxs[2] == r.mins[2]
                                    + region_width);
                                if r.mins[2] > z {
                                    lemma_cell_starts_apart(z as int, r.mins[2] as int, w);
                                }
                                assert(r.mins =~= cell.mins);
                                assert(r.maxs =~= cell.maxs);
                            }
                        }
                        assert forall|i: int, j: int| 0 <= i < j < result@.len() implies region_lt(
                            result@[i],
                            result@[j],
                        ) by {
                            if j == listed.len() {
                                assert(listed.contains(listed[i]));
                                assert(before_cell(listed[i], x as int, y as int, z as int));
                            }
                        }
                    }
                    z += step;
                }
                proof {
                    lemma_cell_starts_apart(y as int, hi1 as int, w);
                    assert forall|r: SimulationBounds| #[trigger]
                        result@.contains(r) <==> is_cell_under(aabb, region_width, r)
                            && before_cell(r, x as int, y + step, lo2 as int) by {
                        if is_cell_under(aabb, region_width, r) {
                            assert(is_cell_start(r.mins[0] as int, w) && is_cell_start(r.mins[1] as int, w) && is_cell_start(r.mins[2] as int, w));
                            assert(lo2 <= r.mins[2] < hi2);
                            if r.mins[1] > y {
                                lemma_cell_starts_apart(y as int, r.mins[1] as int, w);
                            }
                        }
                    }
                }
                y += step;
            }
            proof {
                lemma_cell_starts_apart(x as int, hi0 as int, w);
                assert forall|r: SimulationBounds| #[trigger]
                    result@.contains(r) <==> is_cell_under(aabb, region_width, r) && before_cell(
                        r,
                        x + step,
                        lo1 as int,
                        lo2 as int,
                    ) by {
                    if is_cell_under(aabb, region_width, r) {
                        assert(is_cell_start(r.mins[0] as int, w) && is_cell_start(r.mins[1] as int, w) && is_cell_start(r.mins[2] as int, w));
                        assert(lo1 <= r.mins[1] < hi1);
                        assert(lo2 <= r.mins[2] < hi2);
                        if r.mins[0] > x {
                            lemma_cell_starts_apart(x as int, r.mins[0] as int, w);
                        }
                    }
                }
            }
            x += step;
        }
        proof {
            assert forall|r: SimulationBounds| #[trigger]
                result@.contains(r) <==> is_cell_under(aabb, region_width, r) by {
                if is_cell_under(aabb, region_width, r) {
                    assert(lo0 <= r.mins[0] < hi0);
                }
            }
        }
        result
    }
}

} // verus!
