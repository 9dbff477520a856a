//! Point types and the point capability trait.
//!
//! Every concrete point representation exposes a 3D position; all derived
//! geometry (axis access, squared distances) is computed from positions alone.
//! Coordinates are fixed-point integers: callers pick a unit (for example a
//! thousandth of a metre) and scale once at the boundary.

use vstd::prelude::*;

verus! {

/// Largest magnitude a coordinate may have; keeps every squared distance
/// representable in a u128 without overflow.
pub const COORD_LIMIT: i64 = 0x2000_0000_0000_0000;

/// A 3D position in fixed-point coordinates.
#[derive(Clone, Copy, Debug, PartialEq, Eq, Structural, Hash)]
pub struct Position {
    pub x: i64,
    pub y: i64,
    pub z: i64,
}

/// Square of an integer.
pub open spec fn sq(v: int) -> int {
    v * v
}

/// Coordinate of `p` on the given axis (0 = x, 1 = y, anything else = z).
pub open spec fn axis_of(p: Position, axis: int) -> int {
    if axis == 0 {
        p.x as int
    } else if axis == 1 {
        p.y as int
    } else {
        p.z as int
    }
}

/// Squared Euclidean distance between two positions.
pub open spec fn dist_sq(a: Position, b: Position) -> int {
    sq(a.x - b.x) + sq(a.y - b.y) + sq(a.z - b.z)
}

/// Whether every coordinate of `p` is within the representable range.
pub open spec fn in_range(p: Position) -> bool {
    &&& -COORD_LIMIT <= p.x <= COORD_LIMIT
    &&& -COORD_LIMIT <= p.y <= COORD_LIMIT
    &&& -COORD_LIMIT <= p.z <= COORD_LIMIT
}

/// A square of a value bounded by `b` is bounded by `b * b`.
pub proof fn lemma_sq_bound(v: int, b: int)
    requires
        -b <= v <= b,
    ensures
        0 <= sq(v) <= b * b,
{
    assert(0 <= v * v <= b * b) by (nonlinear_arith)
        requires
            -b <= v <= b,
    ;
}

/// Squares never shrink when the base grows in magnitude on the same side.
pub proof fn lemma_sq_monotone(u: int, v: int)
    requires
        0 <= u <= v || v <= u <= 0,
    ensures
        sq(u) <= sq(v),
{
    assert(u * u <= v * v) by (nonlinear_arith)
        requires
            0 <= u <= v || v <= u <= 0,
    ;
}

/// The squared distance dominates the squared gap on any single axis.
pub proof fn lemma_dist_sq_ge_axis(a: Position, b: Position, axis: int)
    ensures
        dist_sq(a, b) >= sq(axis_of(a, axis) - axis_of(b, axis)),
        dist_sq(a, b) >= 0,
{
    lemma_sq_bound(a.x - b.x, if a.x - b.x >= 0 { a.x - b.x } else { b.x - a.x });
    lemma_sq_bound(a.y - b.y, if a.y - b.y >= 0 { a.y - b.y } else { b.y - a.y });
    lemma_sq_bound(a.z - b.z, if a.z - b.z >= 0 { a.z - b.z } else { b.z - a.z });
}

/// Squared distance between two in-range positions, exact per `dist_sq`.
pub fn distance_squared(a: Position, b: Position) -> (r: u128)
    requires
        in_range(a),
        in_range(b),
    ensures
        r == dist_sq(a, b),
{
    proof {
        lemma_sq_bound(a.x - b.x, 2 * COORD_LIMIT);
        lemma_sq_bound(a.y - b.y, 2 * COORD_LIMIT);
        lemma_sq_bound(a.z - b.z, 2 * COORD_LIMIT);
        assert((2 * (COORD_LIMIT as int)) * (2 * (COORD_LIMIT as int))
            == 0x10000000000000000000000000000000int) by (nonlinear_arith);
    }
    let dx: i128 = a.x as i128 - b.x as i128;
    let dy: i128 = a.y as i128 - b.y as i128;
    let dz: i128 = a.z as i128 - b.z as i128;
    proof {
        assert(dx * dx == sq(a.x - b.x) && dy * dy == sq(a.y - b.y) && dz * dz == sq(a.z - b.z));
    }
    (dx * dx) as u128 + (dy * dy) as u128 + (dz * dz) as u128
}

/// Squares grow strictly with the base, away from zero.
pub proof fn lemma_sq_strict(u: int, v: int)
    requires
        0 <= u < v || v < u <= 0,
    ensures
        sq(u) < sq(v),
{
    assert(u * u < v * v) by (nonlinear_arith)
        requires
            0 <= u < v || v < u <= 0,
    ;
}

/// Squaring ignores the sign of a difference.
pub proof fn lemma_sq_swap(a: int, b: int)
    ensures
        sq(a - b) == sq(b - a),
{
    assert((a - b) * (a - b) == (b - a) * (b - a)) by (nonlinear_arith);
}

/// Squared gap between two in-range axis values, exact per `sq`.
pub fn axis_gap_sq(qv: i64, nv: i64) -> (r: u128)
    requires
        -COORD_LIMIT <= qv <= COORD_LIMIT,
        -COORD_LIMIT <= nv <= COORD_LIMIT,
    ensures
        r == sq(qv - nv),
{
    proof {
        lemma_sq_bound(qv - nv, 2 * COORD_LIMIT);
        assert((2 * (COORD_LIMIT as int)) * (2 * (COORD_LIMIT as int))
            == 0x10000000000000000000000000000000int) by (nonlinear_arith);
    }
    let g: i128 = qv as i128 - nv as i128;
    proof {
        assert(g * g == sq(qv - nv));
    }
    (g * g) as u128
}

/// Squared distance is symmetric.
pub proof fn lemma_dist_sq_symmetric(a: Position, b: Position)
    ensures
        dist_sq(a, b) == dist_sq(b, a),
{
    lemma_sq_swap(a.x as int, b.x as int);
    lemma_sq_swap(a.y as int, b.y as int);
    lemma_sq_swap(a.z as int, b.z as int);
}

/// Floor square root: the largest integer whose square does not exceed `x`.
pub fn isqrt_u128(x: u128) -> (r: u64)
    requires
        x < 0x4000_0000_0000_0000_0000_0000_0000_0000,
    ensures
        (r as int) * (r as int) <= x < (r as int + 1) * (r as int + 1),
{
    let mut lo: u64 = 0;
    let mut hi: u64 = 0x8000_0000_0000_0000;
    proof {
        assert((hi as int) * (hi as int) == 0x4000_0000_0000_0000_0000_0000_0000_0000int)
            by (nonlinear_arith)
            requires
                hi == 0x8000_0000_0000_0000u64,
        ;
    }
    while hi - lo > 1
        invariant
            lo < hi <= 0x8000_0000_0000_0000,
            (lo as int) * (lo as int) <= x,
            x < (hi as int) * (hi as int),
        decreases hi - lo,
    {
        let mid = lo + (hi - lo) / 2;
        proof {
            assert(lo < mid < hi);
            assert((mid as int) * (mid as int) <= 0x4000_0000_0000_0000_0000_0000_0000_0000int)
                by (nonlinear_arith)
                requires
                    mid <= 0x8000_0000_0000_0000u64,
            ;
        }
        if (mid as u128) * (mid as u128) <= x {
            lo = mid;
        } else {
            hi = mid;
        }
    }
    lo
}

/// The capability every point representation must provide: a 3D position.
pub trait Point: Sized {
    /// The position this point stands at.
    spec fn spec_position(self) -> Position;

    /// Yield the position.
    fn position(&self) -> (r: Position)
        ensures
            r == self.spec_position(),
    ;

    /// An exact copy of this point.
    fn cloned(&self) -> (r: Self)
        ensures
            r == *self,
    ;

    /// The x coordinate.
    fn x(&self) -> (r: i64)
        ensures
            r == self.spec_position().x,
    {
        self.position().x
    }

    /// The y coordinate.
    fn y(&self) -> (r: i64)
        ensures
            r == self.spec_position().y,
    {
        self.position().y
    }

    /// The z coordinate.
    fn z(&self) -> (r: i64)
        ensures
            r == self.spec_position().z,
    {
        self.position().z
    }

    /// Squared distance to another point.
    fn distance_squared_to(&self, other: &Self) -> (r: u128)
        requires
            in_range(self.spec_position()),
            in_range(other.spec_position()),
        ensures
            r == dist_sq(self.spec_position(), other.spec_position()),
    {
        distance_squared(self.position(), other.position())
    }

    /// Distance to another point, rounded down to a whole coordinate unit.
    fn distance_to(&self, other: &Self) -> (r: u64)
        requires
            in_range(self.spec_position()),
            in_range(other.spec_position()),
        ensures
            (r as int) * (r as int) <= dist_sq(self.spec_position(), other.spec_position()) < (
            r as int + 1) * (r as int + 1),
    {
        let d = distance_squared(self.position(), other.position());
        proof {
            lemma_sq_bound(self.spec_position().x - other.spec_position().x, 2 * COORD_LIMIT);
            lemma_sq_bound(self.spec_position().y - other.spec_position().y, 2 * COORD_LIMIT);
            lemma_sq_bound(self.spec_position().z - other.spec_position().z, 2 * COORD_LIMIT);
            assert((2 * (COORD_LIMIT as int)) * (2 * (COORD_LIMIT as int))
                == 0x10000000000000000000000000000000int) by (nonlinear_arith);
        }
        isqrt_u128(d)
    }
}

/// Basic 3D point with XYZ coordinates.
#[derive(Clone, Copy, Debug, PartialEq, Eq, Structural)]
pub struct PointXYZ {
    pub x: i64,
    pub y: i64,
    pub z: i64,
}

impl PointXYZ {
    /// Create a new PointXYZ.
    pub fn new(x: i64, y: i64, z: i64) -> (r: Self)
        ensures
            r == (PointXYZ { x, y, z }),
    {
        Self { x, y, z }
    }

    /// Create a point at the origin.
    pub fn origin() -> (r: Self)
        ensures
            r == (PointXYZ { x: 0i64, y: 0i64, z: 0i64 }),
    {
        Self::new(0, 0, 0)
    }

    /// Create from an array of coordinates.
    pub fn from_array(coords: [i64; 3]) -> (r: Self)
        ensures
            r == (PointXYZ { x: coords[0], y: coords[1], z: coords[2] }),
    {
        Self::new(coords[0], coords[1], coords[2])
    }
}

impl Point for PointXYZ {
    open spec fn spec_position(self) -> Position {
        Position { x: self.x, y: self.y, z: self.z }
    }

    fn position(&self) -> (r: Position) {
        Position { x: self.x, y: self.y, z: self.z }
    }

    fn cloned(&self) -> (r: Self) {
        Self { x: self.x, y: self.y, z: self.z }
    }
}

impl Default for PointXYZ {
    fn default() -> (r: Self)
        ensures
            r == (PointXYZ { x: 0i64, y: 0i64, z: 0i64 }),
    {
        Self::origin()
    }
}

/// 3D point with XYZ coordinates and an RGB color.
#[derive(Clone, Copy, Debug, PartialEq, Eq, Structural)]
pub struct PointXYZRGB {
    pub x: i64,
    pub y: i64,
    pub z: i64,
    pub r: u8,
    pub g: u8,
    pub b: u8,
}

impl PointXYZRGB {
    /// Create a new PointXYZRGB.
    pub fn new(x: i64, y: i64, z: i64, r: u8, g: u8, b: u8) -> (res: Self)
        ensures
            res == (PointXYZRGB { x, y, z, r, g, b }),
    {
        Self { x, y, z, r, g, b }
    }

    /// Create from coordinates and a packed RGB word.
    pub fn from_coords_and_rgb(x: i64, y: i64, z: i64, rgb: u32) -> (res: Self)
        ensures
            res.x == x,
            res.y == y,
            res.z == z,
            res.r == ((rgb >> 16u32) & 0xFFu32) as u8,
            res.g == ((rgb >> 8u32) & 0xFFu32) as u8,
            res.b == (rgb & 0xFFu32) as u8,
    {
        let r = ((rgb >> 16u32) & 0xFFu32) as u8;
        let g = ((rgb >> 8u32) & 0xFFu32) as u8;
        let b = (rgb & 0xFFu32) as u8;
        Self::new(x, y, z, r, g, b)
    }

    /// Get the color as a packed RGB word.
    pub fn rgb(&self) -> (res: u32)
        ensures
            res == ((self.r as u32) << 16u32) | ((self.g as u32) << 8u32) | (self.b as u32),
    {
        ((self.r as u32) << 16u32) | ((self.g as u32) << 8u32) | (self.b as u32)
    }
}

impl Point for PointXYZRGB {
    open spec fn spec_position(self) -> Position {
        Position { x: self.x, y: self.y, z: self.z }
    }

    fn position(&self) -> (r: Position) {
        Position { x: self.x, y: self.y, z: self.z }
    }

    fn cloned(&self) -> (r: Self) {
        Self { x: self.x, y: self.y, z: self.z, r: self.r, g: self.g, b: self.b }
    }
}

impl Default for PointXYZRGB {
    fn default() -> (res: Self)
        ensures
            res == (PointXYZRGB { x: 0i64, y: 0i64, z: 0i64, r: 0u8, g: 0u8, b: 0u8 }),
    {
        Self::new(0, 0, 0, 0, 0, 0)
    }
}

/// 3D point with XYZ coordinates, an RGB color, and a normal vector.
///
/// The normal components use the same fixed-point convention as positions.
#[derive(Clone, Copy, Debug, PartialEq, Eq, Structural)]
pub struct PointXYZRGBNormal {
    pub x: i64,
    pub y: i64,
    pub z: i64,
    pub r: u8,
    pub g: u8,
    pub b: u8,
    pub normal_x: i64,
    pub normal_y: i64,
    pub normal_z: i64,
}

impl PointXYZRGBNormal {
    /// Create a new PointXYZRGBNormal.
    pub fn new(
        x: i64,
        y: i64,
        z: i64,
        r: u8,
        g: u8,
        b: u8,
        normal_x: i64,
        normal_y: i64,
        normal_z: i64,
    ) -> (res: Self)
        ensures
            res == (PointXYZRGBNormal { x, y, z, r, g, b, normal_x, normal_y, normal_z }),
    {
        Self { x, y, z, r, g, b, normal_x, normal_y, normal_z }
    }

    /// Get the normal vector.
    pub fn normal(&self) -> (res: [i64; 3])
        ensures
            res[0] == self.normal_x,
            res[1] == self.normal_y,
            res[2] == self.normal_z,
    {
        [self.normal_x, self.normal_y, self.normal_z]
    }

    /// Get the color as a packed RGB word.
    pub fn rgb(&self) -> (res: u32)
        ensures
            res == ((self.r as u32) << 16u32) | ((self.g as u32) << 8u32) | (self.b as u32),
    {
        ((self.r as u32) << 16u32) | ((self.g as u32) << 8u32) | (self.b as u32)
    }
}

impl Point for PointXYZRGBNormal {
    open spec fn spec_position(self) -> Position {
        Position { x: self.x, y: self.y, z: self.z }
    }

    fn position(&self) -> (r: Position) {
        Position { x: self.x, y: self.y, z: self.z }
    }

    fn cloned(&self) -> (r: Self) {
        Self {
            x: self.x,
            y: self.y,
            z: self.z,
            r: self.r,
            g: self.g,
            b: self.b,
            normal_x: self.normal_x,
            normal_y: self.normal_y,
            normal_z: self.normal_z,
        }
    }
}

impl Default for PointXYZRGBNormal {
    fn default() -> (res: Self)
        ensures
            res == (PointXYZRGBNormal {
                x: 0i64,
                y: 0i64,
                z: 0i64,
                r: 0u8,
                g: 0u8,
                b: 0u8,
                normal_x: 0i64,
                normal_y: 0i64,
                normal_z: 1i64,
            }),
    {
        Self::new(0, 0, 0, 0, 0, 0, 0, 0, 1)
    }
}

} // verus!
