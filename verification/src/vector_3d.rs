//! 3D vectors with integer coordinates.
//!
//! Cell centers and sweep directions are held as integer fixed-point
//! coordinates, so that the orientation test (the sign of a dot product)
//! is exact.

use vstd::prelude::*;

verus! {

/// Largest magnitude allowed for a single coordinate. Bounding the
/// coordinates keeps differences and dot products inside `i64`.
pub const COORD_BOUND: i64 = 0x1000_0000;

/// A point or direction in 3D space, in integer coordinates.
#[derive(Clone, Copy, PartialEq, Eq, Structural, Debug, Hash)]
pub struct Vector3D {
    pub x: i64,
    pub y: i64,
    pub z: i64,
}

impl Vector3D {
    /// All three coordinates are within `COORD_BOUND` in magnitude.
    pub open spec fn in_bounds(self) -> bool {
        -COORD_BOUND <= self.x <= COORD_BOUND
            && -COORD_BOUND <= self.y <= COORD_BOUND
            && -COORD_BOUND <= self.z <= COORD_BOUND
    }

    /// The mathematical dot product of two vectors.
    pub open spec fn spec_dot(self, other: Vector3D) -> int {
        self.x * other.x + self.y * other.y + self.z * other.z
    }

    /// Tests the coordinate bound at run time.
    pub fn check_bounds(&self) -> (r: bool)
        ensures
            r == self.in_bounds(),
    {
        -COORD_BOUND <= self.x && self.x <= COORD_BOUND && -COORD_BOUND <= self.y && self.y
            <= COORD_BOUND && -COORD_BOUND <= self.z && self.z <= COORD_BOUND
    }

    pub fn new(x: i64, y: i64, z: i64) -> (r: Vector3D)
        ensures
            r == (Vector3D { x, y, z }),
    {
        Vector3D { x, y, z }
    }

    /// Componentwise difference `self - other`.
    pub fn sub(&self, other: &Vector3D) -> (r: Vector3D)
        requires
            self.in_bounds(),
            other.in_bounds(),
        ensures
            r.x == self.x - other.x,
            r.y == self.y - other.y,
            r.z == self.z - other.z,
    {
        Vector3D { x: self.x - other.x, y: self.y - other.y, z: self.z - other.z }
    }

    /// Exact dot product; the coordinate bounds keep it inside `i64`.
    pub fn dot(&self, other: &Vector3D) -> (r: i64)
        requires
            -2 * COORD_BOUND <= self.x <= 2 * COORD_BOUND,
            -2 * COORD_BOUND <= self.y <= 2 * COORD_BOUND,
            -2 * COORD_BOUND <= self.z <= 2 * COORD_BOUND,
            other.in_bounds(),
        ensures
            r == self.spec_dot(*other),
    {
        proof {
            lemma_mul_bound(self.x as int, other.x as int);
            lemma_mul_bound(self.y as int, other.y as int);
            lemma_mul_bound(self.z as int, other.z as int);
        }
        self.x * other.x + self.y * other.y + self.z * other.z
    }
}

/// Bound on a product of two bounded factors.
proof fn lemma_mul_bound(a: int, b: int)
    requires
        -2 * COORD_BOUND <= a <= 2 * COORD_BOUND,
        -COORD_BOUND <= b <= COORD_BOUND,
    ensures
        -2 * COORD_BOUND * COORD_BOUND <= a * b <= 2 * COORD_BOUND * COORD_BOUND,
{
    assert(-2 * COORD_BOUND * COORD_BOUND <= a * b <= 2 * COORD_BOUND * COORD_BOUND)
        by (nonlinear_arith)
        requires
            -2 * COORD_BOUND <= a <= 2 * COORD_BOUND,
            -COORD_BOUND <= b <= COORD_BOUND,
    ;
}

} // verus!
