use vstd::prelude::*;

verus! {

/// Largest magnitude of a coordinate difference between two `i32` values, plus one.
pub const DIFF_BOUND: i64 = 0x1_0000_0000;

/// A point of the drawing plane. Coordinates are fixed-point integers in a unit
/// chosen by the caller; two points are the same only when both coordinates are.
#[derive(Clone, Copy, Debug, PartialEq, Eq, Structural)]
pub struct Point {
    pub x: i32,
    pub y: i32,
}

/// A displacement between two points.
#[derive(Clone, Copy, Debug, PartialEq, Eq, Structural)]
pub struct Vector {
    pub x: i64,
    pub y: i64,
}

/// Squared euclidean distance between two points.
pub open spec fn sq_dist(a: Point, b: Point) -> int {
    (a.x - b.x) * (a.x - b.x) + (a.y - b.y) * (a.y - b.y)
}

impl Point {
    pub fn new(x: i32, y: i32) -> (r: Point)
        ensures
            r.x == x,
            r.y == y,
    {
        Point { x, y }
    }

    /// The vector from `other` to `self`.
    pub fn minus(self, other: Point) -> (r: Vector)
        ensures
            r.x == self.x - other.x,
            r.y == self.y - other.y,
            r.fits(),
    {
        Vector { x: self.x as i64 - other.x as i64, y: self.y as i64 - other.y as i64 }
    }
}

impl Vector {
    /// Both components are differences of two `i32` values.
    pub open spec fn fits(self) -> bool {
        -DIFF_BOUND < self.x < DIFF_BOUND && -DIFF_BOUND < self.y < DIFF_BOUND
    }

    pub open spec fn sq_len(self) -> int {
        self.x * self.x + self.y * self.y
    }

    pub open spec fn cross_spec(self, w: Vector) -> int {
        self.x * w.y - self.y * w.x
    }

    /// The vector pointing the other way.
    pub fn negate(self) -> (r: Vector)
        requires
            self.fits(),
        ensures
            r.x == -self.x,
            r.y == -self.y,
            r.fits(),
    {
        Vector { x: -self.x, y: -self.y }
    }

    pub fn square_length(self) -> (r: u128)
        requires
            self.fits(),
        ensures
            r == self.sq_len(),
            r < 0x2_0000_0000_0000_0000,
    {
        let ax: u128 = if self.x < 0 { (-self.x) as u128 } else { self.x as u128 };
        let ay: u128 = if self.y < 0 { (-self.y) as u128 } else { self.y as u128 };
        assert(ax * ax == self.x * self.x) by (nonlinear_arith)
            requires ax == self.x || ax == -self.x;
        assert(ay * ay == self.y * self.y) by (nonlinear_arith)
            requires ay == self.y || ay == -self.y;
        assert(ax * ax < 0x1_0000_0000_0000_0000) by (nonlinear_arith)
            requires ax < 0x1_0000_0000;
        assert(ay * ay < 0x1_0000_0000_0000_0000) by (nonlinear_arith)
            requires ay < 0x1_0000_0000;
        ax * ax + ay * ay
    }

    /// The z-component of the cross product `self × w`.
    pub fn cross(self, w: Vector) -> (r: i128)
        requires
            self.fits(),
            w.fits(),
        ensures
            r == self.cross_spec(w),
            -0x2_0000_0000_0000_0000 < r < 0x2_0000_0000_0000_0000,
    {
        let a: i128 = self.x as i128;
        let b: i128 = self.y as i128;
        let c: i128 = w.x as i128;
        let d: i128 = w.y as i128;
        assert(-0x1_0000_0000_0000_0000 < a * d < 0x1_0000_0000_0000_0000) by (nonlinear_arith)
            requires -0x1_0000_0000 < a < 0x1_0000_0000, -0x1_0000_0000 < d < 0x1_0000_0000;
        assert(-0x1_0000_0000_0000_0000 < b * c < 0x1_0000_0000_0000_0000) by (nonlinear_arith)
            requires -0x1_0000_0000 < b < 0x1_0000_0000, -0x1_0000_0000 < c < 0x1_0000_0000;
        a * d - b * c
    }
}

} // verus!
