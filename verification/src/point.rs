//! Integer points on the grid.

use vstd::prelude::*;

verus! {

/// A position (or offset) on the integer grid.
#[derive(Copy, Clone, Eq, PartialEq, Hash, Debug, Structural)]
pub struct Point {
    pub x: i32,
    pub y: i32,
}

impl Point {
    pub fn zero() -> (r: Self)
        ensures
            r.x == 0 && r.y == 0,
    {
        Self { x: 0, y: 0 }
    }

    pub fn new(x: i32, y: i32) -> (r: Self)
        ensures
            r.x == x && r.y == y,
    {
        Self { x, y }
    }

    pub fn from_tuple(tuple: (i32, i32)) -> (r: Self)
        ensures
            r.x == tuple.0 && r.y == tuple.1,
    {
        Self { x: tuple.0, y: tuple.1 }
    }

    /// The squared Euclidean distance between two points.
    pub fn pythagorean_squared_distance(self, other: Point) -> (r: i32)
        requires
            i32::MIN <= self.x - other.x <= i32::MAX,
            i32::MIN <= self.y - other.y <= i32::MAX,
            (self.x - other.x) * (self.x - other.x) + (self.y - other.y) * (self.y - other.y)
                <= i32::MAX,
        ensures
            r == spec_squared_distance(self, other),
    {
        let x_delta = self.x - other.x;
        let y_delta = self.y - other.y;
        proof {
            lemma_square_nonneg(self.x - other.x);
            lemma_square_nonneg(self.y - other.y);
        }
        x_delta * x_delta + y_delta * y_delta
    }

    pub fn plus(self, rhs: Point) -> (r: Point)
        requires
            i32::MIN <= self.x + rhs.x <= i32::MAX,
            i32::MIN <= self.y + rhs.y <= i32::MAX,
        ensures
            r.x == self.x + rhs.x && r.y == self.y + rhs.y,
    {
        Point { x: self.x + rhs.x, y: self.y + rhs.y }
    }

    pub fn minus(self, rhs: Point) -> (r: Point)
        requires
            i32::MIN <= self.x - rhs.x <= i32::MAX,
            i32::MIN <= self.y - rhs.y <= i32::MAX,
        ensures
            r.x == self.x - rhs.x && r.y == self.y - rhs.y,
    {
        Point { x: self.x - rhs.x, y: self.y - rhs.y }
    }

    pub fn times(self, rhs: i32) -> (r: Point)
        requires
            i32::MIN <= self.x * rhs <= i32::MAX,
            i32::MIN <= self.y * rhs <= i32::MAX,
        ensures
            r.x == self.x * rhs && r.y == self.y * rhs,
    {
        Point { x: self.x * rhs, y: self.y * rhs }
    }

    /// Componentwise division; restricted to non-negative coordinates and a
    /// positive divisor, where Rust's `/` agrees with mathematical division.
    pub fn divided_by(self, rhs: i32) -> (r: Point)
        requires
            rhs > 0,
            self.x >= 0,
            self.y >= 0,
        ensures
            r.x == self.x as int / rhs as int && r.y == self.y as int / rhs as int,
    {
        Point { x: self.x / rhs, y: self.y / rhs }
    }
}

/// Squared Euclidean distance, as unbounded integers.
pub open spec fn spec_squared_distance(a: Point, b: Point) -> int {
    (a.x - b.x) * (a.x - b.x) + (a.y - b.y) * (a.y - b.y)
}

pub open spec fn spec_abs(x: int) -> int {
    if x < 0 {
        -x
    } else {
        x
    }
}

pub proof fn lemma_square_nonneg(x: int)
    ensures
        x * x >= 0,
{
    if x < 0 {
        assert(x * x == (-x) * (-x)) by (nonlinear_arith);
        assert((-x) * (-x) >= 0) by (nonlinear_arith);
    } else {
        assert(x * x >= 0) by (nonlinear_arith);
    }
}

} // verus!
