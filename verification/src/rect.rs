//! Axis-aligned rectangles with a row-major index ↔ point mapping.

use vstd::prelude::*;

use crate::point::Point;

verus! {

/// An axis-aligned rectangle: `x1 <= x < x2`, `y1 <= y < y2`.
#[derive(Clone, Copy, Eq, PartialEq, Debug, Structural)]
pub struct IRect {
    pub x1: i32,
    pub x2: i32,
    pub y1: i32,
    pub y2: i32,
}

impl IRect {
    /// A normalized rectangle whose cell count fits the machine.
    pub open spec fn wf(self) -> bool {
        &&& self.x1 <= self.x2
        &&& self.y1 <= self.y2
        &&& self.x2 - self.x1 <= i32::MAX
        &&& self.y2 - self.y1 <= i32::MAX
        &&& (self.x2 - self.x1) * (self.y2 - self.y1) <= i32::MAX
    }

    pub open spec fn spec_width(self) -> int {
        self.x2 - self.x1
    }

    pub open spec fn spec_height(self) -> int {
        self.y2 - self.y1
    }

    pub open spec fn spec_count(self) -> int {
        self.spec_width() * self.spec_height()
    }

    pub open spec fn spec_in_bounds(self, point: Point) -> bool {
        self.x1 <= point.x < self.x2 && self.y1 <= point.y < self.y2
    }

    /// The point of a row-major cell index, counting from the upper-left corner.
    pub open spec fn spec_index_to_point(self, index: int) -> Point {
        Point {
            x: (self.x1 + index % self.spec_width()) as i32,
            y: (self.y1 + index / self.spec_width()) as i32,
        }
    }

    /// The row-major cell index of an in-bounds point.
    pub open spec fn spec_point_to_index(self, point: Point) -> int {
        (point.y - self.y1) * self.spec_width() + (point.x - self.x1)
    }

    pub fn with_size(x1: i32, y1: i32, width: i32, height: i32) -> (r: Self)
        requires
            i32::MIN <= x1 + width <= i32::MAX,
            i32::MIN <= y1 + height <= i32::MAX,
        ensures
            r == (IRect { x1, x2: (x1 + width) as i32, y1, y2: (y1 + height) as i32 }),
    {
        Self { x1, y1, x2: x1 + width, y2: y1 + height }
    }

    pub fn width(&self) -> (r: i32)
        requires
            i32::MIN <= self.x2 - self.x1 <= i32::MAX,
        ensures
            r == self.spec_width(),
    {
        self.x2 - self.x1
    }

    pub fn height(&self) -> (r: i32)
        requires
            i32::MIN <= self.y2 - self.y1 <= i32::MAX,
        ensures
            r == self.spec_height(),
    {
        self.y2 - self.y1
    }

    /// The number of cells; one past the largest valid index.
    pub fn max_index(&self) -> (r: usize)
        requires
            self.wf(),
        ensures
            r == self.spec_count(),
    {
        proof {
            crate::point::lemma_square_nonneg(self.x2 - self.x1);
            assert((self.x2 - self.x1) * (self.y2 - self.y1) >= 0) by (nonlinear_arith)
                requires
                    self.x2 - self.x1 >= 0,
                    self.y2 - self.y1 >= 0,
            ;
        }
        (self.width() * self.height()) as usize
    }

    pub fn index_to_point(&self, index: usize) -> (r: Point)
        requires
            self.wf(),
            index < self.spec_count(),
        ensures
            r == self.spec_index_to_point(index as int),
            self.spec_in_bounds(r),
    {
        proof {
            lemma_index_to_point_bounds(*self, index as int);
        }
        let idx = index as i32;
        let w = self.width();
        Point { x: self.x1 + idx % w, y: self.y1 + idx / w }
    }

    pub fn point_to_index(&self, point: Point) -> (r: usize)
        requires
            self.wf(),
            self.spec_in_bounds(point),
        ensures
            r == self.spec_point_to_index(point),
            r < self.spec_count(),
    {
        proof {
            lemma_point_to_index_bounds(*self, point);
        }
        let offset = self.offset_of(point);
        (offset.y * self.width() + offset.x) as usize
    }

    pub fn points(&self) -> (r: RectIter)
        requires
            self.wf(),
        ensures
            r.rect == *self,
            r.current_index == 0,
            r.max_index == self.spec_count(),
    {
        RectIter::new(self)
    }

    pub fn offset_of(&self, point: Point) -> (r: Point)
        requires
            i32::MIN <= point.x - self.x1 <= i32::MAX,
            i32::MIN <= point.y - self.y1 <= i32::MAX,
        ensures
            r.x == point.x - self.x1,
            r.y == point.y - self.y1,
    {
        point.minus(self.upper_left())
    }

    pub fn upper_left(&self) -> (r: Point)
        ensures
            r.x == self.x1 && r.y == self.y1,
    {
        Point { x: self.x1, y: self.y1 }
    }

    pub fn moved_to_point(&self, point: Point) -> (r: Self)
        requires
            self.x1 <= self.x2,
            self.y1 <= self.y2,
            self.x2 - self.x1 <= i32::MAX,
            self.y2 - self.y1 <= i32::MAX,
            point.x + (self.x2 - self.x1) <= i32::MAX,
            point.y + (self.y2 - self.y1) <= i32::MAX,
        ensures
            r.x1 == point.x && r.y1 == point.y,
            r.spec_width() == self.spec_width(),
            r.spec_height() == self.spec_height(),
    {
        Self::with_size(point.x, point.y, self.width(), self.height())
    }

    pub fn centered_at_point(&self, point: Point) -> (r: Self)
        requires
            self.x1 <= self.x2,
            self.y1 <= self.y2,
            self.x2 - self.x1 <= i32::MAX,
            self.y2 - self.y1 <= i32::MAX,
            i32::MIN <= point.x - (self.x2 - self.x1) / 2,
            i32::MIN <= point.y - (self.y2 - self.y1) / 2,
            point.x + self.x2 - self.x1 <= i32::MAX,
            point.y + self.y2 - self.y1 <= i32::MAX,
        ensures
            r.x1 == point.x - self.spec_width() / 2,
            r.y1 == point.y - self.spec_height() / 2,
            r.spec_width() == self.spec_width(),
            r.spec_height() == self.spec_height(),
    {
        self.moved_to_point(
            Point::new(point.x - self.width() / 2, point.y - self.height() / 2),
        )
    }

    /// The largest rectangle contained in both, or `None` when they are disjoint.
    pub fn intersection(&self, other: &IRect) -> (r: Option<IRect>)
        ensures
            ({
                let x1 = if self.x1 >= other.x1 { self.x1 } else { other.x1 };
                let x2 = if self.x2 <= other.x2 { self.x2 } else { other.x2 };
                let y1 = if self.y1 >= other.y1 { self.y1 } else { other.y1 };
                let y2 = if self.y2 <= other.y2 { self.y2 } else { other.y2 };
                if x1 > x2 || y1 > y2 {
                    r is None
                } else {
                    r == Some(IRect { x1, x2, y1, y2 })
                }
            }),
    {
        let x1 = if self.x1 >= other.x1 { self.x1 } else { other.x1 };
        let x2 = if self.x2 <= other.x2 { self.x2 } else { other.x2 };
        let y1 = if self.y1 >= other.y1 { self.y1 } else { other.y1 };
        let y2 = if self.y2 <= other.y2 { self.y2 } else { other.y2 };

        if x1 > x2 || y1 > y2 {
            None
        } else {
            Some(Self { x1, x2, y1, y2 })
        }
    }

    pub fn in_bounds(&self, point: Point) -> (r: bool)
        ensures
            r == self.spec_in_bounds(point),
    {
        point.x >= self.x1 && point.x < self.x2 && point.y >= self.y1 && point.y < self.y2
    }

    /// Builds a normalized rectangle from two corner coordinates per axis.
    pub fn new(x1: i32, x2: i32, y1: i32, y2: i32) -> (r: IRect)
        ensures
            r.x1 == if x1 <= x2 { x1 } else { x2 },
            r.x2 == if x1 <= x2 { x2 } else { x1 },
            r.y1 == if y1 <= y2 { y1 } else { y2 },
            r.y2 == if y1 <= y2 { y2 } else { y1 },
            r.x1 <= r.x2 && r.y1 <= r.y2,
    {
        IRect {
            x1: if x1 <= x2 { x1 } else { x2 },
            x2: if x1 <= x2 { x2 } else { x1 },
            y1: if y1 <= y2 { y1 } else { y2 },
            y2: if y1 <= y2 { y2 } else { y1 },
        }
    }

    pub fn center(&self) -> (r: Point)
        requires
            0 <= self.x1 + self.x2,
            0 <= self.y1 + self.y2,
            self.x1 + self.x2 <= i32::MAX,
            self.y1 + self.y2 <= i32::MAX,
        ensures
            r.x == (self.x1 + self.x2) / 2,
            r.y == (self.y1 + self.y2) / 2,
    {
        self.upper_left().plus(self.lower_right()).divided_by(2)
    }

    pub fn lower_right(&self) -> (r: Point)
        ensures
            r.x == self.x2 && r.y == self.y2,
    {
        Point { x: self.x2, y: self.y2 }
    }

    /// Whether the two rectangles share at least a corner point of their
    /// closed bounds (the test the room placer uses).
    pub fn intersect(&self, other: &IRect) -> (r: bool)
        ensures
            r == ({
                let x1 = if self.x1 >= other.x1 { self.x1 } else { other.x1 };
                let x2 = if self.x2 <= other.x2 { self.x2 } else { other.x2 };
                let y1 = if self.y1 >= other.y1 { self.y1 } else { other.y1 };
                let y2 = if self.y2 <= other.y2 { self.y2 } else { other.y2 };
                x1 <= x2 && y1 <= y2
            }),
    {
        self.intersection(other).is_some()
    }
}

/// Walks a rectangle's cells in row-major index order.
pub struct RectIter {
    pub current_index: usize,
    pub max_index: usize,
    pub rect: IRect,
}

impl RectIter {
    pub open spec fn wf(self) -> bool {
        &&& self.rect.wf()
        &&& self.max_index == self.rect.spec_count()
        &&& self.current_index <= self.max_index
    }

    pub fn new(rect: &IRect) -> (r: Self)
        requires
            rect.wf(),
        ensures
            r.rect == *rect,
            r.current_index == 0,
            r.max_index == rect.spec_count(),
            r.wf(),
    {
        Self { current_index: 0, max_index: rect.max_index(), rect: *rect }
    }

    pub fn next(&mut self) -> (r: Option<Point>)
        requires
            old(self).wf(),
        ensures
            final(self).wf(),
            final(self).rect == old(self).rect,
            final(self).max_index == old(self).max_index,
            if old(self).current_index < old(self).max_index {
                &&& r == Some(old(self).rect.spec_index_to_point(old(self).current_index as int))
                &&& final(self).current_index == old(self).current_index + 1
            } else {
                r is None && final(self).current_index == old(self).current_index
            },
    {
        if self.current_index < self.max_index {
            let result = Some(self.rect.index_to_point(self.current_index));
            self.current_index += 1;
            result
        } else {
            None
        }
    }
}

/// The cell of index `i` lies inside the rectangle.
pub proof fn lemma_index_to_point_bounds(r: IRect, i: int)
    requires
        r.wf(),
        0 <= i < r.spec_count(),
    ensures
        0 <= i % r.spec_width() < r.spec_width(),
        0 <= i / r.spec_width() < r.spec_height(),
        r.spec_in_bounds(r.spec_index_to_point(i)),
    decreases 0int,
{
    let w = r.spec_width();
    let h = r.spec_height();
    assert(w > 0 && h > 0) by (nonlinear_arith)
        requires
            w >= 0,
            h >= 0,
            w * h > i >= 0,
    ;
    assert(0 <= i % w < w) by (nonlinear_arith)
        requires
            w > 0,
            i >= 0,
    ;
    assert(0 <= i / w < h) by (nonlinear_arith)
        requires
            w > 0,
            h > 0,
            0 <= i < w * h,
    ;
}

/// An in-bounds point's index lies in `[0, count)`.
pub proof fn lemma_point_to_index_bounds(r: IRect, p: Point)
    requires
        r.wf(),
        r.spec_in_bounds(p),
    ensures
        0 <= r.spec_point_to_index(p) < r.spec_count(),
{
    let w = r.spec_width();
    let h = r.spec_height();
    let dx = p.x - r.x1;
    let dy = p.y - r.y1;
    assert(0 <= dy * w + dx < w * h) by (nonlinear_arith)
        requires
            0 <= dx < w,
            0 <= dy < h,
    ;
}

/// Mapping an index to its point and back returns the same index:
/// the index ↔ point mapping is a bijection over `[0, count)`.
pub proof fn lemma_index_point_round_trip(r: IRect, i: int)
    requires
        r.wf(),
        0 <= i < r.spec_count(),
    ensures
        r.spec_point_to_index(r.spec_index_to_point(i)) == i,
{
    let w = r.spec_width();
    lemma_index_to_point_bounds(r, i);
    let p = r.spec_index_to_point(i);
    assert(p.x - r.x1 == i % w && p.y - r.y1 == i / w);
    assert((i / w) * w + i % w == i) by (nonlinear_arith)
        requires
            w > 0,
    ;
}

/// Mapping an in-bounds point to its index and back returns the same point.
pub proof fn lemma_point_index_round_trip(r: IRect, p: Point)
    requires
        r.wf(),
        r.spec_in_bounds(p),
    ensures
        r.spec_index_to_point(r.spec_point_to_index(p)) == p,
{
    let w = r.spec_width();
    let dx = p.x - r.x1;
    let dy = p.y - r.y1;
    let i = dy * w + dx;
    lemma_point_to_index_bounds(r, p);
    assert(i % w == dx && i / w == dy) by (nonlinear_arith)
        requires
            w > 0,
            0 <= dx < w,
            i == dy * w + dx,
    ;
}

} // verus!
