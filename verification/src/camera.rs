//! The camera: a view rectangle clamped to the world's bounds.

use vstd::prelude::*;

use crate::map::MAX_DIM;
use crate::point::Point;
use crate::rect::IRect;

verus! {

#[derive(PartialEq, Eq, Structural, Debug)]
pub struct Camera {
    pub view_rect: IRect,
    pub world_width: i32,
    pub world_height: i32,
}

impl Camera {
    pub open spec fn wf(self) -> bool {
        &&& 0 < self.view_rect.spec_width() <= MAX_DIM
        &&& 0 < self.view_rect.spec_height() <= MAX_DIM
        &&& -2 * MAX_DIM <= self.view_rect.x1 <= 2 * MAX_DIM
        &&& -2 * MAX_DIM <= self.view_rect.x2 <= 2 * MAX_DIM
        &&& -2 * MAX_DIM <= self.view_rect.y1 <= 2 * MAX_DIM
        &&& -2 * MAX_DIM <= self.view_rect.y2 <= 2 * MAX_DIM
        &&& 0 <= self.world_width <= MAX_DIM
        &&& 0 <= self.world_height <= MAX_DIM
    }

    pub fn new(display_width: i32, display_height: i32, world_width: i32, world_height: i32) -> (r:
        Self)
        requires
            0 < display_width <= MAX_DIM,
            0 < display_height <= MAX_DIM,
            0 <= world_width <= MAX_DIM,
            0 <= world_height <= MAX_DIM,
        ensures
            r.view_rect == (IRect { x1: 0, x2: display_width, y1: 0, y2: display_height }),
            r.world_width == world_width,
            r.world_height == world_height,
            r.wf(),
    {
        Self {
            view_rect: IRect::with_size(0, 0, display_width, display_height),
            world_width,
            world_height,
        }
    }

    /// Re-centers the view on `pos`, then clamps it to the world: a view
    /// pushed past an edge is slid back flush with that edge.
    pub fn center_on_point(&mut self, pos: Point)
        requires
            old(self).wf(),
            -MAX_DIM <= pos.x <= 2 * MAX_DIM,
            -MAX_DIM <= pos.y <= 2 * MAX_DIM,
        ensures
            final(self).wf(),
            final(self).world_width == old(self).world_width,
            final(self).world_height == old(self).world_height,
            final(self).view_rect.spec_width() == old(self).view_rect.spec_width(),
            final(self).view_rect.spec_height() == old(self).view_rect.spec_height(),
            ({
                let w = old(self).view_rect.spec_width();
                let nx1 = pos.x - w / 2;
                let nx2 = nx1 + w;
                if nx1 < 0 {
                    final(self).view_rect.x1 == 0 && final(self).view_rect.x2 == w
                } else if nx2 > old(self).world_width {
                    final(self).view_rect.x2 == old(self).world_width && final(self).view_rect.x1
                        == old(self).world_width - w
                } else {
                    final(self).view_rect.x1 == nx1 && final(self).view_rect.x2 == nx2
                }
            }),
            ({
                let h = old(self).view_rect.spec_height();
                let ny1 = pos.y - h / 2;
                let ny2 = ny1 + h;
                if ny1 < 0 {
                    final(self).view_rect.y1 == 0 && final(self).view_rect.y2 == h
                } else if ny2 > old(self).world_height {
                    final(self).view_rect.y2 == old(self).world_height && final(self).view_rect.y1
                        == old(self).world_height - h
                } else {
                    final(self).view_rect.y1 == ny1 && final(self).view_rect.y2 == ny2
                }
            }),
    {
        let new_view = self.view_rect.centered_at_point(pos);
        let mut x1 = new_view.x1;
        let mut x2 = new_view.x2;
        let mut y1 = new_view.y1;
        let mut y2 = new_view.y2;
        if x1 < 0 {
            x1 = 0;
            x2 = self.view_rect.width();
        } else if x2 > self.world_width {
            x2 = self.world_width;
            x1 = x2 - self.view_rect.width();
        }
        if y1 < 0 {
            y1 = 0;
            y2 = self.view_rect.height();
        } else if y2 > self.world_height {
            y2 = self.world_height;
            y1 = y2 - self.view_rect.height();
        }
        self.view_rect = IRect::new(x1, x2, y1, y2);
    }

    /// World coordinates to view-relative screen coordinates.
    pub fn world_point_to_screen_point(&self, point: Point) -> (r: Point)
        requires
            self.wf(),
            -2 * MAX_DIM <= point.x <= 4 * MAX_DIM,
            -2 * MAX_DIM <= point.y <= 4 * MAX_DIM,
        ensures
            r.x == point.x - self.view_rect.x1,
            r.y == point.y - self.view_rect.y1,
    {
        self.view_rect.offset_of(point)
    }

    /// View-relative screen coordinates to world coordinates.
    pub fn screen_point_to_world_point(&self, point: Point) -> (r: Point)
        requires
            self.wf(),
            -2 * MAX_DIM <= point.x <= 2 * MAX_DIM,
            -2 * MAX_DIM <= point.y <= 2 * MAX_DIM,
        ensures
            r.x == self.view_rect.x1 + point.x,
            r.y == self.view_rect.y1 + point.y,
    {
        self.view_rect.upper_left().plus(point)
    }

    /// The part of `rect` inside the view, if any.
    pub fn intersection(&self, rect: &IRect) -> (r: Option<IRect>)
        ensures
            ({
                let x1 = if self.view_rect.x1 >= rect.x1 {
                    self.view_rect.x1
                } else {
                    rect.x1
                };
                let x2 = if self.view_rect.x2 <= rect.x2 {
                    self.view_rect.x2
                } else {
                    rect.x2
                };
                let y1 = if self.view_rect.y1 >= rect.y1 {
                    self.view_rect.y1
                } else {
                    rect.y1
                };
                let y2 = if self.view_rect.y2 <= rect.y2 {
                    self.view_rect.y2
                } else {
                    rect.y2
                };
                if x1 > x2 || y1 > y2 {
                    r is None
                } else {
                    r == Some(IRect { x1, x2, y1, y2 })
                }
            }),
    {
        self.view_rect.intersection(rect)
    }
}

} // verus!
