use vstd::prelude::*;
use crate::point::{Point, COORD_LIMIT, in_limit};

verus! {

/// The range within which a polygon and a boundary must lie for a pass of
/// wall corrections: however often the polygon is moved back onto the
/// boundary, its corners stay within the coordinate range.
pub const WALL_LIMIT: i64 = 0x1000_0000;

/// An axis-aligned rectangle: the corner with the least coordinates, a
/// width and a height.
#[derive(Clone, Copy, Debug, PartialEq, Eq, Structural)]
pub struct Rectangle {
    pub x: i64,
    pub y: i64,
    pub w: i64,
    pub h: i64,
}

/// Where `p` lies outside the rectangle `r`, the shift that puts it back on
/// the edge it crossed and the inward normal of that edge. The sides are
/// tested in the order left, right, top, bottom, and only the first that
/// `p` lies beyond counts.
pub open spec fn wall_spec(r: Rectangle, p: Point) -> Option<(Point, Point)> {
    if p.x < r.x {
        Some((Point { x: (r.x - p.x) as i64, y: 0 }, Point { x: 1, y: 0 }))
    } else if p.x > r.x + r.w {
        Some((Point { x: (r.x + r.w - p.x) as i64, y: 0 }, Point { x: -1i64, y: 0 }))
    } else if p.y < r.y {
        Some((Point { x: 0, y: (r.y - p.y) as i64 }, Point { x: 0, y: 1 }))
    } else if p.y > r.y + r.h {
        Some((Point { x: 0, y: (r.y + r.h - p.y) as i64 }, Point { x: 0, y: -1i64 }))
    } else {
        None
    }
}

/// `p` lies inside `r` or on its outline.
pub open spec fn inside_closed(r: Rectangle, p: Point) -> bool {
    r.x <= p.x <= r.x + r.w && r.y <= p.y <= r.y + r.h
}

impl Rectangle {
    /// The rectangle lies within the coordinate range and is not inverted.
    pub open spec fn wf(self) -> bool {
        self.within(COORD_LIMIT as int)
    }

    /// The rectangle lies within `-limit ..= limit` and is not inverted.
    pub open spec fn within(self, limit: int) -> bool {
        &&& self.w >= 0
        &&& self.h >= 0
        &&& in_limit(self.x as int, limit)
        &&& in_limit(self.y as int, limit)
        &&& in_limit(self.x + self.w, limit)
        &&& in_limit(self.y + self.h, limit)
    }

    pub fn new(x: i64, y: i64, w: i64, h: i64) -> (r: Rectangle)
        ensures
            r == (Rectangle { x, y, w, h }),
    {
        Rectangle { x, y, w, h }
    }

    /// Whether the rectangle lies within `-limit ..= limit` and is not inverted.
    pub fn fits_within(&self, limit: i64) -> (r: bool)
        ensures
            r == self.within(limit as int),
    {
        let l = limit as i128;
        let right = self.x as i128 + self.w as i128;
        let bottom = self.y as i128 + self.h as i128;
        self.w >= 0 && self.h >= 0 && -l <= self.x as i128 && self.x as i128 <= l && -l <= self.y as i128
            && self.y as i128 <= l && -l <= right && right <= l && -l <= bottom && bottom <= l
    }

    /// The rectangle grown by `margin` on every side.
    pub fn expand(&self, margin: i64) -> (r: Rectangle)
        requires
            self.wf(),
            0 <= margin <= COORD_LIMIT,
        ensures
            r == (Rectangle {
                x: (self.x - margin) as i64,
                y: (self.y - margin) as i64,
                w: (self.w + 2 * margin) as i64,
                h: (self.h + 2 * margin) as i64,
            }),
    {
        Rectangle { x: self.x - margin, y: self.y - margin, w: self.w + 2 * margin, h: self.h + 2 * margin }
    }

    /// Where `p` lies outside, the shift that puts it back on the edge it
    /// crossed, and that edge's inward normal (see `wall_spec`).
    pub fn wall_contact(&self, p: Point) -> (r: Option<(Point, Point)>)
        requires
            self.wf(),
            p.bounded(),
        ensures
            r == wall_spec(*self, p),
    {
        let right = self.x + self.w;
        let bottom = self.y + self.h;
        if p.x < self.x {
            Some((Point::new(self.x - p.x, 0), Point::new(1, 0)))
        } else if p.x > right {
            Some((Point::new(right - p.x, 0), Point::new(-1, 0)))
        } else if p.y < self.y {
            Some((Point::new(0, self.y - p.y), Point::new(0, 1)))
        } else if p.y > bottom {
            Some((Point::new(0, bottom - p.y), Point::new(0, -1)))
        } else {
            None
        }
    }
}

} // verus!
