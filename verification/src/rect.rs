//! Axis-aligned rectangle with center and intersection queries, the
//! geometric primitive of dungeon generation.

use vstd::prelude::*;

verus! {

/// Axis-aligned rectangle with inclusive integer bounds.
#[derive(Clone, Copy, PartialEq, Eq, Structural, Debug)]
pub struct Rect {
    pub x1: i32,
    pub y1: i32,
    pub x2: i32,
    pub y2: i32,
}

/// Two rectangles (with inclusive bounds) overlap on both axes.
pub open spec fn spec_intersects(a: Rect, b: Rect) -> bool {
    a.x1 <= b.x2 && a.x2 >= b.x1 && a.y1 <= b.y2 && a.y2 >= b.y1
}

/// The integer midpoint of a rectangle.
pub open spec fn spec_center(r: Rect) -> (int, int) {
    ((r.x1 + r.x2) / 2, (r.y1 + r.y2) / 2)
}

/// The midpoint lies inside the rectangle; when the rectangle spans at
/// least two cells on an axis it lies strictly inside the lower bound.
pub proof fn lemma_center_bounds(r: Rect)
    requires
        r.wf(),
    ensures
        r.x1 <= spec_center(r).0 < r.x2,
        r.y1 <= spec_center(r).1 < r.y2,
        r.x2 >= r.x1 + 2 ==> spec_center(r).0 >= r.x1 + 1,
        r.y2 >= r.y1 + 2 ==> spec_center(r).1 >= r.y1 + 1,
{
    assert(r.x1 <= (r.x1 + r.x2) / 2 < r.x2) by (nonlinear_arith)
        requires
            0 <= r.x1 < r.x2,
    ;
    assert(r.y1 <= (r.y1 + r.y2) / 2 < r.y2) by (nonlinear_arith)
        requires
            0 <= r.y1 < r.y2,
    ;
    assert(r.x2 >= r.x1 + 2 ==> (r.x1 + r.x2) / 2 >= r.x1 + 1) by (nonlinear_arith)
        requires
            0 <= r.x1 < r.x2,
    ;
    assert(r.y2 >= r.y1 + 2 ==> (r.y1 + r.y2) / 2 >= r.y1 + 1) by (nonlinear_arith)
        requires
            0 <= r.y1 < r.y2,
    ;
}

impl Rect {
    /// Well-formed rectangle: non-degenerate on both axes, non-negative
    /// coordinates, small enough that coordinate sums stay in `i32`.
    pub open spec fn wf(self) -> bool {
        0 <= self.x1 < self.x2 < 0x4000_0000 && 0 <= self.y1 < self.y2 < 0x4000_0000
    }

    pub fn new(x: i32, y: i32, w: i32, h: i32) -> (r: Rect)
        requires
            0 <= x,
            0 <= y,
            0 < w,
            0 < h,
            x + w < 0x4000_0000,
            y + h < 0x4000_0000,
        ensures
            r == (Rect { x1: x, y1: y, x2: (x + w) as i32, y2: (y + h) as i32 }),
            r.wf(),
    {
        Rect { x1: x, y1: y, x2: x + w, y2: y + h }
    }

    /// The integer midpoint of the rectangle.
    pub fn center(&self) -> (c: (i32, i32))
        requires
            self.wf(),
        ensures
            (c.0 as int, c.1 as int) == spec_center(*self),
            self.x1 <= c.0 < self.x2,
            self.y1 <= c.1 < self.y2,
    {
        proof {
            lemma_center_bounds(*self);
        }
        ((self.x1 + self.x2) / 2, (self.y1 + self.y2) / 2)
    }

    /// True iff the two rectangles overlap on both axes.
    pub fn intersect(&self, other: &Rect) -> (r: bool)
        ensures
            r == spec_intersects(*self, *other),
    {
        self.x1 <= other.x2 && self.x2 >= other.x1 && self.y1 <= other.y2 && self.y2 >= other.y1
    }
}

/// Intersection is symmetric.
pub proof fn lemma_intersect_sym(a: Rect, b: Rect)
    ensures
        spec_intersects(a, b) == spec_intersects(b, a),
{
}

/// A well-formed rectangle always intersects itself.
pub proof fn lemma_intersect_self(a: Rect)
    requires
        a.wf(),
    ensures
        spec_intersects(a, a),
{
}

/// Rectangles separated by at least one empty column or one empty row do
/// not intersect.
pub proof fn lemma_separated_disjoint(a: Rect, b: Rect)
    requires
        a.x2 + 1 < b.x1 || b.x2 + 1 < a.x1 || a.y2 + 1 < b.y1 || b.y2 + 1 < a.y1,
    ensures
        !spec_intersects(a, b),
{
}

} // verus!
