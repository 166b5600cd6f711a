use vstd::prelude::*;

verus! {

/// An axis-aligned rectangle: top-left corner `(x, y)`, width `w`, height `h`.
/// It covers the points with `x <= px < x + w` and `y <= py < y + h`.
#[derive(Debug, Clone, Copy, PartialEq, Eq, Structural)]
pub struct Rect {
    pub x: i32,
    pub y: i32,
    pub w: u32,
    pub h: u32,
}

/// The value of a `u32` reinterpreted as an `i32` (two's complement): the extents are
/// added to the signed corner coordinates this way.
pub open spec fn span(n: u32) -> int {
    if n <= 0x7fff_ffff {
        n as int
    } else {
        n as int - 0x1_0000_0000
    }
}

/// The `u32` whose two's complement reading is `d` (for `d` in the `i32` range).
pub open spec fn as_extent(d: int) -> u32 {
    if d >= 0 {
        d as u32
    } else {
        (d + 0x1_0000_0000) as u32
    }
}

pub open spec fn fits_i32(v: int) -> bool {
    i32::MIN <= v <= i32::MAX
}

pub open spec fn max_int(a: int, b: int) -> int {
    if a >= b {
        a
    } else {
        b
    }
}

pub open spec fn min_int(a: int, b: int) -> int {
    if a <= b {
        a
    } else {
        b
    }
}

impl Rect {
    /// One past the last column.
    pub open spec fn right(self) -> int {
        self.x + span(self.w)
    }

    /// One past the last row.
    pub open spec fn bottom(self) -> int {
        self.y + span(self.h)
    }

    /// The far edges are representable as `i32`.
    pub open spec fn edges_fit(self) -> bool {
        fits_i32(self.right()) && fits_i32(self.bottom())
    }

    /// The far edges that the containment test computes, in the order it computes them,
    /// are representable as `i32`.
    pub open spec fn contains_fits(self, px: int, py: int) -> bool {
        &&& (px >= self.x && py >= self.y) ==> fits_i32(self.right())
        &&& (px >= self.x && py >= self.y && px < self.right()) ==> fits_i32(self.bottom())
    }

    /// The far edges that the intersection test computes, in the order it computes them,
    /// are representable as `i32`.
    pub open spec fn intersects_fits(self, other: Rect) -> bool {
        &&& fits_i32(other.right())
        &&& self.x < other.right() ==> fits_i32(self.right())
        &&& (self.x < other.right() && self.right() > other.x) ==> fits_i32(other.bottom())
        &&& (self.x < other.right() && self.right() > other.x && self.y < other.bottom())
            ==> fits_i32(self.bottom())
    }

    pub open spec fn spec_contains(self, px: int, py: int) -> bool {
        px >= self.x && py >= self.y && px < self.right() && py < self.bottom()
    }

    pub open spec fn spec_intersects(self, other: Rect) -> bool {
        self.x < other.right() && self.right() > other.x && self.y < other.bottom()
            && self.bottom() > other.y
    }

    /// First column of the overlap of two rectangles.
    pub open spec fn clip_x0(self, other: Rect) -> int {
        max_int(self.x as int, other.x as int)
    }

    /// One past the last column of the overlap.
    pub open spec fn clip_x1(self, other: Rect) -> int {
        min_int(self.right(), other.right())
    }

    pub open spec fn clip_y0(self, other: Rect) -> int {
        max_int(self.y as int, other.y as int)
    }

    pub open spec fn clip_y1(self, other: Rect) -> int {
        min_int(self.bottom(), other.bottom())
    }

    /// The overlap's extents are representable as `i32` differences.
    pub open spec fn clip_fits(self, other: Rect) -> bool {
        self.spec_intersects(other) ==> fits_i32(self.clip_x1(other) - self.clip_x0(other))
            && fits_i32(self.clip_y1(other) - self.clip_y0(other))
    }

    /// The overlap of two rectangles, `None` when they do not intersect.
    pub open spec fn spec_clip(self, other: Rect) -> Option<Rect> {
        if !self.spec_intersects(other) {
            None
        } else {
            Some(
                Rect {
                    x: self.clip_x0(other) as i32,
                    y: self.clip_y0(other) as i32,
                    w: as_extent(self.clip_x1(other) - self.clip_x0(other)),
                    h: as_extent(self.clip_y1(other) - self.clip_y0(other)),
                },
            )
        }
    }

    pub fn new(x: i32, y: i32, w: u32, h: u32) -> (r: Rect)
        ensures
            r == (Rect { x, y, w, h }),
    {
        Rect { x, y, w, h }
    }

    /// Whether the point lies inside (left and top edges inclusive, right and bottom
    /// exclusive).
    pub fn contains(&self, px: i32, py: i32) -> (res: bool)
        requires
            self.contains_fits(px as int, py as int),
        ensures
            res == self.spec_contains(px as int, py as int),
    {
        px >= self.x && py >= self.y && (px as i64) < right_edge(self) && (py as i64)
            < bottom_edge(self)
    }

    /// Whether the two rectangles overlap.
    pub fn intersects(&self, other: &Rect) -> (res: bool)
        requires
            self.intersects_fits(*other),
        ensures
            res == self.spec_intersects(*other),
    {
        (self.x as i64) < right_edge(other) && right_edge(self) > (other.x as i64) && (self.y as i64)
            < bottom_edge(other) && bottom_edge(self) > (other.y as i64)
    }

    /// The overlap of the two rectangles, `None` when they do not intersect.
    pub fn clip(&self, other: &Rect) -> (res: Option<Rect>)
        requires
            self.intersects_fits(*other),
            self.clip_fits(*other),
        ensures
            res == self.spec_clip(*other),
    {
        if !self.intersects(other) {
            return None;
        }
        let x0: i64 = if self.x >= other.x { self.x as i64 } else { other.x as i64 };
        let y0: i64 = if self.y >= other.y { self.y as i64 } else { other.y as i64 };
        let (sr, or) = (right_edge(self), right_edge(other));
        let (sb, ob) = (bottom_edge(self), bottom_edge(other));
        let x1: i64 = if sr <= or { sr } else { or };
        let y1: i64 = if sb <= ob { sb } else { ob };
        Some(Rect { x: x0 as i32, y: y0 as i32, w: extent_of(x1 - x0), h: extent_of(y1 - y0) })
    }
}

/// The signed value of a `u32` extent.
pub fn span_of(n: u32) -> (v: i64)
    ensures
        v == span(n),
{
    if n <= 0x7fff_ffff {
        n as i64
    } else {
        n as i64 - 0x1_0000_0000
    }
}

/// The `u32` extent whose signed value is `d`.
pub fn extent_of(d: i64) -> (e: u32)
    requires
        fits_i32(d as int),
    ensures
        e == as_extent(d as int),
{
    if d >= 0 {
        d as u32
    } else {
        (d + 0x1_0000_0000) as u32
    }
}

fn right_edge(r: &Rect) -> (v: i64)
    ensures
        v == r.right(),
{
    r.x as i64 + span_of(r.w)
}

fn bottom_edge(r: &Rect) -> (v: i64)
    ensures
        v == r.bottom(),
{
    r.y as i64 + span_of(r.h)
}

} // verus!
