//! Points and axis-aligned rectangles in integer screen pixels.
//!
//! Coordinates are `i64` pixels with the origin at the top left and `y`
//! growing downwards. Every operation is total: a sum that would leave the
//! `i64` range saturates at its bound, which plays the part of an unbounded
//! edge (see [`UNBOUNDED`]).
use vstd::prelude::*;

verus! {

/// The coordinate used for an edge that has no limit.
pub const UNBOUNDED: i64 = 0x7fff_ffff_ffff_ffff;

/// `v` clamped to the range of `i64`.
pub open spec fn clamp(v: int) -> int {
    if v > i64::MAX {
        i64::MAX as int
    } else if v < i64::MIN {
        i64::MIN as int
    } else {
        v
    }
}

/// Whether `v` lies in the range of `i64`.
pub open spec fn fits(v: int) -> bool {
    i64::MIN <= v <= i64::MAX
}

/// Saturating addition.
pub fn sat_add(a: i64, b: i64) -> (r: i64)
    ensures
        r == clamp(a + b),
{
    if b > 0 && a > i64::MAX - b {
        i64::MAX
    } else if b < 0 && a < i64::MIN - b {
        i64::MIN
    } else {
        a + b
    }
}

/// Saturating subtraction.
pub fn sat_sub(a: i64, b: i64) -> (r: i64)
    ensures
        r == clamp(a - b),
{
    if b < 0 && a > i64::MAX + b {
        i64::MAX
    } else if b > 0 && a < i64::MIN + b {
        i64::MIN
    } else {
        a - b
    }
}

/// `u` as a coordinate, saturating at the largest `i64`.
pub fn from_usize(u: usize) -> (r: i64)
    ensures
        r == clamp(u as int),
{
    let w = u as u64;
    if w > 0x7fff_ffff_ffff_ffffu64 {
        i64::MAX
    } else {
        w as i64
    }
}

/// A point, or a size when it stands for a width and a height.
#[derive(Clone, Copy, Debug, PartialEq, Eq, Structural)]
pub struct Vec2 {
    pub x: i64,
    pub y: i64,
}

impl Vec2 {
    pub fn zero() -> (r: Vec2)
        ensures
            r == (Vec2 { x: 0, y: 0 }),
    {
        Vec2 { x: 0, y: 0 }
    }

    pub fn new(x: i64, y: i64) -> (r: Vec2)
        ensures
            r == (Vec2 { x, y }),
    {
        Vec2 { x, y }
    }

    /// Whether the point lies in `area`, edges included.
    pub open spec fn is_inside(self, area: Area) -> bool {
        area.0.x <= self.x <= area.1.x && area.0.y <= self.y <= area.1.y
    }

    pub fn inside(&self, area: Area) -> (r: bool)
        ensures
            r == self.is_inside(area),
    {
        area.0.x <= self.x && self.x <= area.1.x && area.0.y <= self.y && self.y <= area.1.y
    }
}

/// An axis-aligned rectangle given by its top-left (`.0`) and bottom-right
/// (`.1`) corners. Callers keep `.0` at or above and left of `.1`; an
/// inverted rectangle is not rejected, it simply covers nothing.
#[derive(Clone, Copy, Debug, PartialEq, Eq, Structural)]
pub struct Area(pub Vec2, pub Vec2);

impl Area {
    pub open spec fn width(self) -> int {
        clamp(self.1.x - self.0.x)
    }

    pub open spec fn height(self) -> int {
        clamp(self.1.y - self.0.y)
    }

    pub open spec fn size_of(self) -> Vec2 {
        Vec2 { x: self.width() as i64, y: self.height() as i64 }
    }

    /// The rectangle shrunk by `p` on every side (grown when `p` is negative).
    pub open spec fn padded(self, p: int) -> Area {
        Area(
            Vec2 { x: clamp(self.0.x + p) as i64, y: clamp(self.0.y + p) as i64 },
            Vec2 { x: clamp(self.1.x - p) as i64, y: clamp(self.1.y - p) as i64 },
        )
    }

    /// The rectangle with the same top-left corner and the given size.
    pub open spec fn resized(self, size: Vec2) -> Area {
        Area(
            self.0,
            Vec2 { x: clamp(self.0.x + size.x) as i64, y: clamp(self.0.y + size.y) as i64 },
        )
    }

    /// Whether the two rectangles share an interior point.
    pub open spec fn overlaps(self, t: Area) -> bool {
        self.0.x < t.1.x && t.0.x < self.1.x && self.0.y < t.1.y && t.0.y < self.1.y
    }

    pub open spec fn is_zero_area(self) -> bool {
        self.0.x == 0 && self.0.y == 0 && self.1.x == 0 && self.1.y == 0
    }

    pub fn zero() -> (r: Area)
        ensures
            r.is_zero_area(),
    {
        Area(Vec2::zero(), Vec2::zero())
    }

    pub fn is_zero(&self) -> (r: bool)
        ensures
            r == self.is_zero_area(),
    {
        self.0.x == 0 && self.0.y == 0 && self.1.x == 0 && self.1.y == 0
    }

    /// Visibility test used to cull painting: true when `target` overlaps
    /// this rectangle. Rectangles that truly overlap are never reported
    /// as disjoint.
    pub fn contains(&self, target: Area) -> (r: bool)
        ensures
            r == self.overlaps(target),
    {
        self.0.x < target.1.x && target.0.x < self.1.x && self.0.y < target.1.y && target.0.y
            < self.1.y
    }

    pub fn w(&self) -> (r: i64)
        ensures
            r == self.width(),
    {
        sat_sub(self.1.x, self.0.x)
    }

    pub fn h(&self) -> (r: i64)
        ensures
            r == self.height(),
    {
        sat_sub(self.1.y, self.0.y)
    }

    pub fn size(&self) -> (r: Vec2)
        ensures
            r == self.size_of(),
    {
        Vec2 { x: self.w(), y: self.h() }
    }

    /// Shrinks the rectangle by `padding` on all four sides.
    pub fn pad(&self, padding: i64) -> (r: Area)
        ensures
            r == self.padded(padding as int),
    {
        Area(
            Vec2 { x: sat_add(self.0.x, padding), y: sat_add(self.0.y, padding) },
            Vec2 { x: sat_sub(self.1.x, padding), y: sat_sub(self.1.y, padding) },
        )
    }

    /// Keeps the top-left corner and replaces the size.
    pub fn resize(&self, size: Vec2) -> (r: Area)
        ensures
            r == self.resized(size),
    {
        Area(self.0, Vec2 { x: sat_add(self.0.x, size.x), y: sat_add(self.0.y, size.y) })
    }
}

/// Insetting a rectangle by `p` and then giving it back its former size
/// moves it by `p` along both axes and leaves its size unchanged.
pub proof fn lemma_pad_then_resize(r: Area, p: i64)
    requires
        r.0.x <= r.1.x,
        r.0.y <= r.1.y,
        2 * p < r.1.x - r.0.x,
        2 * p < r.1.y - r.0.y,
        fits(r.1.x - r.0.x),
        fits(r.1.y - r.0.y),
        fits(r.0.x + p),
        fits(r.0.y + p),
        fits(r.1.x - p),
        fits(r.1.y - p),
        fits(r.1.x + p),
        fits(r.1.y + p),
    ensures
        r.padded(p as int).resized(r.size_of()).0 == (Vec2 { x: (r.0.x + p) as i64, y: (r.0.y + p) as i64 }),
        r.padded(p as int).resized(r.size_of()).size_of() == r.size_of(),
{
}

} // verus!
