//! The 2-D integer vector the whole core is phrased over, together with the
//! capability every indexable element offers: a position, and a tiny
//! positional nudge used to break exact-duplicate ties.

use vstd::prelude::*;
use crate::numeric::{div_trunc, div_trunc_i64, isqrt, lemma_sqrt_floor_unique, sqrt_floor};

verus! {

/// Coordinates handled by the spatial core stay within this bound
/// (milli-units), which keeps every squared distance inside `i64`.
pub const COORD_LIMIT: i64 = 0x1000_0000;

/// A 2-D vector with integer (milli-unit) coordinates.
#[derive(Clone, Copy, Debug, PartialEq, Eq, Structural)]
pub struct V2 {
    pub x: i64,
    pub y: i64,
}

/// Squared Euclidean distance between two points.
pub open spec fn dist_sq(a: V2, b: V2) -> int {
    (a.x - b.x) * (a.x - b.x) + (a.y - b.y) * (a.y - b.y)
}

/// Squared distances are nonnegative.
pub proof fn lemma_dist_sq_nonneg(a: V2, b: V2)
    ensures
        dist_sq(a, b) >= 0,
{
    let dx = a.x - b.x;
    let dy = a.y - b.y;
    assert(dx * dx >= 0 && dy * dy >= 0) by (nonlinear_arith);
}

/// The radius-query membership test: strictly closer than `r` to `c`.
pub open spec fn in_range(p: V2, c: V2, r: int) -> bool {
    dist_sq(p, c) < r * r
}

impl V2 {
    /// Both coordinates within `[-b, b]`.
    pub open spec fn abs_le(self, b: int) -> bool {
        -b <= self.x <= b && -b <= self.y <= b
    }

    /// Within the coordinate bound the spatial indexes are specified for.
    pub open spec fn in_bounds(self) -> bool {
        self.abs_le(COORD_LIMIT as int)
    }

    pub fn new(x: i64, y: i64) -> (v: V2)
        ensures
            v == (V2 { x, y }),
    {
        V2 { x, y }
    }

    pub fn sub(&self, other: &V2) -> (r: V2)
        requires
            self.abs_le(0x2000_0000_0000_0000),
            other.abs_le(0x2000_0000_0000_0000),
        ensures
            r == (V2 { x: (self.x - other.x) as i64, y: (self.y - other.y) as i64 }),
            r.x == self.x - other.x,
            r.y == self.y - other.y,
    {
        V2 { x: self.x - other.x, y: self.y - other.y }
    }

    pub fn add(&self, other: &V2) -> (r: V2)
        requires
            self.abs_le(0x2000_0000_0000_0000),
            other.abs_le(0x2000_0000_0000_0000),
        ensures
            r.x == self.x + other.x,
            r.y == self.y + other.y,
    {
        V2 { x: self.x + other.x, y: self.y + other.y }
    }

    pub fn scalar_mul(&self, scalar: i64) -> (r: V2)
        requires
            i64::MIN <= self.x * scalar <= i64::MAX,
            i64::MIN <= self.y * scalar <= i64::MAX,
        ensures
            r.x == self.x * scalar,
            r.y == self.y * scalar,
    {
        V2 { x: self.x * scalar, y: self.y * scalar }
    }

    /// Squared norm.
    pub fn norm_sqr(&self) -> (r: i64)
        requires
            self.abs_le(0x4000_0000),
        ensures
            r == self.x * self.x + self.y * self.y,
    {
        proof {
            crate::numeric::lemma_square_bound(self.x as int, 0x4000_0000);
            crate::numeric::lemma_square_bound(self.y as int, 0x4000_0000);
        }
        self.x * self.x + self.y * self.y
    }

    /// Floor of the Euclidean norm.
    pub fn len(&self) -> (r: i64)
        requires
            self.abs_le(0x4000_0000),
        ensures
            r == sqrt_floor(self.x * self.x + self.y * self.y),
            r >= 0,
    {
        let n = self.norm_sqr();
        proof {
            crate::numeric::lemma_square_bound(self.x as int, 0x4000_0000);
            crate::numeric::lemma_square_bound(self.y as int, 0x4000_0000);
        }
        let s = isqrt(n as u64);
        proof {
            lemma_sqrt_floor_unique(n as int, s as int);
        }
        s as i64
    }

    /// Floor of the distance to `other`.
    pub fn distance_to(&self, other: &V2) -> (r: i64)
        requires
            self.abs_le(0x2000_0000),
            other.abs_le(0x2000_0000),
        ensures
            r == sqrt_floor(dist_sq(*self, *other)),
            r >= 0,
    {
        let d = self.sub(other);
        d.len()
    }

    /// The unit direction of `self` in fixed point, scaled by 1000; the zero
    /// vector maps to the zero vector instead of dividing by zero.
    pub fn normalized(&self) -> (r: V2)
        requires
            self.abs_le(0x2000_0000),
        ensures
            r == spec_normalized(*self),
    {
        let n = self.len();
        if n == 0 {
            return V2 { x: 0, y: 0 };
        }
        let nx = div_trunc_i64(self.x * 1000, n);
        let ny = div_trunc_i64(self.y * 1000, n);
        V2 { x: nx, y: ny }
    }
}

/// What `normalized` returns: components `1000 * c / len`, rounded toward
/// zero, or the zero vector when the length is zero.
pub open spec fn spec_normalized(v: V2) -> V2 {
    let n = sqrt_floor(v.x * v.x + v.y * v.y);
    if n == 0 {
        V2 { x: 0, y: 0 }
    } else {
        V2 { x: div_trunc(1000 * v.x, n) as i64, y: div_trunc(1000 * v.y, n) as i64 }
    }
}

/// An axis-aligned rectangle with integer corners, `x0 <= x1`, `y0 <= y1`.
#[derive(Clone, Copy, Debug, PartialEq, Eq, Structural)]
pub struct Rect {
    pub x0: i64,
    pub y0: i64,
    pub x1: i64,
    pub y1: i64,
}

impl Rect {
    pub fn new(x0: i64, y0: i64, x1: i64, y1: i64) -> (r: Rect)
        ensures
            r == (Rect { x0, y0, x1, y1 }),
    {
        Rect { x0, y0, x1, y1 }
    }
}

/// A circle carried by its center and squared radius, which integer geometry
/// can represent exactly even for the quadtree's `half_width * sqrt(2)`
/// bounding radii.
#[derive(Clone, Copy, Debug, PartialEq, Eq, Structural)]
pub struct Circle {
    pub center: V2,
    pub radius_sq: i64,
}

/// The capability an element must offer to be held by a spatial index:
/// a 2-D position, plus a one-milli-unit nudge for duplicate ties.
pub trait TreeValue: Sized + Copy {
    /// The element's position, at the specification level.
    spec fn pos(&self) -> V2;

    fn position(&self) -> (p: V2)
        ensures
            p == self.pos(),
    ;

    fn x(&self) -> (r: i64)
        ensures
            r == self.pos().x,
    ;

    fn y(&self) -> (r: i64)
        ensures
            r == self.pos().y,
    ;

    /// Nudge the position by one milli-unit on each axis.
    fn offset_pos(&mut self)
        requires
            old(self).pos().x < i64::MAX,
            old(self).pos().y < i64::MAX,
        ensures
            final(self).pos().x == old(self).pos().x + 1,
            final(self).pos().y == old(self).pos().y + 1,
    ;
}

impl TreeValue for V2 {
    open spec fn pos(&self) -> V2 {
        *self
    }

    fn position(&self) -> (p: V2) {
        *self
    }

    fn x(&self) -> (r: i64) {
        self.x
    }

    fn y(&self) -> (r: i64) {
        self.y
    }

    fn offset_pos(&mut self) {
        self.x = self.x + 1;
        self.y = self.y + 1;
    }
}

} // verus!
