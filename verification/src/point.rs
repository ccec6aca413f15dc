//! 2D points with exact integer coordinates.
//!
//! Scene coordinates are kept within [`MAX_COORD`] so that every product
//! that the visibility computation forms fits comfortably in `i128`.
//! The ghost type [`GPoint`] is the mathematical model of a point: a pair
//! of unbounded integers.  All geometric predicates are stated over it.

use vstd::prelude::*;

verus! {

/// Largest magnitude a scene coordinate may have (2^30).
pub const MAX_COORD: i64 = 1073741824;

/// Mathematical model of a point: a pair of unbounded integers.
pub struct GPoint {
    pub x: int,
    pub y: int,
}

impl GPoint {
    /// Componentwise difference `self - o`.
    pub open spec fn sub(self, o: GPoint) -> GPoint {
        GPoint { x: self.x - o.x, y: self.y - o.y }
    }

    /// Componentwise sum `self + o`.
    pub open spec fn add(self, o: GPoint) -> GPoint {
        GPoint { x: self.x + o.x, y: self.y + o.y }
    }

    /// Both coordinates lie within the scene coordinate range.
    pub open spec fn in_bounds(self) -> bool {
        &&& -(MAX_COORD as int) <= self.x <= MAX_COORD as int
        &&& -(MAX_COORD as int) <= self.y <= MAX_COORD as int
    }

    /// The origin of the plane.
    pub open spec fn zero() -> GPoint {
        GPoint { x: 0, y: 0 }
    }
}

/// Cross product (z component) of two plane vectors.
pub open spec fn cross(u: GPoint, v: GPoint) -> int {
    u.x * v.y - u.y * v.x
}

/// Dot product of two plane vectors.
pub open spec fn dot(u: GPoint, v: GPoint) -> int {
    u.x * v.x + u.y * v.y
}

/// Squared distance between two points.
pub open spec fn gdist_sq(a: GPoint, b: GPoint) -> int {
    dot(a.sub(b), a.sub(b))
}

/// A 2D point (or displacement vector) with integer coordinates.
#[derive(Clone, Copy, PartialEq, Eq, Structural, Debug)]
pub struct Point {
    pub x: i64,
    pub y: i64,
}

impl View for Point {
    type V = GPoint;

    open spec fn view(&self) -> GPoint {
        GPoint { x: self.x as int, y: self.y as int }
    }
}

impl Point {
    /// A point lies within the scene coordinate range.
    pub open spec fn wf(self) -> bool {
        self@.in_bounds()
    }

    /// Builds the point `(x, y)`.
    pub fn new(x: i64, y: i64) -> (r: Point)
        ensures
            r@ == (GPoint { x: x as int, y: y as int }),
    {
        Point { x, y }
    }

    /// Returns the displacement `d` with `self + d == other`.
    pub fn dir(self, other: Point) -> (r: Point)
        requires
            self.wf(),
            other.wf(),
        ensures
            r@ == other@.sub(self@),
    {
        Point { x: other.x - self.x, y: other.y - self.y }
    }

    /// Moves the point by the displacement `d`.
    pub fn translate(self, d: Point) -> (r: Point)
        requires
            self.wf(),
            d.wf(),
        ensures
            r@ == self@.add(d@),
    {
        Point { x: self.x + d.x, y: self.y + d.y }
    }

    /// The midpoint, with each coordinate rounded to the nearest integer.
    pub fn midpoint(self, other: Point) -> (r: Point)
        requires
            self.wf(),
            other.wf(),
        ensures
            r@.x == crate::rounding::round_div(self@.x + other@.x, 2),
            r@.y == crate::rounding::round_div(self@.y + other@.y, 2),
    {
        let mx: i128 = crate::rounding::round_div_i128(
            self.x as i128 + other.x as i128,
            2,
        );
        let my: i128 = crate::rounding::round_div_i128(
            self.y as i128 + other.y as i128,
            2,
        );
        Point { x: mx as i64, y: my as i64 }
    }

    /// Linear interpolation from `self` (at `num = 0`) to `other` (at
    /// `num = den`), with the parameter given as the exact fraction
    /// `num / den` in `[0, 1]` and each coordinate rounded to the
    /// nearest integer.
    pub fn lerp(self, other: Point, num: i64, den: i64) -> (r: Point)
        requires
            self.wf(),
            other.wf(),
            0 <= num <= den,
            0 < den <= 0x1_0000_0000_0000,
        ensures
            r@.x == crate::rounding::round_div(
                self@.x * (den - num) + other@.x * num,
                den as int,
            ),
            r@.y == crate::rounding::round_div(
                self@.y * (den - num) + other@.y * num,
                den as int,
            ),
            r.wf(),
    {
        let ghost b = MAX_COORD as int;
        let ghost gnx = self@.x * (den - num) + other@.x * num;
        let ghost gny = self@.y * (den - num) + other@.y * num;
        proof {
            lemma_mul_bound2(self@.x, den - num, 0x8000_0000, 0x2_0000_0000_0000);
            lemma_mul_bound2(other@.x, num as int, 0x8000_0000, 0x2_0000_0000_0000);
            lemma_mul_bound2(self@.y, den - num, 0x8000_0000, 0x2_0000_0000_0000);
            lemma_mul_bound2(other@.y, num as int, 0x8000_0000, 0x2_0000_0000_0000);
            lemma_lerp_bounds(self@.x, other@.x, num as int, den as int, b);
            lemma_lerp_bounds(self@.y, other@.y, num as int, den as int, b);
            crate::rounding::lemma_round_div_exact(b, den as int);
            crate::rounding::lemma_round_div_exact(-b, den as int);
            crate::rounding::lemma_round_div_ordered(gnx, b * den, den as int);
            crate::rounding::lemma_round_div_ordered(-b * den, gnx, den as int);
            crate::rounding::lemma_round_div_ordered(gny, b * den, den as int);
            crate::rounding::lemma_round_div_ordered(-b * den, gny, den as int);
        }
        let nx: i128 = (self.x as i128) * (den as i128 - num as i128) + (other.x as i128)
            * (num as i128);
        let ny: i128 = (self.y as i128) * (den as i128 - num as i128) + (other.y as i128)
            * (num as i128);
        let rx = crate::rounding::round_div_i128(nx, den as i128);
        let ry = crate::rounding::round_div_i128(ny, den as i128);
        Point { x: rx as i64, y: ry as i64 }
    }

    /// Distance to `other`, rounded down to an integer: the exact floor
    /// of the Euclidean distance.
    pub fn dist(self, other: Point) -> (r: i64)
        requires
            self.wf(),
            other.wf(),
        ensures
            0 <= r,
            r * r <= gdist_sq(self@, other@) < (r + 1) * (r + 1),
    {
        let d = self.dist_sq(other);
        proof {
            let dx = self@.x - other@.x;
            let dy = self@.y - other@.y;
            lemma_mul_bound(dx, dx, 0x8000_0000);
            lemma_mul_bound(dy, dy, 0x8000_0000);
            assert(dx * dx >= 0) by (nonlinear_arith);
            assert(dy * dy >= 0) by (nonlinear_arith);
        }
        let r = isqrt_u64(d as u64);
        r as i64
    }

    /// Squared distance to `other`, computed exactly.
    pub fn dist_sq(self, other: Point) -> (r: i128)
        requires
            self.wf(),
            other.wf(),
        ensures
            r == gdist_sq(self@, other@),
    {
        let dx: i128 = self.x as i128 - other.x as i128;
        let dy: i128 = self.y as i128 - other.y as i128;
        proof {
            lemma_mul_bound(dx as int, dx as int, 0x1_0000_0000);
            lemma_mul_bound(dy as int, dy as int, 0x1_0000_0000);
        }
        dx * dx + dy * dy
    }
}

/// An interpolated coordinate stays between scene bounds, scaled by
/// the denominator.
proof fn lemma_lerp_bounds(x1: int, x2: int, num: int, den: int, b: int)
    requires
        -b <= x1 <= b,
        -b <= x2 <= b,
        0 <= num <= den,
        0 < den,
        0 <= b,
    ensures
        -(b * den) <= x1 * (den - num) + x2 * num <= b * den,
{
    assert(-(b * den) <= x1 * (den - num) + x2 * num <= b * den) by (nonlinear_arith)
        requires
            -b <= x1 <= b,
            -b <= x2 <= b,
            0 <= num <= den,
            0 < den,
            0 <= b,
    ;
}

/// The integer square root, rounded down, by bisection.
fn isqrt_u64(n: u64) -> (r: u64)
    ensures
        r * r <= n < (r + 1) * (r + 1),
        r <= 0x1_0000_0000,
{
    let mut lo: u64 = 0;
    let mut hi: u64 = 0xFFFF_FFFF;
    if n >= 0xFFFF_FFFE_0000_0001 {
        // Only reachable for n at or above (2^32 - 1)^2.
        proof {
            assert(0xFFFF_FFFFu64 * 0xFFFF_FFFFu64 <= n);
        }
        return 0xFFFF_FFFF;
    }
    while lo < hi
        invariant
            lo <= hi <= 0xFFFF_FFFF,
            lo * lo <= n,
            (hi + 1) * (hi + 1) > n,
        decreases hi - lo,
    {
        let mid: u64 = lo + (hi - lo + 1) / 2;
        proof {
            lemma_mul_bound(mid as int, mid as int, 0x1_0000_0000);
        }
        let sq: u128 = (mid as u128) * (mid as u128);
        if sq <= n as u128 {
            lo = mid;
        } else {
            hi = mid - 1;
        }
    }
    lo
}

/// Bounds the product of two bounded factors.
pub proof fn lemma_mul_bound(a: int, b: int, m: int)
    requires
        -m <= a <= m,
        -m <= b <= m,
        0 <= m,
    ensures
        -(m * m) <= a * b <= m * m,
{
    lemma_mul_bound2(a, b, m, m);
}

/// Bounds the product of two factors with separate bounds.
pub proof fn lemma_mul_bound2(a: int, b: int, ma: int, mb: int)
    requires
        -ma <= a <= ma,
        -mb <= b <= mb,
        0 <= ma,
        0 <= mb,
    ensures
        -(ma * mb) <= a * b <= ma * mb,
{
    assert(-(ma * mb) <= a * b <= ma * mb) by (nonlinear_arith)
        requires
            -ma <= a <= ma,
            -mb <= b <= mb,
            0 <= ma,
            0 <= mb,
    ;
}

} // verus!
