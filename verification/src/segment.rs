//! Occluder segments: an unordered pair of distinct points, side
//! classification against the segment's supporting line, and ray/line
//! intersection.

use vstd::prelude::*;

use crate::point::{cross, GPoint, Point, lemma_mul_bound, lemma_mul_bound2, MAX_COORD};
use crate::rounding::{round_div, round_div_i128};

verus! {

/// Which side of a directed line a point lies on.
#[derive(Clone, Copy, PartialEq, Eq, Structural, Debug)]
pub enum SegmentSide {
    Left,
    Right,
}

/// Mathematical model of a segment: two unbounded integer endpoints.
pub struct GSeg {
    pub a: GPoint,
    pub b: GPoint,
}

impl GSeg {
    /// Endpoints are in range and distinct.
    pub open spec fn wf(self) -> bool {
        &&& self.a.in_bounds()
        &&& self.b.in_bounds()
        &&& self.a != self.b
    }

    /// The segment moved by the displacement `v`.
    pub open spec fn translate(self, v: GPoint) -> GSeg {
        GSeg { a: self.a.add(v), b: self.b.add(v) }
    }
}

/// Orientation of `p` against the directed line `s.a -> s.b`:
/// positive means `Left`, negative means `Right`, zero means `p` is on
/// the supporting line (which covers `p` coinciding with an endpoint).
pub open spec fn side_scalar(s: GSeg, p: GPoint) -> int {
    cross(s.b.sub(s.a), p.sub(s.a))
}

/// Side classification of `p` against `s`'s supporting line.
pub open spec fn side_of(s: GSeg, p: GPoint) -> Option<SegmentSide> {
    let c = side_scalar(s, p);
    if c == 0 {
        None
    } else if c > 0 {
        Some(SegmentSide::Left)
    } else {
        Some(SegmentSide::Right)
    }
}

/// `p` lies on `s`'s supporting line.
pub open spec fn on_line(s: GSeg, p: GPoint) -> bool {
    side_scalar(s, p) == 0
}

/// Two segments hold the same endpoint pair, in either order.
pub open spec fn seg_matches(s1: GSeg, s2: GSeg) -> bool {
    ||| (s1.a == s2.a && s1.b == s2.b)
    ||| (s1.a == s2.b && s1.b == s2.a)
}

/// Intersection of `s`'s supporting line with the line through `o` in
/// direction `d`, rounded to the integer grid; `None` when the lines are
/// parallel or coincident.  The ray is not clamped to its positive half,
/// nor the segment to its extent.
pub open spec fn ray_hit_raw(s: GSeg, o: GPoint, d: GPoint) -> Option<GPoint> {
    let x1 = s.a.x;
    let y1 = s.a.y;
    let x2 = s.b.x;
    let y2 = s.b.y;
    let x3 = o.x;
    let y3 = o.y;
    let x4 = o.x + d.x;
    let y4 = o.y + d.y;
    let den = (x1 - x2) * (y3 - y4) - (y1 - y2) * (x3 - x4);
    if den == 0 {
        None
    } else {
        let xn = (x1 * y2 - y1 * x2) * (x3 - x4) - (x1 - x2) * (x3 * y4 - y3 * x4);
        let yn = (x1 * y2 - y1 * x2) * (y3 - y4) - (y1 - y2) * (x3 * y4 - y3 * x4);
        Some(GPoint { x: round_div(xn, den), y: round_div(yn, den) })
    }
}

/// [`ray_hit_raw`], with intersections that fall outside the scene
/// coordinate range treated as misses.
pub open spec fn ray_hit(s: GSeg, o: GPoint, d: GPoint) -> Option<GPoint> {
    match ray_hit_raw(s, o, d) {
        Some(p) => if p.in_bounds() {
            Some(p)
        } else {
            None
        },
        None => None,
    }
}

/// A displacement vector between two in-range points.
pub open spec fn dir_in_bounds(d: GPoint) -> bool {
    &&& -2 * (MAX_COORD as int) <= d.x <= 2 * (MAX_COORD as int)
    &&& -2 * (MAX_COORD as int) <= d.y <= 2 * (MAX_COORD as int)
}

/// The model of a segment list.
pub open spec fn segs_view(s: Seq<Segment>) -> Seq<GSeg> {
    s.map_values(|x: Segment| x@)
}

/// The model of an `Option<Point>` result.
pub open spec fn opt_point_view(o: Option<Point>) -> Option<GPoint> {
    match o {
        Some(p) => Some(p@),
        None => None,
    }
}

/// An opaque line segment between two distinct points.
#[derive(Clone, Copy, Debug)]
pub struct Segment {
    pub a: Point,
    pub b: Point,
}

impl View for Segment {
    type V = GSeg;

    open spec fn view(&self) -> GSeg {
        GSeg { a: self.a@, b: self.b@ }
    }
}

impl PartialEq for Segment {
    /// Segments are equal when their endpoint pairs match in either order.
    fn eq(&self, other: &Segment) -> (r: bool) {
        (self.a == other.a && self.b == other.b) || (self.a == other.b && self.b == other.a)
    }
}

impl vstd::std_specs::cmp::PartialEqSpecImpl for Segment {
    open spec fn obeys_eq_spec() -> bool {
        true
    }

    open spec fn eq_spec(&self, other: &Segment) -> bool {
        seg_matches(self@, other@)
    }
}

impl Segment {
    /// Endpoints are in range and distinct.
    pub open spec fn wf(self) -> bool {
        self@.wf()
    }

    /// Builds a segment; a degenerate pair (equal endpoints) is rejected.
    pub fn new(a: Point, b: Point) -> (r: Option<Segment>)
        requires
            a.wf(),
            b.wf(),
        ensures
            a@ == b@ ==> r is None,
            a@ != b@ ==> r == Some(Segment { a, b }),
            r is Some ==> r.unwrap().wf() && r.unwrap()@ == (GSeg { a: a@, b: b@ }),
    {
        if a.x == b.x && a.y == b.y {
            None
        } else {
            Some(Segment { a, b })
        }
    }

    /// The two endpoints.
    pub fn ab(&self) -> (r: (Point, Point))
        ensures
            r.0@ == self@.a,
            r.1@ == self@.b,
    {
        (self.a, self.b)
    }

    /// Classifies `point` against the directed line `a -> b`: `Left`,
    /// `Right`, or `None` when it lies on the supporting line (including
    /// coinciding with an endpoint).
    pub fn which_side(&self, point: Point) -> (r: Option<SegmentSide>)
        requires
            self.wf(),
            point.wf(),
        ensures
            r == side_of(self@, point@),
    {
        let ux: i128 = self.b.x as i128 - self.a.x as i128;
        let uy: i128 = self.b.y as i128 - self.a.y as i128;
        let vx: i128 = point.x as i128 - self.a.x as i128;
        let vy: i128 = point.y as i128 - self.a.y as i128;
        proof {
            lemma_mul_bound(ux as int, vy as int, 0x1_0000_0000);
            lemma_mul_bound(uy as int, vx as int, 0x1_0000_0000);
        }
        let c: i128 = ux * vy - uy * vx;
        if c == 0 {
            None
        } else if c > 0 {
            Some(SegmentSide::Left)
        } else {
            Some(SegmentSide::Right)
        }
    }

    /// Intersects this segment's supporting line with the line through
    /// `origin` along `direction`.  Returns `None` for parallel or
    /// coincident lines, and for intersections outside the coordinate
    /// range.
    pub fn intersect_with_ray(&self, origin: Point, direction: Point) -> (r: Option<Point>)
        requires
            self.wf(),
            origin.wf(),
            dir_in_bounds(direction@),
        ensures
            opt_point_view(r) == ray_hit(self@, origin@, direction@),
    {
        let x1: i128 = self.a.x as i128;
        let y1: i128 = self.a.y as i128;
        let x2: i128 = self.b.x as i128;
        let y2: i128 = self.b.y as i128;
        let x3: i128 = origin.x as i128;
        let y3: i128 = origin.y as i128;
        let x4: i128 = x3 + direction.x as i128;
        let y4: i128 = y3 + direction.y as i128;
        proof {
            lemma_mul_bound((x1 - x2) as int, (y3 - y4) as int, 0x1_0000_0000);
            lemma_mul_bound((y1 - y2) as int, (x3 - x4) as int, 0x1_0000_0000);
            lemma_mul_bound(x1 as int, y2 as int, 0x8000_0000);
            lemma_mul_bound(y1 as int, x2 as int, 0x8000_0000);
            lemma_mul_bound(x3 as int, y4 as int, 0x4_0000_0000);
            lemma_mul_bound(y3 as int, x4 as int, 0x4_0000_0000);
        }
        let den: i128 = (x1 - x2) * (y3 - y4) - (y1 - y2) * (x3 - x4);
        if den == 0 {
            return None;
        }
        let sab: i128 = x1 * y2 - y1 * x2;
        let sod: i128 = x3 * y4 - y3 * x4;
        proof {
            lemma_mul_bound2(sab as int, (x3 - x4) as int, 0x8000_0000_0000_0000, 0x1_0000_0000);
            lemma_mul_bound2((x1 - x2) as int, sod as int, 0x1_0000_0000, 0x80_0000_0000_0000_0000);
            lemma_mul_bound2(sab as int, (y3 - y4) as int, 0x8000_0000_0000_0000, 0x1_0000_0000);
            lemma_mul_bound2((y1 - y2) as int, sod as int, 0x1_0000_0000, 0x80_0000_0000_0000_0000);
        }
        let xn: i128 = sab * (x3 - x4) - (x1 - x2) * sod;
        let yn: i128 = sab * (y3 - y4) - (y1 - y2) * sod;
        let qx: i128 = round_div_i128(xn, den);
        let qy: i128 = round_div_i128(yn, den);
        if -MAX_COORD as i128 <= qx && qx <= MAX_COORD as i128 && -MAX_COORD as i128 <= qy
            && qy <= MAX_COORD as i128 {
            Some(Point { x: qx as i64, y: qy as i64 })
        } else {
            None
        }
    }
}

} // verus!
