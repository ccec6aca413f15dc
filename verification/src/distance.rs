//! Ordering segments by distance from a shared origin.
//!
//! [`SegmentByDistance`] binds a segment to an origin and decides, for
//! two segments that a common ray from the origin crosses, which one the
//! ray hits first — without computing any distance, using only exact
//! side tests.  The decision procedure is a case analysis on where the
//! origin lies relative to each segment's supporting line; the branches
//! of the case analysis that no valid input can reach are proved
//! unreachable from the segments' non-degeneracy.

use core::cmp::Ordering;

use vstd::prelude::*;

use crate::point::{cross, gdist_sq, GPoint, Point};
use crate::segment::{on_line, side_of, seg_matches, GSeg, Segment, SegmentSide};

verus! {

/// Squared distance from `q` to the nearer endpoint of `s`.
pub open spec fn min_end_dist_sq(q: GPoint, s: GSeg) -> int {
    let da = gdist_sq(q, s.a);
    let db = gdist_sq(q, s.b);
    if da <= db {
        da
    } else {
        db
    }
}

/// The first of two side classifications that is decisive.
pub open spec fn first_side(a: Option<SegmentSide>, b: Option<SegmentSide>) -> Option<
    SegmentSide,
> {
    if a is Some {
        a
    } else {
        b
    }
}

/// The comparison of `s1` and `s2` as seen from `q` is meaningful.  It
/// is not when the origin lies on both supporting lines at equal
/// distance from two distinct segments: such segments intersect away
/// from their declared shared endpoints, which the input contract
/// forbids.
pub open spec fn cmp_defined(q: GPoint, s1: GSeg, s2: GSeg) -> bool {
    ||| seg_matches(s1, s2)
    ||| !(on_line(s1, q) && on_line(s2, q) && min_end_dist_sq(q, s1) == min_end_dist_sq(q, s2))
}

/// Nearness order when the origin lies on neither supporting line.
pub open spec fn cmp_spec_general(q: GPoint, s1: GSeg, s2: GSeg, q1: SegmentSide, q2: SegmentSide)
    -> Ordering {
    let s1a2 = side_of(s2, s1.a);
    let s1b2 = side_of(s2, s1.b);
    let s2a1 = side_of(s1, s2.a);
    let s2b1 = side_of(s1, s2.b);
    if s1a2 is Some && s1b2 is Some {
        if s1a2 == Some(q2) && s1b2 == Some(q2) {
            Ordering::Less
        } else if s1a2 == s1b2 {
            Ordering::Greater
        } else if s2a1 is Some && s2b1 is Some {
            if s2a1 == Some(q1) {
                Ordering::Greater
            } else {
                Ordering::Less
            }
        } else {
            match first_side(s2a1, s2b1) {
                Some(t) => if t == q1 {
                    Ordering::Greater
                } else {
                    Ordering::Less
                },
                None => Ordering::Equal,  // unreachable for non-degenerate segments
            }
        }
    } else if s1a2 is Some || s1b2 is Some {
        let st = first_side(s1a2, s1b2).unwrap();
        if s2a1 is Some && s2b1 is Some {
            if s2a1 == Some(q1) {
                Ordering::Greater
            } else {
                Ordering::Less
            }
        } else if s2a1 is Some || s2b1 is Some {
            let t = first_side(s2a1, s2b1).unwrap();
            if st == q2 {
                if t == q1 {
                    Ordering::Equal
                } else {
                    Ordering::Less
                }
            } else {
                Ordering::Greater
            }
        } else {
            Ordering::Equal  // unreachable for non-degenerate segments
        }
    } else {
        // Both segments lie on one line and touch end to end.
        Ordering::Equal
    }
}

/// Which of `s1` and `s2` a common ray from `q` reaches first:
/// `Less` means `s1` is nearer.  Meaningful when `cmp_defined` holds and
/// a ray through both segments exists.
pub open spec fn cmp_spec(q: GPoint, s1: GSeg, s2: GSeg) -> Ordering {
    if seg_matches(s1, s2) {
        Ordering::Equal
    } else {
        let qs1 = side_of(s1, q);
        let qs2 = side_of(s2, q);
        if qs1 is None && qs2 is None {
            // The nearer endpoint decides.
            if min_end_dist_sq(q, s1) < min_end_dist_sq(q, s2) {
                Ordering::Less
            } else {
                Ordering::Greater
            }
        } else if qs1 is Some && qs2 is None {
            match first_side(side_of(s1, s2.a), side_of(s1, s2.b)) {
                Some(st) => if Some(st) == qs1 {
                    Ordering::Greater
                } else {
                    Ordering::Less
                },
                None => Ordering::Equal,  // unreachable for non-degenerate segments
            }
        } else if qs1 is None {
            match first_side(side_of(s2, s1.a), side_of(s2, s1.b)) {
                Some(st) => if Some(st) == qs2 {
                    Ordering::Less
                } else {
                    Ordering::Greater
                },
                None => Ordering::Equal,  // unreachable for non-degenerate segments
            }
        } else {
            cmp_spec_general(q, s1, s2, qs1.unwrap(), qs2.unwrap())
        }
    }
}

/// Cross products distribute over vector sums.
proof fn lemma_cross_add(u: GPoint, v: GPoint, w: GPoint)
    ensures
        cross(u, v.add(w)) == cross(u, v) + cross(u, w),
        cross(u, v.sub(w)) == cross(u, v) - cross(u, w),
{
    assert(u.x * (v.y + w.y) - u.y * (v.x + w.x) == (u.x * v.y - u.y * v.x) + (u.x * w.y - u.y
        * w.x)) by (nonlinear_arith);
    assert(u.x * (v.y - w.y) - u.y * (v.x - w.x) == (u.x * v.y - u.y * v.x) - (u.x * w.y - u.y
        * w.x)) by (nonlinear_arith);
}

/// A vector orthogonal (in the cross sense) to a parallel pair transfers:
/// if `d1` is parallel to `d2 != 0` and `w` is parallel to `d2`, then `w`
/// is parallel to `d1`.
proof fn lemma_parallel_transfer(d1: GPoint, d2: GPoint, w: GPoint)
    requires
        cross(d1, d2) == 0,
        cross(d2, w) == 0,
        d2 != GPoint::zero(),
    ensures
        cross(d1, w) == 0,
{
    if d2.x != 0 {
        assert(cross(d1, w) * d2.x == 0) by (nonlinear_arith)
            requires
                d1.x * d2.y - d1.y * d2.x == 0,
                d2.x * w.y - d2.y * w.x == 0,
        ;
        assert(cross(d1, w) == 0) by (nonlinear_arith)
            requires
                cross(d1, w) * d2.x == 0,
                d2.x != 0,
        ;
    } else {
        assert(d2.y != 0);
        assert(cross(d1, w) * d2.y == 0) by (nonlinear_arith)
            requires
                d1.x * d2.y - d1.y * d2.x == 0,
                d2.x * w.y - d2.y * w.x == 0,
                d2.x == 0,
        ;
        assert(cross(d1, w) == 0) by (nonlinear_arith)
            requires
                cross(d1, w) * d2.y == 0,
                d2.y != 0,
        ;
    }
}

/// If both endpoints of `s2` lie on `s1`'s supporting line, the two
/// lines coincide: any point on `s2`'s line is on `s1`'s line.
pub proof fn lemma_lines_coincide_to(s1: GSeg, s2: GSeg, p: GPoint)
    requires
        s1.a != s1.b,
        s2.a != s2.b,
        on_line(s1, s2.a),
        on_line(s1, s2.b),
        on_line(s2, p),
    ensures
        on_line(s1, p),
{
    let d1 = s1.b.sub(s1.a);
    let d2 = s2.b.sub(s2.a);
    lemma_cross_add(d1, s2.b.sub(s1.a), s2.a.sub(s1.a));
    assert(s2.b.sub(s1.a).sub(s2.a.sub(s1.a)) == d2);
    assert(cross(d1, d2) == 0);
    assert(d2 != GPoint::zero());
    lemma_parallel_transfer(d1, d2, p.sub(s2.a));
    lemma_cross_add(d1, p.sub(s1.a), s2.a.sub(s1.a));
    assert(p.sub(s1.a).sub(s2.a.sub(s1.a)) == p.sub(s2.a));
}

/// If both endpoints of `s2` lie on `s1`'s supporting line, the two
/// lines coincide: any point on `s1`'s line is on `s2`'s line.
pub proof fn lemma_lines_coincide_from(s1: GSeg, s2: GSeg, p: GPoint)
    requires
        s1.a != s1.b,
        s2.a != s2.b,
        on_line(s1, s2.a),
        on_line(s1, s2.b),
        on_line(s1, p),
    ensures
        on_line(s2, p),
{
    let d1 = s1.b.sub(s1.a);
    let d2 = s2.b.sub(s2.a);
    lemma_cross_add(d1, s2.b.sub(s1.a), s2.a.sub(s1.a));
    assert(s2.b.sub(s1.a).sub(s2.a.sub(s1.a)) == d2);
    assert(cross(d1, d2) == 0);
    assert(d1 != GPoint::zero());
    lemma_cross_add(d1, p.sub(s1.a), s2.a.sub(s1.a));
    assert(p.sub(s1.a).sub(s2.a.sub(s1.a)) == p.sub(s2.a));
    assert(cross(d1, p.sub(s2.a)) == 0);
    assert(d2.x * d1.y - d2.y * d1.x == 0) by (nonlinear_arith)
        requires
            d1.x * d2.y - d1.y * d2.x == 0,
    ;
    assert(cross(d2, d1) == 0);
    lemma_parallel_transfer(d2, d1, p.sub(s2.a));
}

/// Every segment compares equal to itself.
pub proof fn lemma_cmp_reflexive(q: GPoint, s: GSeg)
    ensures
        cmp_spec(q, s, s) == Ordering::Equal,
{
}

/// Equality under the comparator does not depend on the operand order:
/// two non-degenerate segments compare `Equal` one way exactly when
/// they compare `Equal` the other way.
pub proof fn lemma_cmp_equal_symmetric(q: GPoint, s1: GSeg, s2: GSeg)
    requires
        s1.a != s1.b,
        s2.a != s2.b,
    ensures
        (cmp_spec(q, s1, s2) == Ordering::Equal) == (cmp_spec(q, s2, s1) == Ordering::Equal),
{
    if cmp_spec(q, s1, s2) == Ordering::Equal {
        lemma_cmp_equal_one_way(q, s1, s2);
    }
    if cmp_spec(q, s2, s1) == Ordering::Equal {
        lemma_cmp_equal_one_way(q, s2, s1);
    }
}

/// One direction of [`lemma_cmp_equal_symmetric`].
proof fn lemma_cmp_equal_one_way(q: GPoint, s1: GSeg, s2: GSeg)
    requires
        s1.a != s1.b,
        s2.a != s2.b,
        cmp_spec(q, s1, s2) == Ordering::Equal,
    ensures
        cmp_spec(q, s2, s1) == Ordering::Equal,
{
    if seg_matches(s1, s2) {
    } else {
        let qs1 = side_of(s1, q);
        let qs2 = side_of(s2, q);
        let s1a2 = side_of(s2, s1.a);
        let s1b2 = side_of(s2, s1.b);
        let s2a1 = side_of(s1, s2.a);
        let s2b1 = side_of(s1, s2.b);
        if qs1 is None && qs2 is None {
            // Distance comparison; never `Equal`.
        } else if qs1 is Some && qs2 is None {
            // `Equal` would need both of s2's endpoints on s1's line,
            // which would put q on s1's line as well.
            if s2a1 is None && s2b1 is None {
                lemma_lines_coincide_to(s1, s2, q);
            }
        } else if qs1 is None {
            if s1a2 is None && s1b2 is None {
                lemma_lines_coincide_to(s2, s1, q);
            }
        } else {
            if s1a2 is Some && s1b2 is Some {
                // The first two outcomes are `Less`/`Greater`; within
                // the remaining ones `Equal` would again need both of
                // s2's endpoints on s1's line.
                if s2a1 is None && s2b1 is None {
                    lemma_lines_coincide_from(s1, s2, s1.a);
                    lemma_lines_coincide_from(s1, s2, s1.b);
                }
            } else if s1a2 is Some || s1b2 is Some {
                if s2a1 is Some && s2b1 is Some {
                    // `Greater` or `Less`, never `Equal`.
                } else if s2a1 is Some || s2b1 is Some {
                    // The end-to-end case: `Equal` exactly when each
                    // decisive endpoint lies on the origin's side of the
                    // other segment; the condition reads the same from
                    // both operands.
                } else {
                    lemma_lines_coincide_from(s1, s2, s1.a);
                    lemma_lines_coincide_from(s1, s2, s1.b);
                }
            } else {
                // Both of s1's endpoints on s2's line: the lines
                // coincide, so both of s2's endpoints are on s1's line
                // and the swapped comparison lands in the same branch.
                lemma_lines_coincide_from(s2, s1, s2.a);
                lemma_lines_coincide_from(s2, s1, s2.b);
            }
        }
    }
}

/// A comparator binding a segment to a fixed origin; ordered by which
/// segment a common ray from the origin reaches first.
#[derive(Clone, Copy, Debug)]
pub struct SegmentByDistance {
    pub origin: Point,
    pub segment: Segment,
}

impl SegmentByDistance {
    /// Origin and segment are in range and the segment is non-degenerate.
    pub open spec fn wf(self) -> bool {
        &&& self.origin.wf()
        &&& self.segment.wf()
    }

    pub fn new(origin: Point, segment: Segment) -> (r: SegmentByDistance)
        ensures
            r.origin == origin,
            r.segment == segment,
    {
        SegmentByDistance { origin, segment }
    }

    /// Decides which segment a common ray from the shared origin hits
    /// first: `Less` when `self`'s segment is nearer, `Equal` only for
    /// the same segment or two segments meeting end to end at the point
    /// nearest the origin.
    pub fn cmp(&self, other: &SegmentByDistance) -> (r: Ordering)
        requires
            self.wf(),
            other.wf(),
            self.origin == other.origin,
            cmp_defined(self.origin@, self.segment@, other.segment@),
        ensures
            r == cmp_spec(self.origin@, self.segment@, other.segment@),
    {
        let q = self.origin;
        let s1 = &self.segment;
        let s2 = &other.segment;
        if *s1 == *s2 {
            return Ordering::Equal;
        }
        let (s1a, s1b) = s1.ab();
        let (s2a, s2b) = s2.ab();

        let s2a_to_s1 = s1.which_side(s2a);
        let s2b_to_s1 = s1.which_side(s2b);
        let s1a_to_s2 = s2.which_side(s1a);
        let s1b_to_s2 = s2.which_side(s1b);

        match (s1.which_side(q), s2.which_side(q)) {
            (None, None) => {
                // The origin is on both supporting lines; the nearer
                // endpoint decides.
                let da1 = q.dist_sq(s1a);
                let db1 = q.dist_sq(s1b);
                let da2 = q.dist_sq(s2a);
                let db2 = q.dist_sq(s2b);
                let d1 = if da1 <= db1 {
                    da1
                } else {
                    db1
                };
                let d2 = if da2 <= db2 {
                    da2
                } else {
                    db2
                };
                if d1 < d2 {
                    Ordering::Less
                } else if d1 > d2 {
                    Ordering::Greater
                } else {
                    // Equal distance on a shared line would mean the two
                    // segments intersect; ruled out by `cmp_defined`.
                    proof {
                        assert(false);
                    }
                    vstd::pervasive::unreached()
                }
            },
            (Some(q_to_s1), None) => {
                match (s2a_to_s1, s2b_to_s1) {
                    (Some(s2_to_s1), _) | (None, Some(s2_to_s1)) => {
                        if s2_to_s1 == q_to_s1 {
                            Ordering::Greater
                        } else {
                            Ordering::Less
                        }
                    },
                    (None, None) => {
                        // Both of s2's endpoints on s1's line would put
                        // the origin on s1's line as well.
                        proof {
                            lemma_lines_coincide_to(self.segment@, other.segment@, q@);
                        }
                        vstd::pervasive::unreached()
                    },
                }
            },
            (None, Some(q_to_s2)) => {
                match (s1a_to_s2, s1b_to_s2) {
                    (Some(s1_to_s2), _) | (None, Some(s1_to_s2)) => {
                        if s1_to_s2 == q_to_s2 {
                            Ordering::Less
                        } else {
                            Ordering::Greater
                        }
                    },
                    (None, None) => {
                        proof {
                            lemma_lines_coincide_to(other.segment@, self.segment@, q@);
                        }
                        vstd::pervasive::unreached()
                    },
                }
            },
            (Some(q_to_s1), Some(q_to_s2)) => {
                match (s1a_to_s2, s1b_to_s2) {
                    (Some(s1a_side), Some(s1b_side)) => {
                        if q_to_s2 == s1a_side && q_to_s2 == s1b_side {
                            Ordering::Less
                        } else if s1a_side == s1b_side {
                            Ordering::Greater
                        } else {
                            match (s2a_to_s1, s2b_to_s1) {
                                (Some(s2a_side), Some(_)) => {
                                    if q_to_s1 == s2a_side {
                                        Ordering::Greater
                                    } else {
                                        Ordering::Less
                                    }
                                },
                                (Some(s2_to_s1), _) | (None, Some(s2_to_s1)) => {
                                    if s2_to_s1 == q_to_s1 {
                                        Ordering::Greater
                                    } else {
                                        Ordering::Less
                                    }
                                },
                                (None, None) => {
                                    proof {
                                        lemma_lines_coincide_from(
                                            self.segment@,
                                            other.segment@,
                                            self.segment@.a,
                                        );
                                    }
                                    vstd::pervasive::unreached()
                                },
                            }
                        }
                    },
                    (Some(s1_to_s2), None) | (None, Some(s1_to_s2)) => {
                        match (s2a_to_s1, s2b_to_s1) {
                            (Some(s2a_side), Some(_)) => {
                                if s2a_side == q_to_s1 {
                                    Ordering::Greater
                                } else {
                                    Ordering::Less
                                }
                            },
                            (Some(s2_to_s1), None) | (None, Some(s2_to_s1)) => {
                                // The segments touch end to end.
                                if s1_to_s2 == q_to_s2 {
                                    if s2_to_s1 == q_to_s1 {
                                        Ordering::Equal
                                    } else {
                                        Ordering::Less
                                    }
                                } else {
                                    Ordering::Greater
                                }
                            },
                            (None, None) => {
                                proof {
                                    lemma_lines_coincide_from(
                                        self.segment@,
                                        other.segment@,
                                        self.segment@.a,
                                    );
                                    lemma_lines_coincide_from(
                                        self.segment@,
                                        other.segment@,
                                        self.segment@.b,
                                    );
                                }
                                vstd::pervasive::unreached()
                            },
                        }
                    },
                    (None, None) => {
                        // Both segments on one line, touching end to end.
                        Ordering::Equal
                    },
                }
            },
        }
    }
}

} // verus!
