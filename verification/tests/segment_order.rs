use core::cmp::Ordering;

use sightline::{Point, Segment, SegmentByDistance, SegmentSide, ToricGeometry};

fn seg(x1: i64, y1: i64, x2: i64, y2: i64) -> Segment {
    Segment::new(Point::new(x1, y1), Point::new(x2, y2)).expect("Non-zero-length segment")
}

fn by_dist(origin: Point, s: Segment) -> SegmentByDistance {
    SegmentByDistance::new(origin, s)
}

#[test]
fn segment_ord() {
    let origin = Point::new(0, 0);

    let s = [
        seg(-2, 2, 0, 2),
        seg(0, 2, 2, 2),
        seg(-2, 3, 2, 3),
        seg(-3, 6, -1, 4),
        seg(0, 4, 0, 6),
        seg(1, 4, 3, 7),
        seg(-2, 6, 0, 8),
        seg(0, 8, 2, 6),
        seg(0, 9, 0, 11),
        seg(2, 4, 4, 6),
    ];

    let expect_equal = |i1: usize, i2: usize| {
        assert!(
            by_dist(origin, s[i1]).cmp(&by_dist(origin, s[i2])) == Ordering::Equal,
            "Expected equality:\ns{i1}={:?}\ns{i2}={:?}",
            s[i1],
            s[i2]
        );
        assert!(
            by_dist(origin, s[i2]).cmp(&by_dist(origin, s[i1])) == Ordering::Equal,
            "Expected equality:\ns{i2}={:?}\ns{i1}={:?}",
            s[i2],
            s[i1]
        );
    };

    let expect_less = |i1: usize, i2: usize| {
        assert!(
            by_dist(origin, s[i1]).cmp(&by_dist(origin, s[i2])) == Ordering::Less,
            "Expected left < right:\ns{i1}={:?}\ns{i2}={:?}",
            s[i1],
            s[i2]
        );
        assert!(
            by_dist(origin, s[i2]).cmp(&by_dist(origin, s[i1])) == Ordering::Greater,
            "Expected left > right:\ns{i2}={:?}\ns{i1}={:?}",
            s[i2],
            s[i1]
        );
    };

    for i in 0..s.len() {
        expect_equal(i, i);
    }

    expect_equal(0, 1);
    expect_equal(6, 7);

    expect_less(0, 2);
    expect_less(0, 3);
    expect_less(0, 4);
    expect_less(0, 6);
    expect_less(0, 7);

    expect_less(1, 2);
    expect_less(1, 4);
    expect_less(1, 5);
    expect_less(1, 6);
    expect_less(1, 7);

    expect_less(3, 6);

    expect_less(5, 7);

    expect_less(4, 8);

    expect_less(9, 5);
}

#[test]
fn segment_ord_weird() {
    let s1 = seg(-2, 2, -2, 0);
    let s2 = seg(-4, 0, -5, 0);
    let origin = Point::new(0, 1);

    let sd1 = by_dist(origin, s1);
    let sd2 = by_dist(origin, s2);

    assert!(
        sd1.cmp(&sd2) == Ordering::Less,
        "\norigin={origin:?}\nsd1={s1:?}\nsd2={s2:?}"
    );
    assert!(
        sd2.cmp(&sd1) == Ordering::Greater,
        "\norigin={origin:?}\nsd1={s1:?}\nsd2={s2:?}"
    );
}

#[test]
fn segment_ord_touching_sideways() {
    let s1 = seg(-2, 2, -2, 0);
    let s2 = seg(-2, 2, -3, 2);
    let origin = Point::new(0, 1);

    let sd1 = by_dist(origin, s1);
    let sd2 = by_dist(origin, s2);

    assert!(
        sd1.cmp(&sd2) == Ordering::Less,
        "\norigin={origin:?}\nsd1={s1:?}\nsd2={s2:?}"
    );
    assert!(
        sd2.cmp(&sd1) == Ordering::Greater,
        "\norigin={origin:?}\nsd1={s1:?}\nsd2={s2:?}"
    );
}

#[test]
fn segment_new_rejects_degenerate() {
    let p = Point::new(3, -4);
    assert!(Segment::new(p, p).is_none());
    assert!(Segment::new(Point::new(0, 0), Point::new(0, 1)).is_some());
}

#[test]
fn segment_equality_ignores_endpoint_order() {
    let s1 = seg(1, 2, 3, 4);
    let s2 = seg(3, 4, 1, 2);
    let s3 = seg(1, 2, 3, 5);
    assert_eq!(s1, s2);
    assert_ne!(s1, s3);
}

#[test]
fn which_side_classification() {
    let s = seg(0, 0, 10, 0);
    assert_eq!(s.which_side(Point::new(5, 3)), Some(SegmentSide::Left));
    assert_eq!(s.which_side(Point::new(5, -3)), Some(SegmentSide::Right));
    assert_eq!(s.which_side(Point::new(5, 0)), None);
    assert_eq!(s.which_side(Point::new(-7, 0)), None);
    assert_eq!(s.which_side(Point::new(0, 0)), None);
    assert_eq!(s.which_side(Point::new(10, 0)), None);
}

#[test]
fn intersect_with_ray_exact_and_parallel() {
    let s = seg(5, -5, 5, 5);
    let origin = Point::new(0, 0);
    // A ray pointing right meets the vertical line at (5, 0).
    let hit = s.intersect_with_ray(origin, Point::new(1, 0));
    assert_eq!(hit, Some(Point::new(5, 0)));
    // A diagonal ray meets it at (5, 5).
    let hit = s.intersect_with_ray(origin, Point::new(1, 1));
    assert_eq!(hit, Some(Point::new(5, 5)));
    // A parallel ray yields no intersection.
    let hit = s.intersect_with_ray(origin, Point::new(0, 1));
    assert_eq!(hit, None);
}

#[test]
fn point_arithmetic() {
    let a = Point::new(2, 3);
    let b = Point::new(7, -1);
    assert_eq!(a.dir(b), Point::new(5, -4));
    assert_eq!(a.translate(Point::new(5, -4)), b);
    assert_eq!(a.dist_sq(b), 25 + 16);
    assert_eq!(a.midpoint(b), Point::new(5, 1));
    assert_eq!(Point::new(0, 0).midpoint(Point::new(3, 0)), Point::new(2, 0));
    assert_eq!(Point::new(0, 0).midpoint(Point::new(-3, 0)), Point::new(-1, 0));
}

#[test]
fn point_lerp_interpolates_exactly() {
    let a = Point::new(0, 0);
    let b = Point::new(10, -10);
    assert_eq!(a.lerp(b, 0, 10), a);
    assert_eq!(a.lerp(b, 10, 10), b);
    assert_eq!(a.lerp(b, 3, 10), Point::new(3, -3));
    // Halves round up.
    assert_eq!(a.lerp(Point::new(1, 0), 1, 2), Point::new(1, 0));
}

#[test]
fn point_dist_is_floor_of_euclidean() {
    let o = Point::new(0, 0);
    assert_eq!(o.dist(Point::new(3, 4)), 5);
    assert_eq!(o.dist(Point::new(1, 1)), 1);
    assert_eq!(o.dist(Point::new(-10, 0)), 10);
    assert_eq!(o.dist(o), 0);
    assert_eq!(Point::new(1000000, 0).dist(Point::new(0, 1)), 1000000);
}

#[test]
fn toric_wrap_folds_by_one_period() {
    let torus = ToricGeometry { x: 10, y: 8 };
    let mut p = Point::new(7, -5);
    torus.wrap(&mut p);
    assert_eq!(p, Point::new(-3, 3));
    let mut q = Point::new(4, 4);
    torus.wrap(&mut q);
    assert_eq!(q, Point::new(4, 4));
    let mut r = Point::new(-6, 0);
    torus.wrap(&mut r);
    assert_eq!(r, Point::new(4, 0));
}
