use sightline::{compute_visibility, Point, Segment};

fn seg(x1: i64, y1: i64, x2: i64, y2: i64) -> Segment {
    Segment::new(Point::new(x1, y1), Point::new(x2, y2)).expect("Non-zero-length segment")
}

fn compute(origin: Point, input: &[Segment]) -> Vec<Segment> {
    let vis = compute_visibility(origin, input);
    println!("Origin: {origin:?}");
    vis
}

fn compare(expected: &[Segment], result: &[Segment]) {
    let mut fail = false;

    println!("Expected:");
    for s in expected {
        if result.contains(s) {
            println!(" -> {s:?} - ok");
        } else {
            println!(" -> {s:?} - missing");
            fail = true;
        }
    }

    println!("Result:");
    for s in result {
        if expected.contains(s) {
            println!(" -> {s:?} - ok");
        } else {
            println!(" -> {s:?} - not expected");
            fail = true;
        }
    }

    assert!(!fail);
}

#[test]
fn visibility_single() {
    let input = [seg(1, 1, -1, 1)];
    let output = compute(Point::new(0, 0), &input);
    compare(&input, &output);
}

#[test]
fn visibility_diamond_inside() {
    let input = [
        seg(-1, 0, 0, -1),
        seg(0, -1, 1, 0),
        seg(1, 0, 0, 1),
        seg(0, 1, -1, 0),
    ];
    let output = compute(Point::new(0, 0), &input);
    compare(&input, &output);
}

#[test]
fn visibility_square_inside() {
    let input = [
        seg(1, 1, -1, 1),
        seg(-1, 1, -1, -1),
        seg(-1, -1, 1, -1),
        seg(1, -1, 1, 1),
    ];
    let output = compute(Point::new(0, 0), &input);
    compare(&input, &output);
}

fn big_square() -> Vec<Segment> {
    vec![
        // Top
        seg(-5, 5, 0, 5),
        seg(0, 5, 5, 5),
        // Right
        seg(5, 5, 5, 0),
        seg(5, 0, 5, -5),
        // Bottom
        seg(5, -5, 0, -5),
        seg(0, -5, -5, -5),
        // Left
        seg(-5, -5, -5, 0),
        seg(-5, 0, -5, 5),
    ]
}

#[test]
fn visibility_square_multiple_origins_inside() {
    let input = big_square();
    for x in -4..=4 {
        for y in -4..=4 {
            let origin = Point::new(x, y);
            let output = compute(origin, &input);
            compare(&input, &output);
        }
    }
}

#[test]
fn visibility_square_multiple_origins_outside() {
    let input = big_square();

    //     ^
    // 10  |  12  13  14  15   0
    //     |
    // 5   |  11   +---+---+   1
    //     |       |       |
    // 0   |  10   +       +   2
    //     |       |       |
    // -5  |   9   +---+---+   3
    //     |
    // -10 |   8   7   6   5   4
    //     |
    // ----+--------------------->
    //     | -10  -5   0   5  10

    let top = &input[0..2];
    let right = &input[2..4];
    let bottom = &input[4..6];
    let left = &input[6..8];

    let cases: Vec<(Point, Vec<Segment>)> = vec![
        (Point::new(10, 10), [top, right].concat()),
        (Point::new(10, 5), right.to_vec()),
        (Point::new(10, 0), right.to_vec()),
        (Point::new(10, -5), right.to_vec()),
        (Point::new(10, -10), [right, bottom].concat()),
        (Point::new(5, -10), bottom.to_vec()),
        (Point::new(0, -10), bottom.to_vec()),
        (Point::new(-5, -10), bottom.to_vec()),
        (Point::new(-10, -10), [bottom, left].concat()),
        (Point::new(-10, -5), left.to_vec()),
        (Point::new(-10, 0), left.to_vec()),
        (Point::new(-10, 5), left.to_vec()),
        (Point::new(-10, 10), [left, top].concat()),
        (Point::new(-5, 10), top.to_vec()),
        (Point::new(0, 10), top.to_vec()),
        (Point::new(5, 10), top.to_vec()),
    ];

    for (origin, expected) in cases {
        let output = compute(origin, &input);
        compare(&expected, &output);
    }
}

#[test]
fn visibility_no_isolated_events() {
    let input = [
        seg(1, -2, 2, 1),
        seg(5, 1, 1, 5),
        seg(1, 2, -1, 2),
        seg(-1, 5, -5, 1),
        seg(-2, 1, -1, -2),
        seg(-3, -4, 3, -4),
    ];
    let output = compute(Point::new(0, 0), &input);
    let expected = [
        seg(1, -2, 2, 1),
        seg(4, 2, 2, 4),
        seg(1, 2, -1, 2),
        seg(-2, 4, -4, 2),
        seg(-2, 1, -1, -2),
        seg(-2, -4, 2, -4),
    ];
    compare(&expected, &output);
}

#[test]
fn visibility_complicated() {
    let input = [
        seg(-2, -4, 13, -1),
        seg(2, 0, 2, 1),
        seg(4, -1, 4, 3),
        seg(2, 2, 0, 2),
        seg(2, 3, 1, 3),
        seg(0, 3, -2, 0),
        seg(-1, 0, 2, -2),
    ];
    let output = compute(Point::new(0, 0), &input);
    let expected = [
        seg(2, 0, 2, 1),
        seg(4, 2, 4, 3),
        seg(2, 2, 0, 2),
        seg(0, 3, -2, 0),
        seg(-1, 0, 2, -2),
        seg(3, -3, 8, -2),
        seg(4, -1, 4, 0),
    ];
    compare(&expected, &output);
}

#[test]
fn visibility_realistic() {
    // xxxxxxxxxxxxxx
    // x            x
    // x     444 3  x
    // x            x
    // x   0        x
    // x 1 0        x
    // x            x
    // x     222    x
    // x       22   x
    // x            x
    // x            x
    // xxxxxxxxxxxxxx

    let input = [
        // Shape 0
        seg(-2, 2, -3, 2),
        seg(-2, 2, -2, 0),
        seg(-2, 0, -3, 0),
        seg(-3, 0, -3, 2),
        // Shape 1
        seg(-4, 0, -4, 1),
        seg(-4, 0, -5, 0),
        seg(-4, 1, -5, 1),
        seg(-5, 0, -5, 1),
        // Shape 2
        seg(-1, -1, 2, -1),
        seg(2, -1, 2, -2),
        seg(2, -2, 3, -2),
        seg(3, -2, 3, -3),
        seg(3, -3, 1, -3),
        seg(1, -3, 1, -2),
        seg(1, -2, -1, -2),
        seg(-1, -2, -1, -1),
        // Shape 3
        seg(4, 3, 4, 4),
        seg(4, 3, 3, 3),
        seg(3, 3, 3, 4),
        seg(3, 4, 4, 4),
        // Shape 4
        seg(-1, 3, 2, 3),
        seg(2, 3, 2, 4),
        seg(2, 4, -1, 4),
        seg(-1, 4, -1, 3),
        // Walls
        seg(-6, 5, 6, 5),
        seg(-6, 5, -6, -5),
        seg(-6, -5, 6, -5),
        seg(6, 5, 6, -5),
    ];
    let output = compute(Point::new(0, 1), &input);
    let expected = [
        seg(-2, 2, -2, 0),
        seg(-6, -2, -6, -5),
        seg(-6, -5, -3, -5),
        seg(-1, -1, 2, -1),
        seg(6, -5, 6, 4),
        seg(4, 3, 3, 3),
        seg(3, 3, 3, 4),
        seg(2, 3, -1, 3),
        seg(-2, 5, -6, 5),
        seg(-6, 5, -6, 4),
    ];
    compare(&expected, &output);
}

#[test]
fn visibility_skips_segment_aligned_with_origin() {
    // The collinear segment to the right of the origin has no angular
    // extent and contributes nothing; the square is returned unchanged.
    let mut input = big_square();
    input.push(seg(7, 0, 9, 0));
    let expected = big_square();
    let output = compute(Point::new(0, 0), &input);
    compare(&expected, &output);
}

#[test]
fn visibility_extreme_coordinates() {
    // A square ring at the very edge of the coordinate range is
    // returned unchanged from its interior.
    let m = 1073741824;
    let input = [
        seg(m, m, -m, m),
        seg(-m, m, -m, -m),
        seg(-m, -m, m, -m),
        seg(m, -m, m, m),
    ];
    let output = compute(Point::new(1, 2), &input);
    compare(&input, &output);
}

#[test]
fn visibility_deterministic() {
    // Two identical queries give the same boundary, in the same order.
    let input = [
        seg(1, -2, 2, 1),
        seg(5, 1, 1, 5),
        seg(1, 2, -1, 2),
        seg(-1, 5, -5, 1),
        seg(-2, 1, -1, -2),
        seg(-3, -4, 3, -4),
    ];
    let a = compute(Point::new(0, 0), &input);
    let b = compute(Point::new(0, 0), &input);
    assert_eq!(a.len(), b.len());
    for (x, y) in a.iter().zip(b.iter()) {
        assert_eq!(x, y);
    }
}

#[test]
fn visibility_translation_invariant() {
    // Translating the origin and every occluder by the same vector
    // translates the boundary identically.
    let input = [
        seg(-2, -4, 13, -1),
        seg(2, 0, 2, 1),
        seg(4, -1, 4, 3),
        seg(2, 2, 0, 2),
        seg(2, 3, 1, 3),
        seg(0, 3, -2, 0),
        seg(-1, 0, 2, -2),
    ];
    let (dx, dy) = (117, -3025);
    let moved: Vec<Segment> = input
        .iter()
        .map(|s| {
            let (a, b) = s.ab();
            seg(a.x + dx, a.y + dy, b.x + dx, b.y + dy)
        })
        .collect();
    let base = compute(Point::new(0, 0), &input);
    let shifted = compute(Point::new(dx, dy), &moved);
    assert_eq!(base.len(), shifted.len());
    for (s, t) in base.iter().zip(shifted.iter()) {
        let (sa, sb) = s.ab();
        let (ta, tb) = t.ab();
        assert_eq!(Point::new(sa.x + dx, sa.y + dy), ta);
        assert_eq!(Point::new(sb.x + dx, sb.y + dy), tb);
    }
}

#[test]
fn visibility_outputs_nondegenerate() {
    // Every returned boundary segment satisfies the constructor's
    // non-degeneracy invariant.
    let input = big_square();
    for x in [-4, 0, 3] {
        for y in [-2, 1, 4] {
            let output = compute(Point::new(x, y), &input);
            for s in &output {
                let (a, b) = s.ab();
                assert!(a != b);
                assert!(Segment::new(a, b).is_some());
            }
        }
    }
}

#[test]
fn visibility_covers_full_circle_from_inside() {
    // From an origin strictly inside a closed convex ring, the boundary
    // segments' angular intervals cover the whole turn: a dense fan of
    // directions finds each direction within some output segment's span.
    let input = big_square();
    let origin = Point::new(1, 2);
    let output = compute(origin, &input);
    let spans: Vec<(f64, f64)> = output
        .iter()
        .map(|s| {
            let (a, b) = s.ab();
            let aa = ((a.y - origin.y) as f64).atan2((a.x - origin.x) as f64);
            let ab = ((b.y - origin.y) as f64).atan2((b.x - origin.x) as f64);
            (aa, ab)
        })
        .collect();
    let tau = std::f64::consts::TAU;
    let covered = |angle: f64| {
        spans.iter().any(|&(a, b)| {
            let mut lo = a;
            let mut hi = b;
            if lo > hi {
                std::mem::swap(&mut lo, &mut hi);
            }
            if hi - lo <= std::f64::consts::PI {
                lo - 1e-9 <= angle && angle <= hi + 1e-9
            } else {
                // The span crosses the seam at +-pi.
                angle >= hi - 1e-9 || angle <= lo + 1e-9
            }
        })
    };
    for k in 0..720 {
        let angle = -std::f64::consts::PI + (k as f64 + 0.5) * tau / 720.0;
        assert!(covered(angle), "direction {angle} is not covered");
    }
}

#[test]
fn visibility_matches_ray_casting_oracle() {
    // For a dense fan of rays from the origin, the first hit among the
    // input occluders coincides with the first hit among the returned
    // boundary segments.
    let input = [
        seg(-2, -4, 13, -1),
        seg(2, 0, 2, 1),
        seg(4, -1, 4, 3),
        seg(2, 2, 0, 2),
        seg(2, 3, 1, 3),
        seg(0, 3, -2, 0),
        seg(-1, 0, 2, -2),
    ];
    let origin = Point::new(0, 0);
    let output = compute(origin, &input);

    // Distance along the ray (angle `t`) to the first crossing of `s`,
    // if the ray crosses it.
    let first_hit = |sx: &Segment, dirx: f64, diry: f64| -> Option<f64> {
        let (a, b) = sx.ab();
        let (ax, ay) = ((a.x - origin.x) as f64, (a.y - origin.y) as f64);
        let (bx, by) = ((b.x - origin.x) as f64, (b.y - origin.y) as f64);
        let (ex, ey) = (bx - ax, by - ay);
        let den = dirx * ey - diry * ex;
        if den.abs() < 1e-12 {
            return None;
        }
        let t = (ax * ey - ay * ex) / den;
        let u = (ax * diry - ay * dirx) / den;
        if t > 1e-9 && (-1e-9..=1.0 + 1e-9).contains(&u) {
            Some(t)
        } else {
            None
        }
    };

    let tau = std::f64::consts::TAU;
    for k in 0..2000 {
        let angle = (k as f64 + 0.37) * tau / 2000.0;
        let (dx, dy) = (angle.cos(), angle.sin());
        let input_hit = input
            .iter()
            .filter_map(|s| first_hit(s, dx, dy))
            .fold(f64::INFINITY, f64::min);
        let output_hit = output
            .iter()
            .filter_map(|s| first_hit(s, dx, dy))
            .fold(f64::INFINITY, f64::min);
        if input_hit.is_finite() {
            assert!(
                (input_hit - output_hit).abs() < 1e-6,
                "ray {angle}: nearest occluder at {input_hit}, boundary at {output_hit}"
            );
        }
    }
}
