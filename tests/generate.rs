use mst::{check_parameters, far_enough, generate, ErrorKind, Ratio, Vertex};

fn ratio(num: u32, den: u32) -> Ratio {
    Ratio { num, den }
}

#[test]
fn generate_meets_its_guarantee() {
    let pts = generate(50, ratio(4, 1), 0, 0, 200, 200).unwrap();
    assert_eq!(pts.len(), 50);
    for p in &pts {
        assert!(0 <= p.x && p.x <= 200 && 0 <= p.y && p.y <= 200);
    }
    for i in 0..pts.len() {
        for j in (i + 1)..pts.len() {
            assert!(pts[i].distance_squared(&pts[j]) >= 16);
        }
    }
}

#[test]
fn generate_with_fractional_distance() {
    // 2.5 apart: squared distance at least 6.25, so at least 7.
    let pts = generate(20, ratio(5, 2), -10, -10, 10, 10).unwrap();
    assert_eq!(pts.len(), 20);
    for i in 0..pts.len() {
        for j in (i + 1)..pts.len() {
            assert!(pts[i].distance_squared(&pts[j]) >= 7);
        }
    }
}

#[test]
fn generate_draws_distinct_points() {
    // Five points 10 apart cannot all be the same draw.
    let pts = generate(5, ratio(10, 1), 0, 0, 100, 100).unwrap();
    assert_eq!(pts.len(), 5);
    assert!(pts.iter().any(|p| *p != pts[0]));
}

#[test]
fn generate_rejects_invalid_parameters() {
    let bad = [
        (0, ratio(4, 1), 0, 0, 200, 200),
        (-3, ratio(4, 1), 0, 0, 200, 200),
        (10, ratio(1, 1), 0, 0, 200, 200),
        (10, ratio(4, 0), 0, 0, 200, 200),
        (10, ratio(4, 1), 200, 0, 200, 200),
        (10, ratio(4, 1), 0, 300, 200, 200),
        // 100 * 4 / 20 = 20: a side of 20 is too short.
        (100, ratio(4, 1), 0, 0, 20, 200),
        (100, ratio(4, 1), 0, 0, 200, 20),
    ];
    for (n, d, x0, y0, x1, y1) in bad {
        assert_eq!(generate(n, d, x0, y0, x1, y1).unwrap_err().kind, ErrorKind::InvalidParameters);
        assert!(check_parameters(n, d, x0, y0, x1, y1).is_err());
    }
    assert!(check_parameters(100, ratio(4, 1), 0, 0, 21, 21).is_ok());
    // ceil(4.5) = 5: 100 * 5 / 20 = 25.
    assert!(check_parameters(100, ratio(9, 2), 0, 0, 25, 30).is_err());
    assert!(check_parameters(100, ratio(9, 2), 0, 0, 26, 26).is_ok());
}

#[test]
fn generate_gives_up_when_points_do_not_fit() {
    // The area check passes (200 > 30 * 100 / 20) but 30 points 100 apart
    // do not fit in a 200 x 200 square.
    let r = generate(30, ratio(100, 1), 0, 0, 200, 200);
    assert_eq!(r.unwrap_err().kind, ErrorKind::GenerationExhausted);
}

#[test]
fn far_enough_is_exact() {
    let pts = vec![Vertex::new(0, 0), Vertex::new(10, 0)];
    assert!(far_enough(&Vertex::new(3, 4), &pts, ratio(5, 1)));
    assert!(!far_enough(&Vertex::new(3, 3), &pts, ratio(5, 1)));
    // sqrt(18) is about 4.243: just under 4.25, just over 4.24.
    assert!(!far_enough(&Vertex::new(3, 3), &pts, ratio(17, 4)));
    assert!(far_enough(&Vertex::new(3, 3), &pts, ratio(106, 25)));
    assert!(far_enough(&Vertex::new(3, 3), &Vec::new(), ratio(1000, 1)));
}

#[test]
fn generate_single_point_always_succeeds() {
    for _ in 0..20 {
        let pts = generate(1, ratio(1000, 1), -5, 7, 60, 70).unwrap();
        assert_eq!(pts.len(), 1);
        assert!(-5 <= pts[0].x && pts[0].x <= 60 && 7 <= pts[0].y && pts[0].y <= 70);
    }
}
