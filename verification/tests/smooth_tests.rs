use hexwalk::geometry::Point;
use hexwalk::smoothing::smooth;

fn pt(x: i64, y: i64) -> Point {
    Point::new(x, y)
}

#[test]
fn smooth_short_inputs_unchanged() {
    let empty: Vec<Point> = Vec::new();
    assert_eq!(smooth(empty.clone(), 4, 500), empty);
    let single = vec![pt(3, 4)];
    assert_eq!(smooth(single.clone(), 4, 500), single);
}

#[test]
fn smooth_two_points_keeps_both() {
    let line = vec![pt(0, 0), pt(10_000, 0)];
    assert_eq!(smooth(line.clone(), 4, 500), line);
}

#[test]
fn smooth_preserves_endpoints() {
    // Endpoint invariance across sample counts and sharpness values.
    let poly = vec![pt(0, 0), pt(10_000, 0), pt(10_000, 10_000), pt(0, 10_000)];
    for &n in &[0usize, 1, 2, 4, 9] {
        for &sh in &[0i64, 250, 500, 1000] {
            let out = smooth(poly.clone(), n, sh);
            assert_eq!(out[0], pt(0, 0));
            assert_eq!(*out.last().unwrap(), pt(0, 10_000));
            assert_eq!(out.len(), 2 + 2 * n);
        }
    }
}

#[test]
fn smooth_zero_samples_keeps_only_endpoints() {
    let poly = vec![pt(0, 0), pt(10_000, 0), pt(10_000, 10_000)];
    let out = smooth(poly, 0, 500);
    assert_eq!(out, vec![pt(0, 0), pt(10_000, 10_000)]);
}

#[test]
fn smooth_corner_sample_leaves_the_corner() {
    // One corner, one sample, half sharpness (coordinates are
    // thousandths: the corner is at 10 units right, the end 10 up).
    let poly = vec![pt(0, 0), pt(10_000, 0), pt(10_000, 10_000)];
    let out = smooth(poly, 1, 500);
    assert_eq!(out.len(), 3);
    assert_eq!(out[0], pt(0, 0));
    assert_eq!(out[2], pt(10_000, 10_000));
    // the interior sample is the first control point, not the corner
    assert_ne!(out[1], pt(10_000, 0));
    assert_eq!(out[1], pt(7_500, 0));
    // and it stays within the box spanned by the two control points
    assert!(7_500 <= out[1].x && out[1].x <= 10_000);
    assert!(0 <= out[1].y && out[1].y <= 2_500);
}

#[test]
fn smooth_full_sharpness_passes_through_corner() {
    // Sharpness 1000 pulls both control points onto the corner itself.
    let poly = vec![pt(0, 0), pt(10_000, 0), pt(10_000, 10_000)];
    let out = smooth(poly, 2, 1000);
    assert_eq!(out, vec![
        pt(0, 0),
        pt(10_000, 0),
        pt(10_000, 0),
        pt(10_000, 10_000),
    ]);
}
