use rastercore::geometry::Point;
use rastercore::geometry::RasterError;
use rastercore::midpoint_circle::{add_with_mirror_points, calc_circle_points};

#[test]
fn circle_r10_has_axis_points_and_stays_in_ring() {
    let points = calc_circle_points(0, 0, 10).unwrap();
    for &(x, y) in &[(10, 0), (0, 10), (-10, 0), (0, -10)] {
        assert!(points.contains(&Point { x, y }));
    }
    for p in &points {
        let s = p.x * p.x + p.y * p.y;
        // no point further out than 10.5 from the center: s <= 110
        assert!(s <= 110);
        // the midpoint ring bound, concretely for r = 10
        assert!(81 < s && s < 121);
    }
}

#[test]
fn circle_r10_point_count() {
    // eight octant steps, each mirrored eight ways, duplicates kept
    let points = calc_circle_points(0, 0, 10).unwrap();
    assert_eq!(points.len(), 64);
}

#[test]
fn circle_r350_stays_within_one_pixel_of_ring() {
    let points = calc_circle_points(0, 0, 350).unwrap();
    for p in &points {
        let s = (p.x as i64) * (p.x as i64) + (p.y as i64) * (p.y as i64);
        assert!(349 * 349 < s && s < 351 * 351);
    }
}

#[test]
fn circle_zero_radius_single_center_point() {
    let points = calc_circle_points(3, 4, 0).unwrap();
    assert_eq!(points, vec![Point { x: 3, y: 4 }]);
}

#[test]
fn circle_negative_radius_rejected() {
    assert_eq!(calc_circle_points(0, 0, -1), Err(RasterError::NegativeRadius));
}

#[test]
fn circle_center_overflow_rejected() {
    assert_eq!(calc_circle_points(i32::MAX, 0, 10), Err(RasterError::Overflow));
    assert_eq!(calc_circle_points(0, i32::MIN, 10), Err(RasterError::Overflow));
}

#[test]
fn circle_set_invariant_under_eight_symmetries() {
    let points = calc_circle_points(0, 0, 5).unwrap();
    for p in &points {
        let (x, y) = (p.x, p.y);
        for &(mx, my) in &[
            (x, y),
            (y, x),
            (y, -x),
            (x, -y),
            (-x, -y),
            (-y, -x),
            (-y, x),
            (-x, y),
        ] {
            assert!(points.contains(&Point { x: mx, y: my }));
        }
    }
}

#[test]
fn circle_translation_exact() {
    // radius 1: the octant walk is (0, 1) then (1, 0)
    let points = calc_circle_points(100, 200, 1).unwrap();
    assert_eq!(points.len(), 16);
    assert_eq!(points[0], Point { x: 100, y: 201 });
    assert_eq!(points[1], Point { x: 101, y: 200 });
    assert_eq!(points[3], Point { x: 100, y: 199 });
    assert_eq!(points[5], Point { x: 99, y: 200 });
    assert_eq!(points[8], Point { x: 101, y: 200 });
}

#[test]
fn mirror_points_emission_order() {
    let mut v: Vec<Point> = Vec::new();
    add_with_mirror_points(2, 7, &mut v);
    let want: Vec<Point> = [
        (2, 7),
        (7, 2),
        (7, -2),
        (2, -7),
        (-2, -7),
        (-7, -2),
        (-7, 2),
        (-2, 7),
    ]
    .iter()
    .map(|&(x, y)| Point { x, y })
    .collect();
    assert_eq!(v, want);
}
