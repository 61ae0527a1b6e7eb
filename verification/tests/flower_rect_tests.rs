use rastercore::flower::{diag_offset, draw_flower, flower_points, isqrt};
use rastercore::geometry::Point;
use rastercore::geometry::RasterError;
use rastercore::rect::create_rectangle;

#[test]
fn isqrt_exact_values() {
    assert_eq!(isqrt(0), 0);
    assert_eq!(isqrt(1), 1);
    assert_eq!(isqrt(2), 1);
    assert_eq!(isqrt(16), 4);
    assert_eq!(isqrt(24), 4);
    assert_eq!(isqrt(25), 5);
    assert_eq!(isqrt(15312), 123);
    assert_eq!(isqrt(u64::MAX), 4294967295);
}

#[test]
fn diag_offset_exact_values() {
    // 350 / (2 * sqrt(2)) = 123.74..., truncated toward zero
    assert_eq!(diag_offset(350), 123);
    assert_eq!(diag_offset(-350), -123);
    assert_eq!(diag_offset(0), 0);
    assert_eq!(diag_offset(4), 1);
}

#[test]
fn flower_layout_radius_350() {
    let v = draw_flower(0, 0, 350).unwrap();
    assert_eq!(v.len(), 9);
    let want = [
        ((0, 0), 350),
        ((175, 0), 175),
        ((-175, 0), 175),
        ((0, 175), 175),
        ((0, -175), 175),
        ((123, 123), 175),
        ((-123, 123), 175),
        ((123, -123), 175),
        ((-123, -123), 175),
    ];
    for (c, &((x, y), r)) in v.iter().zip(want.iter()) {
        assert_eq!(c.center, Point { x, y });
        assert_eq!(c.radius, r);
    }
}

#[test]
fn flower_negative_radius_rejected() {
    assert_eq!(draw_flower(0, 0, -5).unwrap_err(), RasterError::NegativeRadius);
    assert_eq!(flower_points(0, 0, -5).unwrap_err(), RasterError::NegativeRadius);
}

#[test]
fn flower_overflow_rejected() {
    assert_eq!(draw_flower(i32::MAX, 0, 100).unwrap_err(), RasterError::Overflow);
    // the root circle fits but an axis child does not
    assert_eq!(flower_points(i32::MAX - 99, 0, 100).unwrap_err(), RasterError::Overflow);
}

#[test]
fn flower_points_concatenates_nine_circles() {
    let points = flower_points(0, 0, 4).unwrap();
    // the root (radius 4) walks 4 octant offsets, each child (radius 2)
    // walks 3; every offset is mirrored eight ways
    assert_eq!(points.len(), 8 * 4 + 8 * (8 * 3));
    // the root circle's first pixel is its topmost offset
    assert_eq!(points[0], Point { x: 0, y: 4 });
    // the first child (center (2, 0), radius 2) starts right after
    assert_eq!(points[32], Point { x: 2, y: 2 });
}

#[test]
fn rectangle_edges_exact() {
    let edges = create_rectangle(200, 250, 512);
    assert_eq!(edges.len(), 4);
    let got: Vec<(i64, i64, i64, i64)> =
        edges.iter().map(|e| (e.x1, e.y1, e.x2, e.y2)).collect();
    assert_eq!(
        got,
        vec![
            (131, 156, 381, 156),
            (131, 356, 381, 356),
            (131, 156, 131, 356),
            (381, 156, 381, 356),
        ]
    );
}

#[test]
fn rectangle_odd_extents_floor_halves() {
    let edges = create_rectangle(5, 7, 9);
    assert_eq!(edges[0].x1, 1);
    assert_eq!(edges[0].y1, 2);
    assert_eq!(edges[0].x2, 7);
    assert_eq!(edges[0].y2, 2);
    assert_eq!(edges[3].x1, 7);
    assert_eq!(edges[3].y2, 6);
}
