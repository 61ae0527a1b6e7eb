use rastercore::geometry::Point;
use rastercore::geometry::RasterError;
use rastercore::midpoint_line::{calc_line_midpoint, midpoint_line_points};
use rastercore::zone::{convert_zone, Line};

fn pts(v: &[(i32, i32)]) -> Vec<Point> {
    v.iter().map(|&(x, y)| Point { x, y }).collect()
}

#[test]
fn diagonal_line_20_20_to_100_100() {
    // the 45-degree tie-break: the rising diagonal classifies as zone zero
    let line = Line::from(Point { x: 20, y: 20 }, Point { x: 100, y: 100 });
    assert_eq!(line.zone.name(), 0);
    let points = midpoint_line_points(&line).unwrap();
    assert_eq!(points.len(), 81);
    for p in &points {
        assert_eq!(p.x, p.y);
    }
    assert_eq!(points[0], Point { x: 20, y: 20 });
    assert_eq!(points[80], Point { x: 100, y: 100 });
}

#[test]
fn zero_length_line_single_point() {
    let line = Line::from(Point { x: 5, y: 7 }, Point { x: 5, y: 7 });
    let points = midpoint_line_points(&line).unwrap();
    assert_eq!(points, pts(&[(5, 7)]));
}

#[test]
fn canonical_line_exact_pixels() {
    let line = Line::from(Point { x: 0, y: 0 }, Point { x: 5, y: 2 });
    let points = calc_line_midpoint(&line);
    assert_eq!(points, pts(&[(0, 0), (1, 0), (2, 1), (3, 1), (4, 2), (5, 2)]));
}

#[test]
fn line_length_is_dominant_span_plus_one() {
    let cases = [
        ((0, 0), (10, 4)),
        ((0, 0), (4, 10)),
        ((0, 0), (-10, 4)),
        ((0, 0), (-4, 10)),
        ((0, 0), (-10, -4)),
        ((0, 0), (-4, -10)),
        ((0, 0), (4, -10)),
        ((0, 0), (10, -4)),
        ((3, -2), (3, 9)),
        ((-7, 5), (12, 5)),
    ];
    for &((sx, sy), (ex, ey)) in &cases {
        let line = Line::from(Point { x: sx, y: sy }, Point { x: ex, y: ey });
        let points = midpoint_line_points(&line).unwrap();
        let span = std::cmp::max((ex - sx).abs(), (ey - sy).abs());
        assert_eq!(points.len() as i32, span + 1);
        assert_eq!(points[0], Point { x: sx, y: sy });
        assert_eq!(points[points.len() - 1], Point { x: ex, y: ey });
    }
}

#[test]
fn canonical_line_x_contiguous_y_monotone() {
    let line = Line::from(Point { x: 2, y: 1 }, Point { x: 30, y: 13 });
    let points = calc_line_midpoint(&line);
    assert_eq!(points.len(), 29);
    for (k, p) in points.iter().enumerate() {
        assert_eq!(p.x, 2 + k as i32);
    }
    for w in points.windows(2) {
        let step = w[1].y - w[0].y;
        assert!(step == 0 || step == 1);
    }
    assert_eq!(points[28].y, 13);
}

#[test]
fn zone_classification_all_eight() {
    let dirs = [
        ((10, 4), 0u8),
        ((4, 10), 1),
        ((-4, 10), 2),
        ((-10, 4), 3),
        ((-10, -4), 4),
        ((-4, -10), 5),
        ((4, -10), 6),
        ((10, -4), 7),
    ];
    for &((dx, dy), want) in &dirs {
        let line = Line::from(Point { x: 0, y: 0 }, Point { x: dx, y: dy });
        assert_eq!(line.zone.name(), want);
    }
}

#[test]
fn zone_tie_break_on_axes_and_diagonals() {
    // each diagonal stays in the sector whose stepping is stable for it;
    // each axis belongs to the counterclockwise sector of its quadrant
    let dirs = [
        ((10, 10), 0u8),
        ((-10, 10), 2),
        ((-10, -10), 4),
        ((10, -10), 6),
        ((10, 0), 0),
        ((0, 10), 1),
        ((-10, 0), 3),
        ((0, -10), 6),
        ((0, 0), 0),
    ];
    for &((dx, dy), want) in &dirs {
        let line = Line::from(Point { x: 0, y: 0 }, Point { x: dx, y: dy });
        assert_eq!(line.zone.name(), want);
        // every tie still rasterizes from one endpoint to the other
        let points = midpoint_line_points(&line).unwrap();
        assert_eq!(points[0], Point { x: 0, y: 0 });
        assert_eq!(points[points.len() - 1], Point { x: dx, y: dy });
    }
}

#[test]
fn zone_transform_round_trips_endpoints() {
    let cases = [
        ((3, 1), (10, 4)),
        ((3, 1), (4, 10)),
        ((3, 1), (-4, 10)),
        ((3, 1), (-10, 4)),
        ((3, 1), (-10, -4)),
        ((3, 1), (-4, -10)),
        ((3, 1), (4, -10)),
        ((3, 1), (10, -4)),
    ];
    for &((sx, sy), (ex, ey)) in &cases {
        let line = Line::from(Point { x: sx, y: sy }, Point { x: ex, y: ey });
        let zero = line.convert_to_zone_zero();
        let mut back = vec![zero.start, zero.end];
        convert_zone(&mut back, &line.zone);
        assert_eq!(back[0], line.start);
        assert_eq!(back[1], line.end);
    }
}

#[test]
fn pipeline_matches_manual_transform() {
    for &(ex, ey) in &[(10, 4), (4, 10), (-4, 10), (-10, 4), (-10, -4), (-4, -10), (4, -10), (10, -4)] {
        let line = Line::from(Point { x: 1, y: 2 }, Point { x: ex, y: ey });
        let via_pipeline = midpoint_line_points(&line).unwrap();
        let zero = line.convert_to_zone_zero();
        let mut manual = calc_line_midpoint(&zero);
        convert_zone(&mut manual, &line.zone);
        assert_eq!(via_pipeline, manual);
    }
}

#[test]
fn line_at_i32_min_is_rejected() {
    let line = Line::from(Point { x: i32::MIN, y: 0 }, Point { x: 4, y: 2 });
    assert_eq!(midpoint_line_points(&line), Err(RasterError::Overflow));
}
