use rastercore::dda_line::calculate_points;
use rastercore::geometry::Point;
use rastercore::geometry::RasterError;

fn pts(v: &[(i32, i32)]) -> Vec<Point> {
    v.iter().map(|&(x, y)| Point { x, y }).collect()
}

#[test]
fn dda_diagonal_20_20_to_100_100() {
    let points = calculate_points(&Point { x: 20, y: 20 }, &Point { x: 100, y: 100 }).unwrap();
    assert_eq!(points.len(), 81);
    for (k, p) in points.iter().enumerate() {
        assert_eq!(p.x, 20 + k as i32);
        assert_eq!(p.y, p.x);
    }
}

#[test]
fn dda_steep_line_rounds_to_nearest() {
    let points = calculate_points(&Point { x: 0, y: 0 }, &Point { x: 2, y: 10 }).unwrap();
    let want_x = [0, 0, 0, 1, 1, 1, 1, 1, 2, 2, 2];
    assert_eq!(points.len(), 11);
    for (k, p) in points.iter().enumerate() {
        assert_eq!(p.y, k as i32);
        assert_eq!(p.x, want_x[k]);
    }
}

#[test]
fn dda_shallow_half_rounds_away_from_zero() {
    let points = calculate_points(&Point { x: 0, y: 0 }, &Point { x: 2, y: 1 }).unwrap();
    assert_eq!(points, pts(&[(0, 0), (1, 1), (2, 1)]));
}

#[test]
fn dda_vertical_line_never_divides() {
    let points = calculate_points(&Point { x: 3, y: -2 }, &Point { x: 3, y: 4 }).unwrap();
    assert_eq!(points, pts(&[(3, -2), (3, -1), (3, 0), (3, 1), (3, 2), (3, 3), (3, 4)]));
}

#[test]
fn dda_zero_length_single_point() {
    let points = calculate_points(&Point { x: 5, y: 5 }, &Point { x: 5, y: 5 }).unwrap();
    assert_eq!(points, pts(&[(5, 5)]));
}

#[test]
fn dda_falling_diagonal_steps_y() {
    let points = calculate_points(&Point { x: 0, y: 0 }, &Point { x: 5, y: -5 }).unwrap();
    assert_eq!(points, pts(&[(5, -5), (4, -4), (3, -3), (2, -2), (1, -1), (0, 0)]));
}

#[test]
fn dda_endpoint_order_does_not_matter() {
    let a = Point { x: -17, y: 40 };
    let b = Point { x: 23, y: 11 };
    assert_eq!(calculate_points(&a, &b).unwrap(), calculate_points(&b, &a).unwrap());
    let c = Point { x: 4, y: -9 };
    let d = Point { x: 1, y: 30 };
    assert_eq!(calculate_points(&c, &d).unwrap(), calculate_points(&d, &c).unwrap());
}

#[test]
fn dda_span_count_various() {
    let cases = [((0, 0), (7, 3)), ((0, 0), (3, 7)), ((-5, 2), (6, -9)), ((10, 10), (-10, 13))];
    for &((ax, ay), (bx, by)) in &cases {
        let points =
            calculate_points(&Point { x: ax, y: ay }, &Point { x: bx, y: by }).unwrap();
        let span = std::cmp::max((bx - ax).abs(), (by - ay).abs());
        assert_eq!(points.len() as i32, span + 1);
    }
}

#[test]
fn dda_out_of_range_rejected() {
    let far = Point { x: 2_000_000, y: 0 };
    assert_eq!(
        calculate_points(&far, &Point { x: 0, y: 0 }),
        Err(RasterError::Overflow)
    );
}
