//! The midpoint (Bresenham-style) line rasterizer.
//!
//! `calc_line_midpoint` steps through a line already canonicalized into the
//! zone-zero octant, one whole pixel along x per step, using only integer
//! arithmetic on a decision variable. Its contract pins every emitted pixel
//! to a closed form: the k-th vertical offset is the ideal value k*dy/dx
//! rounded to the nearest integer, halves rounding down. The full pipeline
//! (`midpoint_line_points`) canonicalizes, steps, and transforms back.

use vstd::arithmetic::div_mod::lemma_fundamental_div_mod;
use vstd::prelude::*;

use crate::geometry::{mag, Point, RasterError};
use crate::zone::{
    convert_zone, from_zone_zero_xy, lemma_to_zone_zero_canonical, lemma_zone_round_trip,
    to_zone_zero_xy, zone_of, Line, Zone,
};

verus! {

/// Ceiling of n / d, for d > 0.
pub open spec fn div_ceil(n: int, d: int) -> int {
    -((-n) / d)
}

/// The vertical offset of the k-th pixel of a zone-zero midpoint line with
/// deltas (dx, dy): the ideal offset k*dy/dx rounded to the nearest
/// integer, with exact halves rounded down, written as a ceiling.
pub open spec fn mid_y_off(k: int, dx: int, dy: int) -> int {
    if dx == 0 {
        0
    } else {
        div_ceil(2 * k * dy - dx, 2 * dx)
    }
}

/// The pixels of a zone-zero midpoint line from (sx, sy) with deltas
/// (dx, dy): the x values are the contiguous range [sx, sx + dx] and the
/// y values follow `mid_y_off`.
pub open spec fn mid_line_points(sx: int, sy: int, dx: int, dy: int) -> Seq<(int, int)> {
    Seq::new((dx + 1) as nat, |k: int| (sx + k, sy + mid_y_off(k, dx, dy)))
}

/// The pixels of the full midpoint pipeline on arbitrary endpoints:
/// canonicalize into the classified zone's frame, step, transform back.
pub open spec fn line_points_spec(sx: int, sy: int, ex: int, ey: int) -> Seq<(int, int)> {
    let z = zone_of(ex - sx, ey - sy);
    let s = to_zone_zero_xy(z, sx, sy);
    let e = to_zone_zero_xy(z, ex, ey);
    Seq::new(
        (e.0 - s.0 + 1) as nat,
        |k: int| from_zone_zero_xy(z, s.0 + k, s.1 + mid_y_off(k, e.0 - s.0, e.1 - s.1)),
    )
}

/// `div_ceil(n, d)` is the least c with n <= d * c.
proof fn lemma_div_ceil_bounds(n: int, d: int)
    requires
        d > 0,
    ensures
        d * div_ceil(n, d) - d < n <= d * div_ceil(n, d),
{
    let q = (-n) / d;
    let r = (-n) % d;
    lemma_fundamental_div_mod(-n, d);
    assert(-n == d * q + r);
    assert(0 <= r < d);
    assert(d * div_ceil(n, d) == -(d * q)) by (nonlinear_arith)
        requires
            div_ceil(n, d) == -q,
    ;
}

/// Any c squeezed by the `div_ceil` bounds is `div_ceil` itself.
proof fn lemma_div_ceil_unique(n: int, d: int, c: int)
    requires
        d > 0,
        d * c - d < n <= d * c,
    ensures
        c == div_ceil(n, d),
{
    lemma_div_ceil_bounds(n, d);
    let c0 = div_ceil(n, d);
    if c < c0 {
        assert(d * c <= d * c0 - d) by (nonlinear_arith)
            requires
                d > 0,
                c <= c0 - 1,
        ;
        assert(false);
    }
    if c > c0 {
        assert(d * c0 <= d * c - d) by (nonlinear_arith)
            requires
                d > 0,
                c0 <= c - 1,
        ;
        assert(false);
    }
}

/// The first offset is zero.
proof fn lemma_mid_y_off_first(dx: int, dy: int)
    requires
        0 <= dx,
    ensures
        mid_y_off(0, dx, dy) == 0,
{
    if dx != 0 {
        assert(2 * 0 * dy == 0) by (nonlinear_arith);
        assert((2 * dx) * 0 == 0) by (nonlinear_arith);
        lemma_div_ceil_unique(-dx, 2 * dx, 0);
    }
}

/// The last offset is exactly dy: the stepped line ends on the endpoint.
proof fn lemma_mid_y_off_last(dx: int, dy: int)
    requires
        dx > 0,
    ensures
        mid_y_off(dx, dx, dy) == dy,
{
    assert((2 * dx) * dy == 2 * dx * dy) by (nonlinear_arith);
    lemma_div_ceil_unique(2 * dx * dy - dx, 2 * dx, dy);
}

/// Every offset lies between 0 and dy.
proof fn lemma_mid_y_off_range(k: int, dx: int, dy: int)
    requires
        0 <= k <= dx,
        0 <= dy <= dx,
    ensures
        0 <= mid_y_off(k, dx, dy) <= dy,
{
    if dx != 0 {
        let n = 2 * k * dy - dx;
        let d = 2 * dx;
        lemma_div_ceil_bounds(n, d);
        let c = div_ceil(n, d);
        if c < 0 {
            assert(d * c <= -d) by (nonlinear_arith)
                requires
                    d > 0,
                    c <= -1,
            ;
            assert(2 * k * dy >= 0) by (nonlinear_arith)
                requires
                    k >= 0,
                    dy >= 0,
            ;
            assert(false);
        }
        if c > dy {
            assert(d * c - d >= d * dy) by (nonlinear_arith)
                requires
                    d > 0,
                    c >= dy + 1,
            ;
            assert(2 * k * dy <= 2 * dx * dy) by (nonlinear_arith)
                requires
                    0 <= k <= dx,
                    dy >= 0,
            ;
            assert(d * dy == 2 * dx * dy) by (nonlinear_arith)
                requires
                    d == 2 * dx,
            ;
            assert(false);
        }
    }
}

/// How the offset changes from step k to step k + 1, phrased over the
/// midpoint decision variable d = 2*(k+1)*dy - 2*off*dx - dx: a positive d
/// steps the minor axis by exactly one, otherwise the offset is unchanged.
proof fn lemma_mid_step(k: int, dx: int, dy: int)
    requires
        0 <= k < dx,
        0 <= dy <= dx,
    ensures
        2 * (k + 1) * dy - 2 * mid_y_off(k, dx, dy) * dx - dx > 0 ==> mid_y_off(k + 1, dx, dy)
            == mid_y_off(k, dx, dy) + 1,
        2 * (k + 1) * dy - 2 * mid_y_off(k, dx, dy) * dx - dx <= 0 ==> mid_y_off(k + 1, dx, dy)
            == mid_y_off(k, dx, dy),
{
    let d = 2 * dx;
    let n0 = 2 * k * dy - dx;
    let n1 = 2 * (k + 1) * dy - dx;
    assert(n1 == n0 + 2 * dy) by (nonlinear_arith)
        requires
            n0 == 2 * k * dy - dx,
            n1 == 2 * (k + 1) * dy - dx,
    ;
    let c = div_ceil(n0, d);
    lemma_div_ceil_bounds(n0, d);
    let dvar = 2 * (k + 1) * dy - 2 * c * dx - dx;
    assert(dvar == n1 - d * c) by (nonlinear_arith)
        requires
            d == 2 * dx && dvar == 2 * (k + 1) * dy - 2 * c * dx - dx && n1 == 2 * (k + 1) * dy
                - dx,
    ;
    if dvar > 0 {
        // n1 > d*c, and n1 <= d*c + 2*dy <= d*c + d == d*(c+1)
        assert(d * (c + 1) == d * c + d) by (nonlinear_arith);
        lemma_div_ceil_unique(n1, d, c + 1);
    } else {
        // n1 <= d*c, and n1 >= n0 > d*c - d
        lemma_div_ceil_unique(n1, d, c);
    }
}

/// Between consecutive columns the emitted y offset never decreases and
/// never climbs by more than one: the stepped line has no double steps.
pub proof fn lemma_mid_y_off_monotone(k: int, dx: int, dy: int)
    requires
        0 <= k < dx,
        0 <= dy <= dx,
    ensures
        mid_y_off(k, dx, dy) <= mid_y_off(k + 1, dx, dy) <= mid_y_off(k, dx, dy) + 1,
{
    lemma_mid_step(k, dx, dy);
}

/// Midpoint stepping in the canonical octant.
///
/// Requires a line whose deltas satisfy 0 <= dy <= dx (the constructor and
/// `convert_to_zone_zero` are the intended way to obtain one). Emits
/// exactly dx + 1 points, whose x values form the contiguous integer range
/// [start.x, end.x] and whose y values follow the rounded ideal line, so y
/// is nondecreasing and never steps by more than one per column. A
/// zero-length line emits exactly one point.
pub fn calc_line_midpoint(zero_line: &Line) -> (points: Vec<Point>)
    requires
        0 <= zero_line.end.y - zero_line.start.y <= zero_line.end.x - zero_line.start.x,
    ensures
        points@.len() == zero_line.end.x - zero_line.start.x + 1,
        forall|k: int|
            0 <= k < points@.len() ==> ((#[trigger] points@[k]).x as int, points@[k].y as int)
                == mid_line_points(
                zero_line.start.x as int,
                zero_line.start.y as int,
                zero_line.end.x - zero_line.start.x,
                zero_line.end.y - zero_line.start.y,
            )[k],
{
    let ghost sx: int = zero_line.start.x as int;
    let ghost sy: int = zero_line.start.y as int;
    let ghost dx: int = zero_line.end.x - zero_line.start.x;
    let ghost dy: int = zero_line.end.y - zero_line.start.y;

    let start_x: i32 = zero_line.start.x;
    let start_y: i32 = zero_line.start.y;
    let end_x: i32 = zero_line.end.x;
    let end_y: i32 = zero_line.end.y;

    let delta_x: i64 = end_x as i64 - start_x as i64;
    let delta_y: i64 = end_y as i64 - start_y as i64;
    let mut d: i64 = 2 * delta_y - delta_x;
    let delta_ne: i64 = 2 * (delta_y - delta_x);
    let delta_e: i64 = 2 * delta_y;

    let mut points: Vec<Point> = Vec::new();
    let mut x: i64 = start_x as i64;
    let mut y: i64 = start_y as i64;

    proof {
        lemma_mid_y_off_first(dx, dy);
        assert(2 * (x - sx + 1) * dy - 2 * (y - sy) * dx - dx == 2 * dy - dx) by (nonlinear_arith)
            requires
                x == sx,
                y == sy,
        ;
    }

    while x <= end_x as i64
        invariant
            sx == zero_line.start.x as int,
            sy == zero_line.start.y as int,
            dx == zero_line.end.x - zero_line.start.x,
            dy == zero_line.end.y - zero_line.start.y,
            start_x == zero_line.start.x,
            start_y == zero_line.start.y,
            end_x == zero_line.end.x,
            end_y == zero_line.end.y,
            0 <= dy <= dx,
            delta_x == dx,
            delta_y == dy,
            delta_ne == 2 * (dy - dx),
            delta_e == 2 * dy,
            sx <= x <= sx + dx + 1,
            points@.len() == x - sx,
            x <= sx + dx ==> y == sy + mid_y_off(x - sx, dx, dy),
            x <= sx + dx ==> d == 2 * (x - sx + 1) * dy - 2 * (y - sy) * dx - dx,
            x <= sx + dx ==> -2 * dx <= d <= 2 * dx,
            x <= sx + dx ==> sy <= y <= sy + dy,
            forall|j: int|
                0 <= j < points@.len() ==> ((#[trigger] points@[j]).x as int, points@[j].y as int)
                    == (sx + j, sy + mid_y_off(j, dx, dy)),
        decreases sx + dx + 1 - x,
    {
        let ghost k: int = x - sx;
        proof {
            lemma_mid_y_off_range(k, dx, dy);
        }
        points.push(Point { x: x as i32, y: y as i32 });

        proof {
            if k + 1 <= dx {
                lemma_mid_step(k, dx, dy);
                lemma_mid_y_off_range(k + 1, dx, dy);
                let c = mid_y_off(k, dx, dy);
                assert(2 * (k + 2) * dy == 2 * (k + 1) * dy + 2 * dy) by (nonlinear_arith);
                assert(2 * (c + 1) * dx == 2 * c * dx + 2 * dx) by (nonlinear_arith);
            }
        }

        x = x + 1;
        if d > 0 {
            y = y + 1;
            d = d + delta_ne;
        } else {
            d = d + delta_e;
        }
    }
    points
}

/// Whether every coordinate of both endpoints can be negated without
/// leaving the i32 range, which canonicalization may need to do.
pub open spec fn line_in_range(line: Line) -> bool {
    line.start.x > i32::MIN && line.start.y > i32::MIN && line.end.x > i32::MIN && line.end.y
        > i32::MIN
}

/// The full midpoint pipeline: classify the line's zone, transform into
/// the canonical octant, step with `calc_line_midpoint`, and map every
/// emitted pixel back through the zone's exact inverse transform.
///
/// The emitted sequence is pinned to `line_points_spec`: it has exactly
/// max(|dx|, |dy|) + 1 points and begins and ends on the line's own
/// endpoints. The only error is `Overflow`, returned exactly when an
/// endpoint coordinate is i32::MIN, whose negation does not fit.
pub fn midpoint_line_points(line: &Line) -> (r: Result<Vec<Point>, RasterError>)
    requires
        line.wf(),
    ensures
        r is Err <==> !line_in_range(*line),
        match r {
            Err(e) => e == RasterError::Overflow,
            Ok(points) => {
                let spec_pts = line_points_spec(
                    line.start.x as int,
                    line.start.y as int,
                    line.end.x as int,
                    line.end.y as int,
                );
                &&& points@.len() == spec_pts.len()
                &&& points@.len() == (if mag(line.end.x - line.start.x) >= mag(
                    line.end.y - line.start.y,
                ) {
                    mag(line.end.x - line.start.x)
                } else {
                    mag(line.end.y - line.start.y)
                }) + 1
                &&& forall|k: int|
                    0 <= k < points@.len() ==> ((#[trigger] points@[k]).x as int,
                    points@[k].y as int) == spec_pts[k]
                &&& points@[0] == line.start
                &&& points@[points@.len() - 1] == line.end
            },
        },
{
    if line.start.x == i32::MIN || line.start.y == i32::MIN || line.end.x == i32::MIN
        || line.end.y == i32::MIN {
        return Err(RasterError::Overflow);
    }
    let ghost sx: int = line.start.x as int;
    let ghost sy: int = line.start.y as int;
    let ghost ex: int = line.end.x as int;
    let ghost ey: int = line.end.y as int;
    let ghost z: Zone = zone_of(ex - sx, ey - sy);
    let ghost s: (int, int) = to_zone_zero_xy(z, sx, sy);
    let ghost e: (int, int) = to_zone_zero_xy(z, ex, ey);
    let ghost cdx: int = e.0 - s.0;
    let ghost cdy: int = e.1 - s.1;

    proof {
        lemma_to_zone_zero_canonical(sx, sy, ex, ey);
    }

    let zero_line = line.convert_to_zone_zero();
    let mut points = calc_line_midpoint(&zero_line);

    proof {
        assert forall|i: int| 0 <= i < points@.len() implies (#[trigger] points@[i]).x > i32::MIN
            && points@[i].y > i32::MIN by {
            lemma_mid_y_off_range(i, cdx, cdy);
        }
    }

    convert_zone(&mut points, &line.zone);

    proof {
        let spec_pts = line_points_spec(sx, sy, ex, ey);
        assert forall|k: int| 0 <= k < points@.len() implies ((#[trigger] points@[k]).x as int,
        points@[k].y as int) == spec_pts[k] by {
            lemma_mid_y_off_range(k, cdx, cdy);
        }
        // the first and last emitted points are the line's own endpoints
        lemma_mid_y_off_first(cdx, cdy);
        lemma_zone_round_trip(z, sx, sy);
        lemma_zone_round_trip(z, ex, ey);
        if cdx > 0 {
            lemma_mid_y_off_last(cdx, cdy);
        }
        assert(points@[0].x as int == sx && points@[0].y as int == sy);
        assert(points@[points@.len() - 1].x as int == ex && points@[points@.len() - 1].y as int
            == ey);
    }
    Ok(points)
}

} // verus!
