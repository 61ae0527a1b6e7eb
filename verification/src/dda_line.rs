//! The DDA (digital differential analyzer) line rasterizer.
//!
//! An alternative stepping strategy, independent of the zone machinery: it
//! works on arbitrary endpoints, steps by whole pixels along the dominant
//! axis, and emits the minor coordinate of the ideal line rounded to the
//! nearest integer (halves away from zero). The slope is never formed as a
//! quotient: each emitted value is the exactly rounded rational
//! start + k * delta_minor / delta_major, so the degenerate vertical case
//! (delta x = 0) needs no division and is handled as a dedicated case of
//! the y-stepping regime, and a zero-length segment yields its one point.

use vstd::arithmetic::div_mod::lemma_fundamental_div_mod;
use vstd::prelude::*;

use crate::geometry::{mag, Point, RasterError};

verus! {

/// The largest coordinate magnitude the DDA rasterizer accepts. The bound
/// keeps every intermediate product comfortably inside i64.
pub const DDA_COORD_LIMIT: i32 = 1048576;

/// n / d rounded to the nearest integer, halves away from zero (for
/// d > 0): the rounding used for every emitted minor coordinate.
pub open spec fn round_half(n: int, d: int) -> int {
    if n >= 0 {
        (2 * n + d) / (2 * d)
    } else {
        -((2 * (-n) + d) / (2 * d))
    }
}

/// Whether the rasterizer steps along x: the shallow regime, including the
/// rising 45-degree diagonal (slope exactly 1) but not the falling one.
pub open spec fn dda_steps_x(ax: int, ay: int, bx: int, by: int) -> bool {
    mag(by - ay) < mag(bx - ax) || (by - ay == bx - ax && bx - ax != 0)
}

/// The pixels the DDA rasterizer emits for the segment from a to b:
/// stepping starts at the endpoint with the smaller dominant coordinate,
/// so the sequence does not depend on the order of the endpoints.
pub open spec fn dda_points_spec(ax: int, ay: int, bx: int, by: int) -> Seq<(int, int)> {
    if ax == bx && ay == by {
        seq![(ax, ay)]
    } else if dda_steps_x(ax, ay, bx, by) {
        let sx = if ax <= bx { ax } else { bx };
        let sy = if ax <= bx { ay } else { by };
        let tx = if ax <= bx { bx } else { ax };
        let ty = if ax <= bx { by } else { ay };
        Seq::new(
            (tx - sx + 1) as nat,
            |k: int| (sx + k, round_half(sy * (tx - sx) + k * (ty - sy), tx - sx)),
        )
    } else {
        let sx = if ay <= by { ax } else { bx };
        let sy = if ay <= by { ay } else { by };
        let tx = if ay <= by { bx } else { ax };
        let ty = if ay <= by { by } else { ay };
        Seq::new(
            (ty - sy + 1) as nat,
            |k: int| (round_half(sx * (ty - sy) + k * (tx - sx), ty - sy), sy + k),
        )
    }
}

/// Whether a point is inside the DDA coordinate bound.
pub open spec fn dda_in_range(p: Point) -> bool {
    -DDA_COORD_LIMIT <= p.x <= DDA_COORD_LIMIT && -DDA_COORD_LIMIT <= p.y <= DDA_COORD_LIMIT
}

/// The rounded quotient differs from the exact one by at most a half:
/// 2*n lies within d of 2*d*round_half(n, d).
proof fn lemma_round_half_bounds(n: int, d: int)
    requires
        d > 0,
    ensures
        (2 * d) * round_half(n, d) - d <= 2 * n <= (2 * d) * round_half(n, d) + d,
{
    if n >= 0 {
        lemma_fundamental_div_mod(2 * n + d, 2 * d);
    } else {
        let m = -n;
        let q = (2 * m + d) / (2 * d);
        lemma_fundamental_div_mod(2 * m + d, 2 * d);
        assert((2 * d) * (-q) == -((2 * d) * q)) by (nonlinear_arith);
    }
}

/// If n / d lies between the integers lo and hi, so does the rounding.
proof fn lemma_round_half_in_range(n: int, d: int, lo: int, hi: int)
    requires
        d > 0,
        d * lo <= n <= d * hi,
    ensures
        lo <= round_half(n, d) <= hi,
{
    lemma_round_half_bounds(n, d);
    let rh = round_half(n, d);
    assert(lo <= rh) by (nonlinear_arith)
        requires
            d > 0,
            (2 * d) * rh + d >= 2 * n,
            n >= d * lo,
    ;
    assert(rh <= hi) by (nonlinear_arith)
        requires
            d > 0,
            (2 * d) * rh - d <= 2 * n,
            n <= d * hi,
    ;
}

/// The emitted point sequence does not depend on the order in which the
/// two endpoints are supplied.
pub proof fn lemma_dda_order_independent(ax: int, ay: int, bx: int, by: int)
    ensures
        dda_points_spec(ax, ay, bx, by) == dda_points_spec(bx, by, ax, ay),
{
    let s1 = dda_points_spec(ax, ay, bx, by);
    let s2 = dda_points_spec(bx, by, ax, ay);
    assert(s1.len() == s2.len());
    assert(forall|k: int| 0 <= k < s1.len() ==> s1[k] == s2[k]);
    assert(s1 =~= s2);
}

/// Rounds n / d to the nearest integer, halves away from zero.
fn round_half_exec(n: i64, d: i64) -> (r: i64)
    requires
        0 < d <= 0x1000_0000_0000,
        -0x1000_0000_0000_0000 <= n <= 0x1000_0000_0000_0000,
    ensures
        r == round_half(n as int, d as int),
{
    if n >= 0 {
        let num: u64 = (2 * n + d) as u64;
        let den: u64 = (2 * d) as u64;
        proof {
            assert(num as int / den as int <= num as int) by (nonlinear_arith)
                requires
                    den >= 1,
                    num >= 0,
            ;
        }
        (num / den) as i64
    } else {
        let num: u64 = (2 * (-n) + d) as u64;
        let den: u64 = (2 * d) as u64;
        proof {
            assert(num as int / den as int <= num as int) by (nonlinear_arith)
                requires
                    den >= 1,
                    num >= 0,
            ;
        }
        -((num / den) as i64)
    }
}

/// DDA rasterization of the segment between two points.
///
/// In the shallow regime (|slope| <= 1, ties going to the rising diagonal)
/// it emits one pixel per x column from the left endpoint to the right,
/// inclusive; otherwise one pixel per y row from the lower endpoint to the
/// upper. Either way the count equals the span along the dominant axis
/// plus one, and each minor coordinate is the ideal line's value rounded
/// to the nearest pixel. Coordinates beyond `DDA_COORD_LIMIT` are rejected
/// with `Overflow`.
pub fn calculate_points(point_a: &Point, point_b: &Point) -> (r: Result<Vec<Point>, RasterError>)
    ensures
        r is Err <==> !(dda_in_range(*point_a) && dda_in_range(*point_b)),
        match r {
            Err(e) => e == RasterError::Overflow,
            Ok(points) => {
                let spec_pts = dda_points_spec(
                    point_a.x as int,
                    point_a.y as int,
                    point_b.x as int,
                    point_b.y as int,
                );
                &&& points@.len() == spec_pts.len()
                &&& points@.len() == (if mag(point_b.x - point_a.x) >= mag(
                    point_b.y - point_a.y,
                ) {
                    mag(point_b.x - point_a.x)
                } else {
                    mag(point_b.y - point_a.y)
                }) + 1
                &&& forall|k: int|
                    0 <= k < points@.len() ==> ((#[trigger] points@[k]).x as int,
                    points@[k].y as int) == spec_pts[k]
            },
        },
{
    let limit: i32 = DDA_COORD_LIMIT;
    if point_a.x < -limit || point_a.x > limit || point_a.y < -limit || point_a.y > limit
        || point_b.x < -limit || point_b.x > limit || point_b.y < -limit || point_b.y > limit {
        return Err(RasterError::Overflow);
    }
    let ghost gax: int = point_a.x as int;
    let ghost gay: int = point_a.y as int;
    let ghost gbx: int = point_b.x as int;
    let ghost gby: int = point_b.y as int;

    let ax: i64 = point_a.x as i64;
    let ay: i64 = point_a.y as i64;
    let bx: i64 = point_b.x as i64;
    let by: i64 = point_b.y as i64;

    let mut points: Vec<Point> = Vec::new();
    if ax == bx && ay == by {
        points.push(Point { x: point_a.x, y: point_a.y });
        return Ok(points);
    }

    let dx: i64 = bx - ax;
    let dy: i64 = by - ay;
    let adx: i64 = if dx >= 0 {
        dx
    } else {
        -dx
    };
    let ady: i64 = if dy >= 0 {
        dy
    } else {
        -dy
    };

    if ady < adx || (dy == dx && dx != 0) {
        // shallow regime: one pixel per x column
        let sx: i64 = if ax <= bx {
            ax
        } else {
            bx
        };
        let sy: i64 = if ax <= bx {
            ay
        } else {
            by
        };
        let tx: i64 = if ax <= bx {
            bx
        } else {
            ax
        };
        let ty: i64 = if ax <= bx {
            by
        } else {
            ay
        };
        let q: i64 = tx - sx;
        let p: i64 = ty - sy;
        let mut k: i64 = 0;
        while k <= q
            invariant
                0 < q <= 2 * DDA_COORD_LIMIT,
                -2 * DDA_COORD_LIMIT <= p <= 2 * DDA_COORD_LIMIT,
                -DDA_COORD_LIMIT <= sx <= DDA_COORD_LIMIT,
                -DDA_COORD_LIMIT <= sy <= DDA_COORD_LIMIT,
                ty == sy + p,
                tx == sx + q,
                -DDA_COORD_LIMIT <= ty <= DDA_COORD_LIMIT,
                0 <= k <= q + 1,
                points@.len() == k,
                forall|j: int|
                    0 <= j < points@.len() ==> ((#[trigger] points@[j]).x as int,
                    points@[j].y as int) == (sx + j, round_half(sy * q + j * p, q as int)),
            decreases q + 1 - k,
        {
            proof {
                assert(-0x4_0000_0000_0000 <= sy * q <= 0x4_0000_0000_0000 && -0x4_0000_0000_0000
                    <= k * p <= 0x4_0000_0000_0000) by (nonlinear_arith)
                    requires
                        -1048576 <= sy <= 1048576,
                        0 < q <= 2097152,
                        -2097152 <= p <= 2097152,
                        0 <= k <= q,
                ;
                if p >= 0 {
                    assert(k * p >= 0 && (q - k) * p >= 0 && q * sy + q * p == q * (sy + p))
                        by (nonlinear_arith)
                        requires
                            0 <= k <= q,
                            p >= 0,
                    ;
                    assert(q * sy <= sy * q + k * p <= q * (sy + p)) by (nonlinear_arith)
                        requires
                            k * p >= 0,
                            (q - k) * p >= 0,
                    ;
                    lemma_round_half_in_range(sy * q + k * p, q as int, sy as int, ty as int);
                } else {
                    assert(k * p <= 0 && (q - k) * p <= 0) by (nonlinear_arith)
                        requires
                            0 <= k <= q,
                            p < 0,
                    ;
                    assert(q * (sy + p) <= sy * q + k * p <= q * sy) by (nonlinear_arith)
                        requires
                            k * p <= 0,
                            (q - k) * p <= 0,
                    ;
                    lemma_round_half_in_range(sy * q + k * p, q as int, ty as int, sy as int);
                }
            }
            let num: i64 = sy * q + k * p;
            let yv: i64 = round_half_exec(num, q);
            points.push(Point { x: (sx + k) as i32, y: yv as i32 });
            k = k + 1;
        }
        Ok(points)
    } else {
        // steep regime: one pixel per y row; a vertical segment keeps x
        // constant and never divides
        let sx: i64 = if ay <= by {
            ax
        } else {
            bx
        };
        let sy: i64 = if ay <= by {
            ay
        } else {
            by
        };
        let tx: i64 = if ay <= by {
            bx
        } else {
            ax
        };
        let ty: i64 = if ay <= by {
            by
        } else {
            ay
        };
        let q: i64 = ty - sy;
        let p: i64 = tx - sx;
        let mut k: i64 = 0;
        while k <= q
            invariant
                0 < q <= 2 * DDA_COORD_LIMIT,
                -2 * DDA_COORD_LIMIT <= p <= 2 * DDA_COORD_LIMIT,
                -DDA_COORD_LIMIT <= sx <= DDA_COORD_LIMIT,
                -DDA_COORD_LIMIT <= sy <= DDA_COORD_LIMIT,
                tx == sx + p,
                ty == sy + q,
                -DDA_COORD_LIMIT <= tx <= DDA_COORD_LIMIT,
                0 <= k <= q + 1,
                points@.len() == k,
                forall|j: int|
                    0 <= j < points@.len() ==> ((#[trigger] points@[j]).x as int,
                    points@[j].y as int) == (round_half(sx * q + j * p, q as int), sy + j),
            decreases q + 1 - k,
        {
            proof {
                assert(-0x4_0000_0000_0000 <= sx * q <= 0x4_0000_0000_0000 && -0x4_0000_0000_0000
                    <= k * p <= 0x4_0000_0000_0000) by (nonlinear_arith)
                    requires
                        -1048576 <= sx <= 1048576,
                        0 < q <= 2097152,
                        -2097152 <= p <= 2097152,
                        0 <= k <= q,
                ;
                if p >= 0 {
                    assert(k * p >= 0 && (q - k) * p >= 0) by (nonlinear_arith)
                        requires
                            0 <= k <= q,
                            p >= 0,
                    ;
                    assert(q * sx <= sx * q + k * p <= q * (sx + p)) by (nonlinear_arith)
                        requires
                            k * p >= 0,
                            (q - k) * p >= 0,
                    ;
                    lemma_round_half_in_range(sx * q + k * p, q as int, sx as int, tx as int);
                } else {
                    assert(k * p <= 0 && (q - k) * p <= 0) by (nonlinear_arith)
                        requires
                            0 <= k <= q,
                            p < 0,
                    ;
                    assert(q * (sx + p) <= sx * q + k * p <= q * sx) by (nonlinear_arith)
                        requires
                            k * p <= 0,
                            (q - k) * p <= 0,
                    ;
                    lemma_round_half_in_range(sx * q + k * p, q as int, tx as int, sx as int);
                }
            }
            let num: i64 = sx * q + k * p;
            let xv: i64 = round_half_exec(num, q);
            points.push(Point { x: xv as i32, y: (sy + k) as i32 });
            k = k + 1;
        }
        Ok(points)
    }
}

} // verus!
