//! The circle composer: places one root circle and eight half-radius
//! children at symmetric offsets, producing the "flower" pattern.
//!
//! The four axis children sit at +/- radius/2 along each axis. The four
//! diagonal children sit at (+/-dx, +/-dy) where each component is
//! (radius - center component) divided by 2*sqrt(2), the offset that puts
//! a half-radius circle on the root's 45-degree diagonal; the division is
//! exact integer arithmetic (a verified integer square root), truncated
//! toward zero.

use vstd::arithmetic::div_mod::lemma_fundamental_div_mod;
use vstd::prelude::*;

use crate::geometry::{Point, RasterError};
use crate::midpoint_circle::{
    calc_circle_points, center_fits, circle_points_spec, point_view,
};

verus! {

/// A circle request: a center plus a radius.
#[derive(Clone, Copy, PartialEq, Eq, Structural, Debug)]
pub struct Circle {
    pub center: Point,
    pub radius: i32,
}

/// The integer square root: the largest s with s * s <= n (0 for n <= 0).
pub open spec fn isqrt_spec(n: int) -> int
    decreases n,
{
    if n <= 0 {
        0
    } else {
        let p = isqrt_spec(n - 1);
        if (p + 1) * (p + 1) <= n {
            p + 1
        } else {
            p
        }
    }
}

/// The defining bounds of the integer square root.
pub proof fn lemma_isqrt_spec_bounds(n: int)
    requires
        n >= 0,
    ensures
        isqrt_spec(n) >= 0,
        isqrt_spec(n) * isqrt_spec(n) <= n,
        n < (isqrt_spec(n) + 1) * (isqrt_spec(n) + 1),
    decreases n,
{
    if n > 0 {
        lemma_isqrt_spec_bounds(n - 1);
        let p = isqrt_spec(n - 1);
        if (p + 1) * (p + 1) <= n {
            assert((p + 1) * (p + 1) < (p + 2) * (p + 2)) by (nonlinear_arith)
                requires
                    p >= 0,
            ;
        }
    }
}

/// The diagonal child offset for the distance t: t / (2 * sqrt(2)),
/// computed exactly as the integer square root of t^2 / 8 and truncated
/// toward zero (the sign of t is carried through).
pub open spec fn diag_of(t: int) -> int {
    if t >= 0 {
        isqrt_spec(t * t / 8)
    } else {
        -isqrt_spec(t * t / 8)
    }
}

/// Computes the integer square root by binary search.
pub fn isqrt(n: u64) -> (s: u64)
    ensures
        s * s <= n < (s + 1) * (s + 1),
        s == isqrt_spec(n as int),
{
    let mut lo: u64 = 0;
    let mut hi: u64 = if n < 4294967295 {
        n
    } else {
        4294967295
    };
    proof {
        if n >= 4294967295 {
            assert((hi + 1) * (hi + 1) > n) by (nonlinear_arith)
                requires
                    hi == 4294967295,
                    n <= 0xFFFF_FFFF_FFFF_FFFF,
            ;
        } else {
            assert(n < (n + 1) * (n + 1)) by (nonlinear_arith)
                requires
                    n >= 0,
            ;
        }
    }
    while lo < hi
        invariant
            lo <= hi <= 4294967295,
            lo * lo <= n,
            n < (hi + 1) * (hi + 1),
        decreases hi - lo,
    {
        let mid: u64 = lo + (hi - lo + 1) / 2;
        proof {
            assert(mid * mid <= 0xFFFF_FFFF_FFFF_FFFF) by (nonlinear_arith)
                requires
                    mid <= 4294967295,
            ;
        }
        let sq: u64 = mid * mid;
        if sq <= n {
            lo = mid;
        } else {
            hi = mid - 1;
        }
    }
    proof {
        lemma_isqrt_spec_bounds(n as int);
        let s0 = isqrt_spec(n as int);
        if (lo as int) < s0 {
            assert((lo + 1) * (lo + 1) <= s0 * s0) by (nonlinear_arith)
                requires
                    lo + 1 <= s0,
                    lo >= 0,
            ;
            assert(false);
        }
        if (lo as int) > s0 {
            assert((s0 + 1) * (s0 + 1) <= lo * lo) by (nonlinear_arith)
                requires
                    s0 + 1 <= lo,
                    s0 >= 0,
            ;
            assert(false);
        }
    }
    lo
}

/// Computes the diagonal child offset for the distance t.
pub fn diag_offset(t: i64) -> (o: i32)
    requires
        -4294967295 <= t <= 4294967295,
    ensures
        o == diag_of(t as int),
{
    let a: u64 = if t >= 0 {
        t as u64
    } else {
        (-t) as u64
    };
    proof {
        assert((a as int) * (a as int) == (t as int) * (t as int)) by (nonlinear_arith)
            requires
                a == t || a == -t,
        ;
        assert(a * a <= 0xFFFF_FFFF_FFFF_FFFF) by (nonlinear_arith)
            requires
                a <= 4294967295,
        ;
    }
    let sq: u64 = a * a;
    let n: u64 = sq / 8;
    let s: u64 = isqrt(n);
    proof {
        lemma_fundamental_div_mod(sq as int, 8);
        vstd::arithmetic::div_mod::lemma_mod_bound(sq as int, 8);
        if s >= 0x8000_0000 {
            assert(s * s >= 0x4000_0000_0000_0000) by (nonlinear_arith)
                requires
                    s >= 0x8000_0000,
            ;
            assert(false);
        }
    }
    if t >= 0 {
        s as i32
    } else {
        -(s as i32)
    }
}

/// Whether a flower request's own arithmetic stays inside i32.
pub open spec fn flower_ok(cx: int, cy: int, r: int) -> bool {
    r >= 0 && i32::MIN <= cx - r / 2 && cx + r / 2 <= i32::MAX && i32::MIN <= cy - r / 2 && cy + r
        / 2 <= i32::MAX
}

/// The nine circle requests of the flower with the given center and
/// radius: the root, the four axis children, the four diagonal children,
/// in emission order, as ((center x, center y), radius).
pub open spec fn flower_circles_spec(cx: int, cy: int, r: int) -> Seq<((int, int), int)> {
    let h = r / 2;
    let dgx = diag_of(r - cx);
    let dgy = diag_of(r - cy);
    seq![
        ((cx, cy), r),
        ((cx + h, cy), h),
        ((cx - h, cy), h),
        ((cx, cy + h), h),
        ((cx, cy - h), h),
        ((dgx, dgy), h),
        ((-dgx, dgy), h),
        ((dgx, -dgy), h),
        ((-dgx, -dgy), h),
    ]
}

/// Composes the nine circle requests of the flower.
///
/// A negative radius is rejected; a request whose axis-child centers
/// would leave i32 is rejected with `Overflow`. Otherwise the result is
/// pinned element by element to `flower_circles_spec`.
pub fn draw_flower(x: i32, y: i32, radius: i32) -> (res: Result<Vec<Circle>, RasterError>)
    ensures
        res is Err <==> !flower_ok(x as int, y as int, radius as int),
        match res {
            Err(e) => e == (if radius < 0 {
                RasterError::NegativeRadius
            } else {
                RasterError::Overflow
            }),
            Ok(v) => {
                let spec_circles = flower_circles_spec(x as int, y as int, radius as int);
                &&& v@.len() == 9
                &&& forall|k: int|
                    0 <= k < 9 ==> (point_view((#[trigger] v@[k]).center), v@[k].radius as int)
                        == spec_circles[k]
            },
        },
{
    if radius < 0 {
        return Err(RasterError::NegativeRadius);
    }
    let h: i32 = ((radius as u32) / 2) as i32;
    if (x as i64) + (h as i64) > i32::MAX as i64 || (x as i64) - (h as i64) < i32::MIN as i64 || (
    y as i64) + (h as i64) > i32::MAX as i64 || (y as i64) - (h as i64) < i32::MIN as i64 {
        return Err(RasterError::Overflow);
    }
    let dgx: i32 = diag_offset((radius as i64) - (x as i64));
    let dgy: i32 = diag_offset((radius as i64) - (y as i64));
    proof {
        let t: int = radius as int - x as int;
        assert(t * t >= 0) by (nonlinear_arith);
        lemma_isqrt_spec_bounds(t * t / 8);
        lemma_fundamental_div_mod(t * t, 8);
        vstd::arithmetic::div_mod::lemma_mod_bound(t * t, 8);
        assert(t * t <= 0xFFFF_FFFE_0000_0001int) by (nonlinear_arith)
            requires
                -4294967295 <= t <= 4294967295,
        ;
        if isqrt_spec(t * t / 8) >= 0x8000_0000 {
            assert(isqrt_spec(t * t / 8) * isqrt_spec(t * t / 8) >= 0x4000_0000_0000_0000int)
                by (nonlinear_arith)
                requires
                    isqrt_spec(t * t / 8) >= 0x8000_0000,
            ;
            assert(false);
        }
        let u: int = radius as int - y as int;
        assert(u * u >= 0) by (nonlinear_arith);
        lemma_isqrt_spec_bounds(u * u / 8);
        lemma_fundamental_div_mod(u * u, 8);
        vstd::arithmetic::div_mod::lemma_mod_bound(u * u, 8);
        assert(u * u <= 0xFFFF_FFFE_0000_0001int) by (nonlinear_arith)
            requires
                -4294967295 <= u <= 4294967295,
        ;
        if isqrt_spec(u * u / 8) >= 0x8000_0000 {
            assert(isqrt_spec(u * u / 8) * isqrt_spec(u * u / 8) >= 0x4000_0000_0000_0000int)
                by (nonlinear_arith)
                requires
                    isqrt_spec(u * u / 8) >= 0x8000_0000,
            ;
            assert(false);
        }
    }
    let mut v: Vec<Circle> = Vec::new();
    v.push(Circle { center: Point { x, y }, radius });
    v.push(Circle { center: Point { x: x + h, y }, radius: h });
    v.push(Circle { center: Point { x: x - h, y }, radius: h });
    v.push(Circle { center: Point { x, y: y + h }, radius: h });
    v.push(Circle { center: Point { x, y: y - h }, radius: h });
    v.push(Circle { center: Point { x: dgx, y: dgy }, radius: h });
    v.push(Circle { center: Point { x: -dgx, y: dgy }, radius: h });
    v.push(Circle { center: Point { x: dgx, y: -dgy }, radius: h });
    v.push(Circle { center: Point { x: -dgx, y: -dgy }, radius: h });
    Ok(v)
}

/// Whether every one of the flower's nine circles can be rasterized
/// without leaving i32.
pub open spec fn flower_points_ok(cx: int, cy: int, r: int) -> bool {
    &&& flower_ok(cx, cy, r)
    &&& forall|k: int|
        0 <= k < 9 ==> {
            let c = #[trigger] flower_circles_spec(cx, cy, r)[k];
            center_fits(c.0.0, c.0.1, c.1)
        }
}

/// The concatenated pixels of a sequence of circle requests.
pub open spec fn concat_circle_points(s: Seq<((int, int), int)>) -> Seq<(int, int)>
    decreases s.len(),
{
    if s.len() == 0 {
        Seq::empty()
    } else {
        concat_circle_points(s.drop_last()) + circle_points_spec(
            s.last().0.0,
            s.last().0.1,
            s.last().1,
        )
    }
}

/// The pixels of the flower: its nine circles rasterized in order and
/// concatenated, duplicates kept.
pub open spec fn flower_points_spec(cx: int, cy: int, r: int) -> Seq<(int, int)> {
    concat_circle_points(flower_circles_spec(cx, cy, r))
}

/// Rasterizes the whole flower: the root circle first, then the four
/// axis-aligned children, then the four diagonal children, all pixel
/// sequences concatenated in order.
pub fn flower_points(x: i32, y: i32, radius: i32) -> (res: Result<Vec<Point>, RasterError>)
    ensures
        res is Err <==> !flower_points_ok(x as int, y as int, radius as int),
        match res {
            Err(e) => e == (if radius < 0 {
                RasterError::NegativeRadius
            } else {
                RasterError::Overflow
            }),
            Ok(points) => points@.map_values(|p: Point| point_view(p)) == flower_points_spec(
                x as int,
                y as int,
                radius as int,
            ),
        },
{
    let circles = match draw_flower(x, y, radius) {
        Ok(v) => v,
        Err(e) => {
            return Err(e);
        },
    };
    let ghost spec_circles = flower_circles_spec(x as int, y as int, radius as int);
    proof {
        assert(radius as int / 2 >= 0) by (nonlinear_arith)
            requires
                radius >= 0,
        ;
        assert forall|k: int| 0 <= k < 9 implies (#[trigger] spec_circles[k]).1 >= 0 by {}
    }
    let mut out: Vec<Point> = Vec::new();
    let mut i: usize = 0;
    proof {
        assert(spec_circles.take(0) =~= Seq::<((int, int), int)>::empty());
        assert(out@.map_values(|p: Point| point_view(p)) =~= concat_circle_points(
            spec_circles.take(0),
        ));
    }
    while i < circles.len()
        invariant
            radius >= 0,
            flower_ok(x as int, y as int, radius as int),
            spec_circles == flower_circles_spec(x as int, y as int, radius as int),
            circles@.len() == 9,
            forall|k: int|
                0 <= k < 9 ==> (point_view((#[trigger] circles@[k]).center),
                circles@[k].radius as int) == spec_circles[k],
            forall|k: int| 0 <= k < 9 ==> (#[trigger] spec_circles[k]).1 >= 0,
            0 <= i <= 9,
            forall|k: int|
                0 <= k < i ==> center_fits(
                    (#[trigger] spec_circles[k]).0.0,
                    spec_circles[k].0.1,
                    spec_circles[k].1,
                ),
            out@.map_values(|p: Point| point_view(p)) =~= concat_circle_points(
                spec_circles.take(i as int),
            ),
        decreases 9 - i,
    {
        let c = circles[i];
        let sub = calc_circle_points(c.center.x, c.center.y, c.radius);
        match sub {
            Err(_) => {
                proof {
                    assert(!center_fits(
                        spec_circles[i as int].0.0,
                        spec_circles[i as int].0.1,
                        spec_circles[i as int].1,
                    ));
                }
                return Err(RasterError::Overflow);
            },
            Ok(mut pts) => {
                let ghost old_out = out@;
                let ghost old_pts = pts@;
                let ghost csp = circle_points_spec(
                    c.center.x as int,
                    c.center.y as int,
                    c.radius as int,
                );
                proof {
                    assert forall|j: int| 0 <= j < old_pts.len() implies point_view(
                        #[trigger] old_pts[j],
                    ) == csp[j] by {}
                }
                out.append(&mut pts);
                proof {
                    let t1 = spec_circles.take(i as int + 1);
                    assert(t1.drop_last() =~= spec_circles.take(i as int));
                    assert(t1.last() == spec_circles[i as int]);
                    assert(concat_circle_points(t1) == concat_circle_points(t1.drop_last())
                        + circle_points_spec(t1.last().0.0, t1.last().0.1, t1.last().1));
                    assert(csp == circle_points_spec(t1.last().0.0, t1.last().0.1, t1.last().1));
                    assert forall|j: int| 0 <= j < out@.len() implies out@.map_values(
                        |p: Point| point_view(p),
                    )[j] == concat_circle_points(t1)[j] by {
                        if j < old_out.len() {
                            assert(old_out.map_values(|p: Point| point_view(p))[j]
                                == concat_circle_points(spec_circles.take(i as int))[j]);
                        } else {
                            assert(point_view(old_pts[j - old_out.len()]) == csp[j
                                - old_out.len()]);
                        }
                    }
                    assert(out@.map_values(|p: Point| point_view(p)) =~= concat_circle_points(t1));
                }
                i = i + 1;
            },
        }
    }
    proof {
        assert(spec_circles.take(9) =~= spec_circles);
    }
    Ok(out)
}

} // verus!
