//! The midpoint circle rasterizer.
//!
//! One octant (x in [0, y], y falling from the radius) is generated with
//! an integer decision variable; every generated offset is mirrored into
//! the other seven octants and the whole set is translated by the center.
//! Coincident mirrors at the axis extremes are deliberately kept: the
//! output is a point sequence, not a de-duplicated set, and repeated
//! pixel writes are idempotent for rendering.
//!
//! The model is the recursive `octant_rest`, so the executable loop's
//! contract pins its output to the model exactly; the ring-membership
//! bound and the eight-fold symmetry are proved of the model.

use vstd::prelude::*;

use crate::geometry::{Point, RasterError};

verus! {

/// The midpoint decision variable at octant state (x, y) for radius r.
pub open spec fn circle_d(x: int, y: int, r: int) -> int {
    (x + 1) * (x + 1) + y * y - y - r * r
}

/// The octant offsets still to be generated from state (x, y, d): an east
/// move while the midpoint is inside the circle, a southeast move
/// otherwise, until the octant boundary x < y closes.
pub open spec fn octant_rest(x: int, y: int, d: int) -> Seq<(int, int)>
    decreases y - x + 1,
{
    if x >= y {
        Seq::empty()
    } else if d < 0 {
        seq![(x + 1, y)] + octant_rest(x + 1, y, d + 2 * x + 3)
    } else {
        seq![(x + 1, y - 1)] + octant_rest(x + 1, y - 1, d + 2 * x - 2 * y + 5)
    }
}

/// All generated octant offsets for radius r, starting at (0, r).
pub open spec fn octant_points(r: int) -> Seq<(int, int)> {
    seq![(0, r)] + octant_rest(0, r, 1 - r)
}

/// The eight mirror images of an octant offset, in emission order.
pub open spec fn mirrors8(q: (int, int)) -> Seq<(int, int)> {
    seq![
        (q.0, q.1),
        (q.1, q.0),
        (q.1, -q.0),
        (q.0, -q.1),
        (-q.0, -q.1),
        (-q.1, -q.0),
        (-q.1, q.0),
        (-q.0, q.1),
    ]
}

/// Every octant offset of s expanded into its eight mirrors, in order.
pub open spec fn mirror_all(s: Seq<(int, int)>) -> Seq<(int, int)>
    decreases s.len(),
{
    if s.len() == 0 {
        Seq::empty()
    } else {
        mirror_all(s.drop_last()) + mirrors8(s.last())
    }
}

/// All center-relative offsets of the rasterized circle of radius r. A
/// radius of zero yields the single center offset.
pub open spec fn circle_offsets(r: int) -> Seq<(int, int)> {
    if r == 0 {
        seq![(0, 0)]
    } else {
        mirror_all(octant_points(r))
    }
}

/// The absolute pixels of the circle with the given center and radius.
pub open spec fn circle_points_spec(cx: int, cy: int, r: int) -> Seq<(int, int)> {
    circle_offsets(r).map_values(|q: (int, int)| (cx + q.0, cy + q.1))
}

/// The midpoint approximation bound: the offset's distance to the center
/// is within one pixel of the radius.
pub open spec fn in_ring(p: (int, int), r: int) -> bool {
    (r - 1) * (r - 1) < p.0 * p.0 + p.1 * p.1 < (r + 1) * (r + 1)
}

/// What holds of every generated octant offset.
pub open spec fn octant_point_ok(p: (int, int), r: int) -> bool {
    0 <= p.0 <= r && 0 <= p.1 <= r && in_ring(p, r)
}

/// What holds of every mirrored offset.
pub open spec fn offset_ok(p: (int, int), r: int) -> bool {
    -r <= p.0 <= r && -r <= p.1 <= r && in_ring(p, r)
}

/// Whether translating a radius-r offset by the center stays inside i32.
pub open spec fn center_fits(cx: int, cy: int, r: int) -> bool {
    cx + r <= i32::MAX && cx - r >= i32::MIN && cy + r <= i32::MAX && cy - r >= i32::MIN
}

/// One step of the octant walk: the decision variable keeps tracking
/// `circle_d`, its bounds are maintained, and the newly emitted offset
/// lies in the octant and within one pixel of the ideal circle.
proof fn lemma_octant_step(x: int, y: int, d: int, r: int)
    requires
        r >= 1,
        0 <= x < y <= r,
        d == circle_d(x, y, r),
        -2 * y <= d,
        d <= 2 * x + 2,
    ensures
        d < 0 ==> {
            &&& circle_d(x + 1, y, r) == d + 2 * x + 3
            &&& -2 * y <= d + 2 * x + 3 <= 2 * (x + 1) + 2
            &&& x + 1 <= y
            &&& octant_point_ok((x + 1, y), r)
        },
        d >= 0 ==> {
            &&& circle_d(x + 1, y - 1, r) == d + 2 * x - 2 * y + 5
            &&& -2 * (y - 1) <= d + 2 * x - 2 * y + 5
            &&& (x + 1 < y - 1 ==> d + 2 * x - 2 * y + 5 <= 2 * (x + 1) + 2)
            &&& 0 <= y - 1
            &&& x + 1 <= y
            &&& octant_point_ok((x + 1, y - 1), r)
        },
{
    assert((x + 2) * (x + 2) == (x + 1) * (x + 1) + 2 * x + 3) by (nonlinear_arith);
    assert((y - 1) * (y - 1) == y * y - 2 * y + 1) by (nonlinear_arith);
    assert((r - 1) * (r - 1) == r * r - 2 * r + 1) by (nonlinear_arith);
    assert((r + 1) * (r + 1) == r * r + 2 * r + 1) by (nonlinear_arith);
    if d < 0 {
        // the emitted offset is (x+1, y); its squared distance exceeds
        // (r-1)^2 because d never falls below -2y, except in the r = 1
        // corner where the east move cannot happen at all
        if y >= 2 * r - 1 {
            assert(y == 1 && x == 0 && r == 1);
            assert(circle_d(0, 1, 1) == 0) by (nonlinear_arith);
            assert(false);
        }
    }
}

/// Every offset in the remainder of the octant walk is inside the octant
/// and within one pixel of the ideal circle.
proof fn lemma_octant_rest_props(x: int, y: int, d: int, r: int)
    requires
        r >= 1,
        0 <= x < y <= r,
        d == circle_d(x, y, r),
        -2 * y <= d,
        d <= 2 * x + 2,
    ensures
        forall|i: int|
            0 <= i < octant_rest(x, y, d).len() ==> octant_point_ok(
                #[trigger] octant_rest(x, y, d)[i],
                r,
            ),
    decreases y - x,
{
    lemma_octant_step(x, y, d, r);
    let s = octant_rest(x, y, d);
    if d < 0 {
        let rest = octant_rest(x + 1, y, d + 2 * x + 3);
        if x + 1 < y {
            lemma_octant_rest_props(x + 1, y, d + 2 * x + 3, r);
        }
        assert forall|i: int| 0 <= i < s.len() implies octant_point_ok(#[trigger] s[i], r) by {
            if i > 0 {
                assert(s[i] == rest[i - 1]);
            }
        }
    } else {
        let rest = octant_rest(x + 1, y - 1, d + 2 * x - 2 * y + 5);
        if x + 1 < y - 1 {
            lemma_octant_rest_props(x + 1, y - 1, d + 2 * x - 2 * y + 5, r);
        }
        assert forall|i: int| 0 <= i < s.len() implies octant_point_ok(#[trigger] s[i], r) by {
            if i > 0 {
                assert(s[i] == rest[i - 1]);
            }
        }
    }
}

/// Every generated octant offset of a circle of radius r >= 1 is inside
/// the octant and within one pixel of the ideal circle.
pub proof fn lemma_octant_props(r: int)
    requires
        r >= 1,
    ensures
        forall|i: int|
            0 <= i < octant_points(r).len() ==> octant_point_ok(
                #[trigger] octant_points(r)[i],
                r,
            ),
{
    assert((r - 1) * (r - 1) < r * r < (r + 1) * (r + 1)) by (nonlinear_arith)
        requires
            r >= 1,
    ;
    assert(octant_point_ok((0, r), r));
    assert(circle_d(0, r, r) == 1 - r) by (nonlinear_arith);
    let s = octant_points(r);
    let rest = octant_rest(0, r, 1 - r);
    if 0 < r {
        lemma_octant_rest_props(0, r, 1 - r, r);
    }
    assert forall|i: int| 0 <= i < s.len() implies octant_point_ok(#[trigger] s[i], r) by {
        if i > 0 {
            assert(s[i] == rest[i - 1]);
        }
    }
}

/// Negating preserves squares.
proof fn lemma_neg_sq(a: int)
    by (nonlinear_arith)
    ensures
        (-a) * (-a) == a * a,
{
}

/// The mirrors of an offset that satisfies the octant properties all
/// satisfy the full-circle offset properties.
proof fn lemma_mirrors8_ok(q: (int, int), r: int)
    requires
        octant_point_ok(q, r),
    ensures
        forall|j: int| 0 <= j < 8 ==> offset_ok(#[trigger] mirrors8(q)[j], r),
{
    lemma_neg_sq(q.0);
    lemma_neg_sq(q.1);
}

/// Every mirrored offset of a walked octant satisfies the full-circle
/// offset properties.
proof fn lemma_mirror_all_props(s: Seq<(int, int)>, r: int)
    requires
        forall|i: int| 0 <= i < s.len() ==> octant_point_ok(#[trigger] s[i], r),
    ensures
        mirror_all(s).len() == 8 * s.len(),
        forall|i: int|
            0 <= i < mirror_all(s).len() ==> offset_ok(#[trigger] mirror_all(s)[i], r),
    decreases s.len(),
{
    if s.len() > 0 {
        let pre = s.drop_last();
        lemma_mirror_all_props(pre, r);
        lemma_mirrors8_ok(s.last(), r);
        let m = mirror_all(s);
        assert forall|i: int| 0 <= i < m.len() implies offset_ok(#[trigger] m[i], r) by {
            if i < mirror_all(pre).len() {
                assert(m[i] == mirror_all(pre)[i]);
            } else {
                assert(m[i] == mirrors8(s.last())[i - mirror_all(pre).len()]);
            }
        }
    }
}

/// An offset is among the mirrored offsets exactly when it is a mirror of
/// some walked octant offset.
proof fn lemma_mirror_all_contains(s: Seq<(int, int)>, p: (int, int))
    ensures
        mirror_all(s).contains(p) <==> exists|i: int|
            0 <= i < s.len() && #[trigger] mirrors8(s[i]).contains(p),
    decreases s.len(),
{
    if s.len() > 0 {
        let pre = s.drop_last();
        lemma_mirror_all_contains(pre, p);
        let m = mirror_all(s);
        let mp = mirror_all(pre);
        let m8 = mirrors8(s.last());
        if m.contains(p) {
            let idx = choose|idx: int| 0 <= idx < m.len() && m[idx] == p;
            if idx < mp.len() {
                assert(mp[idx] == p);
                assert(mp.contains(p));
            } else {
                assert(m8[idx - mp.len()] == p);
                assert(m8.contains(p));
            }
        }
        if exists|i: int| 0 <= i < s.len() && #[trigger] mirrors8(s[i]).contains(p) {
            let i = choose|i: int| 0 <= i < s.len() && #[trigger] mirrors8(s[i]).contains(p);
            if i < s.len() - 1 {
                assert(mirrors8(pre[i]).contains(p));
                assert(mp.contains(p));
                let idx = choose|idx: int| 0 <= idx < mp.len() && mp[idx] == p;
                assert(m[idx] == p);
                assert(m.contains(p));
            } else {
                let j = choose|j: int| 0 <= j < m8.len() && m8[j] == p;
                assert(m[mp.len() + j] == p);
                assert(m.contains(p));
            }
        }
    }
}

/// The eight mirrors of one offset are closed under swapping the axes and
/// under negating either coordinate.
proof fn lemma_mirrors8_closed(q: (int, int), p: (int, int))
    requires
        mirrors8(q).contains(p),
    ensures
        mirrors8(q).contains((p.1, p.0)),
        mirrors8(q).contains((-p.0, p.1)),
        mirrors8(q).contains((p.0, -p.1)),
{
    let m = mirrors8(q);
    let idx = choose|idx: int| 0 <= idx < m.len() && m[idx] == p;
    if idx == 0 {
        assert(m[1] == (p.1, p.0) && m[7] == (-p.0, p.1) && m[3] == (p.0, -p.1));
    } else if idx == 1 {
        assert(m[0] == (p.1, p.0) && m[6] == (-p.0, p.1) && m[2] == (p.0, -p.1));
    } else if idx == 2 {
        assert(m[7] == (p.1, p.0) && m[5] == (-p.0, p.1) && m[1] == (p.0, -p.1));
    } else if idx == 3 {
        assert(m[6] == (p.1, p.0) && m[4] == (-p.0, p.1) && m[0] == (p.0, -p.1));
    } else if idx == 4 {
        assert(m[5] == (p.1, p.0) && m[3] == (-p.0, p.1) && m[7] == (p.0, -p.1));
    } else if idx == 5 {
        assert(m[4] == (p.1, p.0) && m[2] == (-p.0, p.1) && m[6] == (p.0, -p.1));
    } else if idx == 6 {
        assert(m[3] == (p.1, p.0) && m[1] == (-p.0, p.1) && m[5] == (p.0, -p.1));
    } else {
        assert(m[2] == (p.1, p.0) && m[0] == (-p.0, p.1) && m[4] == (p.0, -p.1));
    }
}

/// One symmetry step on the full offset set: membership is preserved by
/// swapping the axes and by negating either coordinate.
proof fn lemma_offsets_mirror_step(r: int, p: (int, int))
    requires
        r >= 0,
        circle_offsets(r).contains(p),
    ensures
        circle_offsets(r).contains((p.1, p.0)),
        circle_offsets(r).contains((-p.0, p.1)),
        circle_offsets(r).contains((p.0, -p.1)),
{
    if r == 0 {
        assert(circle_offsets(r)[0] == (0int, 0int));
        assert(p == (0int, 0int));
        assert(circle_offsets(r).contains((0int, 0int)));
    } else {
        let oct = octant_points(r);
        lemma_mirror_all_contains(oct, p);
        let i = choose|i: int| 0 <= i < oct.len() && #[trigger] mirrors8(oct[i]).contains(p);
        lemma_mirrors8_closed(oct[i], p);
        lemma_mirror_all_contains(oct, (p.1, p.0));
        lemma_mirror_all_contains(oct, (-p.0, p.1));
        lemma_mirror_all_contains(oct, (p.0, -p.1));
    }
}

/// Circle symmetry: the rasterized offset set of any radius is invariant
/// under the eight symmetries of the square — swapping the axes, negating
/// either coordinate, and all their combinations.
pub proof fn lemma_circle_symmetry(r: int, a: int, b: int)
    requires
        r >= 0,
    ensures
        circle_offsets(r).contains((a, b)) <==> circle_offsets(r).contains((b, a)),
        circle_offsets(r).contains((a, b)) <==> circle_offsets(r).contains((-a, b)),
        circle_offsets(r).contains((a, b)) <==> circle_offsets(r).contains((a, -b)),
        circle_offsets(r).contains((a, b)) <==> circle_offsets(r).contains((-a, -b)),
        circle_offsets(r).contains((a, b)) <==> circle_offsets(r).contains((b, -a)),
        circle_offsets(r).contains((a, b)) <==> circle_offsets(r).contains((-b, a)),
        circle_offsets(r).contains((a, b)) <==> circle_offsets(r).contains((-b, -a)),
{
    let s = circle_offsets(r);
    if s.contains((a, b)) {
        lemma_offsets_mirror_step(r, (a, b));
        lemma_offsets_mirror_step(r, (b, a));
        lemma_offsets_mirror_step(r, (-a, b));
        lemma_offsets_mirror_step(r, (a, -b));
        lemma_offsets_mirror_step(r, (-a, -b));
        lemma_offsets_mirror_step(r, (b, -a));
        lemma_offsets_mirror_step(r, (-b, a));
    }
    if s.contains((b, a)) {
        lemma_offsets_mirror_step(r, (b, a));
    }
    if s.contains((-a, b)) {
        lemma_offsets_mirror_step(r, (-a, b));
    }
    if s.contains((a, -b)) {
        lemma_offsets_mirror_step(r, (a, -b));
    }
    if s.contains((-a, -b)) {
        lemma_offsets_mirror_step(r, (-a, -b));
        lemma_offsets_mirror_step(r, (-b, -a));
        lemma_offsets_mirror_step(r, (a, -b));
    }
    if s.contains((b, -a)) {
        lemma_offsets_mirror_step(r, (b, -a));
        lemma_offsets_mirror_step(r, (-a, b));
    }
    if s.contains((-b, a)) {
        lemma_offsets_mirror_step(r, (-b, a));
        lemma_offsets_mirror_step(r, (a, -b));
        lemma_offsets_mirror_step(r, (-b, -a));
    }
    if s.contains((-b, -a)) {
        lemma_offsets_mirror_step(r, (-b, -a));
        lemma_offsets_mirror_step(r, (-a, -b));
    }
}

/// The integer pair a point holds.
pub open spec fn point_view(p: Point) -> (int, int) {
    (p.x as int, p.y as int)
}

/// Appends the eight mirror images of the offset (x, y), in the fixed
/// emission order.
pub fn add_with_mirror_points(x: i32, y: i32, circle_points: &mut Vec<Point>)
    requires
        x > i32::MIN,
        y > i32::MIN,
    ensures
        final(circle_points)@.len() == old(circle_points)@.len() + 8,
        forall|j: int|
            0 <= j < old(circle_points)@.len() ==> #[trigger] final(circle_points)@[j] == old(
                circle_points,
            )@[j],
        forall|j: int|
            0 <= j < 8 ==> point_view(#[trigger] final(circle_points)@[old(circle_points)@.len()
                + j]) == mirrors8((x as int, y as int))[j],
{
    circle_points.push(Point { x, y });
    circle_points.push(Point { x: y, y: x });
    circle_points.push(Point { x: y, y: -x });
    circle_points.push(Point { x, y: -y });
    circle_points.push(Point { x: -x, y: -y });
    circle_points.push(Point { x: -y, y: -x });
    circle_points.push(Point { x: -y, y: x });
    circle_points.push(Point { x: -x, y });
}

/// Midpoint rasterization of the circle with the given center and radius.
///
/// A negative radius is rejected; a request whose emitted pixels could
/// leave the i32 range is rejected with `Overflow`; a radius of zero
/// emits the single center pixel. Otherwise the output is pinned to the
/// octant walk mirrored eight ways and translated by the center, and for
/// radius >= 1 every emitted pixel lies within one pixel of the ideal
/// circle: (r-1)^2 < dx^2 + dy^2 < (r+1)^2 relative to the center.
pub fn calc_circle_points(x: i32, y: i32, radius: i32) -> (res: Result<Vec<Point>, RasterError>)
    ensures
        res is Err <==> (radius < 0 || !center_fits(x as int, y as int, radius as int)),
        match res {
            Err(e) => e == (if radius < 0 {
                RasterError::NegativeRadius
            } else {
                RasterError::Overflow
            }),
            Ok(points) => {
                let offs = circle_offsets(radius as int);
                &&& points@.len() == offs.len()
                &&& forall|k: int|
                    0 <= k < points@.len() ==> point_view(#[trigger] points@[k]) == (
                    x + offs[k].0,
                    y + offs[k].1,
                )
                &&& radius >= 1 ==> forall|k: int|
                    0 <= k < points@.len() ==> in_ring(
                        ((#[trigger] points@[k]).x - x, points@[k].y - y),
                        radius as int,
                    )
            },
        },
{
    if radius < 0 {
        return Err(RasterError::NegativeRadius);
    }
    if (x as i64) + (radius as i64) > i32::MAX as i64 || (x as i64) - (radius as i64) < (
    i32::MIN as i64) || (y as i64) + (radius as i64) > i32::MAX as i64 || (y as i64) - (
    radius as i64) < (i32::MIN as i64) {
        return Err(RasterError::Overflow);
    }
    if radius == 0 {
        let mut out: Vec<Point> = Vec::new();
        out.push(Point { x, y });
        return Ok(out);
    }
    let ghost r: int = radius as int;

    let mut rel: Vec<Point> = Vec::new();
    let mut cx: i32 = 0;
    let mut cy: i32 = radius;
    let mut d: i64 = 1 - radius as i64;
    add_with_mirror_points(cx, cy, &mut rel);
    let ghost mut oct: Seq<(int, int)> = seq![(0int, r)];

    proof {
        assert(circle_d(0, r, r) == 1 - r) by (nonlinear_arith);
        assert(oct.drop_last() =~= Seq::<(int, int)>::empty());
        assert(mirror_all(oct.drop_last()) =~= Seq::<(int, int)>::empty());
        assert(oct.last() == (0int, r));
        assert(mirror_all(oct) == mirror_all(oct.drop_last()) + mirrors8((0int, r)));
        assert forall|j: int| 0 <= j < rel@.len() implies rel@.map_values(
            |p: Point| point_view(p),
        )[j] == mirror_all(oct)[j] by {
            assert(point_view(rel@[0 + j]) == mirrors8((0int, r))[j]);
        }
        assert(rel@.map_values(|p: Point| point_view(p)) =~= mirror_all(oct));
        assert(oct + octant_rest(0, r, 1 - r) =~= octant_points(r));
    }

    while cx < cy
        invariant
            1 <= radius,
            r == radius as int,
            0 <= cx,
            cx <= cy + 1,
            cy <= radius,
            d == circle_d(cx as int, cy as int, r),
            -2 * cy <= d,
            cx < cy ==> d <= 2 * cx + 2,
            oct.len() >= 1,
            oct + octant_rest(cx as int, cy as int, d as int) =~= octant_points(r),
            rel@.map_values(|p: Point| point_view(p)) =~= mirror_all(oct),
        decreases cy - cx + 1,
    {
        let ghost ox: int = cx as int;
        let ghost oy: int = cy as int;
        let ghost od: int = d as int;
        let ghost old_len: int = rel@.len() as int;
        proof {
            lemma_octant_step(ox, oy, od, r);
            assert(old_len == mirror_all(oct).len());
        }
        if d < 0 {
            d = d + 2 * (cx as i64) + 3;
            cx = cx + 1;
        } else {
            d = d + 2 * (cx as i64) - 2 * (cy as i64) + 5;
            cx = cx + 1;
            cy = cy - 1;
        }
        let ghost old_rel: Seq<Point> = rel@;
        add_with_mirror_points(cx, cy, &mut rel);
        proof {
            let prev = oct;
            oct = oct.push((cx as int, cy as int));
            assert(octant_rest(ox, oy, od) == seq![(cx as int, cy as int)] + octant_rest(
                cx as int,
                cy as int,
                d as int,
            ));
            assert(oct + octant_rest(cx as int, cy as int, d as int) =~= octant_points(r));
            assert(oct.drop_last() =~= prev);
            assert(oct.last() == (cx as int, cy as int));
            assert(mirror_all(oct) == mirror_all(oct.drop_last()) + mirrors8(
                (cx as int, cy as int),
            ));
            assert forall|j: int| 0 <= j < rel@.len() implies rel@.map_values(
                |p: Point| point_view(p),
            )[j] == mirror_all(oct)[j] by {
                if j < old_len {
                    assert(rel@[j] == old_rel[j]);
                    assert(old_rel.map_values(|p: Point| point_view(p))[j] == mirror_all(prev)[j]);
                } else {
                    assert(point_view(rel@[old_len + (j - old_len)]) == mirrors8(
                        (cx as int, cy as int),
                    )[j - old_len]);
                }
            }
            assert(rel@.map_values(|p: Point| point_view(p)) =~= mirror_all(oct));
        }
    }

    proof {
        assert(octant_rest(cx as int, cy as int, d as int) =~= Seq::<(int, int)>::empty());
        assert(oct =~= octant_points(r));
        lemma_octant_props(r);
        lemma_mirror_all_props(octant_points(r), r);
        assert(rel@.map_values(|p: Point| point_view(p)) =~= circle_offsets(r));
    }

    let mut out: Vec<Point> = Vec::new();
    let mut i: usize = 0;
    while i < rel.len()
        invariant
            1 <= radius,
            r == radius as int,
            center_fits(x as int, y as int, r),
            rel@.map_values(|p: Point| point_view(p)) =~= circle_offsets(r),
            forall|k: int|
                0 <= k < circle_offsets(r).len() ==> offset_ok(#[trigger] circle_offsets(r)[k], r),
            0 <= i <= rel@.len(),
            out@.len() == i,
            forall|k: int|
                0 <= k < i ==> point_view(#[trigger] out@[k]) == (
                x + circle_offsets(r)[k].0,
                y + circle_offsets(r)[k].1,
            ),
        decreases rel@.len() - i,
    {
        let p = rel[i];
        proof {
            assert(rel@.map_values(|q: Point| point_view(q))[i as int] == point_view(p));
            assert(offset_ok(circle_offsets(r)[i as int], r));
        }
        out.push(Point { x: ((x as i64) + (p.x as i64)) as i32, y: ((y as i64) + (p.y as i64)) as i32 });
        i = i + 1;
    }
    proof {
        assert(out@.len() == circle_offsets(r).len());
        assert forall|k: int| 0 <= k < out@.len() implies in_ring(
            ((#[trigger] out@[k]).x - x, out@[k].y - y),
            r,
        ) by {
            assert(offset_ok(circle_offsets(r)[k], r));
        }
    }
    Ok(out)
}

} // verus!
