//! Octant ("zone") classification of line directions and the paired
//! coordinate transforms into and out of the canonical octant.
//!
//! The direction plane is partitioned into eight half-open 45-degree
//! sectors. Zone zero is the canonical octant (dx >= dy >= 0); every other
//! zone carries a linear transform (coordinate swap and/or negation) into
//! zone zero together with its exact inverse. Confining the stepping
//! algorithm to one octant removes the eight-way branching from its loop.

use vstd::prelude::*;

use crate::geometry::Point;

verus! {

/// One of the eight 45-degree octants of direction space.
///
/// Ties (`|dx| == |dy|`, or a delta of zero) are resolved by one fixed
/// rule, the same rule for classification and for both transforms, so
/// that canonicalization round-trips losslessly: every diagonal goes to
/// its quadrant's even sector (so the rising up-right diagonal is zone
/// zero), and the axes go to zones zero (+x), one (+y), three (-x) and
/// six (-y) — for each, a sector whose transform keeps it canonical.
#[derive(Clone, Copy, PartialEq, Eq, Structural, Debug)]
pub enum Zone {
    Zero,
    One,
    Two,
    Three,
    Four,
    Five,
    Six,
    Seven,
}

impl Zone {
    /// The zone's numeric index, 0 through 7.
    pub open spec fn index(self) -> int {
        match self {
            Zone::Zero => 0,
            Zone::One => 1,
            Zone::Two => 2,
            Zone::Three => 3,
            Zone::Four => 4,
            Zone::Five => 5,
            Zone::Six => 6,
            Zone::Seven => 7,
        }
    }

    /// The zone's numeric index as a value, 0 through 7.
    pub fn name(&self) -> (n: u8)
        ensures
            n == self.index(),
    {
        match self {
            Zone::Zero => 0,
            Zone::One => 1,
            Zone::Two => 2,
            Zone::Three => 3,
            Zone::Four => 4,
            Zone::Five => 5,
            Zone::Six => 6,
            Zone::Seven => 7,
        }
    }
}

/// Classification of the direction (dx, dy): the eight conditions are
/// mutually exclusive and cover every direction, including ties and the
/// degenerate zero direction (which lands in zone zero).
pub open spec fn zone_of(dx: int, dy: int) -> Zone {
    if dx >= 0 && dy >= 0 {
        if dy <= dx {
            Zone::Zero
        } else {
            Zone::One
        }
    } else if dx < 0 && dy >= 0 {
        if dy >= -dx {
            Zone::Two
        } else {
            Zone::Three
        }
    } else if dx < 0 && dy < 0 {
        if -dy <= -dx {
            Zone::Four
        } else {
            Zone::Five
        }
    } else {
        if -dy >= dx {
            Zone::Six
        } else {
            Zone::Seven
        }
    }
}

/// The zone's linear transform into the canonical (zone-zero) frame.
pub open spec fn to_zone_zero_xy(z: Zone, x: int, y: int) -> (int, int) {
    match z {
        Zone::Zero => (x, y),
        Zone::One => (y, x),
        Zone::Two => (y, -x),
        Zone::Three => (-x, y),
        Zone::Four => (-x, -y),
        Zone::Five => (-y, -x),
        Zone::Six => (-y, x),
        Zone::Seven => (x, -y),
    }
}

/// The exact inverse of `to_zone_zero_xy`: maps a point expressed in the
/// canonical frame back into the zone's own frame.
pub open spec fn from_zone_zero_xy(z: Zone, x: int, y: int) -> (int, int) {
    match z {
        Zone::Zero => (x, y),
        Zone::One => (y, x),
        Zone::Two => (-y, x),
        Zone::Three => (-x, y),
        Zone::Four => (-x, -y),
        Zone::Five => (-y, -x),
        Zone::Six => (y, -x),
        Zone::Seven => (x, -y),
    }
}

/// Zone round-trip: for every zone, the transform into the canonical frame
/// and the transform out of it are exact inverses of one another, in both
/// compositions, independent of any stepping algorithm.
pub proof fn lemma_zone_round_trip(z: Zone, x: int, y: int)
    ensures
        from_zone_zero_xy(z, to_zone_zero_xy(z, x, y).0, to_zone_zero_xy(z, x, y).1) == (x, y),
        to_zone_zero_xy(z, from_zone_zero_xy(z, x, y).0, from_zone_zero_xy(z, x, y).1) == (x, y),
{
}

/// Canonicalization lands in the canonical octant: transforming both
/// endpoints of any segment by its classified zone yields deltas with
/// 0 <= dy' <= dx'.
pub proof fn lemma_to_zone_zero_canonical(sx: int, sy: int, ex: int, ey: int)
    ensures
        ({
            let z = zone_of(ex - sx, ey - sy);
            let s = to_zone_zero_xy(z, sx, sy);
            let e = to_zone_zero_xy(z, ex, ey);
            0 <= e.1 - s.1 <= e.0 - s.0
        }),
{
}

/// A line segment: two endpoints plus the derived zone tag. The tag is
/// always the classification of `end - start` at construction time; the
/// constructor is the only entry point, so the tag cannot drift from the
/// endpoints.
pub struct Line {
    pub start: Point,
    pub end: Point,
    pub zone: Zone,
}

impl Line {
    /// The structural invariant: the zone tag classifies the endpoints.
    pub open spec fn wf(self) -> bool {
        self.zone == zone_of(self.end.x - self.start.x, self.end.y - self.start.y)
    }

    /// Classifies the direction from `start` to `end` into its zone.
    pub fn find_zone(start: &Point, end: &Point) -> (z: Zone)
        ensures
            z == zone_of(end.x - start.x, end.y - start.y),
    {
        let dx: i64 = end.x as i64 - start.x as i64;
        let dy: i64 = end.y as i64 - start.y as i64;
        if dx >= 0 && dy >= 0 {
            if dy <= dx {
                Zone::Zero
            } else {
                Zone::One
            }
        } else if dx < 0 && dy >= 0 {
            if dy >= -dx {
                Zone::Two
            } else {
                Zone::Three
            }
        } else if dx < 0 && dy < 0 {
            if -dy <= -dx {
                Zone::Four
            } else {
                Zone::Five
            }
        } else {
            if -dy >= dx {
                Zone::Six
            } else {
                Zone::Seven
            }
        }
    }

    /// Builds a line and classifies it in one step.
    pub fn from(starting_point: Point, ending_point: Point) -> (line: Line)
        ensures
            line.start == starting_point,
            line.end == ending_point,
            line.wf(),
    {
        let zone = Self::find_zone(&starting_point, &ending_point);
        Line { start: starting_point, end: ending_point, zone }
    }

    /// Transforms the line into the canonical octant. The result is tagged
    /// zone zero, its deltas satisfy 0 <= dy' <= dx', and its endpoints are
    /// exactly the zone transform of the original endpoints.
    pub fn convert_to_zone_zero(&self) -> (r: Line)
        requires
            self.wf(),
            self.start.x > i32::MIN,
            self.start.y > i32::MIN,
            self.end.x > i32::MIN,
            self.end.y > i32::MIN,
        ensures
            r.wf(),
            r.zone == Zone::Zero,
            (r.start.x as int, r.start.y as int) == to_zone_zero_xy(
                self.zone,
                self.start.x as int,
                self.start.y as int,
            ),
            (r.end.x as int, r.end.y as int) == to_zone_zero_xy(
                self.zone,
                self.end.x as int,
                self.end.y as int,
            ),
            0 <= r.end.y - r.start.y <= r.end.x - r.start.x,
    {
        proof {
            lemma_to_zone_zero_canonical(
                self.start.x as int,
                self.start.y as int,
                self.end.x as int,
                self.end.y as int,
            );
        }
        let start: Point;
        let end: Point;
        match self.zone {
            Zone::Zero => {
                start = Point { x: self.start.x, y: self.start.y };
                end = Point { x: self.end.x, y: self.end.y };
            },
            Zone::One => {
                start = Point { x: self.start.y, y: self.start.x };
                end = Point { x: self.end.y, y: self.end.x };
            },
            Zone::Two => {
                start = Point { x: self.start.y, y: -self.start.x };
                end = Point { x: self.end.y, y: -self.end.x };
            },
            Zone::Three => {
                start = Point { x: -self.start.x, y: self.start.y };
                end = Point { x: -self.end.x, y: self.end.y };
            },
            Zone::Four => {
                start = Point { x: -self.start.x, y: -self.start.y };
                end = Point { x: -self.end.x, y: -self.end.y };
            },
            Zone::Five => {
                start = Point { x: -self.start.y, y: -self.start.x };
                end = Point { x: -self.end.y, y: -self.end.x };
            },
            Zone::Six => {
                start = Point { x: -self.start.y, y: self.start.x };
                end = Point { x: -self.end.y, y: self.end.x };
            },
            Zone::Seven => {
                start = Point { x: self.start.x, y: -self.start.y };
                end = Point { x: self.end.x, y: -self.end.y };
            },
        }
        Line { start, end, zone: Zone::Zero }
    }
}

/// Maps points expressed in the canonical frame back into the frame of the
/// given zone, in place: the inverse leg of canonicalization.
pub fn convert_zone(points: &mut Vec<Point>, zone: &Zone)
    requires
        forall|i: int|
            0 <= i < old(points)@.len() ==> (#[trigger] old(points)@[i]).x > i32::MIN && old(
                points,
            )@[i].y > i32::MIN,
    ensures
        final(points)@.len() == old(points)@.len(),
        forall|i: int|
            0 <= i < final(points)@.len() ==> ((#[trigger] final(points)@[i]).x as int,
            final(points)@[i].y as int) == from_zone_zero_xy(
                *zone,
                old(points)@[i].x as int,
                old(points)@[i].y as int,
            ),
{
    let mut i: usize = 0;
    while i < points.len()
        invariant
            i <= points@.len(),
            points@.len() == old(points)@.len(),
            forall|j: int|
                i <= j < points@.len() ==> #[trigger] points@[j] == old(points)@[j],
            forall|j: int|
                0 <= j < old(points)@.len() ==> (#[trigger] old(points)@[j]).x > i32::MIN && old(
                    points,
                )@[j].y > i32::MIN,
            forall|j: int|
                0 <= j < i ==> ((#[trigger] points@[j]).x as int, points@[j].y as int)
                    == from_zone_zero_xy(*zone, old(points)@[j].x as int, old(points)@[j].y as int),
        decreases points@.len() - i,
    {
        let p = points[i];
        let q = match zone {
            Zone::Zero => Point { x: p.x, y: p.y },
            Zone::One => Point { x: p.y, y: p.x },
            Zone::Two => Point { x: -p.y, y: p.x },
            Zone::Three => Point { x: -p.x, y: p.y },
            Zone::Four => Point { x: -p.x, y: -p.y },
            Zone::Five => Point { x: -p.y, y: -p.x },
            Zone::Six => Point { x: p.y, y: -p.x },
            Zone::Seven => Point { x: p.x, y: -p.y },
        };
        points.set(i, q);
        i = i + 1;
    }
}

} // verus!
