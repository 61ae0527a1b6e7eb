//! The axis-aligned rectangle outline: four edge segments centered in a
//! square canvas, each coordinate the canvas center offset by half the
//! requested extent. Drawing the segments is a display-layer concern; the
//! contract pins every coordinate exactly.

use vstd::prelude::*;

verus! {

/// One line segment of the rectangle outline, from (x1, y1) to (x2, y2).
#[derive(Clone, Copy, PartialEq, Eq, Structural, Debug)]
pub struct Segment {
    pub x1: i64,
    pub y1: i64,
    pub x2: i64,
    pub y2: i64,
}

/// The four edges of the rectangle of the given height and width centered
/// in a square canvas of the given size, in drawing order: top, bottom,
/// left, right. Halves are integer (floor) halves.
pub fn create_rectangle(height: u32, width: u32, size: u32) -> (edges: Vec<Segment>)
    ensures
        edges@.len() == 4,
        ({
            let c = size as int / 2;
            let hd = height as int / 2;
            let wd = width as int / 2;
            &&& edges@[0].x1 == c - wd && edges@[0].y1 == c - hd && edges@[0].x2 == c + wd
                && edges@[0].y2 == c - hd
            &&& edges@[1].x1 == c - wd && edges@[1].y1 == c + hd && edges@[1].x2 == c + wd
                && edges@[1].y2 == c + hd
            &&& edges@[2].x1 == c - wd && edges@[2].y1 == c - hd && edges@[2].x2 == c - wd
                && edges@[2].y2 == c + hd
            &&& edges@[3].x1 == c + wd && edges@[3].y1 == c - hd && edges@[3].x2 == c + wd
                && edges@[3].y2 == c + hd
        }),
{
    let c: i64 = (size / 2) as i64;
    let hd: i64 = (height / 2) as i64;
    let wd: i64 = (width / 2) as i64;
    let mut edges: Vec<Segment> = Vec::new();
    edges.push(Segment { x1: c - wd, y1: c - hd, x2: c + wd, y2: c - hd });
    edges.push(Segment { x1: c - wd, y1: c + hd, x2: c + wd, y2: c + hd });
    edges.push(Segment { x1: c - wd, y1: c - hd, x2: c - wd, y2: c + hd });
    edges.push(Segment { x1: c + wd, y1: c - hd, x2: c + wd, y2: c + hd });
    edges
}

} // verus!
