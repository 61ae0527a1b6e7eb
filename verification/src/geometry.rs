//! The basic value types shared by all rasterizers: an integer point and the
//! error type returned at the rasterizer boundaries.

use vstd::prelude::*;

verus! {

/// The magnitude of an integer.
pub open spec fn mag(n: int) -> int {
    if n >= 0 {
        n
    } else {
        -n
    }
}

/// A 2D coordinate with signed integer components. A plain value type:
/// equality is structural and there is no identity.
///
/// A `Point` is used both for raw coordinates and for coordinates already
/// transformed into the canonical octant; callers track which frame a point
/// is expressed in.
#[derive(Clone, Copy, PartialEq, Eq, Structural, Debug)]
pub struct Point {
    pub x: i32,
    pub y: i32,
}

impl Point {
    /// Builds the point (x, y).
    pub fn from(x: i32, y: i32) -> (p: Point)
        ensures
            p.x == x,
            p.y == y,
    {
        Point { x, y }
    }
}

/// Errors surfaced at the rasterizer boundaries. All rasterization is
/// deterministic, synchronous and local, so every error is non-retryable:
/// the caller must correct the input.
#[derive(Clone, Copy, PartialEq, Eq, Structural, Debug)]
pub enum RasterError {
    /// The requested primitive would take an intermediate or emitted
    /// coordinate outside the supported integer range.
    Overflow,
    /// A circle was requested with a negative radius.
    NegativeRadius,
}

} // verus!
