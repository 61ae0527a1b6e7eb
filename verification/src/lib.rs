//! Integer rasterization core: incremental algorithms that turn continuous
//! geometric primitives (line segments, circles) into ordered sequences of
//! integer pixel coordinates, using integer arithmetic only.
//!
//! The library is pure: it performs no I/O and holds no global state. A
//! display shell is expected to consume the emitted point sequences.

pub mod dda_line;
pub mod flower;
pub mod midpoint_circle;
pub mod geometry;
pub mod midpoint_line;
pub mod rect;
pub mod zone;

pub use geometry::Point;
pub use geometry::RasterError;
