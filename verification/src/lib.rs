//! Path-following animation over integer coordinates and microsecond time.
//!
//! A [`PathAnimation`] moves a point from a start through an ordered list of
//! stops to an end. The time for the whole path is divided among the
//! segments in proportion to their lengths, and an easing function shapes
//! the speed within each segment. Positions are points on an integer grid,
//! times are counted in microseconds, and progress and easing weights are
//! fixed-point numbers in parts of [`UNIT`].

pub mod easing;
pub mod geometry;
pub mod path;
pub mod segment;
pub mod timing;

pub use easing::linear;
pub use geometry::{distance, interpolate, isqrt, Point, UNIT};
pub use path::{AnimationError, PathAnimation};
pub use segment::AnimateMove;
pub use timing::segment_time;
