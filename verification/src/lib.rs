//! Core of a chained Bezier curve editor: an ordered store of 2D control
//! points, a group table that partitions them into curve segments with shared
//! boundary points, and a cache of sampled curve points per segment.
//!
//! Coordinates are integers bounded by `COORD_LIMIT`, and the curve parameter
//! is an exact rational, so every sampled point is computed exactly: a sample
//! coordinate is the true value multiplied by `SAMPLE_SCALE`.

pub mod eval;
pub mod model;
