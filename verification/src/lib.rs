//! Deduplication of labeled rectangular detections by overlap and containment.
//!
//! The core algorithm takes an ordered sequence of labeled rectangles and an
//! overlap threshold, and greedily filters it so that no two surviving
//! rectangles overlap above the threshold or enclose one another.  A pair in
//! genuine conflict (overlap above threshold) is resolved by a coin flip, so
//! the result is one of a precisely described family of outcomes.

pub mod brackets;
pub mod dedup;
pub mod geometry;
pub mod pack;
mod rng;
pub mod runs;

pub use dedup::Detection;
pub use geometry::Rect;
pub use geometry::Threshold;
