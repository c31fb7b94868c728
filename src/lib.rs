//! Planar point-set registration on an integer grid.
//!
//! Points carry integer coordinates (for instance millimetres). Every sum the
//! alignment needs is computed exactly, so degenerate input is detected by an
//! exact test instead of by a non-finite value. The last step, which turns the
//! sums into an angle and a scale factor (`atan2`, `sqrt`), is left to the caller.
pub mod geometry;
pub mod search;
pub mod align;

pub use geometry::{Point2, PointCloud, Centroid, calculate_centroid, MAX_POINTS};
pub use search::{find_closest_point, calculate_error, find_correspondences, model_side};
pub use align::{AlignmentSums, Alignment, AlignError, estimate_alignment, icp};
