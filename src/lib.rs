//! Radius queries over a point set that is rebuilt every cycle, answered by a
//! bounding volume hierarchy or by a linear scan.
//!
//! Positions are integer coordinates and identifiers are `u64`; a caller that
//! works in floating point chooses its own unit and rounds into it.
use vstd::prelude::*;

pub mod bvh;
pub mod geometry;
pub mod laws;
pub mod lookup;
pub mod naive;
pub mod query;
pub mod sort;

pub use bvh::{Bvh, BvhNode, BvhNodeKind, DEFAULT_MAX_SPLIT_SAMPLES_PER_AXIS, best_axis};
pub use geometry::{Aabb, PointRecord, Position, calculate_aabb, is_within};
pub use lookup::{SpatialLookupAlgorithm, SpatialLookupState};
pub use naive::Naive;
pub use query::collect_within;
pub use sort::sort_on_axis;
