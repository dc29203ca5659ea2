//! RAVEN: a graph index for approximate nearest neighbour search.
use vstd::prelude::*;

pub mod build;
pub mod config;
pub mod distance;
pub mod evaluation;
pub mod graph;
pub mod memory;
pub mod sorting;
pub mod tally;

pub use build::{BuildConfig, BuildMetadata, ChaCha8Rng};
pub use distance::{l2_dynamic, l2_simd, DistanceMetric};
pub use graph::{RPTuning, RobustPrune, VamanaGraph};
pub use memory::{HybridBlockedCsr, QueryContext, VisitedTracker};

verus! {

/// Library version, recorded in the metadata of every index that is built.
pub const BUILD_VERSION: &'static str = "0.1.0";

/// The node id that no node has. It marks an empty neighbour slot, so an index holds at most
/// `2^32 - 1` nodes.
pub const SENTINEL: u32 = 0xFFFF_FFFF;

} // verus!
