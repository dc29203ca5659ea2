//! Building an index.
pub mod delayed_prune;
pub mod metadata;
pub mod pipeline;
pub mod rng;

pub use delayed_prune::DelayedPruneController;
pub use metadata::{BuildConfig, BuildMetadata};
pub use pipeline::{BuildPipeline, PipelineStage};
pub use rng::ChaCha8Rng;
