//! The proximity graph: building, pruning, searching.
pub mod ablation;
pub mod adaptive_ef;
pub mod adaptive_laws;
pub mod answer_laws;
pub mod build_laws;
pub mod candidates;
pub mod centroid;
pub mod centroid_laws;
pub mod connection_laws;
pub mod construction;
pub mod explore;
pub mod explore_laws;
pub mod file_laws;
pub mod layered;
pub mod layered_format;
pub mod layered_laws;
pub mod linear_pool;
pub mod measure_laws;
pub mod navigation;
pub mod neighbour_laws;
pub mod points;
pub mod prune_laws;
pub mod quant_aware_prune;
pub mod quant_laws;
pub mod refine_laws;
pub mod refiner;
pub mod robust_prune;
pub mod rp_tuning;
pub mod score_laws;
pub mod search;
pub mod search_laws;
pub mod searcher;
pub mod start_laws;
pub mod vamana;
pub mod vamana_format;
pub mod weighing_laws;

pub use ablation::{AblationFramework, AblationMetrics, EdgeLengthHistogram};
pub use adaptive_ef::AdaptiveEfConfig;
pub use linear_pool::LinearPool;
pub use navigation::{NavigationConfig, NavigationLayer};
pub use quant_aware_prune::{NormalizationScheme, QuantAwarePruneConfig, QuantAwareRobustPrune};
pub use robust_prune::{
    prune_dispatch, DirectionalPrune, DirectionalPruneConfig, PruneStrategy, RobustPrune,
    RobustPruneConfig,
};
pub use rp_tuning::{AlphaVariant, RPTuning, RPTuningConfig};
pub use searcher::GraphSearcher;
pub use vamana::{VamanaBuildConfig, VamanaGraph};
