//! Settings: where they come from, how they are merged, which of them go together.
pub mod config;
pub mod local_bench;
pub mod params;
pub mod rules;
pub mod setting_laws;
pub mod text;

pub use config::{merge_config, Config, ConfigSource};
pub use local_bench::{BenchmarkResult, LocalBenchmark};
pub use params::ParamSpace;
pub use rules::{ConflictError, Rule, RuleEngine, RuleSeverity};
