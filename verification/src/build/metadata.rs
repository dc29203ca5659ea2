//! What is recorded of a build, so that it can be repeated.
use vstd::prelude::*;
use crate::BUILD_VERSION;
use crate::distance::single::{F32, ONE_POINT_TWO_BITS};

verus! {

/// The settings that a build is recorded with.
#[derive(Debug, Clone)]
pub struct BuildConfig {
    /// The generator.
    pub rng_algorithm: String,
    /// Its seed.
    pub rng_seed: u64,
    /// How the nodes are shared out.
    pub shard_strategy: String,
    /// The version of the library.
    pub build_version: String,
    /// The occlusion threshold.
    pub alpha: F32,
    /// The width of the searches.
    pub l_build: usize,
    /// The degree limit.
    pub r_max: usize,
    /// The degree above which a node is pruned during the build.
    pub r_soft: usize,
    /// The weight of the quantization error; zero for the plain pruning.
    pub beta: F32,
}

impl Default for BuildConfig {
    fn default() -> (c: Self)
        ensures
            c.rng_algorithm@ == "chacha8"@,
            c.rng_seed == 42,
            c.shard_strategy@ == "static_range"@,
            c.build_version@ == BUILD_VERSION@,
            c.alpha == F32(ONE_POINT_TWO_BITS),
            c.l_build == 200,
            c.r_max == 64,
            c.r_soft == 96,
            c.beta == F32(0),
    {
        BuildConfig {
            rng_algorithm: "chacha8".to_owned(),
            rng_seed: 42,
            shard_strategy: "static_range".to_owned(),
            build_version: BUILD_VERSION.to_owned(),
            alpha: F32(ONE_POINT_TWO_BITS),
            l_build: 200,
            r_max: 64,
            r_soft: 96,
            beta: F32(0),
        }
    }
}

/// The record of a build that goes into the index file.
#[derive(Debug, Clone)]
pub struct BuildMetadata {
    /// The generator.
    pub rng_algorithm: String,
    /// Its seed.
    pub rng_seed: u64,
    /// How the nodes are shared out.
    pub shard_strategy: String,
    /// The version of the library.
    pub build_version: String,
    /// When the index was built, in seconds since the start of 1970.
    pub build_timestamp: u64,
    /// The number of nodes.
    pub n: usize,
    /// The dimension.
    pub dim: usize,
    /// The occlusion threshold.
    pub alpha: F32,
    /// The width of the searches.
    pub l_build: usize,
    /// The degree limit.
    pub r_max: usize,
    /// The degree above which a node is pruned during the build.
    pub r_soft: usize,
}

impl BuildMetadata {
    /// The record of a build with these settings.
    pub open spec fn records(
        self,
        config: BuildConfig,
        n: usize,
        dim: usize,
        build_timestamp: u64,
    ) -> bool {
        &&& self.rng_algorithm == config.rng_algorithm
        &&& self.rng_seed == config.rng_seed
        &&& self.shard_strategy == config.shard_strategy
        &&& self.build_version == config.build_version
        &&& self.build_timestamp == build_timestamp
        &&& self.n == n
        &&& self.dim == dim
        &&& self.alpha == config.alpha
        &&& self.l_build == config.l_build
        &&& self.r_max == config.r_max
        &&& self.r_soft == config.r_soft
    }

    /// The record of a build with the default settings.
    pub open spec fn recorded(self, n: usize, dim: usize, build_timestamp: u64) -> bool {
        &&& self.rng_algorithm@ == "chacha8"@
        &&& self.rng_seed == 42
        &&& self.shard_strategy@ == "static_range"@
        &&& self.build_version@ == BUILD_VERSION@
        &&& self.build_timestamp == build_timestamp
        &&& self.n == n
        &&& self.dim == dim
        &&& self.alpha == F32(ONE_POINT_TWO_BITS)
        &&& self.l_build == 200
        &&& self.r_max == 64
        &&& self.r_soft == 96
    }

    /// The other record says the same.
    pub open spec fn same_as(self, other: BuildMetadata) -> bool {
        &&& self.rng_algorithm@ == other.rng_algorithm@
        &&& self.rng_seed == other.rng_seed
        &&& self.shard_strategy@ == other.shard_strategy@
        &&& self.build_version@ == other.build_version@
        &&& self.build_timestamp == other.build_timestamp
        &&& self.n == other.n
        &&& self.dim == other.dim
        &&& self.alpha == other.alpha
        &&& self.l_build == other.l_build
        &&& self.r_max == other.r_max
        &&& self.r_soft == other.r_soft
    }

    /// The record of a build that ended at the given time.
    pub fn from_config(
        config: &BuildConfig,
        n: usize,
        dim: usize,
        build_timestamp: u64,
    ) -> (m: Self)
        ensures
            m.records(*config, n, dim, build_timestamp),
    {
        BuildMetadata {
            rng_algorithm: config.rng_algorithm.clone(),
            rng_seed: config.rng_seed,
            shard_strategy: config.shard_strategy.clone(),
            build_version: config.build_version.clone(),
            build_timestamp,
            n,
            dim,
            alpha: config.alpha,
            l_build: config.l_build,
            r_max: config.r_max,
            r_soft: config.r_soft,
        }
    }
}

} // verus!
