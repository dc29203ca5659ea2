//! The settings that evaluations build with.
use vstd::prelude::*;
use crate::distance::single::{F32, ONE_POINT_FIVE_BITS, ONE_POINT_THREE_BITS};
use crate::graph::construction::VamanaBuildConfig;
use crate::graph::robust_prune::PruneStrategy;

verus! {

/// The degree limit times a factor, rounded down.
pub open spec fn soft_limit(r_max: usize, factor: F32) -> usize {
    F32::of_int(r_max as nat).times(factor).whole_usize()
}

/// The degree limit times a factor, rounded down.
pub fn scaled_limit(r_max: usize, factor: F32) -> (r: usize)
    ensures
        r == soft_limit(r_max, factor),
{
    F32::from_usize(r_max).mul(factor).truncate_to_usize()
}

/// The settings for a degree limit: the usual ones, with 1.3 times the limit before a node is
/// pruned.
pub fn probe_settings(r_max: usize, saturate: bool) -> (c: VamanaBuildConfig)
    ensures
        c == (VamanaBuildConfig {
            r_max,
            r_soft: soft_limit(r_max, F32(ONE_POINT_THREE_BITS)),
            saturate,
            ..VamanaBuildConfig::usual()
        }),
{
    let mut c = VamanaBuildConfig::default();
    c.r_max = r_max;
    c.r_soft = scaled_limit(r_max, F32(ONE_POINT_THREE_BITS));
    c.saturate = saturate;
    c
}

/// The settings for what a runner is told: the usual ones, with 1.5 times the limit before a node
/// is pruned.
pub fn runner_settings(alpha: F32, l_build: usize, r_max: usize, max_iterations: usize) -> (c:
    VamanaBuildConfig)
    ensures
        c == (VamanaBuildConfig {
            alpha,
            l_build,
            r_max,
            r_soft: soft_limit(r_max, F32(ONE_POINT_FIVE_BITS)),
            max_iterations,
            ..VamanaBuildConfig::usual()
        }),
{
    let mut c = VamanaBuildConfig::default();
    c.alpha = alpha;
    c.l_build = l_build;
    c.r_max = r_max;
    c.r_soft = scaled_limit(r_max, F32(ONE_POINT_FIVE_BITS));
    c.max_iterations = max_iterations;
    c
}

/// The settings for what a binding is told: two rounds, and with the directional pruning no filling
/// up.
pub fn binding_settings(
    r: usize,
    l: usize,
    alpha: F32,
    nav_m: usize,
    directional: bool,
) -> (c: VamanaBuildConfig)
    ensures
        c == (VamanaBuildConfig {
            alpha,
            l_build: l,
            r_max: r,
            r_soft: soft_limit(r, F32(ONE_POINT_FIVE_BITS)),
            max_iterations: 2,
            saturate: !directional,
            enable_layered_nav: true,
            nav_m,
            prune_strategy: if directional {
                PruneStrategy::DirectionalPrune
            } else {
                PruneStrategy::RobustPrune
            },
        }),
{
    VamanaBuildConfig {
        alpha,
        l_build: l,
        r_max: r,
        r_soft: scaled_limit(r, F32(ONE_POINT_FIVE_BITS)),
        max_iterations: 2,
        saturate: !directional,
        enable_layered_nav: true,
        nav_m,
        prune_strategy: if directional {
            PruneStrategy::DirectionalPrune
        } else {
            PruneStrategy::RobustPrune
        },
    }
}

} // verus!
