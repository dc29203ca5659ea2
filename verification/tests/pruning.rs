use raven::distance::{DistanceKernel, DistanceMetric, F32};
use raven::graph::quant_aware_prune::{
    compute_normalization, ErrorFn, Exponentials, NodeErrors, BETA_MAX, BETA_MIN, EPSILON,
};
use raven::graph::{
    prune_dispatch, DirectionalPrune, DirectionalPruneConfig, NormalizationScheme, PruneStrategy,
    QuantAwarePruneConfig, QuantAwareRobustPrune, RobustPrune, RobustPruneConfig,
};

fn single(x: f32) -> F32 {
    F32(x.to_bits())
}

fn value(x: F32) -> f32 {
    f32::from_bits(x.0)
}

fn numbers(values: &[f32]) -> Vec<F32> {
    values.iter().map(|x| F32(x.to_bits())).collect()
}

fn make_vectors(n: usize, dim: usize) -> Vec<F32> {
    (0..n * dim).map(|i| single(i as f32)).collect()
}

/// Computes with the numbers of the machine.
struct Native;

impl DistanceKernel for Native {
    fn distance(&self, a: &[F32], b: &[F32]) -> F32 {
        let mut sum = 0.0f32;
        for (x, y) in a.iter().zip(b) {
            let d = f32::from_bits(x.0) - f32::from_bits(y.0);
            sum += d * d;
        }
        F32(sum.to_bits())
    }

    fn metric(&self) -> DistanceMetric {
        DistanceMetric::L2
    }

    fn name(&self) -> &'static str {
        "native"
    }
}

/// The same error at every node, and so along every edge.
fn constant(error: f32) -> Vec<F32> {
    vec![single(error); 20]
}

fn exponentials() -> Exponentials<fn(F32) -> F32, fn(F32) -> F32> {
    Exponentials { exp: |x| single(value(x).exp()), ln: |x| single(value(x).ln()) }
}

fn weighed(
    candidates: &[u32],
    v: &[F32],
    dim: usize,
    errors: &[F32],
    config: &QuantAwarePruneConfig,
) -> Vec<u32> {
    let errors = NodeErrors { errors };
    QuantAwareRobustPrune::prune(
        &Native,
        candidates,
        0,
        v,
        dim,
        &errors,
        &exponentials(),
        config,
    )
}

fn robust(candidates: &[u32], v: &[F32], dim: usize, alpha: f32, r: usize, fill: bool) -> Vec<u32> {
    RobustPrune::prune(&Native, candidates, 0, v, dim, single(alpha), r, fill)
}

fn directional(
    candidates: &[u32],
    v: &[F32],
    dim: usize,
    r_max: usize,
    r_min: usize,
    alpha: f32,
) -> Vec<u32> {
    DirectionalPrune::prune(&Native, candidates, 0, v, dim, r_max, r_min, single(alpha))
}

#[test]
fn robust_prune_prune_empty_candidates() {
    let v = make_vectors(10, 4);
    assert!(robust(&[], &v, 4, 1.0, 8, false).is_empty());
}

#[test]
fn robust_prune_prune_respects_r_max() {
    let v = make_vectors(20, 4);
    let candidates: Vec<u32> = (1..15).collect();
    assert!(robust(&candidates, &v, 4, 1.0, 5, false).len() <= 5);
}

#[test]
fn prune_excludes_self() {
    let v = make_vectors(10, 4);
    let candidates = vec![0, 1, 2, 3];
    assert!(!robust(&candidates, &v, 4, 1.0, 8, false).contains(&0));
}

#[test]
fn prune_alpha_larger_keeps_more_long_edges() {
    let v = make_vectors(20, 4);
    let candidates: Vec<u32> = (1..15).collect();
    let result_small = robust(&candidates, &v, 4, 1.0, 10, false);
    let result_large = robust(&candidates, &v, 4, 2.0, 10, false);
    assert!(result_large.len() >= result_small.len());
}

#[test]
fn prune_dedup_candidates() {
    let v = numbers(&[0.0, 0.0, 3.0, 0.0, 0.0, 3.0, -3.0, 0.0]);
    let candidates = vec![1, 1, 2, 2, 3];
    assert_eq!(robust(&candidates, &v, 2, 1.0, 8, false).len(), 3);
}

#[test]
fn directional_prune_empty_candidates() {
    let v = make_vectors(10, 4);
    assert!(directional(&[], &v, 4, 8, 2, 1.2).is_empty());
}

#[test]
fn directional_prune_respects_r_max() {
    let v = make_vectors(20, 4);
    let candidates: Vec<u32> = (1..15).collect();
    assert!(directional(&candidates, &v, 4, 5, 2, 1.2).len() <= 5);
}

#[test]
fn directional_prune_excludes_self() {
    let v = make_vectors(10, 4);
    let candidates = vec![0, 1, 2, 3];
    assert!(!directional(&candidates, &v, 4, 8, 2, 1.2).contains(&0));
}

#[test]
fn directional_prune_dedup() {
    let v = numbers(&[0.0, 0.0, 3.0, 0.0, 0.0, 3.0, -3.0, 0.0]);
    let candidates = vec![1, 1, 2, 2, 3];
    assert_eq!(directional(&candidates, &v, 2, 8, 2, 1.2).len(), 3);
}

#[test]
fn directional_prune_no_saturation() {
    let v = numbers(&[0.0, 1.0, 2.0, 3.0, 4.0, 5.0, 6.0, 7.0, 8.0, 9.0]);
    let candidates: Vec<u32> = (1..10).collect();
    let result = directional(&candidates, &v, 1, 8, 1, 1.2);
    assert!(result.len() <= 8);
    assert!(!result.is_empty());
}

#[test]
fn directional_prune_backfill_connectivity() {
    let v = make_vectors(20, 4);
    let candidates: Vec<u32> = (1..15).collect();
    let result = directional(&candidates, &v, 4, 10, 5, 1.5);
    assert!(!result.is_empty());
    assert!(result.len() <= 10);
}

#[test]
fn directional_prune_pass1_never_exceeds_r_max() {
    let v = make_vectors(50, 4);
    let candidates: Vec<u32> = (1..40).collect();
    assert!(directional(&candidates, &v, 4, 8, 2, 1.2).len() <= 8);
}

#[test]
fn dispatch_robust_prune() {
    let v = make_vectors(20, 4);
    let candidates: Vec<u32> = (1..15).collect();
    let r1 = prune_dispatch(
        &Native,
        PruneStrategy::RobustPrune,
        &candidates,
        0,
        &v,
        4,
        single(1.2),
        8,
        true,
    );
    let r2 = robust(&candidates, &v, 4, 1.2, 8, true);
    assert_eq!(r1, r2);
}

#[test]
fn dispatch_directional_prune() {
    let v = make_vectors(20, 4);
    let candidates: Vec<u32> = (1..15).collect();
    let r1 = prune_dispatch(
        &Native,
        PruneStrategy::DirectionalPrune,
        &candidates,
        0,
        &v,
        4,
        single(1.2),
        8,
        true,
    );
    let config = DirectionalPruneConfig::from_params(8, single(1.2));
    let r2 = DirectionalPrune::prune(
        &Native,
        &candidates,
        0,
        &v,
        4,
        config.r_max,
        config.r_min,
        config.backfill_alpha,
    );
    assert_eq!(r1, r2);
    assert_eq!(
        DirectionalPrune::prune_with_config(&Native, &candidates, 0, &v, 4, &config),
        r2
    );
}

#[test]
fn quant_aware_prune_prune_empty_candidates() {
    let v = make_vectors(10, 4);
    let config = QuantAwarePruneConfig::default();
    let result = weighed(&[], &v, 4, &constant(0.0), &config);
    assert!(result.is_empty());
}

#[test]
fn quant_aware_prune_prune_respects_r_max() {
    let v = make_vectors(20, 4);
    let config = QuantAwarePruneConfig { r_max: 5, ..Default::default() };
    let candidates: Vec<u32> = (1..15).collect();
    let result = weighed(&candidates, &v, 4, &constant(0.1), &config);
    assert!(result.len() <= 5);
}

#[test]
fn beta_zero_matches_standard_robust_prune() {
    let v = make_vectors(20, 4);
    let config = QuantAwarePruneConfig {
        alpha: single(1.0),
        beta: single(0.0),
        r_max: 10,
        ..Default::default()
    };
    let candidates: Vec<u32> = (1..15).collect();
    let result = weighed(&candidates, &v, 4, &constant(0.5), &config);
    let standard = robust(&candidates, &v, 4, 1.0, 10, false);
    assert_eq!(result, standard);
}

#[test]
fn epsilon_prevents_division_by_zero() {
    let v = make_vectors(5, 4);
    let config = QuantAwarePruneConfig {
        beta: single(1.0),
        epsilon: F32(EPSILON),
        r_max: 4,
        ..Default::default()
    };
    let candidates: Vec<u32> = vec![1, 2, 3];
    let result = weighed(&candidates, &v, 4, &constant(0.0), &config);
    assert!(!result.is_empty());
}

#[test]
fn beta_range_meaningful() {
    assert!(f32::from_bits(BETA_MIN) >= 0.05);
    assert!(f32::from_bits(BETA_MAX) <= 2.0);
}

#[test]
fn normalization_schemes_produce_valid_results() {
    let v = make_vectors(20, 4);
    let candidates: Vec<u32> = (1..10).collect();
    for scheme in [
        NormalizationScheme::Mean,
        NormalizationScheme::StdDev,
        NormalizationScheme::Mad,
        NormalizationScheme::LogSumExp,
    ] {
        let config = QuantAwarePruneConfig { normalization: scheme, ..Default::default() };
        let result = weighed(&candidates, &v, 4, &constant(0.3), &config);
        assert!(!result.is_empty(), "scheme {:?} produced empty result", scheme);
    }
}

#[test]
fn scales_are_those_of_the_schemes() {
    let values = numbers(&[1.0, 2.0, 3.0, 10.0]);
    let scale = |scheme| value(compute_normalization(&values, scheme, &exponentials()));
    assert_eq!(scale(NormalizationScheme::Mean), 4.0);
    // Deviations of 3, 2, 1 and 6 from the mean: 50 over 4 under a root.
    assert_eq!(scale(NormalizationScheme::StdDev), 12.5f32.sqrt());
    // Deviations of 1.5, 0.5, 0.5 and 7.5 from the median 2.5: their median is 1.
    assert_eq!(scale(NormalizationScheme::Mad), 1.0);
    let sum: f32 = [-9.0f32, -8.0, -7.0, 0.0].iter().map(|x| x.exp()).sum();
    assert_eq!(scale(NormalizationScheme::LogSumExp), 10.0 + (sum / 4.0).ln());
    let none = compute_normalization(&vec![], NormalizationScheme::LogSumExp, &exponentials());
    assert_eq!(none, F32(EPSILON));
    let low = numbers(&[-5.0, -5.0]);
    let floor = compute_normalization(&low, NormalizationScheme::LogSumExp, &exponentials());
    assert_eq!(floor, F32(EPSILON));
}

#[test]
fn errors_of_edges_are_means() {
    let errors = numbers(&[1.0, 3.0]);
    let e = NodeErrors { errors: &errors };
    assert_eq!(value(e.error(0, 1)), 2.0);
}

#[test]
fn the_nearest_candidate_is_kept() {
    let v = numbers(&[0.0, 5.0, 2.0, -7.0]);
    let kept = robust(&[1, 2, 3], &v, 1, 1.0, 2, false);
    assert_eq!(kept[0], 2);
    assert_eq!(kept, vec![2, 3]);
}

#[test]
fn saturation_fills_up() {
    let v = numbers(&[0.0, 1.0, 2.0, 3.0, 4.0]);
    let kept = robust(&[1, 2, 3, 4], &v, 1, 1.2, 3, true);
    assert_eq!(kept.len(), 3);
    let config = RobustPruneConfig { alpha: single(1.2), r_max: 3 };
    assert_eq!(
        RobustPrune::prune_with_config(&Native, &[1, 2, 3, 4], 0, &v, 1, &config),
        kept
    );
}

#[test]
fn a_wider_threshold_keeps_at_least_as_many() {
    let v = make_vectors(30, 3);
    let candidates: Vec<u32> = (1..30).collect();
    let one = robust(&candidates, &v, 3, 1.0, 12, false).len();
    for alpha in [1.1f32, 1.5, 2.0, 4.0] {
        assert!(robust(&candidates, &v, 3, alpha, 12, false).len() >= one);
    }
}

#[test]
fn without_weight_errors_change_nothing() {
    let v = numbers(&[0.0, 0.0, 1.0, 0.5, -2.0, 1.0, 0.25, 3.0, -1.0, -4.0, 2.0, 2.0]);
    let config = QuantAwarePruneConfig {
        alpha: single(1.2),
        beta: single(0.0),
        r_max: 4,
        ..Default::default()
    };
    let candidates: Vec<u32> = (1..6).collect();
    let small = numbers(&[0.0, 0.1, 0.2, 0.3, 0.4, 0.5]);
    let large = numbers(&[7.0, 1.0, 9.0, 4.0, 100.0, 3.0]);
    let prune = |errors: &[F32]| weighed(&candidates, &v, 2, errors, &config);
    assert_eq!(prune(&small), prune(&large));
    assert_eq!(prune(&small)[0], 1);
}

#[test]
fn errors_with_weight_change_the_order() {
    let v = numbers(&[0.0, 0.0, 1.0, 0.0, 0.0, 1.5]);
    let config = QuantAwarePruneConfig {
        alpha: single(1.0),
        beta: single(2.0),
        r_max: 1,
        ..Default::default()
    };
    let prune = |errors: &[F32]| weighed(&[1, 2], &v, 2, errors, &config);
    assert_eq!(prune(&numbers(&[0.0, 0.1, 0.1])), vec![1]);
    assert_eq!(prune(&numbers(&[0.0, 9.0, 0.1])), vec![2]);
}

#[test]
fn directions_are_kept_once() {
    let v = numbers(&[0.0, 0.0, 1.0, 0.0, 2.0, 0.0, 0.0, 1.5, 0.0, 3.0, -4.0, 0.0]);
    let candidates: Vec<u32> = (1..6).collect();
    assert_eq!(
        DirectionalPrune::prune(&Native, &candidates, 0, &v, 2, 5, 1, single(1.0)),
        vec![1, 3, 5]
    );
    assert_eq!(
        DirectionalPrune::prune(&Native, &candidates, 0, &v, 2, 2, 1, single(1.0)),
        vec![1, 3]
    );
    assert_eq!(
        DirectionalPrune::prune(&Native, &candidates, 0, &v, 2, 5, 4, single(4.5)),
        vec![1, 3, 5, 2]
    );
}

#[test]
fn directional_prune_never_passes_the_limit() {
    let v = make_vectors(10, 4);
    assert!(directional(&[1], &v, 4, 0, 1, 2.0).is_empty());
    assert!(directional(&[1, 2, 3], &v, 4, 1, 3, 4.0).len() <= 1);
    let config = DirectionalPruneConfig::from_params(0, single(1.2));
    assert_eq!((config.r_max, config.r_min), (0, 1));
    assert!(DirectionalPrune::prune_with_config(&Native, &[1, 2], 0, &v, 4, &config).is_empty());
}

#[test]
fn a_greater_threshold_and_filling_only_add() {
    let v = make_vectors(20, 4);
    let candidates: Vec<u32> = vec![7, 3, 0, 9, 3, 1, 5, 2, 9];
    let strict = robust(&candidates, &v, 4, 1.0, 6, false);
    let loose = robust(&candidates, &v, 4, 1.5, 6, false);
    let filled = robust(&candidates, &v, 4, 1.5, 6, true);
    assert_eq!(loose[..strict.len()], strict[..]);
    assert_eq!(filled[..loose.len()], loose[..]);
    // Six different candidates are other than the node.
    assert_eq!(filled.len(), 6);
    assert_eq!(robust(&candidates, &v, 4, 1.5, 4, true).len(), 4);
    assert_eq!(robust(&candidates, &v, 4, 1.5, 10, true).len(), 6);
}

#[test]
fn a_scale_handed_in_is_the_scale_measured() {
    let v = make_vectors(20, 4);
    let candidates: Vec<u32> = (1..12).collect();
    let config = QuantAwarePruneConfig {
        normalization: NormalizationScheme::LogSumExp,
        r_max: 6,
        ..Default::default()
    };
    let errors: Vec<F32> = (0..20).map(|i| single((i % 5) as f32)).collect();
    let weights = NodeErrors { errors: &errors };
    let dists: Vec<F32> = candidates
        .iter()
        .map(|&c| Native.distance(&v[0..4], &v[c as usize * 4..c as usize * 4 + 4]))
        .collect();
    let amounts: Vec<F32> = candidates.iter().map(|&c| weights.error(0, c)).collect();
    let scale = |values| compute_normalization(values, config.normalization, &exponentials());
    assert_eq!(
        weighed(&candidates, &v, 4, &errors, &config),
        QuantAwareRobustPrune::prune_scaled(
            &Native,
            &candidates,
            0,
            &v,
            4,
            &weights,
            scale(&dists),
            scale(&amounts),
            &config,
        )
    );
}

#[test]
fn directions_keep_candidates_whatever_the_lower_limit_is() {
    let v = make_vectors(12, 3);
    let candidates: Vec<u32> = (0..12).collect();
    for r_min in [0, 2, 4, 9, 100] {
        let kept = directional(&candidates, &v, 3, 4, r_min, 1.1);
        assert!(kept.len() <= 4 && !kept.contains(&0));
        let mut once = kept.clone();
        once.sort();
        once.dedup();
        assert_eq!(once.len(), kept.len());
        assert!(kept.iter().all(|c| candidates.contains(c)));
    }
}
