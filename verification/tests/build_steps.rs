use rand::{Rng, RngCore, SeedableRng};
use raven::build::pipeline::PipelineState;
use raven::build::{
    BuildConfig, BuildMetadata, BuildPipeline, ChaCha8Rng, DelayedPruneController, PipelineStage,
};
use raven::distance::{ScalarKernel, F32};
use raven::graph::construction::permutation;
use raven::memory::HybridBlockedCsr;

fn single(x: f32) -> F32 {
    F32(x.to_bits())
}

#[test]
fn controller_defaults() {
    let c = DelayedPruneController::new(64);
    assert_eq!(c.r_max, 64);
    assert_eq!(c.r_soft, 96);
}

#[test]
fn should_prune_only_over_soft() {
    let mut storage = HybridBlockedCsr::new(10, 100);
    let c = DelayedPruneController::new(4);
    storage.add_edge(0, 1);
    assert!(!c.should_prune(&storage, 0));
    for i in 2..7 {
        storage.add_edge(0, i);
    }
    assert!(!c.should_prune(&storage, 0));
    storage.add_edge(0, 7);
    assert!(c.should_prune(&storage, 0));
    assert_eq!(c.count_over_soft(&storage), 1);
}

#[test]
fn final_prune_truncates_to_r_max() {
    let mut storage = HybridBlockedCsr::new(10, 100);
    let mut c = DelayedPruneController::new(4);
    for i in 1..10 {
        storage.add_edge(0, i);
    }
    assert!(storage.degree(0) > c.r_max);
    c.final_prune(&mut storage);
    assert!(storage.degree(0) <= c.r_max);
    assert_eq!(c.final_prune_count, 1);
    assert_eq!(storage.neighbors(0), &[1, 2, 3, 4]);
    c.record_single_prune();
    assert_eq!(c.single_prune_count, 1);
}

#[test]
fn metadata_default_config_values() {
    let config = BuildConfig::default();
    assert_eq!(config.rng_algorithm, "chacha8");
    assert_eq!(config.rng_seed, 42);
    assert_eq!(config.shard_strategy, "static_range");
    assert_eq!(config.r_max, 64);
    assert_eq!(config.r_soft, 96);
}

#[test]
fn a_record_holds_the_settings() {
    let config = BuildConfig::default();
    let record = BuildMetadata::from_config(&config, 1000, 768, 5);
    assert_eq!(record.n, 1000);
    assert_eq!(record.dim, 768);
    assert_eq!(record.rng_algorithm, "chacha8");
    assert_eq!(record.rng_seed, 42);
    assert_eq!(record.build_timestamp, 5);
}

#[test]
fn deterministic_same_seed() {
    let mut r1 = ChaCha8Rng::seed_from(42);
    let mut r2 = ChaCha8Rng::seed_from(42);
    let v1: Vec<u32> = (0..10).map(|_| r1.next_u32()).collect();
    let v2: Vec<u32> = (0..10).map(|_| r2.next_u32()).collect();
    assert_eq!(v1, v2);
}

#[test]
fn different_seed_different_output() {
    let mut r1 = ChaCha8Rng::seed_from(42);
    let mut r2 = ChaCha8Rng::seed_from(43);
    let v1: Vec<u32> = (0..10).map(|_| r1.next_u32()).collect();
    let v2: Vec<u32> = (0..10).map(|_| r2.next_u32()).collect();
    assert_ne!(v1, v2);
}

#[test]
fn default_seed_is_42() {
    let mut usual = ChaCha8Rng::default();
    let mut named = ChaCha8Rng::seed_from(42);
    assert_eq!(usual.next_u64(), named.next_u64());
}

#[test]
fn numbers_are_those_of_the_outside_generator() {
    let mut theirs = rand_chacha::ChaCha8Rng::seed_from_u64(7);
    let mut ours = ChaCha8Rng::seed_from(7);
    for _ in 0..20 {
        assert_eq!(ours.next_u32(), theirs.next_u32());
    }
    assert_eq!(ours.next_u64(), theirs.next_u64());
    let unit: f32 = theirs.gen();
    assert_eq!(ours.next_unit(), single(unit));
}

#[test]
fn a_permutation_holds_every_node() {
    let mut rng = ChaCha8Rng::seed_from(3);
    let mut order = permutation(50, &mut rng);
    assert_ne!(order, (0..50).collect::<Vec<u32>>());
    order.sort();
    assert_eq!(order, (0..50).collect::<Vec<u32>>());
}

#[test]
fn pipeline_runs_small_dataset() {
    let vectors: Vec<F32> = (0..100).map(|i| single(i as f32)).collect();
    let dim = 10;
    let config = BuildConfig { r_max: 4, r_soft: 6, l_build: 20, ..Default::default() };
    let pipeline = BuildPipeline::new(config);
    let result = pipeline.run(&ScalarKernel::l2(), &vectors, &vectors, dim, &[0; 10], 0, |_| vec![7]);
    assert_eq!(result.graph.len(), 10);
    assert!(!result.alpha_variants.is_empty());
    assert_eq!(result.final_stage, PipelineStage::RpTuning);
    for node in 0..10 {
        assert!(result.graph.storage().degree(node) <= 4);
    }
}

#[test]
fn a_pipeline_builds_over_the_rotated_vectors() {
    let vectors: Vec<F32> = (0..20).map(|i| single(i as f32)).collect();
    let rotated: Vec<F32> = (0..20).map(|i| single(((i * 7) % 20) as f32)).collect();
    let config = BuildConfig { r_max: 2, r_soft: 3, l_build: 8, ..Default::default() };
    let kernel = ScalarKernel::l2();
    let pipeline = BuildPipeline::new(config);
    let turned = pipeline.run(&kernel, &vectors, &rotated, 1, &[0; 20], 0, |_| vec![7]);
    let plain = pipeline.run(&kernel, &rotated, &rotated, 1, &[0; 20], 0, |_| vec![7]);
    let other = pipeline.run(&kernel, &vectors, &vectors, 1, &[0; 20], 0, |_| vec![7]);
    assert_eq!(turned.graph.storage().main_block(), plain.graph.storage().main_block());
    assert_ne!(turned.graph.storage().main_block(), other.graph.storage().main_block());
}

#[test]
fn a_pipeline_starts_with_vectors() {
    let vectors = vec![single(1.0)];
    let state = PipelineState::from_vectors(&vectors, 1);
    assert_eq!(state.stage, PipelineStage::LoadVectors);
    assert!(state.graph.is_none());
    assert_eq!(state.vectors.len(), 1);
}
