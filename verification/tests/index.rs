use raven::build::{BuildMetadata, ChaCha8Rng};
use raven::distance::half::F16Dataset;
use raven::distance::{CpuFeatures, DistanceKernel, DistanceMetric, F32};
use raven::distance::double::F64;
use raven::graph::ablation::{
    AblationFramework, ConnectivityMetrics, EdgeLengthHistogram, ErrorDistribution, RecallVariance,
};
use raven::graph::adaptive_ef::AdaptiveEfConfig;
use raven::graph::centroid::compute_medoid;
use raven::graph::construction::alpha_of_round;
use raven::graph::layered::draw_levels;
use raven::graph::quant_aware_prune::{Exponentials, NodeErrors};
use raven::graph::refiner::{rerank_f16, rerank_f32};
use raven::graph::rp_tuning::RPTuningStorageScheme;
use raven::graph::search::ScoreTable;
use raven::graph::searcher::can_answer;
use raven::graph::vamana_format::index_loadable;
use raven::graph::{
    GraphSearcher, LinearPool, NavigationConfig, NavigationLayer, NormalizationScheme,
    PruneStrategy, QuantAwarePruneConfig, RPTuning, RPTuningConfig, VamanaBuildConfig, VamanaGraph,
};
use raven::memory::serialize::{IoFailure, SerializeError};
use raven::memory::{HybridBlockedCsr, Serializable, VisitedTracker};

fn single(x: f32) -> F32 {
    F32(x.to_bits())
}

fn value(x: F32) -> f32 {
    f32::from_bits(x.0)
}

fn numbers(values: &[f32]) -> Vec<F32> {
    values.iter().map(|x| F32(x.to_bits())).collect()
}

fn line(n: usize) -> Vec<F32> {
    (0..n).map(|i| single(i as f32)).collect()
}

/// Computes with the numbers of the machine.
struct Native;

impl DistanceKernel for Native {
    fn distance(&self, a: &[F32], b: &[F32]) -> F32 {
        let mut sum = 0.0f32;
        for (x, y) in a.iter().zip(b) {
            let d = f32::from_bits(x.0) - f32::from_bits(y.0);
            sum += d * d;
        }
        F32(sum.to_bits())
    }

    fn metric(&self) -> DistanceMetric {
        DistanceMetric::L2
    }

    fn name(&self) -> &'static str {
        "native"
    }
}

fn settings(alpha: f32, l_build: usize, r_max: usize, r_soft: usize) -> VamanaBuildConfig {
    VamanaBuildConfig {
        alpha: single(alpha),
        l_build,
        r_max,
        r_soft,
        max_iterations: 1,
        saturate: true,
        enable_layered_nav: false,
        nav_m: 16,
        prune_strategy: Default::default(),
    }
}

fn build(vectors: &[F32], dim: usize, config: &VamanaBuildConfig) -> VamanaGraph {
    let mut rng = ChaCha8Rng::seed_from(42);
    let levels = vec![0u8; vectors.len() / dim];
    VamanaGraph::build(&Native, vectors, dim, config, &mut rng, &levels, 0, record_text)
}

/// The record as the text that goes into the file.
fn record_text(m: &BuildMetadata) -> Vec<u8> {
    let mut table = toml::Table::new();
    let mut text = |name: &str, s: &str| {
        table.insert(name.to_string(), toml::Value::String(s.to_string()));
    };
    text("rng_algorithm", &m.rng_algorithm);
    text("shard_strategy", &m.shard_strategy);
    text("build_version", &m.build_version);
    let mut count = |name: &str, x: u64| {
        table.insert(name.to_string(), toml::Value::Integer(x as i64));
    };
    count("rng_seed", m.rng_seed);
    count("build_timestamp", m.build_timestamp);
    count("n", m.n as u64);
    count("dim", m.dim as u64);
    count("l_build", m.l_build as u64);
    count("r_max", m.r_max as u64);
    count("r_soft", m.r_soft as u64);
    table.insert("alpha".to_string(), toml::Value::Float(value(m.alpha) as f64));
    table.to_string().into_bytes()
}

/// The record that the text in a file spells.
fn read_record(text: &[u8]) -> Option<BuildMetadata> {
    let table: toml::Table = std::str::from_utf8(text).ok()?.parse().ok()?;
    let text = |name: &str| table.get(name)?.as_str().map(|s| s.to_string());
    let count = |name: &str| table.get(name)?.as_integer().map(|x| x as u64);
    Some(BuildMetadata {
        rng_algorithm: text("rng_algorithm")?,
        rng_seed: count("rng_seed")?,
        shard_strategy: text("shard_strategy")?,
        build_version: text("build_version")?,
        build_timestamp: count("build_timestamp")?,
        n: count("n")? as usize,
        dim: count("dim")? as usize,
        alpha: single(table.get("alpha")?.as_float()? as f32),
        l_build: count("l_build")? as usize,
        r_max: count("r_max")? as usize,
        r_soft: count("r_soft")? as usize,
    })
}

fn exponentials() -> Exponentials<fn(F32) -> F32, fn(F32) -> F32> {
    Exponentials { exp: |x| single(value(x).exp()), ln: |x| single(value(x).ln()) }
}

#[test]
fn build_small_graph() {
    let vectors = line(40);
    let graph = build(&vectors, 4, &settings(1.0, 10, 4, 6));
    assert_eq!(graph.len(), 10);
    assert_eq!(graph.dim(), 4);
}

#[test]
fn search_returns_results() {
    let vectors = line(100);
    let dim = 10;
    let graph = build(&vectors, dim, &settings(1.0, 20, 8, 12));
    let mut searcher = GraphSearcher::new(&Native, &vectors, &graph, 20);
    let query = vectors[0..dim].to_vec();
    let results = searcher.search(&query, 5);
    assert!(!results.is_empty());
    assert_eq!(results[0].0, 0);
}

#[test]
fn empty_graph() {
    let vectors: Vec<F32> = vec![];
    let graph = build(&vectors, 4, &VamanaBuildConfig::default());
    assert_eq!(graph.len(), 0);
    assert!(graph.is_empty());
}

#[test]
fn serialize_roundtrip() {
    let vectors = line(200);
    let dim = 10;
    let graph = build(&vectors, dim, &settings(1.2, 20, 8, 12));

    let bytes = graph.serialize();
    assert!(bytes.len() > 16, "serialized bytes should include header");

    assert!(index_loadable(&bytes));
    let restored =
        VamanaGraph::deserialize_with(&bytes, read_record).expect("deserialize should succeed");
    assert_eq!(restored.len(), graph.len());
    assert_eq!(restored.dim(), graph.dim());
    assert_eq!(restored.entry_point(), graph.entry_point());

    assert!(restored.metadata().is_some(), "metadata should be present after roundtrip");
    let meta = restored.metadata().unwrap();
    assert_eq!(meta.n, 20);
    assert_eq!(meta.dim, 10);
    assert_eq!(meta.rng_algorithm, "chacha8");
    assert_eq!(meta.rng_seed, 42);

    let q = vectors[0..dim].to_vec();
    assert!(can_answer(&restored, &vectors));
    let r1 = GraphSearcher::new(&Native, &vectors, &graph, 20).search(&q, 5);
    let r2 = GraphSearcher::new(&Native, &vectors, &restored, 20).search(&q, 5);
    assert_eq!(r1, r2, "search results should match after roundtrip");
}

#[test]
fn crc_corruption_detected() {
    let vectors = line(50);
    let graph = build(&vectors, 5, &VamanaBuildConfig::default());
    let mut bytes = graph.serialize();
    let last = bytes.len() - 1;
    bytes[last] ^= 0xFF;
    let err = VamanaGraph::deserialize(&bytes);
    assert!(matches!(err, Err(SerializeError::CrcMismatch { .. })));
}

#[test]
fn magic_mismatch_detected() {
    let vectors = line(50);
    let graph = build(&vectors, 5, &VamanaBuildConfig::default());
    let mut bytes = graph.serialize();
    bytes[0] = 0x00;
    let err = VamanaGraph::deserialize(&bytes);
    assert!(matches!(err, Err(SerializeError::MagicMismatch { .. })));
}

#[test]
fn other_versions_are_refused() {
    let graph = build(&line(50), 5, &VamanaBuildConfig::default());
    let mut bytes = graph.serialize();
    bytes[4] = 0x77;
    let err = VamanaGraph::deserialize(&bytes);
    assert!(matches!(err, Err(SerializeError::VersionMismatch { .. })));
}

#[test]
fn cut_off_files_are_refused() {
    let graph = build(&line(50), 5, &settings(1.0, 10, 4, 6));
    let bytes = graph.serialize();
    assert!(matches!(
        VamanaGraph::deserialize(&bytes[..8]),
        Err(SerializeError::Io(IoFailure::FileTooShort))
    ));
    assert!(matches!(VamanaGraph::deserialize(&bytes[..20]), Err(_)));
}

#[test]
fn layers_are_kept_in_the_file() {
    let vectors = line(60);
    let mut config = settings(1.2, 20, 6, 9);
    config.enable_layered_nav = true;
    let mut rng = ChaCha8Rng::seed_from(42);
    let levels: Vec<u8> = (0..20).map(|i| if i % 5 == 0 { 1 } else { 0 }).collect();
    let graph = VamanaGraph::build(&Native, &vectors, 3, &config, &mut rng, &levels, 0, record_text);
    let back = VamanaGraph::deserialize(&graph.serialize()).unwrap();
    let (a, b) = (graph.layered_nav().unwrap(), back.layered_nav().unwrap());
    assert_eq!(a.max_level(), 1);
    assert_eq!(a.upper_lists, b.upper_lists);
    assert_eq!(a.node_levels, b.node_levels);
    assert_eq!(a.entry_candidates, b.entry_candidates);
    let mut searcher = GraphSearcher::new(&Native, &vectors, &back, 10);
    let found = searcher.search(&vectors[30..33], 1);
    assert_eq!(found[0].0, 10);
    assert_eq!(found[0].1, single(0.0));
}

#[test]
fn neighbours_are_distinct_others_within_the_limit() {
    let vectors = line(120);
    for strategy in [PruneStrategy::RobustPrune, PruneStrategy::DirectionalPrune] {
        let mut config = settings(1.2, 16, 5, 7);
        config.max_iterations = 2;
        config.prune_strategy = strategy;
        let graph = build(&vectors, 3, &config);
        for node in 0..40u32 {
            let (main, overflow) = graph.storage().neighbors_full(node);
            let mut all: Vec<u32> = main.to_vec();
            all.extend_from_slice(overflow);
            assert!(all.len() <= 5);
            assert!(!all.contains(&node));
            assert!(all.iter().all(|&v| v < 40));
            all.sort();
            all.dedup();
            assert_eq!(all.len(), graph.storage().degree(node));
        }
    }
}

#[test]
fn builds_with_the_same_seed_are_the_same() {
    let vectors = line(90);
    let a = build(&vectors, 3, &settings(1.2, 12, 4, 6)).serialize();
    let b = build(&vectors, 3, &settings(1.2, 12, 4, 6)).serialize();
    assert_eq!(a, b);
}

#[test]
fn answers_are_the_nearest_in_order() {
    let vectors = line(200);
    let dim = 2;
    let graph = build(&vectors, dim, &settings(1.2, 30, 8, 12));
    let mut searcher = GraphSearcher::new(&Native, &vectors, &graph, 40);
    for q in [0usize, 17, 50, 99] {
        let query = &vectors[q * dim..(q + 1) * dim];
        let found = searcher.search(query, 7);
        assert_eq!(found.len(), 7);
        assert_eq!(found[0], (q as u32, single(0.0)));
        for pair in found.windows(2) {
            assert!(pair[0].1.le(pair[1].1));
        }
        assert!(searcher.last_visited_count() >= 7);
        assert_eq!(searcher.last_ef_used(), 40);
    }
}

#[test]
fn batches_answer_as_single_queries_do() {
    let vectors = line(120);
    let graph = build(&vectors, 3, &settings(1.2, 20, 6, 9));
    let mut searcher = GraphSearcher::new(&Native, &vectors, &graph, 12);
    searcher.with_prefetch_offset(4);
    let queries: Vec<&[F32]> = (0..10).map(|i| &vectors[i * 9..i * 9 + 3]).collect();
    let all = searcher.batch_search(&queries, 4);
    let ids = searcher.batch_search_ids(&queries, 4);
    for (i, query) in queries.iter().enumerate() {
        let one = searcher.search(query, 4);
        assert_eq!(all[i], one);
        assert_eq!(ids[i], one.iter().map(|e| e.0).collect::<Vec<u32>>());
    }
}

/// Scores of nodes that tell distances apart only roughly.
fn coarse_scores(vectors: &[F32], dim: usize, query: &[F32]) -> Vec<F32> {
    vectors
        .chunks(dim)
        .map(|v| single((value(Native.distance(query, v)) / 4.0).floor()))
        .collect()
}

#[test]
fn coarse_searches_are_reranked() {
    let vectors = line(120);
    let dim = 3;
    let graph = build(&vectors, dim, &settings(1.2, 20, 6, 9));
    let mut searcher = GraphSearcher::new(&Native, &vectors, &graph, 12);
    let query = vectors[30..33].to_vec();
    let scores = coarse_scores(&vectors, dim, &query);
    let score = ScoreTable { scores: &scores };
    for found in [
        searcher.search_sq8(&query, 3, &score),
        searcher.search_pq4(&query, 3, &score),
        searcher.search_pq8(&query, 3, &score),
    ] {
        assert_eq!(found[0], (10, single(0.0)));
        assert_eq!(found.len(), 3);
        assert!(found[1].1.le(found[2].1));
    }
    let mut visited = VisitedTracker::new(40, 12);
    let mut pool = LinearPool::new(12);
    let one = searcher.answer_one_sq8(&query, 3, &score, &mut visited, &mut pool);
    assert_eq!(one, searcher.search_sq8(&query, 3, &score));
    let plain = searcher.answer_one(&query, 3, &mut visited, &mut pool);
    assert_eq!(plain, searcher.search(&query, 3));
}

#[test]
fn anchors_are_where_searches_start() {
    let vectors = line(200);
    let graph = build(&vectors, 2, &settings(1.2, 20, 6, 9));
    let config = NavigationConfig { enable_centroid_overlay: true, centroid_count: Some(5) };
    let nav = NavigationLayer::new(&Native, 100, &vectors, 2, config);
    let mut searcher = GraphSearcher::new_with_navigation(&Native, &vectors, &graph, 10, &nav);
    let query = vectors[100..102].to_vec();
    assert_eq!(searcher.search(&query, 1)[0].0, 50);
    let nearest = GraphSearcher::nearest_centroid(&Native, nav.centroids(), &vectors, 2, &query);
    assert!(nav.centroids().contains(&nearest));
}

#[test]
fn greedy_searches_agree() {
    let vectors = line(90);
    let dim = 3;
    let graph = build(&vectors, dim, &settings(1.2, 20, 6, 9));
    let storage = graph.storage();
    let entry = graph.entry_point();
    let query = vectors[60..63].to_vec();
    let (found, _) = VamanaGraph::greedy_search_vec(&Native, &vectors, dim, storage, entry, &query, 8);
    let (by_node, _) = VamanaGraph::greedy_search(&Native, &vectors, dim, storage, entry, 20, 8);
    assert_eq!(found, by_node);
    assert_eq!(found[0], 20);
    let mut visited = VisitedTracker::new(30, 8);
    let built = VamanaGraph::greedy_search_vec_build(
        &Native, &vectors, dim, storage, entry, &query, 8, &mut visited,
    );
    assert_eq!(built.iter().map(|e| e.0).collect::<Vec<u32>>(), found);
    let mut pool = LinearPool::new(8);
    let reused = VamanaGraph::greedy_search_vec_reuse(
        &Native, &vectors, dim, storage, entry, &query, 8, &mut visited, &mut pool, 8,
    );
    assert_eq!(reused, built);
    let scores = coarse_scores(&vectors, dim, &query);
    let score = ScoreTable { scores: &scores };
    let coarse =
        VamanaGraph::greedy_search_sq8(&score, storage, entry, 8, &mut visited, &mut pool, 8);
    assert_eq!(
        coarse,
        VamanaGraph::greedy_search_pq4(&score, storage, entry, 8, &mut visited, &mut pool, 8)
    );
    assert_eq!(
        coarse,
        VamanaGraph::greedy_search_pq8(&score, storage, entry, 8, &mut visited, &mut pool, 8)
    );
}

#[test]
fn exploring_finds_the_nearest() {
    let vectors = line(90);
    let graph = build(&vectors, 3, &settings(1.2, 20, 6, 9));
    let query = vectors[60..63].to_vec();
    let found = VamanaGraph::greedy_search_vec_explore(
        &Native, &vectors, 3, graph.storage(), graph.entry_point(), &query, 5, 1000,
    );
    assert_eq!(found[0], 20);
    assert!(found.len() <= 5);
    let by_node = VamanaGraph::greedy_search_explore(
        &Native, &vectors, 3, graph.storage(), graph.entry_point(), 20, 5, 1000,
    );
    assert_eq!(by_node, found);
}

#[test]
fn quantization_errors_change_the_build() {
    let vectors = line(90);
    let errors: Vec<F32> = (0..30).map(|i| single((i % 7) as f32)).collect();
    let config = settings(1.2, 12, 4, 6);
    let prune = QuantAwarePruneConfig {
        r_max: 4,
        normalization: NormalizationScheme::StdDev,
        ..Default::default()
    };
    let mut rng = ChaCha8Rng::seed_from(42);
    let graph = VamanaGraph::build_with_quant_aware_prune(
        &Native,
        &vectors,
        3,
        &config,
        &prune,
        &NodeErrors { errors: &errors },
        &exponentials(),
        &mut rng,
        0,
        record_text,
    );
    assert_eq!(graph.len(), 30);
    assert!(graph.layered_nav().is_none());
    for node in 0..30 {
        assert!(graph.storage().degree(node) <= 4);
    }
    assert!(can_answer(&graph, &vectors));
}

#[test]
fn indexes_that_do_not_fit_cannot_answer() {
    let vectors = line(30);
    let graph = build(&vectors, 3, &settings(1.2, 12, 4, 6));
    assert!(can_answer(&graph, &vectors));
    assert!(!can_answer(&graph, &vectors[..3]));
    let mut storage = HybridBlockedCsr::new(2, 2);
    storage.add_edge(0, 1);
    let lone = VamanaGraph::from_storage(storage, 5, 1);
    assert!(!can_answer(&lone, &vectors));
}

#[test]
fn many_nodes_are_sampled_at_random() {
    let vectors: Vec<F32> = numbers(&(0..10_001).map(|i| i as f32).collect::<Vec<f32>>());
    let id = compute_medoid(&Native, &vectors, 1, 10_001);
    assert!(id > 3_000 && id < 7_000);
}

#[test]
fn the_medoid_is_nearest_to_the_mean() {
    let vectors = numbers(&[0.0, 1.0, 2.0, 3.0, 10.0]);
    // The mean is 3.2.
    assert_eq!(compute_medoid(&Native, &vectors, 1, 5), 3);
}

fn build_test_graph() -> (Vec<F32>, usize, VamanaGraph) {
    let vectors = line(200);
    let dim = 10;
    let config = VamanaBuildConfig {
        alpha: single(1.0),
        l_build: 20,
        r_max: 8,
        r_soft: 12,
        max_iterations: 1,
        ..Default::default()
    };
    let graph = build(&vectors, dim, &config);
    (vectors, dim, graph)
}

#[test]
fn generate_variants_default_alphas() {
    let (vectors, dim, graph) = build_test_graph();
    let config = RPTuningConfig::default();
    let variants = RPTuning::generate_variants(&Native, &graph, &vectors, dim, &config);
    assert_eq!(variants.len(), 4);
    assert_eq!(value(variants[0].alpha), 1.0);
    assert_eq!(value(variants[3].alpha), 2.0);
}

#[test]
fn variant_alpha_affects_pruning() {
    let (vectors, dim, graph) = build_test_graph();
    let config = RPTuningConfig {
        scheme: RPTuningStorageScheme::SchemeA,
        alpha_points: numbers(&[1.0, 3.0]),
        r_max: 8,
    };
    let variants = RPTuning::generate_variants(&Native, &graph, &vectors, dim, &config);
    let small_alpha_degree: usize =
        (0..graph.len() as u32).map(|n| variants[0].storage.neighbors(n).len()).sum();
    let large_alpha_degree: usize =
        (0..graph.len() as u32).map(|n| variants[1].storage.neighbors(n).len()).sum();
    assert!(large_alpha_degree >= small_alpha_degree);
    let check = RPTuning::check_connectivity(&variants[1], 0, small_alpha_degree as u64, 20);
    assert!(check.mean_degree_ok);
    assert!(check.isolated_ok);
    assert_eq!(check.variant_nodes, 20);
}

#[test]
fn degradation_check_thresholds() {
    let d = |x: f64| F64(x.to_bits());
    let ok = RPTuning::check_degradation(d(0.003), d(0.02));
    assert!(!ok.is_degraded);

    let bad_recall = RPTuning::check_degradation(d(0.01), d(0.02));
    assert!(bad_recall.is_degraded);

    let bad_qps = RPTuning::check_degradation(d(0.003), d(0.05));
    assert!(bad_qps.is_degraded);
}

#[test]
fn alpha_scan_range_locked() {
    let config = RPTuningConfig {
        alpha_points: numbers(&[0.8, 1.0, 1.2, 1.5, 2.0, 3.0]),
        ..Default::default()
    };
    for &alpha in &config.alpha_points {
        assert!(value(alpha) >= 0.8 && value(alpha) <= 3.0);
    }
}

#[test]
fn variants_become_indexes() {
    let (vectors, dim, graph) = build_test_graph();
    let config = RPTuningConfig::default();
    let mut variants = RPTuning::generate_variants(&Native, &graph, &vectors, dim, &config);
    let last = variants.pop().unwrap().into_graph(dim);
    assert_eq!(last.len(), 20);
    assert_eq!(last.entry_point(), graph.entry_point());
    assert!(can_answer(&last, &vectors));
}

#[test]
fn edge_length_histogram_basic() {
    let values = numbers(&[1.0, 2.0, 3.0, 4.0, 5.0]);
    let h = EdgeLengthHistogram::from_values(&values, 5);
    assert_eq!(h.total_edges, 5);
    assert!((value(h.mean) - 3.0).abs() < 1e-6);
    assert_eq!(h.counts.iter().sum::<usize>(), 5);
}

#[test]
fn error_distribution_basic() {
    let values = numbers(&[0.1, 0.2, 0.3, 0.4, 0.5]);
    let d = ErrorDistribution::from_values(&values, 5);
    assert_eq!(d.total_edges, 5);
    assert!((value(d.mean) - 0.3).abs() < 1e-6);
}

#[test]
fn recall_variance_basic() {
    let recalls = numbers(&[0.9, 0.91, 0.89, 0.92]);
    let v = RecallVariance::from_recalls(&recalls);
    assert!((value(v.mean) - 0.905).abs() < 1e-3);
    assert!(value(v.std_dev) > 0.0);
}

#[test]
fn empty_histogram() {
    let h = EdgeLengthHistogram::from_values(&[], 10);
    assert_eq!(h.total_edges, 0);
}

#[test]
fn ablations_are_compared() {
    let vectors = line(60);
    let graph = build(&vectors, 3, &settings(1.2, 12, 4, 6));
    let errors: Vec<F32> = (0..20).map(|_| single(0.5)).collect();
    let framework = AblationFramework::default();
    let metrics = |beta: f32, recall: f32| {
        framework.compute_metrics(
            &Native,
            single(beta),
            graph.storage(),
            &vectors,
            3,
            &NodeErrors { errors: &errors },
            &numbers(&[0.9, 0.92]),
            single(recall),
        )
    };
    let m = metrics(0.0, 0.91);
    assert_eq!(m.edge_length.total_edges, m.error_distribution.total_edges);
    assert_eq!(value(m.error_distribution.mean), 0.5);
    assert_eq!(m.connectivity.nodes, 20);
    let c = ConnectivityMetrics::compute(graph.storage());
    assert_eq!(c.isolated_nodes, 0);
    let alone = AblationFramework::verify_argument_chain(&[m]);
    assert!(!alone.topology_evidence && !alone.performance_evidence && !alone.chain_holds);
    let rising = [metrics(0.3, 0.95), metrics(0.0, 0.91)];
    assert!(AblationFramework::verify_argument_chain(&rising).chain_holds);
    let falling = [metrics(0.0, 0.95), metrics(0.3, 0.91)];
    let chain = AblationFramework::verify_argument_chain(&falling);
    assert!(chain.topology_evidence && chain.mechanism_explanation);
    assert!(!chain.performance_evidence && !chain.chain_holds);
}

fn power(x: F32, y: F32) -> F32 {
    single(value(x).powf(value(y)))
}

fn widths(samples: Vec<f32>, min: usize, max: usize, gamma: f32) -> AdaptiveEfConfig {
    AdaptiveEfConfig::from_sorted_samples(numbers(&samples), min, max, single(gamma), power)
}

#[test]
fn estimate_ef_basic() {
    let samples: Vec<f32> = (0..100).map(|i| i as f32).collect();
    let config = widths(samples, 20, 80, 1.0);
    assert_eq!(config.estimate_ef(single(-1.0)), 20);
    assert_eq!(config.estimate_ef(single(200.0)), 80);
    let mid_ef = config.estimate_ef(single(50.0));
    assert!(mid_ef >= 45 && mid_ef <= 55, "mid_ef = {}", mid_ef);
}

#[test]
fn estimate_ef_power_law() {
    let samples: Vec<f32> = (0..100).map(|i| i as f32).collect();
    let config = widths(samples, 20, 80, 3.0);
    let mid_ef = config.estimate_ef(single(50.0));
    assert!(mid_ef >= 26 && mid_ef <= 30, "gamma=3 mid_ef = {}", mid_ef);
}

#[test]
fn estimate_ef_monotonic() {
    let samples: Vec<f32> = (0..2000).map(|i| i as f32 * 0.1).collect();
    let config = widths(samples, 10, 100, 2.0);
    let mut prev_ef = 0;
    for d in [0.0f32, 10.0, 50.0, 100.0, 150.0, 200.0] {
        let ef = config.estimate_ef(single(d));
        assert!(ef >= prev_ef, "ef not monotonic: d={} ef={} prev={}", d, ef, prev_ef);
        prev_ef = ef;
    }
}

#[test]
fn estimate_ef_respects_bounds() {
    let config = widths(vec![1.0, 2.0, 3.0, 4.0, 5.0], 30, 70, 3.0);
    for d in [-100.0f32, 0.0, 1.0, 2.5, 5.0, 100.0, 1000.0] {
        let ef = config.estimate_ef(single(d));
        assert!(ef >= 30 && ef <= 70, "ef={} out of bounds for d={}", ef, d);
    }
}

#[test]
fn empty_samples_returns_average() {
    let config = widths(vec![], 20, 80, 3.0);
    assert_eq!(config.estimate_ef(single(42.0)), 50);
}

#[test]
fn distribution_stats_correct() {
    let samples: Vec<f32> = (0..100).map(|i| i as f32).collect();
    let config = widths(samples, 20, 80, 2.0);
    let (min, p25, median, p75, max) = config.distribution_stats();
    assert!((value(min) - 0.0).abs() < 1e-6);
    assert!((value(p25) - 25.0).abs() < 1e-6);
    assert!((value(median) - 50.0).abs() < 1e-6);
    assert!((value(p75) - 75.0).abs() < 1e-6);
    assert!((value(max) - 99.0).abs() < 1e-6);
}

#[test]
fn build_f32_simple() {
    let vectors = line(20);
    let config = AdaptiveEfConfig::build_f32(
        &Native, &vectors, 2, 0, 10, 50, single(2.0), power,
    );
    assert_eq!(config.sample_count(), 10);
    assert_eq!(config.min_ef(), 10);
    assert_eq!(config.max_ef(), 50);
    let ef = config.estimate_ef(single(0.0));
    assert_eq!(ef, 10);
    let wider = config.with_params(5, 7, single(1.0), power);
    assert_eq!(wider.min_ef(), 5);
    assert_eq!(wider.max_ef(), 7);
}

#[test]
fn adaptive_widths_are_used() {
    let vectors = line(120);
    let graph = build(&vectors, 3, &settings(1.2, 20, 6, 9));
    let entry = graph.entry_point();
    let config = AdaptiveEfConfig::build_f32(
        &Native, &vectors, 3, entry, 6, 30, single(1.0), power,
    );
    let mut searcher = GraphSearcher::new(&Native, &vectors, &graph, 10);
    searcher.with_adaptive_ef(config);
    let at = entry as usize * 3;
    let near = vectors[at..at + 3].to_vec();
    searcher.search(&near, 2);
    assert_eq!(searcher.last_ef_used(), 6);
    let far = numbers(&[5000.0, 5000.0, 5000.0]);
    searcher.search(&far, 2);
    assert_eq!(searcher.last_ef_used(), 30);
}

#[test]
fn candidates_are_reranked() {
    let vectors = line(20);
    let query = numbers(&[7.0]);
    let coarse: Vec<(u32, F32)> = vec![(9, single(0.0)), (3, single(0.0)), (7, single(0.0)), (8, single(0.0))];
    let exact = rerank_f32(&Native, &vectors, 1, &query, coarse.clone(), 2, 2);
    assert_eq!(exact, vec![(7, single(0.0)), (8, single(1.0))]);
    let halves = F16Dataset::build(&vectors, 1);
    let cpu = CpuFeatures::portable();
    let rough = rerank_f16(cpu, halves.codes(), 1, &query, coarse.clone(), 2, 2);
    assert_eq!(rough, exact);
    // With a factor of one only the first two candidates are looked at.
    let few = rerank_f32(&Native, &vectors, 1, &query, coarse, 2, 1);
    assert_eq!(few, vec![(9, single(4.0)), (3, single(16.0))]);
}

#[test]
fn degrees_are_summed_up() {
    let graph = build(&line(90), 3, &settings(1.2, 12, 4, 6));
    let stats = graph.degree_stats();
    assert_eq!(stats.nodes, 30);
    assert!(stats.max_degree <= 4);
    assert_eq!(stats.overflow_count, 0);
    let total: usize = (0..30).map(|n| graph.neighbors(n).len()).sum();
    assert_eq!(stats.total_degree, total as u128);
}

#[test]
fn widths_come_from_the_layers() {
    let vectors = line(60);
    let mut config = settings(1.2, 20, 6, 9);
    config.enable_layered_nav = true;
    let mut rng = ChaCha8Rng::seed_from(42);
    let levels: Vec<u8> = (0..20).map(|i| if i % 5 == 0 { 1 } else { 0 }).collect();
    let graph = VamanaGraph::build(&Native, &vectors, 3, &config, &mut rng, &levels, 0, record_text);
    let nav = graph.layered_nav().unwrap();
    let widths = AdaptiveEfConfig::build_with_layered_nav(
        &Native, &vectors, 3, nav, 4, 9, single(1.0), power,
    );
    assert_eq!(widths.sample_count(), 20);
    assert_eq!(widths.estimate_ef(single(1.0e9)), 9);
    assert_eq!(widths.estimate_ef(single(-1.0)), 4);
}

#[test]
fn wide_searches_miss_nothing() {
    let vectors = line(40);
    let graph = build(&vectors, 3, &settings(1.2, 20, 6, 9));
    let n = vectors.len() / 3;
    let mut reached = vec![false; n];
    let mut open = vec![graph.entry_point()];
    while let Some(v) = open.pop() {
        if !reached[v as usize] {
            reached[v as usize] = true;
            open.extend_from_slice(graph.neighbors(v));
        }
    }
    let count = reached.iter().filter(|&&r| r).count();
    let mut searcher = GraphSearcher::new(&Native, &vectors, &graph, n);
    let found = searcher.search(&vectors[0..3], n);
    assert_eq!(found.len(), count);
    assert_eq!(searcher.last_visited_count(), count);
    assert!(found.iter().all(|(id, _)| reached[*id as usize]));
    assert!(found.windows(2).all(|w| value(w[0].1) <= value(w[1].1)));
}

#[test]
fn earlier_queries_change_no_answer() {
    let vectors = line(180);
    let graph = build(&vectors, 3, &settings(1.2, 20, 6, 9));
    let mut used = GraphSearcher::new(&Native, &vectors, &graph, 8);
    used.search(&vectors[150..153], 4);
    used.search(&vectors[12..15], 2);
    let mut fresh = GraphSearcher::new(&Native, &vectors, &graph, 8);
    assert_eq!(used.search(&vectors[90..93], 5), fresh.search(&vectors[90..93], 5));
}

#[test]
fn indexes_built_twice_are_the_same_bytes() {
    let vectors = line(90);
    let config = settings(1.2, 20, 6, 9);
    let levels = vec![0u8; 30];
    let mut bytes = Vec::new();
    for time in [5, 6] {
        let mut rng = ChaCha8Rng::seed_from(7);
        let g = VamanaGraph::build(&Native, &vectors, 3, &config, &mut rng, &levels, time, record_text);
        assert_eq!(g.metadata().unwrap().build_timestamp, time);
        let mut g = g;
        g.set_metadata(None, Vec::new());
        bytes.push((g.serialize(), rng.next_u32()));
    }
    assert_eq!(bytes[0], bytes[1]);
}

#[test]
fn exploring_keeps_the_nearest() {
    let vectors = line(60);
    let graph = build(&vectors, 3, &settings(1.2, 20, 6, 9));
    let found = VamanaGraph::greedy_search_vec_explore(
        &Native,
        &vectors,
        3,
        graph.storage(),
        graph.entry_point(),
        &vectors[30..33],
        5,
        1000,
    );
    assert_eq!(found.len(), 5);
    let d = |id: u32| {
        let at = id as usize * 3;
        value(Native.distance(&vectors[30..33], &vectors[at..at + 3]))
    };
    assert!(found.windows(2).all(|w| d(w[0]) <= d(w[1]) && w[0] != w[1]));
    assert_eq!(found[0], 10);
}

#[test]
fn many_coarse_queries_are_answered_one_by_one() {
    let vectors = line(120);
    let dim = 3;
    let graph = build(&vectors, dim, &settings(1.2, 20, 6, 9));
    let mut searcher = GraphSearcher::new(&Native, &vectors, &graph, 12);
    let queries: Vec<&[F32]> = vec![&vectors[30..33], &vectors[0..3], &vectors[99..102]];
    let tables: Vec<Vec<F32>> = queries.iter().map(|q| coarse_scores(&vectors, dim, q)).collect();
    let scores: Vec<ScoreTable> = tables.iter().map(|t| ScoreTable { scores: t }).collect();
    let all = searcher.batch_search_sq8(&queries, 4, &scores);
    assert_eq!(all.len(), 3);
    for (i, row) in all.iter().enumerate() {
        assert_eq!(*row, searcher.search_sq8(queries[i], 4, &scores[i]));
        assert!(row.len() <= 4);
        assert!(row.windows(2).all(|w| w[0].1.le(w[1].1)));
        let mut ids: Vec<u32> = row.iter().map(|e| e.0).collect();
        ids.sort();
        ids.dedup();
        assert_eq!(ids.len(), row.len());
    }
    assert_eq!(all[0][0], (10, single(0.0)));
}

#[test]
fn the_ends_of_the_samples_get_the_ends_of_the_widths() {
    let config = widths(vec![1.0, 2.0, 3.0, 4.0, 5.0], 30, 70, 3.0);
    assert_eq!(config.estimate_ef(single(1.0)), 30);
    assert_eq!(config.estimate_ef(single(5.5)), 70);
    assert_eq!(widths(vec![2.0], 20, 81, 3.0).estimate_ef(single(100.0)), 50);
}

#[test]
fn graphs_without_edges_have_empty_histograms() {
    let storage = HybridBlockedCsr::new(3, 2);
    let h = EdgeLengthHistogram::compute(&Native, &storage, &line(3), 1, 0);
    assert_eq!(h.total_edges, 0);
    assert!(h.bins.is_empty() && h.counts.is_empty());
}

#[test]
fn loaded_indexes_answer_as_before() {
    let vectors = line(150);
    let graph = build(&vectors, 3, &settings(1.2, 20, 6, 9));
    let back = VamanaGraph::deserialize(&graph.serialize()).unwrap();
    assert_eq!(graph.storage().main_block(), back.storage().main_block());
    for i in 0..50 {
        let query = &vectors[3 * i..3 * i + 3];
        assert_eq!(
            GraphSearcher::new(&Native, &vectors, &graph, 8).search(query, 4),
            GraphSearcher::new(&Native, &vectors, &back, 8).search(query, 4)
        );
    }
}

#[test]
fn records_are_kept_in_the_file() {
    let vectors = line(60);
    let config = settings(1.2, 20, 6, 9);
    let mut rng = ChaCha8Rng::seed_from(42);
    let graph =
        VamanaGraph::build(&Native, &vectors, 3, &config, &mut rng, &[0; 20], 77, record_text);
    let record = graph.metadata().unwrap();
    assert_eq!(graph.metadata_text(), record_text(record).as_slice());
    let bytes = graph.serialize();
    let back = VamanaGraph::deserialize_with(&bytes, read_record).unwrap();
    assert_eq!(format!("{:?}", back.metadata()), format!("{:?}", Some(record)));
    assert_eq!(back.metadata().unwrap().build_timestamp, 77);
    assert_eq!(back.metadata_text(), graph.metadata_text());
    assert_eq!(back.serialize(), bytes);
    let bare = VamanaGraph::deserialize(&bytes).unwrap();
    assert!(bare.metadata().is_none());
    assert_eq!(bare.metadata_text(), graph.metadata_text());
    let unread = VamanaGraph::deserialize_with(&bytes, |_| None).unwrap();
    assert!(unread.metadata().is_none() && unread.metadata_text().is_empty());
}

#[test]
fn every_changed_byte_of_the_body_is_noticed() {
    let bytes = build(&line(12), 2, &settings(1.2, 8, 3, 4)).serialize();
    for i in 16..bytes.len() {
        for flip in [1u8, 0x80, 0xFF] {
            let mut other = bytes.clone();
            other[i] ^= flip;
            assert!(index_loadable(&other));
            assert!(matches!(
                VamanaGraph::deserialize(&other),
                Err(SerializeError::CrcMismatch { .. })
            ));
        }
    }
}

#[test]
fn there_is_an_anchor_wherever_one_is_wanted() {
    for n in 1..12usize {
        let vectors = line(n * 2);
        for count in [None, Some(1), Some(3), Some(50)] {
            let config = NavigationConfig { enable_centroid_overlay: true, centroid_count: count };
            let nav = NavigationLayer::new(&Native, n, &vectors, 2, config);
            assert!(!nav.centroids().is_empty() && nav.centroids().len() <= n);
        }
    }
}

#[test]
fn widths_grow_whatever_the_power_is() {
    let samples: Vec<F32> = (0..10).map(|i| single(i as f32)).collect();
    let odd = |x: F32, _: F32| match value(x) {
        v if v < 0.25 => single(f32::NAN),
        v if v < 0.45 => single(0.75),
        v if v < 0.65 => single(-3.0),
        _ => single(9.0),
    };
    let config = AdaptiveEfConfig::from_sorted_samples(samples, 10, 50, single(2.0), odd);
    let found: Vec<usize> =
        (0..12).map(|i| config.estimate_ef(single(i as f32 - 0.5))).collect();
    assert_eq!(found, vec![10, 10, 10, 40, 40, 40, 40, 50, 50, 50, 50, 50]);
    let flat = config.with_params(10, 50, single(0.0), power);
    assert_eq!(flat.estimate_ef(single(-1.0)), 50);
}

#[test]
fn logarithms_of_exponentials_scale_a_build() {
    let vectors = line(90);
    let errors: Vec<F32> = (0..30).map(|i| single((i % 7) as f32)).collect();
    let prune = QuantAwarePruneConfig {
        r_max: 4,
        normalization: NormalizationScheme::LogSumExp,
        ..Default::default()
    };
    let mut rng = ChaCha8Rng::seed_from(42);
    let graph = VamanaGraph::build_with_quant_aware_prune(
        &Native,
        &vectors,
        3,
        &settings(1.2, 12, 4, 6),
        &prune,
        &NodeErrors { errors: &errors },
        &exponentials(),
        &mut rng,
        0,
        record_text,
    );
    assert!(can_answer(&graph, &vectors));
    assert!((0..30).all(|node| (1..=4).contains(&graph.storage().degree(node))));
}

#[test]
fn the_first_round_has_the_threshold_one() {
    let config = settings(1.4, 10, 4, 6);
    assert_eq!(alpha_of_round(&config, 0), single(1.0));
    assert_eq!(alpha_of_round(&config, 1), single(1.4));
    assert_eq!(alpha_of_round(&config, 5), single(1.4));
}

#[test]
fn levels_come_from_one_draw_each() {
    let mut rng = ChaCha8Rng::seed_from(42);
    let wanted: Vec<u8> = (0..50).map(|_| ((rng.next_u64() >> 11) % 200) as u8).collect();
    assert_eq!(draw_levels(50, 16, |x, _| (x % 200) as u8), wanted);
    let shrinking = draw_levels(4000, 16, |x, m| {
        let u = (x as f64 / (1u64 << 53) as f64).max(1e-10);
        (-u.ln() / (m as f64).ln()).floor() as u8
    });
    let above = shrinking.iter().filter(|&&level| level > 0).count();
    assert!((150..400).contains(&above));
    assert_eq!(draw_levels(3, 16, |_, m| m as u8), vec![16, 16, 16]);
}
