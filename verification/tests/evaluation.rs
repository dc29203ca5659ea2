use raven::build::ChaCha8Rng;
use raven::config::local_bench::{percentile, sort_times, total_of};
use raven::distance::double::F64;
use raven::distance::{DistanceKernel, DistanceMetric, F32};
use raven::evaluation::binding::{flat_ids, Quant};
use raven::evaluation::scan::{compute_recall, recall_at_k, scan, takes_over, visit_spread};
use raven::evaluation::settings::{
    binding_settings, probe_settings, runner_settings, scaled_limit,
};
use raven::evaluation::vecs::{raw_words, read_fvecs, read_ivecs, RawFailure};
use raven::graph::{GraphSearcher, PruneStrategy, VamanaGraph};

fn single(x: f32) -> F32 {
    F32(x.to_bits())
}

/// Computes with the numbers of the machine.
struct Native;

impl DistanceKernel for Native {
    fn distance(&self, a: &[F32], b: &[F32]) -> F32 {
        let mut sum = 0.0f32;
        for (x, y) in a.iter().zip(b) {
            let d = f32::from_bits(x.0) - f32::from_bits(y.0);
            sum += d * d;
        }
        F32(sum.to_bits())
    }

    fn metric(&self) -> DistanceMetric {
        DistanceMetric::L2
    }

    fn name(&self) -> &'static str {
        "native"
    }
}

#[test]
fn records_are_read() {
    let mut bytes = Vec::new();
    for record in [[1.0f32, 2.0], [3.0, -4.5]] {
        bytes.extend_from_slice(&2i32.to_le_bytes());
        for x in record {
            bytes.extend_from_slice(&x.to_le_bytes());
        }
    }
    bytes.push(9);
    let (vectors, dim, n) = read_fvecs(&bytes);
    assert_eq!((dim, n), (2, 2));
    assert_eq!(vectors, vec![single(1.0), single(2.0), single(3.0), single(-4.5)]);

    let mut bytes = Vec::new();
    for record in [[7i32, -1, 3], [0, 5, 6]] {
        bytes.extend_from_slice(&3i32.to_le_bytes());
        for x in record {
            bytes.extend_from_slice(&x.to_le_bytes());
        }
    }
    let (ids, dim, n) = read_ivecs(&bytes);
    assert_eq!((dim, n), (3, 2));
    assert_eq!(ids, vec![7, -1, 3, 0, 5, 6]);
}

#[test]
fn raw_files_are_read_in_the_order_of_the_machine() {
    let words = [1u32, 0xDEADBEEF];
    let bytes: &[u8] = bytemuck::cast_slice(&words);
    assert_eq!(raw_words(bytes, 2), Ok(words.to_vec()));
    assert_eq!(raw_words(bytes, 3), Err(RawFailure::SizeMismatch));
    assert_eq!(raw_words(&bytes[..7], 1), Err(RawFailure::SizeMismatch));
    assert_eq!(raw_words(&bytes[1..5], 1), Err(RawFailure::Misaligned));
}

#[test]
fn hits_are_counted() {
    assert_eq!(recall_at_k(&[1, 2, 3], &[3, 9, 1, 2], 3), 2);
    assert_eq!(recall_at_k(&[1, 2, 3], &[3], 5), 1);
    let results = vec![vec![1, 2], vec![5, 6]];
    assert_eq!(compute_recall(&results, &[1, 9, 9, 6, 5, 0], 3, 2, 2), (3, 4));
}

#[test]
fn a_scan_counts_hits_and_visits() {
    let vectors: Vec<F32> = (0..100).map(|i| single(i as f32)).collect();
    let config = probe_settings(6, true);
    let mut rng = ChaCha8Rng::seed_from(42);
    let levels = vec![0u8; 50];
    let graph = VamanaGraph::build(
        &Native, &vectors, 2, &config, &mut rng, &levels, 0, |_| Vec::new(),
    );
    let mut searcher = GraphSearcher::new(&Native, &vectors, &graph, 20);
    let truth: Vec<i32> = (0..10).flat_map(|q| vec![q, q + 49]).collect();
    let o = scan(&mut searcher, &vectors, 2, 10, &truth, 2, 1);
    assert_eq!((o.hits, o.total), (10, 10));
    assert_eq!(o.visited_counts.len(), 10);
    assert_eq!(o.total_visited, o.visited_counts.iter().map(|&c| c as u128).sum::<u128>());
}

#[test]
fn spreads_are_read_from_sorted_numbers() {
    let s = visit_spread(&(0..100).rev().collect());
    assert_eq!((s.p50, s.p95, s.p99, s.max), (50, 95, 99, 99));
    let one = visit_spread(&vec![7]);
    assert_eq!((one.p50, one.p95, one.p99, one.max), (7, 7, 7, 7));
    assert_eq!(percentile(&vec![1, 2, 3, 4], 50), 3);
    assert_eq!(percentile(&vec![], 95), 0);
    assert_eq!(sort_times(&vec![3, 1, 2]), vec![1, 2, 3]);
    assert_eq!(total_of(&vec![u64::MAX, 1]), u64::MAX as u128 + 1);
}

#[test]
fn the_third_round_counts_in_any_case() {
    let d = |x: f64| F64(x.to_bits());
    assert!(takes_over(1, d(2.0), d(1.0)));
    assert!(!takes_over(2, d(1.0), d(1.0)));
    assert!(takes_over(3, d(0.5), d(1.0)));
}

#[test]
fn settings_are_those_of_the_evaluations() {
    assert_eq!(scaled_limit(64, single(1.3)), (64.0f32 * 1.3) as usize);
    assert_eq!(probe_settings(32, false).r_soft, 41);
    assert!(!probe_settings(32, false).saturate);
    let r = runner_settings(single(1.1), 100, 33, 3);
    assert_eq!((r.r_soft, r.max_iterations, r.nav_m), (49, 3, 16));
    let b = binding_settings(32, 200, single(1.2), 32, true);
    assert_eq!(b.prune_strategy, PruneStrategy::DirectionalPrune);
    assert!(!b.saturate);
    assert_eq!(b.r_soft, 48);
}

#[test]
fn codings_are_read_whatever_their_case() {
    assert_eq!(Quant::from_name("SQ8"), Some(Quant::Sq8));
    assert_eq!(Quant::from_name("sq4"), Some(Quant::Sq4));
    assert_eq!(Quant::from_name(" sq4"), None);
}

#[test]
fn tables_are_padded() {
    let answers = vec![vec![(4, single(0.0)), (5, single(1.0))], vec![(6, single(0.0))]];
    assert_eq!(flat_ids(&answers, 2), vec![4, 5, 6, 0]);
    assert_eq!(flat_ids(&answers, 1), vec![4, 6]);
}
