use raven::distance::{DistanceKernel, DistanceMetric, F32};
use raven::graph::layered::{is_descendable, LayeredNavigation};
use raven::graph::{NavigationConfig, NavigationLayer};
use raven::memory::VisitedTracker;

fn single(x: f32) -> F32 {
    F32(x.to_bits())
}

fn numbers(values: &[f32]) -> Vec<F32> {
    values.iter().map(|x| F32(x.to_bits())).collect()
}

fn make_vectors(n: usize, dim: usize) -> Vec<F32> {
    (0..n * dim).map(|i| single(i as f32)).collect()
}

/// Computes with the numbers of the machine.
struct Native;

impl DistanceKernel for Native {
    fn distance(&self, a: &[F32], b: &[F32]) -> F32 {
        let mut sum = 0.0f32;
        for (x, y) in a.iter().zip(b) {
            let d = f32::from_bits(x.0) - f32::from_bits(y.0);
            sum += d * d;
        }
        F32(sum.to_bits())
    }

    fn metric(&self) -> DistanceMetric {
        DistanceMetric::L2
    }

    fn name(&self) -> &'static str {
        "native"
    }
}

#[test]
fn default_navigation_no_overlay() {
    let v = make_vectors(1000, 4);
    let nav = NavigationLayer::new(&Native, 1000, &v, 4, NavigationConfig::default());
    assert!(!nav.is_overlay_enabled());
    assert!(nav.centroids().is_empty());
}

#[test]
fn overlay_enabled_uses_sqrt_n() {
    let v = make_vectors(10000, 4);
    let config = NavigationConfig { enable_centroid_overlay: true, centroid_count: None };
    let nav = NavigationLayer::new(&Native, 10000, &v, 4, config);
    assert!(nav.is_overlay_enabled());
    assert_eq!(nav.centroids().len(), 100);
}

#[test]
fn overlay_custom_count() {
    let v = make_vectors(1000, 4);
    let config = NavigationConfig { enable_centroid_overlay: true, centroid_count: Some(50) };
    let nav = NavigationLayer::new(&Native, 1000, &v, 4, config);
    assert_eq!(nav.centroids().len(), 50);
}

#[test]
fn kmeans_centroids_are_valid_nodes() {
    let v = make_vectors(100, 4);
    let config = NavigationConfig { enable_centroid_overlay: true, centroid_count: Some(10) };
    let nav = NavigationLayer::new(&Native, 100, &v, 4, config);
    for &c in nav.centroids() {
        assert!(c < 100, "centroid {} should be < 100", c);
    }
}

#[test]
fn layered_nav_serialization_roundtrip() {
    let nav = LayeredNavigation {
        entry_point: 42,
        max_level: 3,
        k: 16,
        node_levels: vec![0, 0, 1, 2, 3, 1, 0, 2],
        upper_lists: vec![
            Vec::new(),
            Vec::new(),
            vec![3, 4, 5],
            vec![4, 7, 2, 5, 1, 6, 0, 3],
            vec![3, 7, 2, 5],
            vec![2, 3, 4],
            Vec::new(),
            vec![4, 3, 2],
        ],
        entry_candidates: vec![42, 4],
    };

    let bytes = nav.serialize_binary();
    let restored = LayeredNavigation::deserialize_binary(&bytes).expect("deserialize");

    assert_eq!(restored.entry_point, 42);
    assert_eq!(restored.max_level, 3);
    assert_eq!(restored.k, 16);
    assert_eq!(restored.node_levels, nav.node_levels);
    assert_eq!(restored.upper_lists, nav.upper_lists);
    assert_eq!(restored.entry_candidates, nav.entry_candidates);
}

#[test]
fn layered_nav_empty_roundtrip() {
    let nav = LayeredNavigation::empty(0, 16);
    let bytes = nav.serialize_binary();
    let restored = LayeredNavigation::deserialize_binary(&bytes).expect("deserialize");
    assert_eq!(restored.max_level, 0);
    assert_eq!(restored.k, 16);
    assert!(restored.node_levels.is_empty());
}

#[test]
fn layered_nav_backward_compat_no_entry_candidates() {
    let mut buf = Vec::new();
    buf.extend_from_slice(&7u32.to_le_bytes());
    buf.push(2u8);
    buf.extend_from_slice(&[0u8; 3]);
    buf.extend_from_slice(&8u32.to_le_bytes());
    buf.extend_from_slice(&4u32.to_le_bytes());
    buf.extend_from_slice(&[0, 0, 1, 2]);
    buf.extend_from_slice(&2u32.to_le_bytes());
    buf.extend_from_slice(&2u32.to_le_bytes());
    buf.extend_from_slice(&2u32.to_le_bytes());
    buf.extend_from_slice(bytemuck::cast_slice(&[3u32, 1u32]));
    buf.extend_from_slice(&3u32.to_le_bytes());
    buf.extend_from_slice(&2u32.to_le_bytes());
    buf.extend_from_slice(bytemuck::cast_slice(&[2u32, 0u32]));

    let restored = LayeredNavigation::deserialize_binary(&buf).expect("deserialize");
    assert_eq!(restored.entry_point, 7);
    assert_eq!(restored.entry_candidates, vec![7]);
}

#[test]
fn add_bidirectional_edge_prunes_correctly() {
    let v = numbers(&[
        0.0, 0.0, 0.0, 0.0, 1.0, 0.0, 0.0, 0.0, 0.0, 1.0, 0.0, 0.0, 9.0, 9.0, 9.0, 9.0, 0.0, 0.0,
        1.0, 0.0,
    ]);
    let mut adj: Vec<Vec<u32>> = vec![Vec::new(); 5];
    adj[0] = vec![1, 2, 3];

    LayeredNavigation::add_bidirectional_edge(&Native, &v, 4, &mut adj, 0, 4, 3);

    assert!(adj[0].len() <= 3, "degree should be <= K after prune");
    assert!(adj[0].contains(&4), "closer neighbor 4 should survive prune, got {:?}", adj[0]);
    assert!(!adj[0].contains(&3), "far neighbor 3 should be pruned, got {:?}", adj[0]);
}

#[test]
fn search_upper_layer_finds_neighbors() {
    let v = make_vectors(100, 4);
    let mut adj: Vec<Vec<u32>> = vec![Vec::new(); 100];
    for i in 0..98 {
        adj[i] = vec![(i + 1) as u32, (i + 2) as u32];
    }
    adj[98] = vec![99];
    adj[99] = vec![];

    let n = 100;
    let mut visited = VisitedTracker::new(n, 10);
    let query = &v[90 * 4..91 * 4];

    let results =
        LayeredNavigation::search_upper_layer(&Native, &v, 4, &adj, 0, query, 10, &mut visited);

    assert!(!results.is_empty());
    let found_90 = results.iter().any(|(id, dist)| *id == 90 && *dist == single(0.0));
    assert!(found_90, "should find node 90 with dist=0");
}

#[test]
fn cut_off_layers_are_refused() {
    let bytes = LayeredNavigation::empty(3, 2).serialize_binary();
    assert!(LayeredNavigation::deserialize_binary(&bytes[..10]).is_none());
}

#[test]
fn a_descent_gets_no_farther() {
    let v = make_vectors(40, 2);
    let levels: Vec<u8> = (0..40).map(|i| if i % 4 == 0 { 1 } else { 0 }).collect();
    let nav = LayeredNavigation::build(&Native, &v, 2, 0, &levels, 3);
    assert_eq!(nav.max_level(), 1);
    assert!(is_descendable(&nav, &v, 2));
    assert!(!is_descendable(&nav, &v[..40], 2));
    let query = &v[60..62];
    let (node, distance) = nav.initialize(&Native, &v, 2, query);
    assert!(node < 40);
    assert!(distance.le(Native.distance(query, &v[0..2])));
    // Upper layers hold every fourth node; the query is one between two of them.
    assert!(node == 28 || node == 32, "got {}", node);
}
