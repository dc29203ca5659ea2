use raven::distance::aligned::{aligned_from_slice, aligned_vec_f32};
use raven::distance::{DistanceKernel, ScalarKernel, F32};
use raven::memory::csr_format::csr_loadable;
use raven::memory::graph::GraphStorage;
use raven::memory::query_ctx::{batch_distance, GEMM_THRESHOLD};
use raven::memory::serialize::{crc32, SerializeError, HEADER_SIZE};
use raven::memory::{
    HybridBlockedCsr, IndexHeader, QueryContext, Serializable, VisitedTracker, INDEX_MAGIC,
    INDEX_VERSION,
};
use raven::SENTINEL;

fn numbers(values: &[f32]) -> Vec<F32> {
    values.iter().map(|x| F32(x.to_bits())).collect()
}

fn value(x: F32) -> f32 {
    f32::from_bits(x.0)
}

#[test]
fn visit_first_time_returns_true() {
    let mut t = VisitedTracker::new(100, 64);
    assert!(t.visit(5));
    assert!(t.visit(10));
    assert!(t.visit(99));
}

#[test]
fn visit_second_time_returns_false() {
    let mut t = VisitedTracker::new(100, 64);
    assert!(t.visit(5));
    assert!(!t.visit(5));
}

#[test]
fn reset_clears_visited() {
    let mut t = VisitedTracker::new(100, 64);
    t.visit(5);
    t.visit(10);
    assert_eq!(t.visited_count(), 2);
    t.reset();
    assert_eq!(t.visited_count(), 0);
    assert!(t.visit(5));
}

#[test]
fn reset_is_o_v_not_o_n() {
    let mut t = VisitedTracker::new(1000, 64);
    t.visit(5);
    t.visit(10);
    t.reset();
    assert!(!t.is_visited(100));
    assert!(!t.is_visited(5));
    assert!(!t.is_visited(10));
}

#[test]
fn history_preallocated_by_ef_search_times_3() {
    let t = VisitedTracker::new(1000, 200);
    assert_eq!(t.history_capacity(), 600);
}

#[test]
fn clearing_keeps_the_room() {
    let mut t = VisitedTracker::new(1000, 10);
    for node in 0..25 {
        t.visit(node);
    }
    assert_eq!(t.history_capacity(), 30);
    for node in 25..100 {
        t.visit(node);
    }
    assert_eq!(t.history_capacity(), 100);
    t.reset();
    assert_eq!(t.history_capacity(), 100);
    assert_eq!(t.len(), 1000);
    assert!((0..1000).all(|node| !t.is_visited(node) && t.visit(node)));
}

#[test]
fn is_visited_check() {
    let mut t = VisitedTracker::new(100, 64);
    assert!(!t.is_visited(5));
    t.visit(5);
    assert!(t.is_visited(5));
}

#[test]
fn visited_nodes_are_listed_in_order() {
    let mut t = VisitedTracker::new(10, 4);
    t.visit(7);
    t.visit(2);
    t.visit(7);
    assert_eq!(t.visited_nodes(), &[7, 2]);
    assert_eq!(t.len(), 10);
    assert!(!t.is_empty());
    assert!(VisitedTracker::new(0, 4).is_empty());
}

#[test]
fn new_graph_all_sentinel() {
    let g = HybridBlockedCsr::new(10, 4);
    assert_eq!(g.len(), 10);
    assert_eq!(g.r_max(), 4);
    for i in 0..10 {
        assert!(g.neighbors(i).is_empty());
    }
}

#[test]
fn add_edge_to_main_block() {
    let mut g = HybridBlockedCsr::new(10, 4);
    g.add_edge(0, 1);
    g.add_edge(0, 2);
    assert_eq!(g.neighbors(0), &[1, 2]);
    assert_eq!(g.degree(0), 2);
}

#[test]
fn add_edge_overflow() {
    let mut g = HybridBlockedCsr::new(10, 2);
    g.add_edge(0, 1);
    g.add_edge(0, 2);
    g.add_edge(0, 3);
    assert_eq!(g.degree(0), 3);
    let (main, overflow) = g.neighbors_full(0);
    assert_eq!(main, &[1, 2]);
    assert_eq!(overflow, &[3]);
}

#[test]
fn set_neighbors_replaces() {
    let mut g = HybridBlockedCsr::new(10, 3);
    g.add_edge(0, 1);
    g.set_neighbors(0, &[5, 6, 7]);
    assert_eq!(g.neighbors(0), &[5, 6, 7]);
}

#[test]
fn set_neighbors_overflow() {
    let mut g = HybridBlockedCsr::new(10, 2);
    g.set_neighbors(0, &[1, 2, 3, 4, 5]);
    assert_eq!(g.degree(0), 5);
    let (main, overflow) = g.neighbors_full(0);
    assert_eq!(main, &[1, 2]);
    assert_eq!(overflow, &[3, 4, 5]);
}

#[test]
fn degree_stats_basic() {
    let mut g = HybridBlockedCsr::new(10, 3);
    g.add_edge(0, 1);
    g.add_edge(0, 2);
    g.add_edge(1, 2);
    let stats = g.log_degree_distribution();
    assert_eq!(stats.overflow_count, 0);
    assert_eq!(stats.isolated_nodes, 8);
    assert_eq!(stats.total_degree, 3);
    assert_eq!(stats.max_degree, 2);
}

#[test]
fn sentinel_skipped_in_neighbors() {
    let mut g = HybridBlockedCsr::new(10, 4);
    g.add_edge(0, 1);
    g.add_edge(0, 2);
    let n = g.neighbors(0);
    assert_eq!(n, &[1, 2]);
}

#[test]
fn edges_are_not_added_twice() {
    let mut g = HybridBlockedCsr::new(10, 1);
    g.add_edge(0, 1);
    g.add_edge(0, 1);
    g.add_edge(0, 2);
    g.add_edge(0, 2);
    assert_eq!(g.degree(0), 2);
    assert_eq!(g.neighbors_full(0), (&[1u32][..], &[2u32][..]));
}

#[test]
fn storage_round_trip() {
    let mut g = HybridBlockedCsr::new(4, 2);
    g.set_neighbors(0, &[1, 2, 3]);
    g.add_edge(3, 0);
    let bytes = g.serialize();
    assert!(csr_loadable(&bytes));
    let back = HybridBlockedCsr::deserialize(&bytes).unwrap();
    assert_eq!(back.len(), 4);
    assert_eq!(back.r_max(), 2);
    for node in 0..4 {
        assert_eq!(back.neighbors_full(node), g.neighbors_full(node));
    }
}

#[test]
fn short_storage_is_refused() {
    let g = HybridBlockedCsr::new(4, 2);
    let bytes = g.serialize();
    assert!(matches!(HybridBlockedCsr::deserialize(&bytes[..3]), Err(SerializeError::Io(_))));
    let cut = &bytes[..bytes.len() - 1];
    assert!(matches!(HybridBlockedCsr::deserialize(cut), Err(SerializeError::Io(_))));
}

#[test]
fn header_roundtrip() {
    let header = IndexHeader::new(0xDEADBEEF);
    let bytes = header.to_bytes();
    assert_eq!(bytes.len(), HEADER_SIZE);
    let restored = IndexHeader::from_bytes(&bytes).unwrap();
    assert_eq!(restored.magic, INDEX_MAGIC);
    assert_eq!(restored.version, INDEX_VERSION);
    assert_eq!(restored.crc32, 0xDEADBEEF);
}

#[test]
fn header_validate_ok() {
    let header = IndexHeader::new(0);
    assert!(header.validate().is_ok());
}

#[test]
fn header_validate_magic_mismatch() {
    let mut header = IndexHeader::new(0);
    header.magic = 0x12345678;
    let err = header.validate().unwrap_err();
    assert!(matches!(err, SerializeError::MagicMismatch { .. }));
}

#[test]
fn header_validate_version_mismatch() {
    let mut header = IndexHeader::new(0);
    header.version = 999;
    let err = header.validate().unwrap_err();
    assert!(matches!(err, SerializeError::VersionMismatch { .. }));
}

#[test]
fn short_header_is_refused() {
    let bytes = IndexHeader::new(7).to_bytes();
    assert!(IndexHeader::from_bytes(&bytes[..HEADER_SIZE - 1]).is_err());
}

#[test]
fn crc32_basic() {
    let data = b"hello world";
    let crc = crc32(data);
    assert_eq!(crc, 0x0D4A1185);
}

#[test]
fn header_to_bytes_little_endian() {
    let header = IndexHeader::new(0x12345678);
    let bytes = header.to_bytes();
    assert_eq!(&bytes[0..4], &[0x58, 0x4E, 0x4E, 0x41]);
    assert_eq!(&bytes[12..16], &[0x78, 0x56, 0x34, 0x12]);
}

#[test]
fn query_context_new() {
    let ctx = QueryContext::new(1000, 200, 768);
    assert_eq!(ctx.visited.len(), 1000);
    assert!(ctx.numa_node.is_none());
}

#[test]
fn query_context_reset() {
    let mut ctx = QueryContext::new(1000, 200, 768);
    ctx.visited.visit(5);
    ctx.candidate_buf.push(10);
    ctx.reset();
    assert_eq!(ctx.visited.visited_count(), 0);
    assert!(ctx.candidate_buf.is_empty());
}

#[test]
fn query_context_numa_placeholder() {
    let mut ctx = QueryContext::new(100, 64, 128);
    assert!(ctx.numa_node.is_none());
    ctx.set_numa_node(1);
    assert_eq!(ctx.numa_node, Some(1));
}

#[test]
fn gemm_threshold_is_8() {
    assert_eq!(GEMM_THRESHOLD, 8);
}

#[test]
fn aligned_from_slice_copies() {
    let src = numbers(&[1.0, 2.0, 3.0, 4.0]);
    let v = aligned_from_slice(&src);
    assert_eq!(v.as_slice(), &src[..]);
}

#[test]
fn few_candidates_are_compared_in_place() {
    let vectors = numbers(&[0.0, 0.0, 3.0, 4.0, 1.0, 1.0]);
    let query = numbers(&[0.0, 0.0]);
    let kernel = ScalarKernel::l2();
    let mut ctx = QueryContext::new(3, 2, 2);
    let all = batch_distance(&kernel, &mut ctx, &[&query], &[1, 2], &vectors, 2);
    assert_eq!(all.len(), 1);
    assert_eq!(all[0].iter().map(|&d| value(d)).collect::<Vec<f32>>(), vec![25.0, 2.0]);
}

#[test]
fn many_candidates_are_packed_first() {
    let vectors: Vec<F32> = numbers(&(0..12).map(|i| i as f32).collect::<Vec<f32>>());
    let query = numbers(&[0.0]);
    let kernel = ScalarKernel::l2();
    let mut ctx = QueryContext::new(12, 10, 1);
    let candidates: Vec<u32> = (0..9).map(|i| 11 - i).collect();
    let all = batch_distance(&kernel, &mut ctx, &[&query, &query], &candidates, &vectors, 1);
    assert_eq!(all.len(), 2);
    // Nine candidates, though the buffer has room for ten.
    assert_eq!(all[0].len(), 9);
    assert_eq!(all[1].len(), 9);
    for i in 0..9 {
        let expected = kernel.distance(&query, &vectors[11 - i..12 - i]);
        assert_eq!(all[0][i], expected);
    }
    assert_eq!(value(ctx.vector_pack_buf.as_slice()[0]), 11.0);
}

#[test]
fn a_buffer_that_is_too_short_is_replaced() {
    let vectors: Vec<F32> = numbers(&(0..12).map(|i| i as f32).collect::<Vec<f32>>());
    let query = numbers(&[0.0]);
    let kernel = ScalarKernel::l2();
    let mut ctx = QueryContext::new(12, 2, 1);
    let candidates: Vec<u32> = (0..10).collect();
    let all = batch_distance(&kernel, &mut ctx, &[&query], &candidates, &vectors, 1);
    assert_eq!(all[0].len(), 10);
    assert_eq!(value(all[0][9]), 81.0);
}

#[test]
fn storage_is_a_graph_to_search_in() {
    let mut g = HybridBlockedCsr::new(3, 2);
    g.add_edge(1, 2);
    let s: &dyn Fn(u32) -> usize = &|n| GraphStorage::neighbors(&g, n).len();
    assert_eq!(s(1), 1);
    assert_eq!(GraphStorage::len(&g), 3);
}

#[test]
fn bytes_of_the_storage() {
    let mut g = HybridBlockedCsr::new(4, 2);
    assert_eq!(g.main_block_bytes(), 4 * 2 * 4);
    assert_eq!(g.overflow_bytes(), 0);
    g.set_neighbors(1, &[0, 2, 3]);
    assert_eq!(g.main_block_bytes(), 32);
    assert_eq!(g.overflow_bytes(), 4);
}

#[test]
fn aligned_vec_32_alignment() {
    let v = aligned_vec_f32(64);
    let addr = v.as_slice().as_ptr() as usize;
    assert_eq!(addr % 32, 0, "must be 32-byte aligned");
    assert_eq!(v.len(), 64);
}

#[test]
fn every_shorter_storage_is_refused() {
    let mut g = HybridBlockedCsr::new(4, 2);
    for to in [1, 2, 3] {
        g.add_edge(0, to);
    }
    g.add_edge(2, 1);
    let bytes = g.serialize();
    for m in 0..bytes.len() {
        assert!(matches!(HybridBlockedCsr::deserialize(&bytes[..m]), Err(SerializeError::Io(_))));
    }
    assert!(HybridBlockedCsr::deserialize(&bytes).is_ok());
}

#[test]
fn storage_from_parts_round_trip() {
    // Behind the first sentinel of a block anything may stand.
    let slots = vec![1, SENTINEL, 7, 0, 2, SENTINEL];
    let g = HybridBlockedCsr::from_parts(2, 3, slots.clone(), vec![vec![], vec![]]);
    let back = HybridBlockedCsr::deserialize(&g.serialize()).unwrap();
    assert_eq!(back.neighbors(0).to_vec(), vec![1]);
    assert_eq!(back.neighbors(1).to_vec(), vec![0, 2]);
    assert_eq!(back.main_block().to_vec(), slots);
}

#[test]
fn neighbours_stand_in_the_order_of_their_first_addition() {
    let mut g = HybridBlockedCsr::new(6, 2);
    for (from, to) in [(0, 4), (1, 2), (0, 2), (0, 4), (0, 5), (1, 0), (0, 2), (0, 1), (0, 5)] {
        g.add_edge(from, to);
    }
    let (block, overflow) = g.neighbors_full(0);
    assert_eq!((block.to_vec(), overflow.to_vec()), (vec![4, 2], vec![5, 1]));
    assert_eq!(g.overflow_bytes(), 8);
}

#[test]
fn rows_have_one_distance_for_each_candidate() {
    let vectors: Vec<F32> = numbers(&(0..30).map(|i| i as f32).collect::<Vec<f32>>());
    let query = numbers(&[1.0]);
    let kernel = ScalarKernel::l2();
    let mut ctx = QueryContext::new(30, 4, 1);
    let many: Vec<u32> = (0..20).collect();
    assert_eq!(batch_distance(&kernel, &mut ctx, &[&query], &many, &vectors, 1)[0].len(), 20);
    let fewer: Vec<u32> = (0..9).map(|i| 2 * i).collect();
    let all = batch_distance(&kernel, &mut ctx, &[&query], &fewer, &vectors, 1);
    let expected: Vec<f32> = (0..9).map(|i| (2.0 * i as f32 - 1.0).powi(2)).collect();
    assert_eq!(all[0].iter().map(|&d| value(d)).collect::<Vec<f32>>(), expected);
    // What the buffer held behind the candidates stays.
    assert_eq!(value(ctx.vector_pack_buf.as_slice()[9]), 9.0);
}

#[test]
fn edges_in_the_overflow_list_are_not_added_twice() {
    let slots = vec![1, SENTINEL, 0, 2];
    let mut g = HybridBlockedCsr::from_parts(2, 2, slots, vec![vec![3], vec![]]);
    g.add_edge(0, 3);
    assert_eq!(g.degree(0), 2);
    g.add_edge(0, 4);
    assert_eq!(g.neighbors_full(0), (&[1u32, 4][..], &[3u32][..]));
}

#[test]
fn checksums_are_remainders_bit_by_bit() {
    let bitwise = |data: &[u8]| {
        let mut register = !0u32;
        for &b in data {
            register ^= b as u32;
            for _ in 0..8 {
                let out = register & 1 == 1;
                register >>= 1;
                if out {
                    register ^= 0xEDB8_8320;
                }
            }
        }
        !register
    };
    assert_eq!(crc32(b"123456789"), 0xCBF4_3926);
    let data: Vec<u8> = (0..300u32).map(|i| (i * 37 % 251) as u8).collect();
    for len in [0, 1, 2, 7, 8, 63, 64, 65, 300] {
        assert_eq!(crc32(&data[..len]), bitwise(&data[..len]));
    }
}
