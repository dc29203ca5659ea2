//! What holds of builds.
use vstd::prelude::*;
use vstd::arithmetic::div_mod;
use crate::build::BuildMetadata;
use crate::build::rng::RngView;
use crate::distance::DistanceKernel;
use crate::distance::single::F32;
use crate::graph::vamana;
use crate::graph::vamana::{VamanaBuildConfig, VamanaGraph};
use crate::graph::vamana_format;
use crate::memory::HybridBlockedCsr;
use crate::memory::graph;

verus! {

/// Where free slots hold the sentinel, the neighbour lists say what stands in every slot.
proof fn lemma_slots_follow(a: HybridBlockedCsr, b: HybridBlockedCsr)
    requires
        a.wf(),
        b.wf(),
        a.free_slots_marked(),
        b.free_slots_marked(),
        a@ == b@,
    ensures
        a.slots() == b.slots(),
{
    a.lemma_shape();
    b.lemma_shape();
    let r = a@.r_max as int;
    assert forall|s: int| 0 <= s < a.slots().len() implies a.slots()[s] == b.slots()[s] by {
        let n = a@.lists.len() as int;
        assert(r > 0) by (nonlinear_arith)
            requires
                0 <= s < n * r,
                n >= 0,
                r >= 0,
        ;
        let i = s / r;
        let k = s % r;
        div_mod::lemma_fundamental_div_mod(s, r);
        assert(s == i * r + k) by (nonlinear_arith)
            requires
                s == r * i + k,
        ;
        assert(0 <= i < n) by (nonlinear_arith)
            requires
                0 <= s < n * r,
                s == i * r + k,
                0 <= k < r,
        ;
        graph::lemma_block_bounds(n, r, i);
        let list = a@.lists[i];
        if k < list.len() {
            assert(list == a.slots().subrange(i * r, i * r + list.len()));
            assert(list == b.slots().subrange(i * r, i * r + list.len()));
            assert(list[k] == a.slots()[i * r + k]);
            assert(list[k] == b.slots()[i * r + k]);
        } else {
            assert(a.slots()[i * a@.r_max + k] == crate::SENTINEL);
            assert(b.slots()[i * b@.r_max + k] == crate::SENTINEL);
        }
    }
    assert(a.slots() =~= b.slots());
}

/// Builds are reproducible: the same vectors, settings, levels and random generator give the same
/// graph, the same entry point and the same layers, whenever the build runs. The records differ in
/// the time alone, and with the same text for the record the two index files are the same bytes.
pub proof fn law_builds_are_reproducible<
    K: DistanceKernel,
    F: Fn(&BuildMetadata) -> Vec<u8>,
>(
    a: VamanaGraph,
    b: VamanaGraph,
    after_a: RngView,
    after_b: RngView,
    kernel: &K,
    vectors: &[F32],
    dim: usize,
    config: &VamanaBuildConfig,
    before: RngView,
    levels: Seq<u8>,
    time_a: u64,
    time_b: u64,
    to_text: F,
)
    requires
        vamana::is_built(
            a,
            after_a,
            kernel,
            vectors,
            dim,
            config,
            before,
            levels,
            time_a,
            to_text,
        ),
        vamana::is_built(
            b,
            after_b,
            kernel,
            vectors,
            dim,
            config,
            before,
            levels,
            time_b,
            to_text,
        ),
    ensures
        after_a == after_b,
        a@.graph == b@.graph,
        a@.entry_point == b@.entry_point,
        a@.layers == b@.layers,
        a@.metadata matches Some(m) && b@.metadata matches Some(o) && (time_a == time_b
            ==> m.same_as(o)) && (BuildMetadata { build_timestamp: time_b, ..m }).same_as(o),
        forall|text: Seq<u8>| #[trigger]
            vamana_format::index_bytes(vamana_format::with_text(a@, text))
                == vamana_format::index_bytes(vamana_format::with_text(b@, text)),
{
    a.lemma_parts();
    b.lemma_parts();
    lemma_slots_follow(a.held(), b.held());
}

} // verus!
