//! Tuning after the build: the neighbours of a finished graph pruned again with other thresholds.
use vstd::prelude::*;
use crate::distance::DistanceKernel;
use crate::distance::double::F64;
use crate::distance::single::{F32, ONE_BITS, ONE_POINT_FIVE_BITS, ONE_POINT_TWO_BITS, TWO_BITS};
use crate::graph::points;
use crate::graph::points::Points;
use crate::graph::robust_prune::PruneStrategy;
use crate::graph::search;
use crate::graph::vamana::VamanaGraph;
use crate::memory::HybridBlockedCsr;
use crate::memory::graph::CsrView;
use crate::SENTINEL;

verus! {

/// The bits of 0.005: half a percent of recall.
pub const RECALL_THRESHOLD_BITS: u64 = 0x3F74_7AE1_47AE_147B;

/// The bits of 0.03: three percent of throughput.
pub const QPS_THRESHOLD_BITS: u64 = 0x3F9E_B851_EB85_1EB8;

/// What is kept of a build for tuning.
#[derive(Debug, Clone, Copy, PartialEq, Eq, Structural)]
pub enum RPTuningStorageScheme {
    /// Only the neighbours themselves.
    SchemeA,
    /// Also the neighbours that were pruned away. Tuned as the first scheme.
    SchemeB,
    /// All candidates. Tuned as the first scheme.
    SchemeC,
}

impl Default for RPTuningStorageScheme {
    fn default() -> (s: Self)
        ensures
            s == RPTuningStorageScheme::SchemeA,
    {
        RPTuningStorageScheme::SchemeA
    }
}

/// The settings of a tuning.
#[derive(Debug, Clone)]
pub struct RPTuningConfig {
    /// What was kept of the build.
    pub scheme: RPTuningStorageScheme,
    /// The thresholds.
    pub alpha_points: Vec<F32>,
    /// The degree limit.
    pub r_max: usize,
}

/// The usual thresholds: 1, 1.2, 1.5 and 2.
pub open spec fn usual_alphas() -> Seq<F32> {
    seq![F32(ONE_BITS), F32(ONE_POINT_TWO_BITS), F32(ONE_POINT_FIVE_BITS), F32(TWO_BITS)]
}

impl Default for RPTuningConfig {
    fn default() -> (c: Self)
        ensures
            c.scheme == RPTuningStorageScheme::SchemeA,
            c.alpha_points@ == usual_alphas(),
            c.r_max == 64,
    {
        let points = vec![
            F32(ONE_BITS),
            F32(ONE_POINT_TWO_BITS),
            F32(ONE_POINT_FIVE_BITS),
            F32(TWO_BITS),
        ];
        assert(points@ =~= usual_alphas());
        RPTuningConfig { scheme: RPTuningStorageScheme::SchemeA, alpha_points: points, r_max: 64 }
    }
}

/// A graph pruned again with one threshold.
pub struct AlphaVariant {
    /// The threshold.
    pub alpha: F32,
    /// The graph.
    pub storage: HybridBlockedCsr,
    /// Where a search starts.
    pub entry_point: u32,
}

impl AlphaVariant {
    /// The variant as an index.
    pub fn into_graph(self, dim: usize) -> (g: VamanaGraph)
        requires
            self.storage.wf(),
        ensures
            g.wf(),
            g.held() == self.storage,
            g@.graph == self.storage@,
            g@.entry_point == self.entry_point,
            g@.dim == dim,
            g@.n == self.storage@.lists.len(),
            g@.metadata is None,
            g@.layers is None,
    {
        VamanaGraph::from_storage(self.storage, self.entry_point, dim)
    }
}

/// The neighbours of a node after it is pruned again: candidates are its neighbours, and there is
/// no filling up.
pub open spec fn retuned<K: DistanceKernel>(
    data: Points<K>,
    rows: Seq<Seq<u32>>,
    node: int,
    alpha: F32,
    r_max: usize,
) -> Seq<u32> {
    data.pruned(PruneStrategy::RobustPrune, node as u32, rows[node], alpha, r_max, false)
}

/// The graph after every node is pruned again.
pub open spec fn variant_view<K: DistanceKernel>(
    data: Points<K>,
    rows: Seq<Seq<u32>>,
    alpha: F32,
    r_max: usize,
) -> CsrView {
    CsrView {
        r_max: r_max as nat,
        lists: Seq::new(rows.len(), |i: int| retuned(data, rows, i, alpha, r_max)),
        overflow: Seq::new(rows.len(), |i: int| Seq::<u32>::empty()),
    }
}

/// Whether the tuning has cost too much.
#[derive(Debug, Clone)]
pub struct RPTuningDegradationResult {
    /// The loss of recall at the same throughput.
    pub recall_at_qps_diff: F64,
    /// The loss of throughput at the same recall.
    pub qps_at_recall_diff: F64,
    /// Whether one of them is too great.
    pub is_degraded: bool,
    /// The loss of recall from which on it is too great.
    pub recall_threshold: F64,
    /// The loss of throughput from which on it is too great.
    pub qps_threshold: F64,
}

/// Whether the tuning has left the graph connected well enough. A mean degree is a sum of degrees
/// over a number of nodes.
#[derive(Debug, Clone)]
pub struct ConnectivityCheck {
    /// Whether there are at most twice as many nodes without neighbours.
    pub isolated_ok: bool,
    /// Whether the mean degree is at least 95 percent.
    pub mean_degree_ok: bool,
    /// The nodes without neighbours.
    pub variant_isolated: usize,
    /// The nodes without neighbours that the base has.
    pub baseline_isolated: usize,
    /// The sum of the degrees.
    pub variant_total_degree: u128,
    /// The number of nodes.
    pub variant_nodes: usize,
    /// The sum of the degrees of the base.
    pub baseline_total_degree: u64,
    /// The number of nodes of the base.
    pub baseline_nodes: usize,
}

/// Tuning after the build.
pub struct RPTuning;

impl RPTuning {
    /// A variant of the graph for each threshold.
    pub fn generate_variants<K: DistanceKernel>(
        kernel: &K,
        base_graph: &VamanaGraph,
        vectors: &[F32],
        dim: usize,
        config: &RPTuningConfig,
    ) -> (variants: Vec<AlphaVariant>)
        requires
            base_graph.wf(),
            search::covers(vectors@, dim as int, base_graph@.n as nat),
            search::closed_below(base_graph@.graph.lists, base_graph@.n as nat),
            config.r_max <= u16::MAX,
            base_graph@.n * config.r_max <= usize::MAX,
            forall|i: int|
                0 <= i < config.alpha_points@.len() ==> !(
                #[trigger] config.alpha_points@[i]).nan(),
        ensures
            variants@.len() == config.alpha_points@.len(),
            forall|i: int|
                0 <= i < variants@.len() ==> {
                    &&& (#[trigger] variants@[i]).alpha == config.alpha_points@[i]
                    &&& variants@[i].entry_point == base_graph@.entry_point
                    &&& variants@[i].storage.wf()
                    &&& variants@[i].storage.free_slots_marked()
                    &&& variants@[i].storage@ == variant_view(
                        Points { kernel, vectors, dim },
                        base_graph@.graph.lists,
                        config.alpha_points@[i],
                        config.r_max,
                    )
                },
    {
        let data = Points { kernel, vectors, dim };
        proof {
            base_graph.lemma_parts();
            base_graph.held().lemma_shape();
        }
        let mut variants: Vec<AlphaVariant> = Vec::with_capacity(config.alpha_points.len());
        let mut i: usize = 0;
        while i < config.alpha_points.len()
            invariant
                i <= config.alpha_points@.len(),
                base_graph.wf(),
                base_graph@.n == base_graph@.graph.lists.len(),
                base_graph@.n <= SENTINEL,
                data == (Points { kernel, vectors, dim }),
                data.has(base_graph@.n as nat),
                search::closed_below(base_graph@.graph.lists, base_graph@.n as nat),
                config.r_max <= u16::MAX,
                base_graph@.n * config.r_max <= usize::MAX,
                forall|j: int|
                    0 <= j < config.alpha_points@.len() ==> !(
                    #[trigger] config.alpha_points@[j]).nan(),
                variants@.len() == i,
                forall|j: int|
                    0 <= j < variants@.len() ==> {
                        &&& (#[trigger] variants@[j]).alpha == config.alpha_points@[j]
                        &&& variants@[j].entry_point == base_graph@.entry_point
                        &&& variants@[j].storage.wf()
                        &&& variants@[j].storage.free_slots_marked()
                        &&& variants@[j].storage@ == variant_view(
                            data,
                            base_graph@.graph.lists,
                            config.alpha_points@[j],
                            config.r_max,
                        )
                    },
            decreases config.alpha_points@.len() - i,
        {
            let alpha: F32 = config.alpha_points[i];
            let storage = retune(&data, base_graph, alpha, config.r_max);
            variants.push(AlphaVariant { alpha, storage, entry_point: base_graph.entry_point() });
            i += 1;
        }
        variants
    }

    /// Whether the losses are too great: recall must lose less than half a percent at the same
    /// throughput, and throughput less than three percent at the same recall.
    pub fn check_degradation(
        recall_at_qps_diff: F64,
        qps_at_recall_diff: F64,
    ) -> (r: RPTuningDegradationResult)
        ensures
            r.recall_at_qps_diff == recall_at_qps_diff,
            r.qps_at_recall_diff == qps_at_recall_diff,
            r.recall_threshold == F64(RECALL_THRESHOLD_BITS),
            r.qps_threshold == F64(QPS_THRESHOLD_BITS),
            r.is_degraded == !(recall_at_qps_diff.below(F64(RECALL_THRESHOLD_BITS))
                && qps_at_recall_diff.below(F64(QPS_THRESHOLD_BITS))),
    {
        let recall_ok: bool = recall_at_qps_diff.lt(F64(RECALL_THRESHOLD_BITS));
        let qps_ok: bool = qps_at_recall_diff.lt(F64(QPS_THRESHOLD_BITS));
        RPTuningDegradationResult {
            recall_at_qps_diff,
            qps_at_recall_diff,
            is_degraded: !(recall_ok && qps_ok),
            recall_threshold: F64(RECALL_THRESHOLD_BITS),
            qps_threshold: F64(QPS_THRESHOLD_BITS),
        }
    }

    /// Whether a variant is connected well enough, against a base with the given number of nodes
    /// without neighbours, sum of degrees and number of nodes.
    pub fn check_connectivity(
        variant: &AlphaVariant,
        baseline_isolated: usize,
        baseline_total_degree: u64,
        baseline_nodes: usize,
    ) -> (c: ConnectivityCheck)
        requires
            variant.storage.wf(),
            baseline_nodes <= SENTINEL,
        ensures
            c.baseline_isolated == baseline_isolated,
            c.baseline_total_degree == baseline_total_degree,
            c.baseline_nodes == baseline_nodes,
            ({
                let stats = variant.storage@.degrees();
                &&& c.variant_nodes == stats.len()
                &&& c.variant_isolated == stats.len() - crate::memory::graph::count_above(stats, 0)
                &&& c.variant_total_degree == crate::memory::graph::sum_of(stats)
                &&& c.isolated_ok == (c.variant_isolated <= 2 * baseline_isolated)
                &&& c.mean_degree_ok == at_least_95_percent(
                    crate::memory::graph::sum_of(stats),
                    stats.len() as int,
                    baseline_total_degree as int,
                    baseline_nodes as int,
                )
            }),
    {
        let stats = variant.storage.log_degree_distribution();
        let nodes: u64 = if stats.nodes == 0 {
            1
        } else {
            stats.nodes as u64
        };
        let base_nodes: u64 = if baseline_nodes == 0 {
            1
        } else {
            baseline_nodes as u64
        };
        proof {
            variant.storage.lemma_shape();
            lemma_degrees_fit(variant.storage@);
            let total = stats.total_degree as int;
            assert(0 <= total * base_nodes <= 0xFFFF_FFFF_FFFF_FFFF_FFFF_FFFF * 0xFFFF_FFFF)
                by (nonlinear_arith)
                requires
                    0 <= total <= 0xFFFF_FFFF_FFFF_FFFF_FFFF_FFFF,
                    0 <= base_nodes <= 0xFFFF_FFFF,
            ;
            assert(0 <= baseline_total_degree * nodes <= 0xFFFF_FFFF_FFFF_FFFF * 0xFFFF_FFFF)
                by (nonlinear_arith)
                requires
                    0 <= baseline_total_degree <= 0xFFFF_FFFF_FFFF_FFFF,
                    0 <= nodes <= 0xFFFF_FFFF,
            ;
        }
        let left: u128 = stats.total_degree * base_nodes as u128;
        let right: u128 = baseline_total_degree as u128 * nodes as u128;
        let mean_degree_ok: bool = hundredfold_reaches(left, right);
        ConnectivityCheck {
            isolated_ok: stats.isolated_nodes as u128 <= 2 * baseline_isolated as u128,
            mean_degree_ok,
            variant_isolated: stats.isolated_nodes,
            baseline_isolated,
            variant_total_degree: stats.total_degree,
            variant_nodes: stats.nodes,
            baseline_total_degree,
            baseline_nodes,
        }
    }
}

/// A number of nodes as the divisor of a mean: at least one.
pub open spec fn divisor(nodes: int) -> int {
    if nodes == 0 {
        1
    } else {
        nodes
    }
}

/// Whether the mean `total / nodes` is at least 95 percent of the mean `base_total / base_nodes`.
pub open spec fn at_least_95_percent(
    total: int,
    nodes: int,
    base_total: int,
    base_nodes: int,
) -> bool {
    100 * (total * divisor(base_nodes)) >= 95 * (base_total * divisor(nodes))
}

/// A mean is at least 95 percent of another where nineteen twentieths of the other are no more, whatever
/// the numbers of nodes that the means are of.
pub proof fn law_shares_are_of_means(mean: int, nodes: int, base_mean: int, base_nodes: int)
    requires
        nodes > 0,
        base_nodes > 0,
    ensures
        at_least_95_percent(mean * nodes, nodes, base_mean * base_nodes, base_nodes) <==> 20 * mean
            >= 19 * base_mean,
{
    let both = nodes * base_nodes;
    assert(both > 0) by (nonlinear_arith)
        requires
            both == nodes * base_nodes,
            nodes > 0,
            base_nodes > 0,
    ;
    assert((mean * nodes) * base_nodes == mean * both) by (nonlinear_arith)
        requires
            both == nodes * base_nodes,
    ;
    assert((base_mean * base_nodes) * nodes == base_mean * both) by (nonlinear_arith)
        requires
            both == nodes * base_nodes,
    ;
    let gap = 20 * mean - 19 * base_mean;
    assert(100 * (mean * both) - 95 * (base_mean * both) == 5 * (gap * both)) by (nonlinear_arith)
        requires
            gap == 20 * mean - 19 * base_mean,
    ;
    assert(gap * both >= 0 <==> gap >= 0) by (nonlinear_arith)
        requires
            both > 0,
    ;
}

/// Whether `100 * left >= 95 * right`.
fn hundredfold_reaches(left: u128, right: u128) -> (b: bool)
    requires
        right <= 0xFFFF_FFFF_FFFF_FFFF * 0xFFFF_FFFF,
    ensures
        b == (100 * left >= 95 * right),
{
    if left >= right {
        return true;
    }
    100 * left >= 95 * right
}

/// A sum of degrees is below `2^96`.
proof fn lemma_degrees_fit(view: CsrView)
    requires
        view.lists.len() <= SENTINEL,
        forall|i: int|
            0 <= i < view.lists.len() ==> (#[trigger] view.lists[i]).len()
                + view.overflow[i].len() <= usize::MAX,
    ensures
        0 <= crate::memory::graph::sum_of(view.degrees()) <= 0xFFFF_FFFF_FFFF_FFFF_FFFF_FFFF,
{
    let d = view.degrees();
    assert forall|i: int| 0 <= i < d.len() implies 0 <= #[trigger] d[i] <= 0xFFFF_FFFF_FFFF_FFFF by {
        assert(view.lists[i].len() + view.overflow[i].len() <= usize::MAX);
    }
    lemma_sum_bound(d, 0xFFFF_FFFF_FFFF_FFFF);
    assert(d.len() * 0xFFFF_FFFF_FFFF_FFFF <= 0xFFFF_FFFF * 0xFFFF_FFFF_FFFF_FFFF)
        by (nonlinear_arith)
        requires
            d.len() <= 0xFFFF_FFFF,
    ;
}

proof fn lemma_sum_bound(s: Seq<int>, bound: int)
    requires
        bound >= 0,
        forall|i: int| 0 <= i < s.len() ==> 0 <= #[trigger] s[i] <= bound,
    ensures
        0 <= crate::memory::graph::sum_of(s) <= s.len() * bound,
    decreases s.len(),
{
    if s.len() > 0 {
        let t = s.drop_last();
        assert forall|i: int| 0 <= i < t.len() implies 0 <= #[trigger] t[i] <= bound by {
            assert(t[i] == s[i]);
        }
        lemma_sum_bound(t, bound);
        assert(s.len() * bound == t.len() * bound + bound) by (nonlinear_arith)
            requires
                s.len() == t.len() + 1,
        ;
    } else {
        assert(s.len() * bound == 0) by (nonlinear_arith)
            requires
                s.len() == 0,
        ;
    }
}

/// The graph after every node is pruned again.
fn retune<K: DistanceKernel>(
    data: &Points<K>,
    base: &VamanaGraph,
    alpha: F32,
    r_max: usize,
) -> (storage: HybridBlockedCsr)
    requires
        base.wf(),
        base@.n == base@.graph.lists.len(),
        base@.n <= SENTINEL,
        data.has(base@.n as nat),
        search::closed_below(base@.graph.lists, base@.n as nat),
        r_max <= u16::MAX,
        base@.n * r_max <= usize::MAX,
        !alpha.nan(),
    ensures
        storage.wf(),
        storage.free_slots_marked(),
        storage@ == variant_view(*data, base@.graph.lists, alpha, r_max),
{
    let n: usize = base.len();
    let ghost rows = base@.graph.lists;
    let mut storage = HybridBlockedCsr::new(n, r_max);
    let ghost whole = variant_view(*data, rows, alpha, r_max);
    let mut node: u32 = 0;
    while (node as usize) < n
        invariant
            node <= n,
            n == base@.n,
            base.wf(),
            rows == base@.graph.lists,
            rows.len() == n,
            n <= SENTINEL,
            data.has(n as nat),
            search::closed_below(rows, n as nat),
            !alpha.nan(),
            whole == variant_view(*data, rows, alpha, r_max),
            storage.wf(),
            storage.free_slots_marked(),
            storage@.r_max == r_max,
            storage@.lists.len() == n,
            storage@.overflow.len() == n,
            forall|i: int| 0 <= i < node ==> #[trigger] storage@.lists[i] == whole.lists[i],
            forall|i: int|
                0 <= i < n ==> (#[trigger] storage@.overflow[i]) == Seq::<u32>::empty(),
        decreases n - node,
    {
        let row = base.neighbors(node);
        proof {
            assert forall|j: int| 0 <= j < row@.len() implies (#[trigger] row@[j]) < n by {
                assert(rows[node as int][j] < n);
            }
        }
        let kept = data.prune(
            PruneStrategy::RobustPrune,
            node,
            row,
            alpha,
            r_max,
            false,
            Ghost(n as nat),
        );
        let ghost before = storage@;
        storage.set_neighbors(node, kept.as_slice());
        proof {
            assert(storage@.lists[node as int] =~= kept@);
            assert(storage@.overflow[node as int] =~= Seq::<u32>::empty());
            assert forall|i: int| 0 <= i < n implies (#[trigger] storage@.overflow[i]) == Seq::<
                u32,
            >::empty() by {
                assert(before.overflow[i] == Seq::<u32>::empty());
            }
        }
        node += 1;
    }
    assert(storage@ =~= whole) by {
        assert(storage@.lists =~= whole.lists);
        assert(storage@.overflow =~= whole.overflow);
    }
    storage
}

} // verus!
