//! Measures of a finished graph: how long its edges are, how great the quantization errors along
//! them, how well it is connected, how stable its recall is.
use vstd::prelude::*;
use crate::distance::DistanceKernel;
use crate::distance::ordering;
use crate::distance::ordering::{places_by_rank, sort_numbers};
use crate::distance::single::{F32, ONE_BITS, ONE_TENTH_BITS, THREE_TENTHS_BITS};
use crate::distance::sums;
use crate::distance::sums::sum;
use crate::graph::points::Points;
use crate::graph::quant_aware_prune::ErrorFn;
use crate::graph::search;
use crate::memory::HybridBlockedCsr;
use crate::memory::graph;
use crate::memory::graph::CsrView;
use crate::sorting;
use crate::SENTINEL;

verus! {

/// A list of numbers summed up.
pub struct Summary {
    /// The borders of the bins.
    pub bins: Seq<F32>,
    /// How many numbers each bin holds.
    pub counts: Seq<int>,
    /// The mean.
    pub mean: F32,
    /// The median.
    pub median: F32,
    /// The 95th percentile.
    pub p95: F32,
    /// The 99th percentile.
    pub p99: F32,
}

/// The number that stands at a percentile of a list in order.
pub open spec fn at_percentile(sorted: Seq<F32>, pct: int) -> F32 {
    sorted[graph::percentile_index(sorted.len() as int, pct)]
}

/// How wide a bin is.
pub open spec fn bin_width(low: F32, high: F32, bins: nat) -> F32 {
    let range = high.less(low);
    if F32(0).below(range) {
        range.over(F32::of_int(bins))
    } else {
        F32(ONE_BITS)
    }
}

/// Which bin a number falls into.
pub open spec fn bin_of(v: F32, low: F32, high: F32, bins: nat) -> int {
    let place = v.less(low).over(bin_width(low, high, bins)).whole_usize() as int;
    if high.at_most(v) || place >= bins {
        bins - 1
    } else {
        place
    }
}

/// How many of a list of numbers fall into a bin.
pub open spec fn bin_count(sorted: Seq<F32>, low: F32, high: F32, bins: nat, b: int) -> int
    decreases sorted.len(),
{
    if sorted.len() == 0 {
        0
    } else {
        bin_count(sorted.drop_last(), low, high, bins, b) + (if bin_of(
            sorted.last(),
            low,
            high,
            bins,
        ) == b {
            1int
        } else {
            0
        })
    }
}

/// A list of numbers, not empty, summed up with the given number of bins.
pub open spec fn summary_of(values: Seq<F32>, bins: nat) -> Summary {
    let sorted = ordering::ascending(values);
    let low = sorted[0];
    let high = sorted[sorted.len() - 1];
    Summary {
        bins: Seq::new(
            bins + 1,
            |i: int| low.plus(F32::of_int(i as nat).times(bin_width(low, high, bins))),
        ),
        counts: Seq::new(bins, |b: int| bin_count(sorted, low, high, bins, b)),
        mean: sums::total(sorted).over(F32::of_int(sorted.len())),
        median: at_percentile(sorted, 50),
        p95: at_percentile(sorted, 95),
        p99: at_percentile(sorted, 99),
    }
}

/// The lengths of edges, summed up.
#[derive(Debug, Clone)]
pub struct EdgeLengthHistogram {
    /// The borders of the bins.
    pub bins: Vec<F32>,
    /// How many edges each bin holds.
    pub counts: Vec<usize>,
    /// How many edges there are.
    pub total_edges: usize,
    /// The mean.
    pub mean: F32,
    /// The median.
    pub median: F32,
    /// The 95th percentile.
    pub p95: F32,
    /// The 99th percentile.
    pub p99: F32,
}

/// The errors along edges, summed up.
#[derive(Debug, Clone)]
pub struct ErrorDistribution {
    /// The borders of the bins.
    pub bins: Vec<F32>,
    /// How many edges each bin holds.
    pub counts: Vec<usize>,
    /// How many edges there are.
    pub total_edges: usize,
    /// The mean.
    pub mean: F32,
    /// The median.
    pub median: F32,
    /// The 95th percentile.
    pub p95: F32,
    /// The 99th percentile.
    pub p99: F32,
}

/// Counts as integers.
pub open spec fn as_ints(counts: Seq<usize>) -> Seq<int> {
    counts.map_values(|c: usize| c as int)
}

impl EdgeLengthHistogram {
    /// The list that is summed up here.
    pub open spec fn sums_up(self, values: Seq<F32>, bins: nat) -> bool {
        &&& self.total_edges == values.len()
        &&& if values.len() == 0 {
            &&& self.bins@.len() == 0
            &&& self.counts@.len() == 0
            &&& self.mean == F32(0)
            &&& self.median == F32(0)
            &&& self.p95 == F32(0)
            &&& self.p99 == F32(0)
        } else {
            summary_of(values, bins) == (Summary {
                bins: self.bins@,
                counts: as_ints(self.counts@),
                mean: self.mean,
                median: self.median,
                p95: self.p95,
                p99: self.p99,
            })
        }
    }

    /// The lengths of all edges that a search looks at, summed up.
    pub fn compute<K: DistanceKernel>(
        kernel: &K,
        storage: &HybridBlockedCsr,
        vectors: &[F32],
        dim: usize,
        bins_count: usize,
    ) -> (h: Self)
        requires
            storage.wf(),
            search::covers(vectors@, dim as int, storage@.lists.len()),
            search::closed_below(storage@.lists, storage@.lists.len()),
            has_edge(storage@.lists) ==> 1 <= bins_count < usize::MAX,
        ensures
            ({
                let data = Points { kernel, vectors, dim };
                h.sums_up(
                    along_edges(
                        storage@.lists,
                        |u: u32, v: u32|
                            data.score_to(data.vector(u as int))(v),
                        storage@.lists.len() as int,
                    ),
                    bins_count as nat,
                )
            }),
    {
        let data = Points { kernel, vectors, dim };
        let measure = LengthMeasure { data: &data, n: storage.len() };
        proof {
            storage.lemma_shape();
        }
        let lengths = measure_edges(&measure, storage);
        proof {
            assert((|u: u32, v: u32| measure.measured(u, v)) =~= (|u: u32, v: u32|
                data.score_to(data.vector(u as int))(v)));
            lemma_measured_edge(
                storage@.lists,
                |u: u32, v: u32| measure.measured(u, v),
                storage@.lists.len() as int,
            );
        }
        EdgeLengthHistogram::from_values(lengths.as_slice(), bins_count)
    }

    /// A list of lengths, summed up.
    pub fn from_values(values: &[F32], bins_count: usize) -> (h: Self)
        requires
            values@.len() > 0 ==> 1 <= bins_count < usize::MAX,
        ensures
            h.sums_up(values@, bins_count as nat),
    {
        let d = ErrorDistribution::from_values(values, bins_count);
        EdgeLengthHistogram {
            bins: d.bins,
            counts: d.counts,
            total_edges: d.total_edges,
            mean: d.mean,
            median: d.median,
            p95: d.p95,
            p99: d.p99,
        }
    }
}

impl ErrorDistribution {
    /// The list that is summed up here.
    pub open spec fn sums_up(self, values: Seq<F32>, bins: nat) -> bool {
        &&& self.total_edges == values.len()
        &&& if values.len() == 0 {
            &&& self.bins@.len() == 0
            &&& self.counts@.len() == 0
            &&& self.mean == F32(0)
            &&& self.median == F32(0)
            &&& self.p95 == F32(0)
            &&& self.p99 == F32(0)
        } else {
            summary_of(values, bins) == (Summary {
                bins: self.bins@,
                counts: as_ints(self.counts@),
                mean: self.mean,
                median: self.median,
                p95: self.p95,
                p99: self.p99,
            })
        }
    }

    /// A list of errors, summed up.
    pub fn from_values(values: &[F32], bins_count: usize) -> (d: Self)
        requires
            values@.len() > 0 ==> 1 <= bins_count < usize::MAX,
        ensures
            d.sums_up(values@, bins_count as nat),
    {
        assert(values@.len() == values.len());
        if values.len() == 0 {
            return ErrorDistribution {
                bins: Vec::new(),
                counts: Vec::new(),
                total_edges: 0,
                mean: F32(0),
                median: F32(0),
                p95: F32(0),
                p99: F32(0),
            };
        }
        let sorted = sort_numbers(values);
        let n: usize = sorted.len();
        let low: F32 = sorted[0];
        let high: F32 = sorted[n - 1];
        let range = high.sub(low);
        let width: F32 = if range.gt(F32(0)) {
            range.div(F32::from_usize(bins_count))
        } else {
            F32(ONE_BITS)
        };
        assert(width == bin_width(low, high, bins_count as nat));
        let bins = bin_borders(low, width, bins_count);
        let counts = count_bins(&sorted, low, high, width, bins_count);
        let mean = sum(&sorted).div(F32::from_usize(n));
        let median = pick_percentile(&sorted, 50);
        let p95 = pick_percentile(&sorted, 95);
        let p99 = pick_percentile(&sorted, 99);
        proof {
            let want = summary_of(values@, bins_count as nat);
            assert(bins@ =~= want.bins);
            assert(as_ints(counts@) =~= want.counts);
        }
        ErrorDistribution { bins, counts, total_edges: values.len(), mean, median, p95, p99 }
    }
}

proof fn lemma_counts_grow(a: Seq<int>, b: Seq<int>, at: int)
    requires
        a.len() == b.len(),
        0 <= at < a.len(),
        b[at] == a[at] + 1,
        forall|i: int| 0 <= i < a.len() && i != at ==> b[i] == a[i],
    ensures
        graph::sum_of(b) == graph::sum_of(a) + 1,
    decreases a.len(),
{
    if at == a.len() - 1 {
        assert(a.drop_last() =~= b.drop_last());
    } else {
        lemma_counts_grow(a.drop_last(), b.drop_last(), at);
    }
}

proof fn lemma_zeros(n: nat)
    ensures
        graph::sum_of(Seq::new(n, |i: int| 0int)) == 0,
    decreases n,
{
    if n > 0 {
        let s = Seq::new(n, |i: int| 0int);
        assert(s.drop_last() =~= Seq::new((n - 1) as nat, |i: int| 0int));
        lemma_zeros((n - 1) as nat);
    }
}

/// Every number falls into exactly one bin: the counts of all bins add up to the number of numbers.
pub proof fn law_bins_hold_every_number(sorted: Seq<F32>, low: F32, high: F32, bins: nat)
    requires
        bins >= 1,
    ensures
        graph::sum_of(Seq::new(bins, |b: int| bin_count(sorted, low, high, bins, b)))
            == sorted.len(),
    decreases sorted.len(),
{
    let after = Seq::new(bins, |b: int| bin_count(sorted, low, high, bins, b));
    if sorted.len() == 0 {
        assert(after =~= Seq::new(bins, |i: int| 0int));
        lemma_zeros(bins);
    } else {
        let short = sorted.drop_last();
        let before = Seq::new(bins, |b: int| bin_count(short, low, high, bins, b));
        law_bins_hold_every_number(short, low, high, bins);
        lemma_counts_grow(before, after, bin_of(sorted.last(), low, high, bins));
    }
}

fn bin_borders(low: F32, width: F32, bins_count: usize) -> (bins: Vec<F32>)
    requires
        bins_count < usize::MAX,
    ensures
        bins@ == Seq::new(
            (bins_count + 1) as nat,
            |i: int| low.plus(F32::of_int(i as nat).times(width)),
        ),
{
    let ghost all = Seq::new(
        (bins_count + 1) as nat,
        |i: int| low.plus(F32::of_int(i as nat).times(width)),
    );
    let mut bins: Vec<F32> = Vec::with_capacity(bins_count + 1);
    let mut i: usize = 0;
    while i <= bins_count
        invariant
            i <= bins_count + 1,
            bins_count < usize::MAX,
            all == Seq::new(
                (bins_count + 1) as nat,
                |i: int| low.plus(F32::of_int(i as nat).times(width)),
            ),
            bins@ == all.take(i as int),
        decreases bins_count + 1 - i,
    {
        bins.push(low.add(F32::from_usize(i).mul(width)));
        i += 1;
        assert(bins@ =~= all.take(i as int));
    }
    assert(bins@ =~= all);
    bins
}

fn count_bins(
    sorted: &Vec<F32>,
    low: F32,
    high: F32,
    width: F32,
    bins_count: usize,
) -> (counts: Vec<usize>)
    requires
        bins_count >= 1,
        width == bin_width(low, high, bins_count as nat),
    ensures
        counts@.len() == bins_count,
        forall|b: int|
            0 <= b < bins_count ==> (#[trigger] counts@[b]) == bin_count(
                sorted@,
                low,
                high,
                bins_count as nat,
                b,
            ),
{
    let mut counts: Vec<usize> = vec![0usize;bins_count];
    let mut i: usize = 0;
    assert(sorted@.take(0) =~= Seq::<F32>::empty());
    while i < sorted.len()
        invariant
            i <= sorted@.len(),
            bins_count >= 1,
            width == bin_width(low, high, bins_count as nat),
            counts@.len() == bins_count,
            forall|b: int|
                0 <= b < bins_count ==> (#[trigger] counts@[b]) == bin_count(
                    sorted@.take(i as int),
                    low,
                    high,
                    bins_count as nat,
                    b,
                ) && counts@[b] <= i,
        decreases sorted@.len() - i,
    {
        let v: F32 = sorted[i];
        let mut at: usize = if v.ge(high) {
            bins_count - 1
        } else {
            v.sub(low).div(width).truncate_to_usize()
        };
        if at > bins_count - 1 {
            at = bins_count - 1;
        }
        assert(at == bin_of(v, low, high, bins_count as nat));
        assert(sorted@.take(i + 1).drop_last() =~= sorted@.take(i as int));
        let c: usize = counts[at];
        counts.set(at, c + 1);
        i += 1;
    }
    assert(sorted@.take(i as int) =~= sorted@);
    counts
}

fn pick_percentile(sorted: &Vec<F32>, pct: usize) -> (v: F32)
    requires
        sorted@.len() > 0,
        pct <= 100,
    ensures
        v == at_percentile(sorted@, pct as int),
{
    let m: usize = sorted.len() - 1;
    assert(0 <= m * pct <= m * 100) by (nonlinear_arith)
        requires
            0 <= m,
            0 <= pct <= 100,
    ;
    let idx: u128 = (m as u128 * pct as u128 + 50) / 100;
    sorted[idx as usize]
}

/// What is measured along an edge.
pub trait EdgeMeasure {
    /// The edge can be measured.
    spec fn measurable(&self, u: u32, v: u32) -> bool;

    /// What the edge measures.
    spec fn measured(&self, u: u32, v: u32) -> F32;

    /// What the edge measures.
    fn measure(&self, u: u32, v: u32) -> (d: F32)
        requires
            self.measurable(u, v),
        ensures
            d == self.measured(u, v),
    ;
}

/// The length of an edge.
pub struct LengthMeasure<'a, K: DistanceKernel> {
    /// The vectors.
    pub data: &'a Points<'a, K>,
    /// The number of nodes.
    pub n: usize,
}

impl<'a, K: DistanceKernel> EdgeMeasure for LengthMeasure<'a, K> {
    open spec fn measurable(&self, u: u32, v: u32) -> bool {
        self.data.has(self.n as nat) && u < self.n && v < self.n
    }

    open spec fn measured(&self, u: u32, v: u32) -> F32 {
        self.data.score_to(self.data.vector(u as int))(v)
    }

    fn measure(&self, u: u32, v: u32) -> (d: F32) {
        let a = self.data.slice(u, Ghost(self.n as nat));
        let b = self.data.slice(v, Ghost(self.n as nat));
        self.data.kernel.distance(a, b)
    }
}

/// The quantization error of an edge.
pub struct ErrorMeasure<'a, E: ErrorFn> {
    /// The errors.
    pub errors: &'a E,
}

impl<'a, E: ErrorFn> EdgeMeasure for ErrorMeasure<'a, E> {
    open spec fn measurable(&self, u: u32, v: u32) -> bool {
        self.errors.known(u, v)
    }

    open spec fn measured(&self, u: u32, v: u32) -> F32 {
        self.errors.error_of(u, v)
    }

    fn measure(&self, u: u32, v: u32) -> (d: F32) {
        self.errors.error(u, v)
    }
}

/// What the edges of one node measure.
pub open spec fn along_row(row: Seq<u32>, node: u32, measured: spec_fn(u32, u32) -> F32) -> Seq<
    F32,
> {
    Seq::new(row.len(), |j: int| measured(node, row[j]))
}

/// What the edges of the first `i` nodes measure, node after node.
pub open spec fn along_edges(
    rows: Seq<Seq<u32>>,
    measured: spec_fn(u32, u32) -> F32,
    i: int,
) -> Seq<F32>
    decreases i,
{
    if i <= 0 {
        Seq::empty()
    } else {
        along_edges(rows, measured, i - 1) + along_row(rows[i - 1], (i - 1) as u32, measured)
    }
}

/// Some node has a neighbour.
pub open spec fn has_edge(rows: Seq<Seq<u32>>) -> bool {
    exists|i: int| 0 <= i < rows.len() && (#[trigger] rows[i]).len() > 0
}

/// Where something was measured, there is an edge.
proof fn lemma_measured_edge(
    rows: Seq<Seq<u32>>,
    measured: spec_fn(u32, u32) -> F32,
    i: int,
)
    requires
        0 <= i <= rows.len(),
    ensures
        along_edges(rows, measured, i).len() > 0 ==> has_edge(rows),
    decreases i,
{
    if i > 0 {
        lemma_measured_edge(rows, measured, i - 1);
        if rows[i - 1].len() == 0 {
            assert(along_edges(rows, measured, i).len() == along_edges(rows, measured, i - 1).len());
        }
    }
}

/// What all edges that a search looks at measure, node after node.
fn measure_edges<M: EdgeMeasure>(measure: &M, storage: &HybridBlockedCsr) -> (out: Vec<F32>)
    requires
        storage.wf(),
        storage@.lists.len() <= SENTINEL,
        forall|i: int, j: int|
            0 <= i < storage@.lists.len() && 0 <= j < storage@.lists[i].len()
                ==> measure.measurable(i as u32, #[trigger] storage@.lists[i][j]),
    ensures
        out@ == along_edges(
            storage@.lists,
            |u: u32, v: u32| measure.measured(u, v),
            storage@.lists.len() as int,
        ),
{
    let n: usize = storage.len();
    let ghost rows = storage@.lists;
    let ghost f = |u: u32, v: u32| measure.measured(u, v);
    let mut out: Vec<F32> = Vec::new();
    let mut node: u32 = 0;
    while (node as usize) < n
        invariant
            node <= n,
            n == rows.len(),
            n <= SENTINEL,
            rows == storage@.lists,
            storage.wf(),
            f == (|u: u32, v: u32| measure.measured(u, v)),
            forall|i: int, j: int|
                0 <= i < rows.len() && 0 <= j < rows[i].len() ==> measure.measurable(
                    i as u32,
                    #[trigger] rows[i][j],
                ),
            out@ == along_edges(rows, f, node as int),
        decreases n - node,
    {
        let row = storage.neighbors(node);
        let ghost before = out@;
        let ghost part = along_row(row@, node, f);
        let mut j: usize = 0;
        assert(out@ =~= before + part.take(0));
        while j < row.len()
            invariant
                j <= row@.len(),
                node < rows.len(),
                row@ == rows[node as int],
                f == (|u: u32, v: u32| measure.measured(u, v)),
                part == along_row(row@, node, f),
                forall|i: int, j: int|
                    0 <= i < rows.len() && 0 <= j < rows[i].len() ==> measure.measurable(
                        i as u32,
                        #[trigger] rows[i][j],
                    ),
                out@ == before + part.take(j as int),
            decreases row@.len() - j,
        {
            assert(measure.measurable(node, rows[node as int][j as int]));
            out.push(measure.measure(node, row[j]));
            j += 1;
            assert(out@ =~= before + part.take(j as int));
        }
        assert(part.take(j as int) =~= part);
        node += 1;
    }
    out
}

/// How well a graph is connected. The mean degree is `total_degree / max(nodes, 1)`.
#[derive(Debug, Clone)]
pub struct ConnectivityMetrics {
    /// The sum of the degrees.
    pub total_degree: u128,
    /// The number of nodes.
    pub nodes: usize,
    /// The greatest degree.
    pub max_degree: usize,
    /// How many nodes have no neighbour.
    pub isolated_nodes: usize,
    /// How many edges a search looks at.
    pub total_edges: usize,
}

impl ConnectivityMetrics {
    /// What the graph comes to.
    pub open spec fn describes(self, view: CsrView) -> bool {
        &&& self.nodes == view.lists.len()
        &&& self.total_degree == graph::sum_of(view.degrees())
        &&& self.max_degree == graph::max_of(view.degrees())
        &&& self.isolated_nodes == view.lists.len() - graph::count_above(view.degrees(), 0)
        &&& self.total_edges == graph::total_len(view.lists)
    }

    /// How well a graph is connected.
    pub fn compute(storage: &HybridBlockedCsr) -> (m: Self)
        requires
            storage.wf(),
        ensures
            m.describes(storage@),
    {
        let stats = storage.log_degree_distribution();
        let n: usize = storage.len();
        let ghost rows = storage@.lists;
        proof {
            storage.lemma_shape();
            storage.lemma_slots_fit();
        }
        let mut total: usize = 0;
        let mut node: u32 = 0;
        assert(rows.take(0) =~= Seq::<Seq<u32>>::empty());
        while (node as usize) < n
            invariant
                node <= n,
                n == rows.len(),
                n <= SENTINEL,
                rows == storage@.lists,
                storage.wf(),
                forall|i: int|
                    0 <= i < rows.len() ==> (#[trigger] rows[i]).len() <= storage@.r_max,
                n * storage@.r_max <= usize::MAX,
                total <= node * storage@.r_max,
                total == graph::total_len(rows.take(node as int)),
            decreases n - node,
        {
            let len: usize = storage.neighbors(node).len();
            proof {
                assert(rows.take(node + 1).drop_last() =~= rows.take(node as int));
                assert(rows[node as int].len() <= storage@.r_max);
                let r = storage@.r_max;
                assert(node * r + r == (node + 1) * r) by (nonlinear_arith);
                assert((node + 1) * r <= n * r) by (nonlinear_arith)
                    requires
                        node + 1 <= n,
                        r >= 0,
                ;
            }
            total += len;
            node += 1;
        }
        assert(rows.take(node as int) =~= rows);
        ConnectivityMetrics {
            total_degree: stats.total_degree,
            nodes: stats.nodes,
            max_degree: stats.max_degree,
            isolated_nodes: stats.isolated_nodes,
            total_edges: total,
        }
    }
}

/// The recalls of builds with different seeds, summed up.
#[derive(Debug, Clone)]
pub struct RecallVariance {
    /// The recalls.
    pub recalls: Vec<F32>,
    /// Their mean.
    pub mean: F32,
    /// The standard deviation.
    pub std_dev: F32,
    /// The variance.
    pub variance: F32,
}

/// The squared differences to a mean.
pub open spec fn squared_differences(values: Seq<F32>, mean: F32) -> Seq<F32> {
    Seq::new(values.len(), |i: int| values[i].less(mean).times(values[i].less(mean)))
}

impl RecallVariance {
    /// The recalls that are summed up here: their mean, the mean of the squared differences to it,
    /// and the root of that; zeros where there are none.
    pub open spec fn sums_up(self, recalls: Seq<F32>) -> bool {
        let count = F32::of_int(recalls.len());
        &&& self.recalls@ == recalls
        &&& if recalls.len() == 0 {
            self.mean == F32(0) && self.std_dev == F32(0) && self.variance == F32(0)
        } else {
            &&& self.mean == sums::total(recalls).over(count)
            &&& self.variance == sums::total(squared_differences(recalls, self.mean)).over(count)
            &&& self.std_dev == self.variance.root()
        }
    }

    /// Recalls, summed up.
    pub fn from_recalls(recalls: &[F32]) -> (v: Self)
        ensures
            v.sums_up(recalls@),
    {
        let list = vstd::slice::slice_to_vec(recalls);
        if list.len() == 0 {
            return RecallVariance {
                recalls: list,
                mean: F32(0),
                std_dev: F32(0),
                variance: F32(0),
            };
        }
        let count = F32::from_usize(list.len());
        let mean = sum(&list).div(count);
        let ghost all = squared_differences(recalls@, mean);
        let mut squares: Vec<F32> = Vec::with_capacity(list.len());
        let mut i: usize = 0;
        while i < list.len()
            invariant
                i <= list@.len(),
                list@ == recalls@,
                all == squared_differences(recalls@, mean),
                squares@ == all.take(i as int),
            decreases list@.len() - i,
        {
            let d = list[i].sub(mean);
            squares.push(d.mul(d));
            i += 1;
            assert(squares@ =~= all.take(i as int));
        }
        assert(squares@ =~= all);
        let variance = sum(&squares).div(count);
        RecallVariance { recalls: list, mean, std_dev: variance.sqrt(), variance }
    }
}

/// All measures of one graph.
#[derive(Debug, Clone)]
pub struct AblationMetrics {
    /// The weight of the quantization error that the graph was built with.
    pub beta: F32,
    /// The lengths of the edges.
    pub edge_length: EdgeLengthHistogram,
    /// The errors along the edges.
    pub error_distribution: ErrorDistribution,
    /// How well the graph is connected.
    pub connectivity: ConnectivityMetrics,
    /// How stable the recall is.
    pub recall_variance: RecallVariance,
    /// The recall.
    pub recall_at_10: F32,
}

/// Which weights are compared, and with how many bins.
pub struct AblationFramework {
    /// The weights.
    pub beta_points: Vec<F32>,
    /// The number of bins.
    pub bins_count: usize,
}

impl Default for AblationFramework {
    fn default() -> (f: Self)
        ensures
            f.beta_points@ == seq![
                F32(0),
                F32(ONE_TENTH_BITS),
                F32(THREE_TENTHS_BITS),
                F32(ONE_BITS),
            ],
            f.bins_count == 50,
    {
        let points = vec![F32(0), F32(ONE_TENTH_BITS), F32(THREE_TENTHS_BITS), F32(ONE_BITS)];
        assert(points@ =~= seq![
            F32(0),
            F32(ONE_TENTH_BITS),
            F32(THREE_TENTHS_BITS),
            F32(ONE_BITS),
        ]);
        AblationFramework { beta_points: points, bins_count: 50 }
    }
}

/// Whether the measures bear out that greater weights make better graphs.
#[derive(Debug, Clone, Copy, PartialEq, Eq, Structural)]
pub struct ArgumentChainResult {
    /// The share of edges with the smallest errors does not fall.
    pub topology_evidence: bool,
    /// The recall does not fall.
    pub performance_evidence: bool,
    /// The graphs stay connected.
    pub mechanism_explanation: bool,
    /// All three.
    pub chain_holds: bool,
}

/// How many edges are in the bin of the smallest errors.
pub open spec fn low_errors(m: AblationMetrics) -> int {
    if m.error_distribution.counts@.len() > 0 {
        m.error_distribution.counts@[0] as int
    } else {
        0
    }
}

/// The number of edges as a divisor.
pub open spec fn edges_of(m: AblationMetrics) -> int {
    if m.error_distribution.total_edges == 0 {
        1
    } else {
        m.error_distribution.total_edges as int
    }
}

/// The share of edges with the smallest errors does not fall from `a` to `b`.
pub open spec fn share_holds(a: AblationMetrics, b: AblationMetrics) -> bool {
    low_errors(b) * edges_of(a) >= low_errors(a) * edges_of(b)
}

/// The graph has edges, and no more nodes without neighbours than edges.
pub open spec fn stays_connected(m: AblationMetrics) -> bool {
    m.connectivity.isolated_nodes <= m.connectivity.total_edges && m.connectivity.total_degree > 0
}

/// The weights of the graphs.
pub open spec fn weights(metrics: Seq<AblationMetrics>) -> Seq<F32> {
    Seq::new(metrics.len(), |i: int| metrics[i].beta)
}

/// The graphs in order of their weights.
pub open spec fn by_weight(metrics: Seq<AblationMetrics>) -> Seq<AblationMetrics> {
    sorting::gathered(metrics, sorting::the_order(ordering::rank_keys(weights(metrics))))
}

/// Whether the measures of graphs, in order of their weights, bear out the claim. Fewer than two
/// graphs bear out nothing.
pub open spec fn chain_of(metrics: Seq<AblationMetrics>) -> ArgumentChainResult {
    let s = by_weight(metrics);
    if metrics.len() < 2 {
        ArgumentChainResult {
            topology_evidence: false,
            performance_evidence: false,
            mechanism_explanation: false,
            chain_holds: false,
        }
    } else {
        let topology = forall|i: int| 0 < i < s.len() ==> share_holds(s[i - 1], #[trigger] s[i]);
        let performance = forall|i: int|
            0 < i < s.len() ==> s[i - 1].recall_at_10.at_most((#[trigger] s[i]).recall_at_10);
        let mechanism = forall|i: int| 0 <= i < s.len() ==> stays_connected(#[trigger] s[i]);
        ArgumentChainResult {
            topology_evidence: topology,
            performance_evidence: performance,
            mechanism_explanation: mechanism,
            chain_holds: topology && performance && mechanism,
        }
    }
}

impl AblationFramework {
    /// All measures of one graph.
    pub fn compute_metrics<K: DistanceKernel, E: ErrorFn>(
        &self,
        kernel: &K,
        beta: F32,
        storage: &HybridBlockedCsr,
        vectors: &[F32],
        dim: usize,
        error_fn: &E,
        recalls: &[F32],
        recall_at_10: F32,
    ) -> (m: AblationMetrics)
        requires
            has_edge(storage@.lists) ==> 1 <= self.bins_count < usize::MAX,
            storage.wf(),
            search::covers(vectors@, dim as int, storage@.lists.len()),
            search::closed_below(storage@.lists, storage@.lists.len()),
            forall|u: u32, v: u32|
                u < storage@.lists.len() && v < storage@.lists.len() ==> #[trigger] error_fn.known(
                    u,
                    v,
                ),
        ensures
            m.beta == beta,
            m.recall_at_10 == recall_at_10,
            m.recall_variance.sums_up(recalls@),
            m.connectivity.describes(storage@),
            ({
                let data = Points { kernel, vectors, dim };
                m.edge_length.sums_up(
                    along_edges(
                        storage@.lists,
                        |u: u32, v: u32|
                            data.score_to(data.vector(u as int))(v),
                        storage@.lists.len() as int,
                    ),
                    self.bins_count as nat,
                )
            }),
            m.error_distribution.sums_up(
                along_edges(
                    storage@.lists,
                    |u: u32, v: u32| error_fn.error_of(u, v),
                    storage@.lists.len() as int,
                ),
                self.bins_count as nat,
            ),
    {
        let edge_length = EdgeLengthHistogram::compute(
            kernel,
            storage,
            vectors,
            dim,
            self.bins_count,
        );
        let measure = ErrorMeasure { errors: error_fn };
        proof {
            storage.lemma_shape();
        }
        let errors = measure_edges(&measure, storage);
        proof {
            assert((|u: u32, v: u32| measure.measured(u, v)) =~= (|u: u32, v: u32|
                error_fn.error_of(u, v)));
            lemma_measured_edge(
                storage@.lists,
                |u: u32, v: u32| measure.measured(u, v),
                storage@.lists.len() as int,
            );
        }
        AblationMetrics {
            beta,
            edge_length,
            error_distribution: ErrorDistribution::from_values(errors.as_slice(), self.bins_count),
            connectivity: ConnectivityMetrics::compute(storage),
            recall_variance: RecallVariance::from_recalls(recalls),
            recall_at_10,
        }
    }

    /// Whether the measures bear out that greater weights make better graphs.
    pub fn verify_argument_chain(metrics: &[AblationMetrics]) -> (r: ArgumentChainResult)
        ensures
            r == chain_of(metrics@),
    {
        if metrics.len() < 2 {
            return ArgumentChainResult {
                topology_evidence: false,
                performance_evidence: false,
                mechanism_explanation: false,
                chain_holds: false,
            };
        }
        let mut betas: Vec<F32> = Vec::with_capacity(metrics.len());
        let mut i: usize = 0;
        while i < metrics.len()
            invariant
                i <= metrics@.len(),
                betas@ == weights(metrics@).take(i as int),
            decreases metrics@.len() - i,
        {
            betas.push(metrics[i].beta);
            i += 1;
            assert(betas@ =~= weights(metrics@).take(i as int));
        }
        assert(betas@ =~= weights(metrics@));
        let order = places_by_rank(betas.as_slice());
        let ghost s = by_weight(metrics@);
        let mut topology: bool = true;
        let mut performance: bool = true;
        let mut mechanism: bool = true;
        let mut j: usize = 0;
        while j < order.len()
            invariant
                j <= order@.len(),
                s == sorting::gathered(metrics@, order@),
                sorting::is_permutation(order@, metrics@.len()),
                topology == (forall|i: int|
                    0 < i < j ==> share_holds(s[i - 1], #[trigger] s[i])),
                performance == (forall|i: int|
                    0 < i < j ==> s[i - 1].recall_at_10.at_most(
                        (#[trigger] s[i]).recall_at_10,
                    )),
                mechanism == (forall|i: int| 0 <= i < j ==> stays_connected(#[trigger] s[i])),
            decreases order@.len() - j,
        {
            assert(order@[j as int] < metrics@.len());
            let b = &metrics[order[j]];
            assert(*b == s[j as int]);
            if j > 0 {
                assert(order@[j - 1] < metrics@.len());
                let a = &metrics[order[j - 1]];
                assert(*a == s[j - 1]);
                if !share_not_fallen(a, b) {
                    topology = false;
                }
                if !b.recall_at_10.ge(a.recall_at_10) {
                    performance = false;
                }
            }
            if !(b.connectivity.isolated_nodes <= b.connectivity.total_edges
                && b.connectivity.total_degree > 0) {
                mechanism = false;
            }
            j += 1;
        }
        ArgumentChainResult {
            topology_evidence: topology,
            performance_evidence: performance,
            mechanism_explanation: mechanism,
            chain_holds: topology && performance && mechanism,
        }
    }
}

/// Whether the share of edges with the smallest errors does not fall from `a` to `b`.
fn share_not_fallen(a: &AblationMetrics, b: &AblationMetrics) -> (r: bool)
    ensures
        r == share_holds(*a, *b),
{
    let low_a: u64 = if a.error_distribution.counts.len() > 0 {
        a.error_distribution.counts[0] as u64
    } else {
        0
    };
    let low_b: u64 = if b.error_distribution.counts.len() > 0 {
        b.error_distribution.counts[0] as u64
    } else {
        0
    };
    let edges_a: u64 = if a.error_distribution.total_edges == 0 {
        1
    } else {
        a.error_distribution.total_edges as u64
    };
    let edges_b: u64 = if b.error_distribution.total_edges == 0 {
        1
    } else {
        b.error_distribution.total_edges as u64
    };
    assert(low_b * edges_a <= u64::MAX * u64::MAX) by (nonlinear_arith)
        requires
            low_b <= u64::MAX,
            edges_a <= u64::MAX,
    ;
    assert(low_a * edges_b <= u64::MAX * u64::MAX) by (nonlinear_arith)
        requires
            low_a <= u64::MAX,
            edges_b <= u64::MAX,
    ;
    low_b as u128 * edges_a as u128 >= low_a as u128 * edges_b as u128
}

} // verus!
