//! A benchmark on one machine: queries drawn from the vectors, and their true neighbours.
use std::time::{Duration, Instant};
use vstd::prelude::*;
use vstd::slice::slice_to_vec;
use crate::build::{BuildMetadata, ChaCha8Rng};
use crate::build::rng;
use crate::build::rng::{Draw, RngView};
use crate::distance::DistanceKernel;
use crate::distance::kernel;
use crate::distance::kernel::per_call;
use crate::distance::ordering;
use crate::distance::ordering::places_by_rank;
use crate::distance::single::F32;
use crate::evaluation::scan;
use crate::graph::centroid;
use crate::graph::construction;
use crate::graph::construction::{StrategyChoice, VamanaBuildConfig};
use crate::graph::layered;
use crate::graph::linear_pool::Entry;
use crate::graph::points::Points;
use crate::graph::search;
use crate::graph::search::vector_slice;
use crate::graph::searcher;
use crate::graph::searcher::{GraphSearcher, SearcherView};
use crate::graph::vamana;
use crate::graph::vamana::{VamanaGraph, VamanaView};
use crate::memory::graph;
use crate::memory::graph::contains;
use crate::sorting;
use crate::sorting::stable_order;

verus! {

/// How many neighbours a query asks for.
pub const ANSWERS: usize = 10;

/// Vectors, queries and the true neighbours of each query.
pub struct LocalBenchmark {
    vectors: Vec<F32>,
    dim: usize,
    ground_truth: Vec<Vec<u32>>,
    queries: Vec<Vec<F32>>,
}

/// A benchmark as plain values.
pub struct BenchmarkView {
    /// The vectors, one after the other.
    pub vectors: Seq<F32>,
    /// The dimension.
    pub dim: usize,
    /// The true neighbours of each query.
    pub ground_truth: Seq<Seq<u32>>,
    /// The queries.
    pub queries: Seq<Seq<F32>>,
}

/// Lists as plain values.
pub open spec fn rows_of<T>(v: Seq<Vec<T>>) -> Seq<Seq<T>> {
    Seq::new(v.len(), |i: int| v[i]@)
}

impl View for LocalBenchmark {
    type V = BenchmarkView;

    closed spec fn view(&self) -> BenchmarkView {
        BenchmarkView {
            vectors: self.vectors@,
            dim: self.dim,
            ground_truth: rows_of(self.ground_truth@),
            queries: rows_of(self.queries@),
        }
    }
}

/// The generator after `i` numbers below `n` were drawn.
pub open spec fn drawn(start: RngView, n: u64, i: int) -> RngView
    decreases i,
{
    if i <= 0 {
        start
    } else {
        drawn(start, n, i - 1).after(Draw::Below64 { bound: n })
    }
}

/// The vector that query `i` is.
pub open spec fn query_place(n: u64, i: int) -> u64 {
    let state = drawn(RngView::fresh(42), n, i);
    rng::chacha8_below64(state.seed, state.draws, n)
}

/// The distances of all vectors to a query, the query as the first argument.
pub open spec fn all_distances<K: DistanceKernel>(
    kernel: &K,
    vectors: Seq<F32>,
    dim: int,
    query: Seq<F32>,
    n: nat,
) -> Seq<F32> {
    Seq::new(n, |i: int| search::node_distance(kernel, vectors, dim, query, i))
}

/// The `k` nearest of all vectors to a query, the nearest first, equally near ones by number.
pub open spec fn true_neighbors<K: DistanceKernel>(
    kernel: &K,
    vectors: Seq<F32>,
    dim: int,
    query: Seq<F32>,
    n: nat,
    k: usize,
) -> Seq<u32> {
    let order = sorting::the_order(
        ordering::rank_keys(all_distances(kernel, vectors, dim, query, n)),
    );
    Seq::new(
        if k <= n {
            k as nat
        } else {
            n
        },
        |i: int| order[i] as u32,
    )
}

/// How many of the first `i` entries are in a list.
pub open spec fn hits(entries: Seq<Entry>, truth: Seq<u32>, i: int) -> nat
    decreases i,
{
    if i <= 0 {
        0
    } else if truth.contains(entries[i - 1].0) {
        hits(entries, truth, i - 1) + 1
    } else {
        hits(entries, truth, i - 1)
    }
}

/// The `k` nearest of all vectors to a query, found by comparing with every one.
pub fn brute_force<K: DistanceKernel>(
    kernel: &K,
    vectors: &[F32],
    dim: usize,
    query: &[F32],
    k: usize,
) -> (ids: Vec<u32>)
    requires
        dim > 0,
        query@.len() == dim,
        vectors@.len() / dim as nat <= u32::MAX,
    ensures
        ids@ == true_neighbors(
            kernel,
            vectors@,
            dim as int,
            query@,
            vectors@.len() / dim as nat,
            k,
        ),
{
    assert(vectors@.len() == vectors.len());
    let n: usize = vectors.len() / dim;
    let ghost all = all_distances(kernel, vectors@, dim as int, query@, n as nat);
    let mut dists: Vec<F32> = Vec::with_capacity(n);
    let mut i: usize = 0;
    while i < n
        invariant
            i <= n <= u32::MAX,
            dim > 0,
            query@.len() == dim,
            n == vectors@.len() / dim as nat,
            all == all_distances(kernel, vectors@, dim as int, query@, n as nat),
            dists@ == all.take(i as int),
        decreases n - i,
    {
        proof {
            searcher::lemma_count_covers(vectors@, dim as nat);
            search::lemma_covered(vectors@, dim as nat, n as nat, i as int);
        }
        dists.push(kernel.distance(query, vector_slice(vectors, dim, i as u32)));
        i += 1;
        assert(dists@ =~= all.take(i as int));
    }
    assert(dists@ =~= all);
    let order = places_by_rank(dists.as_slice());
    let count: usize = if k <= n {
        k
    } else {
        n
    };
    let ghost want = true_neighbors(kernel, vectors@, dim as int, query@, n as nat, k);
    let mut ids: Vec<u32> = Vec::with_capacity(count);
    let mut j: usize = 0;
    while j < count
        invariant
            j <= count <= n,
            n <= u32::MAX,
            count == want.len(),
            order@.len() == n,
            sorting::is_permutation(order@, n as nat),
            forall|i: int| 0 <= i < count ==> want[i] == (#[trigger] order@[i]) as u32,
            ids@ == want.take(j as int),
        decreases count - j,
    {
        assert(order@[j as int] < n);
        ids.push(order[j] as u32);
        j += 1;
        assert(ids@ =~= want.take(j as int));
    }
    assert(ids@ =~= want);
    ids
}

/// How many of the found nodes are true neighbours.
pub fn count_hits(found: &[(u32, F32)], truth: &[u32]) -> (c: usize)
    ensures
        c == hits(found@, truth@, found@.len() as int),
{
    let mut c: usize = 0;
    let mut i: usize = 0;
    while i < found.len()
        invariant
            i <= found@.len(),
            c <= i,
            c == hits(found@, truth@, i as int),
        decreases found@.len() - i,
    {
        if contains(truth, found[i].0) {
            c += 1;
        }
        i += 1;
    }
    c
}

/// What a benchmark finds. A recall is a number of hits over a number of true neighbours.
#[derive(Debug, Clone)]
pub struct BenchmarkResult {
    /// The number of vectors.
    pub n: usize,
    /// The dimension.
    pub dim: usize,
    /// The number of queries.
    pub queries: usize,
    /// How many true neighbours each query with known ones has found.
    pub hits: Vec<usize>,
    /// How many each of them has.
    pub truths: Vec<usize>,
    /// The nanoseconds of the whole run.
    pub elapsed_ns: u128,
    /// The microseconds of all queries together.
    pub total_latency_us: u128,
    /// The microseconds that 95 of a hundred queries stay below.
    pub p95_latency_us: u64,
    /// The microseconds that 99 of a hundred queries stay below.
    pub p99_latency_us: u64,
}

/// The index that a benchmark builds.
pub open spec fn is_benchmark_index<K: DistanceKernel>(
    index: VamanaView,
    kernel: &K,
    vectors: &[F32],
    dim: usize,
    config: VamanaBuildConfig,
    levels: Seq<u8>,
) -> bool {
    let n = vectors@.len() / dim as nat;
    let data = Points { kernel, vectors, dim };
    let choice = StrategyChoice { data: &data, n: n as usize, config: &config };
    let entry = centroid::medoid(kernel, vectors@, dim as nat, n);
    &&& index.entry_point == entry
    &&& index.graph == construction::built(
        data,
        choice,
        RngView::fresh(42),
        entry,
        n,
        config,
    ).0
    &&& index.layers == (if config.enable_layered_nav && n > 0 {
        Some(layered::layers_of(data, entry, levels, config.r_max / 2))
    } else {
        None
    })
}

/// What a searcher of the index knows.
pub open spec fn benchmark_state(index: VamanaView, ef_search: usize) -> SearcherView {
    SearcherView {
        graph: index,
        anchors: None,
        adaptive: None,
        ef_search,
        prefetch_offset: 8,
        last_visited_count: 0,
        last_ef_used: ef_search,
        visited: Seq::empty(),
    }
}

/// How many queries have known true neighbours.
pub open spec fn judged(queries: nat, truths: nat) -> nat {
    if queries <= truths {
        queries
    } else {
        truths
    }
}

/// How many true neighbours each of the first queries has found, and how many it has.
pub open spec fn counted<K: DistanceKernel>(
    data: Points<K>,
    state: SearcherView,
    queries: Seq<Seq<F32>>,
    ground_truth: Seq<Seq<u32>>,
    found: Seq<usize>,
    of: Seq<usize>,
) -> bool {
    &&& of.len() == found.len()
    &&& forall|i: int|
        0 <= i < found.len() ==> {
            let answer = searcher::answer(data, state, queries[i], ANSWERS);
            &&& #[trigger] found[i] == hits(answer, ground_truth[i], answer.len() as int)
            &&& of[i] == ground_truth[i].len()
        }
}

/// One more query is counted.
proof fn lemma_counted_one_more<K: DistanceKernel>(
    data: Points<K>,
    state: SearcherView,
    queries: Seq<Seq<F32>>,
    ground_truth: Seq<Seq<u32>>,
    found: Seq<usize>,
    of: Seq<usize>,
    hit: usize,
    truth: usize,
)
    requires
        counted(data, state, queries, ground_truth, found, of),
        ({
            let i = found.len() as int;
            let answer = searcher::answer(data, state, queries[i], ANSWERS);
            &&& hit == hits(answer, ground_truth[i], answer.len() as int)
            &&& truth == ground_truth[i].len()
        }),
    ensures
        counted(data, state, queries, ground_truth, found.push(hit), of.push(truth)),
{
    let more = found.push(hit);
    assert forall|i: int| 0 <= i < more.len() implies {
        let answer = searcher::answer(data, state, queries[i], ANSWERS);
        &&& #[trigger] more[i] == hits(answer, ground_truth[i], answer.len() as int)
        &&& of.push(truth)[i] == ground_truth[i].len()
    } by {
        if i < found.len() {
            assert(more[i] == found[i]);
            assert(of.push(truth)[i] == of[i]);
        }
    }
}

/// The hits of a result are those of the queries asked of an index.
pub open spec fn counts_hits<K: DistanceKernel>(
    r: BenchmarkResult,
    kernel: &K,
    vectors: &[F32],
    index: VamanaView,
    b: BenchmarkView,
    ef_search: usize,
) -> bool {
    &&& r.hits@.len() == judged(b.queries.len(), b.ground_truth.len())
    &&& counted(
        Points { kernel, vectors, dim: b.dim },
        benchmark_state(index, ef_search),
        b.queries,
        b.ground_truth,
        r.hits@,
        r.truths@,
    )
}

/// Microseconds that the clock gave for one query.
pub open spec fn is_latency(us: u64, asked: Instant, total_ns: u128) -> bool {
    &&& kernel::is_present(asked)
    &&& kernel::has_passed(asked, total_ns)
    &&& us == (total_ns as u64) / 1000
}

/// Microseconds that the clock gave for some query.
pub open spec fn was_timed(us: u64) -> bool {
    exists|asked: Instant, total_ns: u128| #[trigger] is_latency(us, asked, total_ns)
}

/// Microseconds that the clock gave for each query.
pub open spec fn are_latencies(latencies: Seq<u64>) -> bool {
    forall|i: int| 0 <= i < latencies.len() ==> was_timed(#[trigger] latencies[i])
}

/// The times of a result come from one latency for each query.
pub open spec fn has_times(r: BenchmarkResult, latencies: Seq<u64>) -> bool {
    let sorted = times_in_order(latencies);
    &&& latencies.len() == r.queries
    &&& are_latencies(latencies)
    &&& r.total_latency_us == graph::sum_of(times_as_ints(latencies))
    &&& r.p95_latency_us == percentile_of(sorted, 95)
    &&& r.p99_latency_us == percentile_of(sorted, 99)
}

/// The times of a result are those that the clock gave: the whole run, and one latency for each
/// query, from which the total and the percentiles come.
pub open spec fn is_timed(r: BenchmarkResult) -> bool {
    &&& exists|start: Instant| #[trigger]
        kernel::is_present(start) && kernel::has_passed(start, r.elapsed_ns)
    &&& exists|latencies: Seq<u64>| #[trigger] has_times(r, latencies)
}

/// The place of a percentile among `n` sorted numbers: the share of the last place, rounded to the
/// nearest.
pub open spec fn percentile_place(n: int, pct: int) -> int {
    ((n - 1) * pct + 50) / 100
}

/// A percentile of sorted numbers, zero where there are none.
pub open spec fn percentile_of(sorted: Seq<u64>, pct: int) -> u64 {
    if sorted.len() == 0 {
        0
    } else {
        sorted[percentile_place(sorted.len() as int, pct)]
    }
}

/// A percentile of sorted numbers, zero where there are none.
pub fn percentile(sorted: &Vec<u64>, pct: usize) -> (p: u64)
    requires
        pct <= 100,
    ensures
        p == percentile_of(sorted@, pct as int),
{
    if sorted.len() == 0 {
        return 0;
    }
    let last: u128 = (sorted.len() - 1) as u128;
    proof {
        assert(last * pct <= last * 100) by (nonlinear_arith)
            requires
                pct <= 100,
        ;
    }
    let place: usize = ((last * pct as u128 + 50) / 100) as usize;
    sorted[place]
}

/// The text of a record that goes into no file.
fn unwritten(_record: &BuildMetadata) -> (text: Vec<u8>)
    ensures
        text@.len() == 0,
{
    Vec::new()
}

/// The result of a benchmark without vectors or queries.
fn measured_nothing(dim: usize) -> (r: BenchmarkResult)
    ensures
        r.n == 0,
        r.dim == dim,
        r.queries == 0,
        r.hits@.len() == 0,
        r.truths@.len() == 0,
        r.elapsed_ns == 0,
        r.total_latency_us == 0,
        r.p95_latency_us == 0,
        r.p99_latency_us == 0,
{
    BenchmarkResult {
        n: 0,
        dim,
        queries: 0,
        hits: Vec::new(),
        truths: Vec::new(),
        elapsed_ns: 0,
        total_latency_us: 0,
        p95_latency_us: 0,
        p99_latency_us: 0,
    }
}

/// Asks an index all queries for ten neighbours each. The times come from the clock of this
/// machine.
pub fn measure<K: DistanceKernel>(
    kernel: &K,
    vectors: &[F32],
    graph: &VamanaGraph,
    queries: &Vec<Vec<F32>>,
    ground_truth: &Vec<Vec<u32>>,
    ef_search: usize,
) -> (r: BenchmarkResult)
    requires
        searcher::answerable(*graph, None, vectors@, graph@.dim),
        forall|i: int|
            0 <= i < queries@.len() ==> (#[trigger] rows_of(queries@)[i]).len() == graph@.dim,
        1 <= ef_search,
        3 * ef_search <= usize::MAX,
    ensures
        r.n == vectors@.len() / graph@.dim as nat,
        r.dim == graph@.dim,
        r.queries == queries@.len(),
        counts_hits(
            r,
            kernel,
            vectors,
            graph@,
            (BenchmarkView {
                vectors: vectors@,
                dim: graph@.dim,
                ground_truth: rows_of(ground_truth@),
                queries: rows_of(queries@),
            }),
            ef_search,
        ),
        is_timed(r),
{
    assert(vectors@.len() == vectors.len());
    let dim: usize = graph.dim();
    let ghost data = Points { kernel, vectors, dim };
    let ghost state = benchmark_state(graph@, ef_search);
    let ghost asked = rows_of(queries@);
    let ghost known = rows_of(ground_truth@);
    let mut searcher = GraphSearcher::new(kernel, vectors, graph, ef_search);
    let mut hit_counts: Vec<usize> = Vec::new();
    let mut truths: Vec<usize> = Vec::new();
    let mut latencies: Vec<u64> = Vec::with_capacity(queries.len());
    let start = Instant::now();
    let mut i: usize = 0;
    while i < queries.len()
        invariant
            i <= queries@.len(),
            searcher.wf(),
            searcher.data() == data,
            dim == graph@.dim,
            data.dim == dim,
            scan::same_answers(searcher.state(), state),
            searcher::widths_fit(state.adaptive, state.ef_search, ANSWERS),
            asked == rows_of(queries@),
            known == rows_of(ground_truth@),
            forall|j: int| 0 <= j < queries@.len() ==> (#[trigger] asked[j]).len() == dim,
            hit_counts@.len() == judged(i as nat, ground_truth@.len()),
            counted(data, state, asked, known, hit_counts@, truths@),
            latencies@.len() == i,
            are_latencies(latencies@),
        decreases queries@.len() - i,
    {
        assert(asked[i as int].len() == dim);
        assert(asked[i as int] == queries@[i as int]@);
        let begun = Instant::now();
        let found = searcher.search(queries[i].as_slice(), ANSWERS);
        let took = begun.elapsed();
        let total_ns: u128 = took.as_nanos();
        let us: u64 = per_call(total_ns, 1000);
        proof {
            lemma_one_more_latency(latencies@, us, begun, took);
        }
        latencies.push(us);
        assert(found@ == searcher::answer(data, state, asked[i as int], ANSWERS));
        if i < ground_truth.len() {
            let hit: usize = count_hits(found.as_slice(), ground_truth[i].as_slice());
            let truth: usize = ground_truth[i].len();
            proof {
                assert(hit_counts@.len() == i);
                assert(known[i as int] == ground_truth@[i as int]@);
                lemma_counted_one_more(
                    data,
                    state,
                    asked,
                    known,
                    hit_counts@,
                    truths@,
                    hit,
                    truth,
                );
            }
            hit_counts.push(hit);
            truths.push(truth);
        }
        i += 1;
    }
    let elapsed = start.elapsed();
    let elapsed_ns: u128 = elapsed.as_nanos();
    let total_latency_us: u128 = total_of(&latencies);
    let sorted = sort_times(&latencies);
    let r = BenchmarkResult {
        n: vectors.len() / dim,
        dim,
        queries: queries.len(),
        hits: hit_counts,
        truths,
        elapsed_ns,
        total_latency_us,
        p95_latency_us: percentile(&sorted, 95),
        p99_latency_us: percentile(&sorted, 99),
    };
    proof {
        assert(call_ensures(Instant::elapsed, (&start,), elapsed));
        assert(kernel::is_present(start) && kernel::has_passed(start, r.elapsed_ns));
        assert(has_times(r, latencies@));
    }
    r
}

/// One more query was timed.
proof fn lemma_one_more_latency(latencies: Seq<u64>, us: u64, begun: Instant, took: Duration)
    requires
        are_latencies(latencies),
        call_ensures(Instant::now, (), begun),
        call_ensures(Instant::elapsed, (&begun,), took),
        us == (kernel::duration_nanos(took) as u64) / 1000,
    ensures
        are_latencies(latencies.push(us)),
{
    let more = latencies.push(us);
    assert forall|i: int| 0 <= i < more.len() implies was_timed(#[trigger] more[i]) by {
        if i < latencies.len() {
            assert(more[i] == latencies[i]);
        } else {
            assert(is_latency(us, begun, kernel::duration_nanos(took)));
        }
    }
}

/// Times as integers.
pub open spec fn times_as_ints(times: Seq<u64>) -> Seq<int> {
    times.map_values(|t: u64| t as int)
}

/// Times in ascending order.
pub open spec fn times_in_order(times: Seq<u64>) -> Seq<u64> {
    sorting::gathered(times, sorting::the_order(times.map_values(|t: u64| t as i128)))
}

/// The sum of some times.
pub fn total_of(times: &Vec<u64>) -> (t: u128)
    ensures
        t == graph::sum_of(times_as_ints(times@)),
{
    let mut t: u128 = 0;
    let mut i: usize = 0;
    assert(times_as_ints(times@.take(0)) =~= Seq::empty());
    while i < times.len()
        invariant
            i <= times@.len(),
            t <= i * u64::MAX,
            t == graph::sum_of(times_as_ints(times@.take(i as int))),
        decreases times@.len() - i,
    {
        proof {
            assert((i + 1) * u64::MAX == i * u64::MAX + u64::MAX) by (nonlinear_arith);
            assert((i + 1) * u64::MAX <= u128::MAX) by (nonlinear_arith)
                requires
                    i < usize::MAX,
                    usize::MAX <= u64::MAX,
            ;
            assert(times_as_ints(times@.take(i + 1)).drop_last() =~= times_as_ints(
                times@.take(i as int),
            ));
        }
        t += times[i] as u128;
        i += 1;
    }
    assert(times@.take(i as int) =~= times@);
    t
}

/// Times in ascending order.
pub fn sort_times(times: &Vec<u64>) -> (sorted: Vec<u64>)
    ensures
        sorted@ == times_in_order(times@),
        sorted@.len() == times@.len(),
{
    let ghost want = times@.map_values(|t: u64| t as i128);
    let mut keys: Vec<i128> = Vec::with_capacity(times.len());
    let mut i: usize = 0;
    while i < times.len()
        invariant
            i <= times@.len(),
            want == times@.map_values(|t: u64| t as i128),
            keys@ == want.take(i as int),
        decreases times@.len() - i,
    {
        keys.push(times[i] as i128);
        i += 1;
        assert(keys@ =~= want.take(i as int));
    }
    assert(keys@ =~= want);
    let order = stable_order(keys.as_slice());
    let mut sorted: Vec<u64> = Vec::with_capacity(times.len());
    let mut k: usize = 0;
    while k < order.len()
        invariant
            k <= order@.len(),
            order@.len() == times@.len(),
            sorting::is_stable_order(keys@, order@),
            keys@.len() == times@.len(),
            sorted@ == sorting::gathered(times@, order@).take(k as int),
        decreases order@.len() - k,
    {
        sorted.push(times[order[k]]);
        k += 1;
        assert(sorted@ =~= sorting::gathered(times@, order@).take(k as int));
    }
    assert(sorted@ =~= sorting::gathered(times@, order@));
    sorted
}

impl LocalBenchmark {
    /// A benchmark without queries.
    pub fn new(vectors: Vec<F32>, dim: usize) -> (b: Self)
        ensures
            b@.vectors == vectors@,
            b@.dim == dim,
            b@.ground_truth.len() == 0,
            b@.queries.len() == 0,
    {
        LocalBenchmark { vectors, dim, ground_truth: Vec::new(), queries: Vec::new() }
    }

    /// The same vectors with the given queries and their true neighbours.
    pub fn with_queries(self, queries: Vec<Vec<F32>>, ground_truth: Vec<Vec<u32>>) -> (b: Self)
        ensures
            b@ == (BenchmarkView {
                ground_truth: rows_of(ground_truth@),
                queries: rows_of(queries@),
                ..self@
            }),
    {
        LocalBenchmark { vectors: self.vectors, dim: self.dim, ground_truth, queries }
    }

    /// Draws queries from the vectors, with the seed 42, and finds the true neighbours of each.
    pub fn generate_random_queries<K: DistanceKernel>(
        &mut self,
        kernel: &K,
        n_queries: usize,
        k: usize,
    )
        requires
            old(self)@.dim > 0,
            old(self)@.vectors.len() / old(self)@.dim as nat <= u32::MAX,
            n_queries > 0 ==> old(self)@.vectors.len() >= old(self)@.dim,
        ensures
            final(self)@.vectors == old(self)@.vectors,
            final(self)@.dim == old(self)@.dim,
            final(self)@.queries.len() == n_queries,
            final(self)@.ground_truth.len() == n_queries,
            forall|i: int|
                0 <= i < n_queries ==> #[trigger] final(self)@.queries[i] == search::vector_of(
                    old(self)@.vectors,
                    old(self)@.dim as int,
                    query_place(
                        (old(self)@.vectors.len() / old(self)@.dim as nat) as u64,
                        i,
                    ) as int,
                ),
            forall|i: int|
                0 <= i < n_queries ==> #[trigger] final(self)@.ground_truth[i] == true_neighbors(
                    kernel,
                    old(self)@.vectors,
                    old(self)@.dim as int,
                    final(self)@.queries[i],
                    old(self)@.vectors.len() / old(self)@.dim as nat,
                    k,
                ),
    {
        let dim: usize = self.dim;
        let ghost vectors = self.vectors@;
        let n: usize = self.vectors.len() / dim;
        let mut rng = ChaCha8Rng::new();
        let mut queries: Vec<Vec<F32>> = Vec::with_capacity(n_queries);
        let mut truths: Vec<Vec<u32>> = Vec::with_capacity(n_queries);
        let ghost start = rng@;
        let mut i: usize = 0;
        proof {
            if n_queries > 0 {
                vstd::arithmetic::div_mod::lemma_div_is_ordered(
                    dim as int,
                    vectors.len() as int,
                    dim as int,
                );
                vstd::arithmetic::div_mod::lemma_div_by_self(dim as int);
            }
        }
        while i < n_queries
            invariant
                i <= n_queries,
                dim > 0,
                dim == self.dim,
                self.vectors@ == vectors,
                n == vectors.len() / dim as nat,
                n <= u32::MAX,
                i < n_queries ==> n > 0,
                n_queries > 0 ==> n > 0,
                start == RngView::fresh(42),
                rng@ == drawn(start, n as u64, i as int),
                queries@.len() == i,
                truths@.len() == i,
                forall|j: int|
                    0 <= j < i ==> (#[trigger] queries@[j])@ == search::vector_of(
                        vectors,
                        dim as int,
                        query_place(n as u64, j) as int,
                    ),
                forall|j: int|
                    0 <= j < i ==> (#[trigger] truths@[j])@ == true_neighbors(
                        kernel,
                        vectors,
                        dim as int,
                        queries@[j]@,
                        n as nat,
                        k,
                    ),
            decreases n_queries - i,
        {
            let at: u64 = rng.below64(n as u64);
            proof {
                searcher::lemma_count_covers(vectors, dim as nat);
                search::lemma_covered(vectors, dim as nat, n as nat, at as int);
            }
            let slice = vector_slice(self.vectors.as_slice(), dim, at as u32);
            let query = slice_to_vec(slice);
            let truth = brute_force(kernel, self.vectors.as_slice(), dim, query.as_slice(), k);
            queries.push(query);
            truths.push(truth);
            i += 1;
        }
        self.queries = queries;
        self.ground_truth = truths;
        proof {
            let all = self@;
            assert forall|j: int| 0 <= j < n_queries implies #[trigger] all.queries[j]
                == search::vector_of(
                vectors,
                dim as int,
                query_place(n as u64, j) as int,
            ) by {
                assert(all.queries[j] == queries@[j]@);
            }
            assert forall|j: int| 0 <= j < n_queries implies #[trigger] all.ground_truth[j]
                == true_neighbors(
                kernel,
                vectors,
                dim as int,
                all.queries[j],
                n as nat,
                k,
            ) by {
                assert(all.ground_truth[j] == truths@[j]@);
                assert(all.queries[j] == queries@[j]@);
            }
        }
    }

    /// Builds an index with the seed 42 and asks it all queries for ten neighbours each. `levels`
    /// are the levels of the nodes, drawn at random; `timestamp` is recorded as the time of the
    /// build. The times in the result come from the clock of this machine.
    #[verifier::rlimit(40)]
    pub fn run<K: DistanceKernel>(
        &self,
        kernel: &K,
        config: &VamanaBuildConfig,
        ef_search: usize,
        levels: &[u8],
        timestamp: u64,
    ) -> (r: BenchmarkResult)
        requires
            self@.dim > 0,
            self@.vectors.len() % self@.dim as nat == 0,
            config.usable(self@.vectors.len() / self@.dim as nat),
            config.enable_layered_nav ==> levels@.len() == self@.vectors.len() / self@.dim as nat,
            self@.queries.len() > 0 ==> self@.vectors.len() > 0,
            forall|i: int|
                0 <= i < self@.queries.len() ==> (#[trigger] self@.queries[i]).len() == self@.dim,
            1 <= ef_search,
            3 * ef_search <= usize::MAX,
        ensures
            r.n == self@.vectors.len() / self@.dim as nat,
            r.dim == self@.dim,
            r.queries == self@.queries.len(),
            self@.vectors.len() > 0 ==> exists|vectors: &[F32], index: VamanaView|
                vectors@ == self@.vectors && #[trigger] is_benchmark_index(
                    index,
                    kernel,
                    vectors,
                    self@.dim,
                    *config,
                    levels@,
                ) && counts_hits(r, kernel, vectors, index, self@, ef_search),
            self@.vectors.len() > 0 ==> is_timed(r),
            self@.vectors.len() == 0 ==> {
                &&& r.hits@.len() == 0
                &&& r.truths@.len() == 0
                &&& r.elapsed_ns == 0
                &&& r.total_latency_us == 0
                &&& r.p95_latency_us == 0
                &&& r.p99_latency_us == 0
            },
    {
        let vectors = self.vectors.as_slice();
        let n: usize = self.vectors.len() / self.dim;
        let mut rng = ChaCha8Rng::new();
        let graph = VamanaGraph::build(
            kernel,
            vectors,
            self.dim,
            config,
            &mut rng,
            levels,
            timestamp,
            unwritten,
        );
        assert(is_benchmark_index(graph@, kernel, vectors, self.dim, *config, levels@));
        if n == 0 {
            proof {
                vamana::lemma_exact_division(self.vectors@.len(), self.dim as nat);
                assert(0 * self.dim == 0) by (nonlinear_arith);
            }
            return measured_nothing(self.dim);
        }
        assert forall|i: int| 0 <= i < self.queries@.len() implies (#[trigger] rows_of(
            self.queries@,
        )[i]).len() == graph@.dim by {
            assert(self@.queries[i].len() == self@.dim);
        }
        let r = measure(kernel, vectors, &graph, &self.queries, &self.ground_truth, ef_search);
        assert((BenchmarkView {
            vectors: vectors@,
            dim: graph@.dim,
            ground_truth: rows_of(self.ground_truth@),
            queries: rows_of(self.queries@),
        }) == self@);
        assert(counts_hits(r, kernel, vectors, graph@, self@, ef_search));
        r
    }

    /// The vectors.
    pub fn vectors(&self) -> (v: &[F32])
        ensures
            v@ == self@.vectors,
    {
        self.vectors.as_slice()
    }

    /// The dimension.
    pub fn dim(&self) -> (d: usize)
        ensures
            d == self@.dim,
    {
        self.dim
    }

    /// The queries.
    pub fn queries(&self) -> (q: &Vec<Vec<F32>>)
        ensures
            rows_of(q@) == self@.queries,
    {
        &self.queries
    }

    /// The true neighbours of each query.
    pub fn ground_truth(&self) -> (t: &Vec<Vec<u32>>)
        ensures
            rows_of(t@) == self@.ground_truth,
    {
        &self.ground_truth
    }
}

/// True neighbours are distinct vectors in order of distance, and no other vector is nearer than
/// they are.
pub proof fn law_true_neighbours_are_the_nearest<K: DistanceKernel>(
    kernel: &K,
    vectors: Seq<F32>,
    dim: int,
    query: Seq<F32>,
    n: nat,
    k: usize,
    i: int,
    other: int,
)
    requires
        n <= u32::MAX,
        n <= usize::MAX,
        0 <= i < true_neighbors(kernel, vectors, dim, query, n, k).len(),
        0 <= other < n,
    ensures
        ({
            let ids = true_neighbors(kernel, vectors, dim, query, n, k);
            let rank = |id: int| search::node_distance(kernel, vectors, dim, query, id).rank();
            &&& ids[i] < n
            &&& forall|j: int| i < j < ids.len() ==> (#[trigger] ids[j]) != ids[i] && rank(
                ids[i] as int,
            ) <= rank(ids[j] as int)
            &&& ids.contains(other as u32) || rank(ids[i] as int) <= rank(other)
        }),
{
    let ids = true_neighbors(kernel, vectors, dim, query, n, k);
    let keys = ordering::rank_keys(all_distances(kernel, vectors, dim, query, n));
    let order = sorting::the_order(keys);
    sorting::lemma_order_exists(keys);
    assert(order[i] < keys.len());
    assert forall|j: int| i < j < ids.len() implies (#[trigger] ids[j]) != ids[i] && keys[ids[i] as int]
        <= keys[ids[j] as int] by {
        assert(order[j] < keys.len());
        assert(sorting::goes_before(keys, order[i] as int, order[j] as int));
    }
    sorting::lemma_stable_order_is_onto(keys, order, other as usize);
    let p = choose|p: int| 0 <= p < order.len() && order[p] == other as usize;
    if p < ids.len() {
        assert(ids[p] == other as u32);
    } else {
        assert(sorting::goes_before(keys, order[i] as int, order[p] as int));
    }
}

} // verus!
