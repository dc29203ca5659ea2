//! What a run of queries finds: how many true neighbours, and how many nodes it visits.
use vstd::prelude::*;
use vstd::slice::slice_subrange;
use crate::distance::DistanceKernel;
use crate::distance::double::F64;
use crate::distance::single::F32;
use crate::graph::layered;
use crate::graph::layered::take_ids;
use crate::graph::points::Points;
use crate::graph::search;
use crate::graph::searcher;
use crate::graph::searcher::{GraphSearcher, SearcherView};
use crate::memory::graph;
use crate::memory::graph::contains;
use crate::sorting::sort_usizes;

verus! {

/// How many of the first `i` true neighbours were found.
pub open spec fn truths_found(found: Seq<u32>, truth: Seq<i32>, i: int) -> nat
    decreases i,
{
    if i <= 0 {
        0
    } else if found.contains(truth[i - 1] as u32) {
        truths_found(found, truth, i - 1) + 1
    } else {
        truths_found(found, truth, i - 1)
    }
}

/// How many of the first `k` true neighbours were found; fewer are counted where there are fewer.
pub fn recall_at_k(found: &[u32], truth: &[i32], k: usize) -> (hits: usize)
    ensures
        hits == truths_found(
            found@,
            truth@,
            if k <= truth@.len() {
                k as int
            } else {
                truth@.len() as int
            },
        ),
        hits <= k,
{
    let mut hits: usize = 0;
    let mut i: usize = 0;
    while i < k && i < truth.len()
        invariant
            i <= k,
            i <= truth@.len(),
            hits <= i,
            hits == truths_found(found@, truth@, i as int),
        decreases k - i,
    {
        if contains(found, truth[i] as u32) {
            hits += 1;
        }
        i += 1;
    }
    hits
}

/// The true neighbours of a query that count.
pub open spec fn truth_row(truth: Seq<i32>, stride: int, k: int, q: int) -> Seq<i32> {
    truth.subrange(q * stride, q * stride + k)
}

/// Every one of the first `nq` queries has `k` true neighbours.
pub open spec fn truth_covers(truth: Seq<i32>, stride: int, k: int, nq: int) -> bool {
    forall|q: int| 0 <= q < nq ==> q * stride + k <= truth.len() && 0 <= #[trigger] (q * stride)
}

/// How many true neighbours the first `i` queries have found.
pub open spec fn all_found(
    found: Seq<Seq<u32>>,
    truth: Seq<i32>,
    stride: int,
    k: int,
    i: int,
) -> int
    decreases i,
{
    if i <= 0 {
        0
    } else {
        all_found(found, truth, stride, k, i - 1) + truths_found(
            found[i - 1],
            truth_row(truth, stride, k, i - 1),
            k,
        )
    }
}

/// The lists as sequences.
pub open spec fn lists_of(results: Seq<Vec<u32>>) -> Seq<Seq<u32>> {
    Seq::new(results.len(), |i: int| results[i]@)
}

/// The recall of the first `nq` queries as a ratio: how many of the true neighbours that count were
/// found, and how many count.
pub fn compute_recall(
    results: &[Vec<u32>],
    gt: &[i32],
    gt_k: usize,
    k: usize,
    nq: usize,
) -> (r: (usize, usize))
    requires
        nq <= results@.len(),
        truth_covers(gt@, gt_k as int, k as int, nq as int),
        nq * k <= usize::MAX,
    ensures
        r.0 == all_found(lists_of(results@), gt@, gt_k as int, k as int, nq as int),
        r.0 <= r.1,
        r.1 == nq * k,
{
    assert(gt@.len() == gt.len());
    let mut hits: usize = 0;
    let mut q: usize = 0;
    assert(0 * k == 0) by (nonlinear_arith);
    while q < nq
        invariant
            q <= nq <= results@.len(),
            gt@.len() == gt.len(),
            truth_covers(gt@, gt_k as int, k as int, nq as int),
            nq * k <= usize::MAX,
            hits <= q * k,
            hits == all_found(lists_of(results@), gt@, gt_k as int, k as int, q as int),
        decreases nq - q,
    {
        proof {
            assert(0 <= q as int * gt_k as int);
            assert((q + 1) * k == q * k + k) by (nonlinear_arith);
            assert((q + 1) * k <= nq * k) by (nonlinear_arith)
                requires
                    q + 1 <= nq,
            ;
        }
        let start: usize = q * gt_k;
        let row = slice_subrange(gt, start, start + k);
        hits += recall_at_k(results[q].as_slice(), row, k);
        q += 1;
    }
    (hits, nq * k)
}

/// What a run of queries finds.
pub struct ScanOutcome {
    /// How many of the true neighbours that count were found.
    pub hits: usize,
    /// How many count.
    pub total: usize,
    /// How many nodes the queries have visited together.
    pub total_visited: u128,
    /// How many nodes each query has visited.
    pub visited_counts: Vec<usize>,
}

/// A query of a run.
pub open spec fn query_of(test: Seq<F32>, dim: int, q: int) -> Seq<F32> {
    search::vector_of(test, dim, q)
}

/// What each query of a run finds.
pub open spec fn answers_of<K: DistanceKernel>(
    data: Points<K>,
    state: SearcherView,
    test: Seq<F32>,
    k: usize,
    nq: nat,
) -> Seq<Seq<u32>> {
    Seq::new(
        nq,
        |q: int| layered::ids_of(searcher::answer(data, state, query_of(test, data.dim as int, q), k)),
    )
}

/// How many nodes each query of a run visits.
pub open spec fn visits_of<K: DistanceKernel>(
    data: Points<K>,
    state: SearcherView,
    test: Seq<F32>,
    k: usize,
    nq: nat,
) -> Seq<usize> {
    Seq::new(
        nq,
        |q: int|
            {
                let query = query_of(test, data.dim as int, q);
                let start = searcher::search_start(data, state.graph, state.anchors, query);
                let ef = searcher::search_width(
                    data,
                    state.adaptive,
                    state.ef_search,
                    start,
                    query,
                    k,
                );
                search::seen(
                    searcher::query_space(data, state.graph, query),
                    ef as nat,
                    start.0,
                ).len() as usize
            },
    )
}

/// The numbers as integers.
pub open spec fn as_ints(counts: Seq<usize>) -> Seq<int> {
    counts.map_values(|c: usize| c as int)
}

/// Two states of a searcher that give the same answers.
pub open spec fn same_answers(a: SearcherView, b: SearcherView) -> bool {
    &&& a.graph == b.graph
    &&& a.anchors == b.anchors
    &&& a.adaptive == b.adaptive
    &&& a.ef_search == b.ef_search
}

/// Runs the first `nq` queries one after the other.
pub fn scan<'a, K: DistanceKernel>(
    searcher: &mut GraphSearcher<'a, K>,
    test: &[F32],
    dim: usize,
    nq: usize,
    gt: &[i32],
    gt_k: usize,
    k: usize,
) -> (o: ScanOutcome)
    requires
        old(searcher).wf(),
        dim == old(searcher).data().dim,
        searcher::widths_fit(old(searcher).state().adaptive, old(searcher).state().ef_search, k),
        search::covers(test@, dim as int, nq as nat),
        truth_covers(gt@, gt_k as int, k as int, nq as int),
        nq * k <= usize::MAX,
    ensures
        final(searcher).wf(),
        final(searcher).data() == old(searcher).data(),
        final(searcher).index() == old(searcher).index(),
        same_answers(final(searcher).state(), old(searcher).state()),
        o.hits == all_found(
            answers_of(old(searcher).data(), old(searcher).state(), test@, k, nq as nat),
            gt@,
            gt_k as int,
            k as int,
            nq as int,
        ),
        o.hits <= o.total,
        o.total == nq * k,
        o.visited_counts@ == visits_of(
            old(searcher).data(),
            old(searcher).state(),
            test@,
            k,
            nq as nat,
        ),
        o.total_visited == graph::sum_of(as_ints(o.visited_counts@)),
{
    assert(gt@.len() == gt.len());
    assert(test@.len() == test.len());
    let ghost data = searcher.data();
    let ghost state = searcher.state();
    let ghost index = searcher.index();
    let ghost answers = answers_of(data, state, test@, k, nq as nat);
    let ghost visits = visits_of(data, state, test@, k, nq as nat);
    let mut hits: usize = 0;
    let mut total_visited: u128 = 0;
    let mut visited_counts: Vec<usize> = Vec::with_capacity(nq);
    let mut q: usize = 0;
    assert(0 * k == 0) by (nonlinear_arith);
    assert(as_ints(visits.take(0)) =~= Seq::empty());
    while q < nq
        invariant
            q <= nq,
            gt@.len() == gt.len(),
            test@.len() == test.len(),
            searcher.wf(),
            searcher.data() == data,
            searcher.index() == index,
            same_answers(searcher.state(), state),
            dim == data.dim,
            searcher::widths_fit(state.adaptive, state.ef_search, k),
            search::covers(test@, dim as int, nq as nat),
            truth_covers(gt@, gt_k as int, k as int, nq as int),
            nq * k <= usize::MAX,
            answers == answers_of(data, state, test@, k, nq as nat),
            visits == visits_of(data, state, test@, k, nq as nat),
            hits <= q * k,
            hits == all_found(answers, gt@, gt_k as int, k as int, q as int),
            visited_counts@ == visits.take(q as int),
            total_visited == graph::sum_of(as_ints(visits.take(q as int))),
            total_visited <= q * usize::MAX,
        decreases nq - q,
    {
        proof {
            assert(0 <= q as int * gt_k as int);
            assert((q + 1) * k == q * k + k) by (nonlinear_arith);
            assert((q + 1) * k <= nq * k) by (nonlinear_arith)
                requires
                    q + 1 <= nq,
            ;
            search::lemma_covered(test@, dim as nat, nq as nat, q as int);
        }
        let from: usize = q * dim;
        let query = slice_subrange(test, from, from + dim);
        let result = searcher.search(query, k);
        let count: usize = searcher.last_visited_count();
        let found = take_ids(&result);
        assert(found@ =~= answers[q as int]);
        let start: usize = q * gt_k;
        let row = slice_subrange(gt, start, start + k);
        hits += recall_at_k(found.as_slice(), row, k);
        proof {
            assert(count == visits[q as int]);
            let longer = as_ints(visits.take(q + 1));
            assert(longer.drop_last() =~= as_ints(visits.take(q as int)));
            assert(longer.last() == count);
            assert(q * usize::MAX + usize::MAX <= u128::MAX) by (nonlinear_arith)
                requires
                    q < usize::MAX,
                    usize::MAX <= 0xFFFF_FFFF_FFFF_FFFF,
            ;
            assert((q + 1) * usize::MAX == q * usize::MAX + usize::MAX) by (nonlinear_arith);
        }
        total_visited += count as u128;
        visited_counts.push(count);
        q += 1;
        assert(visited_counts@ =~= visits.take(q as int));
    }
    assert(visited_counts@ =~= visits);
    ScanOutcome { hits, total: nq * k, total_visited, visited_counts }
}

/// How the numbers of visited nodes are spread.
pub struct VisitSpread {
    /// The number that half the queries stay below.
    pub p50: usize,
    /// The number that 95 of a hundred stay below.
    pub p95: usize,
    /// The number that 99 of a hundred stay below.
    pub p99: usize,
    /// The greatest number.
    pub max: usize,
}

/// The numbers of visited nodes in order.
pub open spec fn ordered(counts: Seq<usize>) -> Seq<int> {
    as_ints(counts).sort_by(|a: int, b: int| a <= b)
}

/// How the numbers of visited nodes are spread. A place among `n` is the share of `n`, rounded down.
pub fn visit_spread(counts: &Vec<usize>) -> (s: VisitSpread)
    requires
        counts@.len() > 0,
    ensures
        s.p50 == ordered(counts@)[counts@.len() as int / 2],
        s.p95 == ordered(counts@)[counts@.len() as int * 95 / 100],
        s.p99 == ordered(counts@)[counts@.len() as int * 99 / 100],
        s.max == ordered(counts@)[counts@.len() - 1],
{
    let sorted = sort_usizes(counts);
    let n: usize = sorted.len();
    let ghost ints = as_ints(sorted@);
    assert(ints == ordered(counts@));
    let i95: usize = (n as u128 * 95 / 100) as usize;
    let i99: usize = (n as u128 * 99 / 100) as usize;
    assert(ints[n as int / 2] == sorted@[n as int / 2]);
    assert(ints[i95 as int] == sorted@[i95 as int]);
    assert(ints[i99 as int] == sorted@[i99 as int]);
    assert(ints[n - 1] == sorted@[n - 1]);
    VisitSpread { p50: sorted[n / 2], p95: sorted[i95], p99: sorted[i99], max: sorted[n - 1] }
}

/// Whether a round's result takes the place of the best so far: where it is faster, and in any case
/// in the third round.
pub fn takes_over(round: usize, qps: F64, best_qps: F64) -> (b: bool)
    ensures
        b == (round == 3 || best_qps.below(qps)),
{
    round == 3 || best_qps.lt(qps)
}

} // verus!
