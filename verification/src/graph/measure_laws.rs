//! What the measures of a graph and of its answers say.
use vstd::prelude::*;
use vstd::arithmetic::power2;
use crate::config::local_bench;
use crate::config::local_bench::{BenchmarkResult, BenchmarkView};
use crate::distance::DistanceKernel;
use crate::distance::exact_laws;
use crate::distance::number_laws;
use crate::distance::ordering;
use crate::distance::single::F32;
use crate::distance::sums;
use crate::graph::ablation;
use crate::graph::ablation::{AblationMetrics, ConnectivityMetrics, RecallVariance};
use crate::graph::linear_pool::Entry;
use crate::graph::points::Points;
use crate::graph::quant_aware_prune;
use crate::graph::searcher;
use crate::graph::searcher::SearcherView;
use crate::graph::vamana::VamanaView;
use crate::graph::weighing_laws;
use crate::memory::graph;
use crate::memory::graph::CsrView;
use crate::sorting;
use crate::tally;

verus! {

/// Whether a count is less than another.
pub open spec fn fewer_than(m: int) -> spec_fn(int) -> bool {
    |x: int| x < m
}

/// Whether a count is more than another.
pub open spec fn greater_than(m: int) -> spec_fn(int) -> bool {
    |x: int| x > m
}

/// A percentile of some counts is one of them that stands at the percentile.
pub proof fn law_percentiles_of_counts(s: Seq<int>, pct: int)
    requires
        s.len() > 0,
        0 <= pct <= 100,
    ensures
        ({
            let x = graph::percentile_of(s, pct);
            &&& s.contains(x)
            &&& tally::at_percentile(
                tally::tally(s, fewer_than(x)),
                tally::tally(s, greater_than(x)),
                s.len(),
                pct,
            )
        }),
{
    broadcast use vstd::seq_lib::group_to_multiset_ensures;

    let leq = |a: int, b: int| a <= b;
    let sorted = s.sort_by(leq);
    s.lemma_sort_by_ensures(leq);
    let place = graph::percentile_index(s.len() as int, pct);
    tally::lemma_place_in_list(s.len(), pct, place);
    assert(sorted.len() == sorted.to_multiset().len());
    assert(s.len() == s.to_multiset().len());
    let x = sorted[place];
    tally::lemma_any_order(s, sorted, fewer_than(x));
    tally::lemma_any_order(s, sorted, greater_than(x));
    assert forall|i: int| place <= i < sorted.len() implies !fewer_than(x)(#[trigger] sorted[i]) by {
        if place < i {
            assert(leq(sorted[place], sorted[i]));
        }
    }
    assert forall|i: int| 0 <= i < place + 1 implies !greater_than(x)(#[trigger] sorted[i]) by {
        if i < place {
            assert(leq(sorted[i], sorted[place]));
        }
    }
    tally::lemma_ends(sorted, fewer_than(x), place);
    tally::lemma_ends(sorted, greater_than(x), place + 1);
    tally::lemma_percentile_place(
        tally::tally(s, fewer_than(x)),
        tally::tally(s, greater_than(x)),
        s.len(),
        pct,
        place,
    );
    assert(sorted.contains(x));
    assert(sorted.to_multiset().count(x) > 0);
}

/// The greatest of some counts is one of them, and none is greater; the nodes above a bound are those
/// that are counted one by one.
pub proof fn law_greatest_and_counts(s: Seq<int>, bound: int)
    requires
        forall|i: int| 0 <= i < s.len() ==> 0 <= #[trigger] s[i],
    ensures
        forall|i: int| 0 <= i < s.len() ==> #[trigger] s[i] <= graph::max_of(s),
        s.len() > 0 ==> s.contains(graph::max_of(s)),
        s.len() == 0 ==> graph::max_of(s) == 0,
        graph::count_above(s, bound) == tally::tally(s, greater_than(bound)),
    decreases s.len(),
{
    if s.len() > 0 {
        let short = s.drop_last();
        assert(s.last() == s[s.len() - 1]);
        assert forall|i: int| 0 <= i < short.len() implies 0 <= #[trigger] short[i] by {
            assert(0 <= s[i]);
        }
        law_greatest_and_counts(short, bound);
        assert forall|i: int| 0 <= i < s.len() implies #[trigger] s[i] <= graph::max_of(s) by {
            if i < short.len() {
                assert(short[i] <= graph::max_of(short));
            }
        }
        let m = graph::max_of(s);
        if s.last() > graph::max_of(short) {
            assert(s[s.len() - 1] == m);
        } else if short.len() > 0 {
            let k = choose|k: int| 0 <= k < short.len() && short[k] == m;
            assert(s[k] == m);
        } else {
            assert(s[0] == 0);
        }
    }
}

/// A percentile of some lengths, as a histogram has it, is one of them that stands at the percentile.
pub proof fn law_percentiles_of_lengths(values: Seq<F32>, pct: int)
    requires
        0 < values.len() <= usize::MAX,
        0 <= pct <= 100,
        forall|i: int| 0 <= i < values.len() ==> !(#[trigger] values[i]).nan(),
    ensures
        ({
            let x = ablation::at_percentile(ordering::ascending(values), pct);
            &&& values.contains(x)
            &&& tally::at_percentile(
                tally::tally(values, weighing_laws::less_than(x)),
                tally::tally(values, weighing_laws::more_than(x)),
                values.len(),
                pct,
            )
        }),
{
    broadcast use vstd::seq_lib::group_to_multiset_ensures;

    ordering::law_ascending_is_in_order(values);
    let sorted = ordering::ascending(values);
    let place = graph::percentile_index(values.len() as int, pct);
    tally::lemma_place_in_list(values.len(), pct, place);
    assert(sorted.len() == sorted.to_multiset().len());
    assert(values.len() == values.to_multiset().len());
    let x = sorted[place];
    let less = weighing_laws::less_than(x);
    let more = weighing_laws::more_than(x);
    tally::lemma_any_order(values, sorted, less);
    tally::lemma_any_order(values, sorted, more);
    assert forall|i: int| place <= i < sorted.len() implies !less(#[trigger] sorted[i]) by {
        assert(sorted[place].rank() <= sorted[i].rank());
    }
    assert forall|i: int| 0 <= i < place + 1 implies !more(#[trigger] sorted[i]) by {
        assert(sorted[i].rank() <= sorted[place].rank());
    }
    tally::lemma_ends(sorted, less, place);
    tally::lemma_ends(sorted, more, place + 1);
    tally::lemma_percentile_place(
        tally::tally(values, less),
        tally::tally(values, more),
        values.len(),
        pct,
        place,
    );
    assert(sorted.contains(x));
    assert(sorted.to_multiset().count(x) > 0);
}

/// A summary has the mean of its list, the percentiles 50, 95 and 99, and as many bins as asked for.
pub proof fn law_summaries_have_percentiles(values: Seq<F32>, bins: nat)
    ensures
        ({
            let s = ablation::summary_of(values, bins);
            let sorted = ordering::ascending(values);
            &&& s.mean == quant_aware_prune::mean_of(sorted)
            &&& s.median == ablation::at_percentile(sorted, 50)
            &&& s.p95 == ablation::at_percentile(sorted, 95)
            &&& s.p99 == ablation::at_percentile(sorted, 99)
            &&& s.counts.len() == bins
            &&& s.bins.len() == bins + 1
        }),
{
}

/// Where the bins are `width` wide and start at `low`, a number that is `k` widths above falls into bin
/// `k`: exactly, for whole numbers. The greatest number falls into the last bin.
pub proof fn law_bins_start_at_multiples(
    v: F32,
    low: F32,
    high: F32,
    bins: nat,
    a: int,
    width: int,
    k: int,
)
    requires
        exact_laws::is_whole(low, a),
        exact_laws::is_whole(high, a + width * bins),
        exact_laws::is_whole(v, a + k * width),
        0 <= k <= bins <= 0x100_0000,
        0 < width,
        0 < width * bins <= 0x100_0000,
        -0x100_0000 <= a,
        a + width * bins <= 0x100_0000,
    ensures
        ablation::bin_of(v, low, high, bins) == (if k < bins {
            k
        } else {
            bins - 1
        }),
{
    power2::lemma_pow2_pos(149);
    let u = power2::pow2(149) as int;
    let range = high.less(low);
    exact_laws::lemma_whole_less(high, low, a + width * bins, a);
    exact_laws::lemma_whole_zero();
    number_laws::law_order_is_of_values(F32(0), range);
    assert((width * bins) * u > 0) by (nonlinear_arith)
        requires
            width * bins > 0,
            u > 0,
    ;
    assert(0 * u == 0) by (nonlinear_arith);
    exact_laws::lemma_of_int(bins);
    assert(bins > 0) by {
        if bins == 0 {
            assert(width * bins == 0) by (nonlinear_arith)
                requires
                    bins == 0,
            ;
        }
    }
    assert(width <= 0x100_0000) by (nonlinear_arith)
        requires
            width * bins <= 0x100_0000,
            bins >= 1,
            width > 0,
    ;
    exact_laws::lemma_whole_over(range, F32::of_int(bins), width, bins as int);
    let w = ablation::bin_width(low, high, bins);
    assert(0 <= k * width <= width * bins) by (nonlinear_arith)
        requires
            0 <= k <= bins,
            0 < width,
    ;
    exact_laws::lemma_whole_less(v, low, a + k * width, a);
    exact_laws::lemma_whole_over(v.less(low), w, k, width);
    let q = v.less(low).over(w);
    number_laws::law_order_is_of_values(high, v);
    if k < bins {
        assert((a + k * width) * u < (a + width * bins) * u) by (nonlinear_arith)
            requires
                k < bins,
                0 < width,
                u > 0,
        ;
        assert(k * u >= 0) by (nonlinear_arith)
            requires
                k >= 0,
                u > 0,
        ;
        lemma_whole_part(q, k);
    } else {
        assert(a + k * width == a + width * bins) by (nonlinear_arith)
            requires
                k == bins,
        ;
    }
}

proof fn lemma_whole_part(x: F32, k: int)
    requires
        exact_laws::is_whole(x, k),
        0 <= k <= 0x100_0000,
    ensures
        x.whole_usize() == k,
{
    power2::lemma_pow2_pos(149);
    let u = power2::pow2(149) as int;
    assert(k * u >= 0) by (nonlinear_arith)
        requires
            k >= 0,
            u > 0,
    ;
    assert(k > 0 ==> k * u > 0) by (nonlinear_arith)
        requires
            u > 0,
    ;
    if x.negative() {
        assert(k == 0);
    } else {
        assert((k * u) / u == k) by (nonlinear_arith)
            requires
                u > 0,
        ;
    }
}

/// The squares of what each of the numbers is away from their mean, summed up.
pub proof fn law_recalls_vary_by_their_squares(
    v: RecallVariance,
    recalls: Seq<F32>,
    m: Seq<int>,
    mean: int,
    variance: int,
)
    requires
        v.sums_up(recalls),
        exact_laws::are_whole(recalls, m),
        0 < recalls.len() <= 0x100_0000,
        exact_laws::sum_of(exact_laws::sizes(m)) <= 0x100_0000,
        exact_laws::sum_of(m) == mean * m.len(),
        forall|i: int| 0 <= i < m.len() ==> -0xFFF <= (#[trigger] m[i]) - mean <= 0xFFF,
        exact_laws::sum_of(weighing_laws::squares_from(m, mean)) <= 0x100_0000,
        exact_laws::sum_of(weighing_laws::squares_from(m, mean)) == variance * m.len(),
    ensures
        exact_laws::is_whole(v.mean, mean),
        exact_laws::is_whole(v.variance, variance),
        v.std_dev == v.variance.root(),
{
    weighing_laws::law_means_are_exact(recalls, m, mean);
    weighing_laws::lemma_variance(recalls, m, mean, variance);
    assert(ablation::squared_differences(recalls, v.mean)
        =~= quant_aware_prune::squared_deviations(recalls, v.mean));
    assert(v.mean == sums::total(recalls).over(F32::of_int(recalls.len())));
}

/// The graphs that a claim is held against stand in order of their weights, each once.
pub proof fn law_graphs_stand_in_order_of_weight(metrics: Seq<AblationMetrics>)
    requires
        metrics.len() <= usize::MAX,
    ensures
        ({
            let s = ablation::by_weight(metrics);
            &&& s.to_multiset() == metrics.to_multiset()
            &&& forall|i: int, j: int|
                #![trigger s[i], s[j]]
                0 <= i <= j < s.len() ==> s[i].beta.rank() <= s[j].beta.rank()
        }),
{
    let keys = ordering::rank_keys(ablation::weights(metrics));
    let order = sorting::the_order(keys);
    sorting::lemma_order_exists(keys);
    sorting::lemma_stable_order_is_permutation(keys, order);
    sorting::lemma_gathered_multiset(metrics, order);
    let s = ablation::by_weight(metrics);
    assert forall|i: int, j: int|
        #![trigger s[i], s[j]]
        0 <= i <= j < s.len() implies s[i].beta.rank() <= s[j].beta.rank() by {
        assert(order[i] < metrics.len() && order[j] < metrics.len());
        if i < j {
            assert(sorting::goes_before(keys, order[i] as int, order[j] as int));
        }
    }
}

/// The edges of a graph are measured node after node, each from its node to its neighbour: as many
/// measures as edges, and one for every edge.
pub proof fn law_every_edge_is_measured(
    rows: Seq<Seq<u32>>,
    measured: spec_fn(u32, u32) -> F32,
    n: int,
    node: int,
    j: int,
)
    requires
        0 <= node < n <= rows.len() <= u32::MAX,
        0 <= j < rows[node].len(),
    ensures
        ablation::along_edges(rows, measured, n).len() == graph::total_len(rows.take(n)),
        ablation::along_edges(rows, measured, n)[graph::total_len(rows.take(node)) + j]
            == measured(node as u32, rows[node][j]),
    decreases n,
{
    lemma_measures(rows, measured, n);
    lemma_measures(rows, measured, n - 1);
    assert(rows.take(n).drop_last() =~= rows.take(n - 1));
    if node < n - 1 {
        law_every_edge_is_measured(rows, measured, n - 1, node, j);
        graph::lemma_total_len_prefix(rows.take(n - 1), node + 1);
        assert(rows.take(n - 1).take(node + 1) =~= rows.take(node + 1));
        assert(rows.take(node + 1).drop_last() =~= rows.take(node));
    }
}

proof fn lemma_measures(rows: Seq<Seq<u32>>, measured: spec_fn(u32, u32) -> F32, n: int)
    requires
        0 <= n <= rows.len(),
    ensures
        ablation::along_edges(rows, measured, n).len() == graph::total_len(rows.take(n)),
    decreases n,
{
    if n > 0 {
        lemma_measures(rows, measured, n - 1);
        assert(rows.take(n).drop_last() =~= rows.take(n - 1));
    } else {
        assert(rows.take(n) =~= Seq::empty());
    }
}

/// Whether an answer is a true neighbour.
pub open spec fn is_true(truth: Seq<u32>) -> spec_fn(Entry) -> bool {
    |e: Entry| truth.contains(e.0)
}

/// The hits of a query are its answers that are true neighbours.
pub proof fn law_hits_are_true_neighbours(entries: Seq<Entry>, truth: Seq<u32>, i: int)
    requires
        0 <= i <= entries.len(),
    ensures
        local_bench::hits(entries, truth, i) == tally::tally(entries.take(i), is_true(truth)),
    decreases i,
{
    if i > 0 {
        law_hits_are_true_neighbours(entries, truth, i - 1);
        assert(entries.take(i).drop_last() =~= entries.take(i - 1));
    }
}

/// Whether a time is less than another.
pub open spec fn faster_than(m: u64) -> spec_fn(u64) -> bool {
    |x: u64| x < m
}

/// Whether a time is more than another.
pub open spec fn slower_than(m: u64) -> spec_fn(u64) -> bool {
    |x: u64| x > m
}

/// A percentile of some times is one of them that stands at the percentile.
pub proof fn law_percentiles_of_times(times: Seq<u64>, pct: int)
    requires
        0 < times.len() <= usize::MAX,
        0 <= pct <= 100,
    ensures
        ({
            let x = local_bench::percentile_of(local_bench::times_in_order(times), pct);
            &&& times.contains(x)
            &&& tally::at_percentile(
                tally::tally(times, faster_than(x)),
                tally::tally(times, slower_than(x)),
                times.len(),
                pct,
            )
        }),
{
    broadcast use vstd::seq_lib::group_to_multiset_ensures;

    let keys = times.map_values(|t: u64| t as i128);
    let order = sorting::the_order(keys);
    sorting::lemma_order_exists(keys);
    sorting::lemma_stable_order_is_permutation(keys, order);
    sorting::lemma_gathered_multiset(times, order);
    let sorted = local_bench::times_in_order(times);
    let place = local_bench::percentile_place(times.len() as int, pct);
    tally::lemma_place_in_list(times.len(), pct, place);
    let x = sorted[place];
    tally::lemma_any_order(times, sorted, faster_than(x));
    tally::lemma_any_order(times, sorted, slower_than(x));
    assert forall|i: int, j: int|
        #![trigger sorted[i], sorted[j]]
        0 <= i <= j < sorted.len() implies sorted[i] <= sorted[j] by {
        assert(order[i] < times.len() && order[j] < times.len());
        if i < j {
            assert(sorting::goes_before(keys, order[i] as int, order[j] as int));
        }
    }
    assert forall|i: int| place <= i < sorted.len() implies !faster_than(x)(#[trigger] sorted[i]) by {
        assert(sorted[place] <= sorted[i]);
    }
    assert forall|i: int| 0 <= i < place + 1 implies !slower_than(x)(#[trigger] sorted[i]) by {
        assert(sorted[i] <= sorted[place]);
    }
    tally::lemma_ends(sorted, faster_than(x), place);
    tally::lemma_ends(sorted, slower_than(x), place + 1);
    tally::lemma_percentile_place(
        tally::tally(times, faster_than(x)),
        tally::tally(times, slower_than(x)),
        times.len(),
        pct,
        place,
    );
    assert(sorted.contains(x));
    assert(sorted.to_multiset().count(x) > 0);
}

/// The share of the smallest errors is compared by itself, however many edges there are: with as many
/// edges it is the counts that are compared, and graphs that follow on one another can be skipped.
pub proof fn law_shares_of_low_errors(a: AblationMetrics, b: AblationMetrics, c: AblationMetrics)
    ensures
        ablation::edges_of(a) == ablation::edges_of(b) ==> (ablation::share_holds(a, b)
            <==> ablation::low_errors(a) <= ablation::low_errors(b)),
        ablation::share_holds(a, b) && ablation::share_holds(b, c) ==> ablation::share_holds(a, c),
        ablation::share_holds(a, b) || ablation::share_holds(b, a),
{
    let (la, ea) = (ablation::low_errors(a), ablation::edges_of(a));
    let (lb, eb) = (ablation::low_errors(b), ablation::edges_of(b));
    let (lc, ec) = (ablation::low_errors(c), ablation::edges_of(c));
    if ea == eb {
        assert(lb * ea >= la * ea <==> la <= lb) by (nonlinear_arith)
            requires
                ea > 0,
        ;
    }
    if ablation::share_holds(a, b) && ablation::share_holds(b, c) {
        assert(lc * ea >= la * ec) by (nonlinear_arith)
            requires
                lb * ea >= la * eb,
                lc * eb >= lb * ec,
                ea > 0,
                eb > 0,
                ec > 0,
                la >= 0,
                lb >= 0,
                lc >= 0,
        ;
    }
}

/// Some graphs bear out the claim where, and only where, there are at least two, none has a smaller share
/// of the smallest errors or a lower recall than one with less weight, and each stays connected: it has
/// edges, and no more nodes without neighbours than edges.
pub proof fn law_claims_are_borne_out_by_every_step(metrics: Seq<AblationMetrics>)
    requires
        metrics.len() >= 2,
        metrics.len() <= usize::MAX,
    ensures
        ({
            let s = ablation::by_weight(metrics);
            let c = ablation::chain_of(metrics);
            &&& c.topology_evidence <==> forall|i: int, j: int|
                #![trigger s[i], s[j]]
                0 <= i < j < s.len() ==> ablation::share_holds(s[i], s[j])
            &&& c.performance_evidence <==> forall|i: int, j: int|
                #![trigger s[i], s[j]]
                0 <= i < j < s.len() ==> s[i].recall_at_10.at_most(s[j].recall_at_10)
            &&& c.mechanism_explanation <==> forall|i: int|
                0 <= i < s.len() ==> (#[trigger] s[i]).connectivity.total_degree > 0
                    && s[i].connectivity.isolated_nodes <= s[i].connectivity.total_edges
            &&& c.chain_holds <==> c.topology_evidence && c.performance_evidence
                && c.mechanism_explanation
        }),
{
    let s = ablation::by_weight(metrics);
    let c = ablation::chain_of(metrics);
    if c.topology_evidence {
        assert forall|i: int, j: int|
            #![trigger s[i], s[j]]
            0 <= i < j < s.len() implies ablation::share_holds(s[i], s[j]) by {
            lemma_shares_chain(s, i, j);
        }
    } else {
        let i = choose|i: int| 0 < i < s.len() && !ablation::share_holds(s[i - 1], #[trigger] s[i]);
        assert(!ablation::share_holds(s[i - 1], s[i]));
    }
    if c.performance_evidence {
        assert forall|i: int, j: int|
            #![trigger s[i], s[j]]
            0 <= i < j < s.len() implies s[i].recall_at_10.at_most(s[j].recall_at_10) by {
            lemma_recalls_chain(s, i, j);
        }
    } else {
        let i = choose|i: int|
            0 < i < s.len() && !s[i - 1].recall_at_10.at_most((#[trigger] s[i]).recall_at_10);
        assert(!s[i - 1].recall_at_10.at_most(s[i].recall_at_10));
    }
    if !c.mechanism_explanation {
        let i = choose|i: int| 0 <= i < s.len() && !ablation::stays_connected(#[trigger] s[i]);
        assert(!ablation::stays_connected(s[i]));
    } else {
        assert forall|i: int| 0 <= i < s.len() implies (#[trigger] s[i]).connectivity.total_degree
            > 0 && s[i].connectivity.isolated_nodes <= s[i].connectivity.total_edges by {
            assert(ablation::stays_connected(s[i]));
        }
    }
}

proof fn lemma_shares_chain(s: Seq<AblationMetrics>, i: int, j: int)
    requires
        forall|k: int| 0 < k < s.len() ==> ablation::share_holds(s[k - 1], #[trigger] s[k]),
        0 <= i < j < s.len(),
    ensures
        ablation::share_holds(s[i], s[j]),
    decreases j - i,
{
    assert(ablation::share_holds(s[j - 1], s[j]));
    if i < j - 1 {
        lemma_shares_chain(s, i, j - 1);
        law_shares_of_low_errors(s[i], s[j - 1], s[j]);
    }
}

proof fn lemma_recalls_chain(s: Seq<AblationMetrics>, i: int, j: int)
    requires
        forall|k: int|
            0 < k < s.len() ==> s[k - 1].recall_at_10.at_most((#[trigger] s[k]).recall_at_10),
        0 <= i < j < s.len(),
    ensures
        s[i].recall_at_10.at_most(s[j].recall_at_10),
    decreases j - i,
{
    assert(s[j - 1].recall_at_10.at_most(s[j].recall_at_10));
    if i < j - 1 {
        lemma_recalls_chain(s, i, j - 1);
    }
}

/// Whether a count is zero.
pub open spec fn none_at_all() -> spec_fn(int) -> bool {
    |x: int| x == 0
}

/// The isolated nodes of a graph are those without a neighbour, and its edges are as many as its blocks
/// hold.
pub proof fn law_isolated_nodes_have_no_neighbour(c: ConnectivityMetrics, view: CsrView)
    requires
        c.describes(view),
    ensures
        c.isolated_nodes == tally::tally(view.degrees(), none_at_all()),
        forall|i: int|
            0 <= i < view.lists.len() ==> (#[trigger] view.all(i)).len() <= c.max_degree,
{
    let d = view.degrees();
    assert forall|i: int| 0 <= i < d.len() implies 0 <= #[trigger] d[i] by {}
    law_greatest_and_counts(d, 0);
    lemma_none_or_some(d);
    assert forall|i: int| 0 <= i < view.lists.len() implies (#[trigger] view.all(i)).len()
        <= c.max_degree by {
        assert(d[i] <= graph::max_of(d));
    }
}

proof fn lemma_none_or_some(d: Seq<int>)
    requires
        forall|i: int| 0 <= i < d.len() ==> 0 <= #[trigger] d[i],
    ensures
        tally::tally(d, none_at_all()) + tally::tally(d, greater_than(0)) == d.len(),
    decreases d.len(),
{
    if d.len() > 0 {
        assert forall|i: int| 0 <= i < d.drop_last().len() implies 0 <= #[trigger] d.drop_last()[i] by {
            assert(0 <= d[i]);
        }
        assert(0 <= d[d.len() - 1]);
        lemma_none_or_some(d.drop_last());
    }
}

/// A benchmark asks for ten answers to each query, with the fixed width alone and from the start of the
/// index, and counts those that are true neighbours. Queries count as far as true neighbours are known.
pub proof fn law_benchmarks_count_true_answers<K: DistanceKernel>(
    r: BenchmarkResult,
    kernel: &K,
    vectors: &[F32],
    index: VamanaView,
    b: BenchmarkView,
    ef_search: usize,
    state: SearcherView,
    i: int,
)
    requires
        local_bench::counts_hits(r, kernel, vectors, index, b, ef_search),
        0 <= i < b.queries.len(),
        i < b.ground_truth.len(),
        state.graph == index,
        state.anchors is None,
        state.adaptive is None,
        state.ef_search == ef_search,
    ensures
        r.hits@.len() <= b.queries.len(),
        r.hits@.len() <= b.ground_truth.len(),
        i < r.hits@.len(),
        ({
            let answer = searcher::answer(
                Points { kernel, vectors, dim: b.dim },
                state,
                b.queries[i],
                10,
            );
            r.hits@[i] == tally::tally(answer, is_true(b.ground_truth[i]))
        }),
        r.truths@[i] == b.ground_truth[i].len(),
{
    let data = Points { kernel, vectors, dim: b.dim };
    let own = local_bench::benchmark_state(index, ef_search);
    let answer = searcher::answer(data, own, b.queries[i], 10);
    assert(answer == searcher::answer(data, state, b.queries[i], 10));
    assert(r.hits@[i] == local_bench::hits(answer, b.ground_truth[i], answer.len() as int));
    law_hits_are_true_neighbours(answer, b.ground_truth[i], answer.len() as int);
    assert(answer.take(answer.len() as int) =~= answer);
}

/// The times of a benchmark are of one latency for each query: their sum, and the times that stand at the
/// percentiles 95 and 99.
pub proof fn law_benchmarks_report_percentiles(r: BenchmarkResult, latencies: Seq<u64>)
    requires
        local_bench::has_times(r, latencies),
        0 < latencies.len(),
    ensures
        latencies.len() == r.queries,
        r.total_latency_us == graph::sum_of(latencies.map_values(|t: u64| t as int)),
        latencies.contains(r.p95_latency_us),
        tally::at_percentile(
            tally::tally(latencies, faster_than(r.p95_latency_us)),
            tally::tally(latencies, slower_than(r.p95_latency_us)),
            latencies.len(),
            95,
        ),
        latencies.contains(r.p99_latency_us),
        tally::at_percentile(
            tally::tally(latencies, faster_than(r.p99_latency_us)),
            tally::tally(latencies, slower_than(r.p99_latency_us)),
            latencies.len(),
            99,
        ),
{
    law_percentiles_of_times(latencies, 95);
    law_percentiles_of_times(latencies, 99);
}

} // verus!
