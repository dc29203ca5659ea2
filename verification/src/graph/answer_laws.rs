//! What the answers of a searcher are worth.
use vstd::prelude::*;
use crate::distance::DistanceKernel;
use crate::distance::single::{F32, MAX_BITS};
use crate::evaluation::scan;
use crate::graph::adaptive_ef::AdaptiveView;
use crate::graph::adaptive_laws;
use crate::graph::centroid;
use crate::graph::layered;
use crate::graph::layered_laws;
use crate::graph::linear_pool;
use crate::graph::linear_pool::Entry;
use crate::graph::points::Points;
use crate::graph::search;
use crate::graph::search::{NodeScore, SearchSpace};
use crate::graph::search_laws;
use crate::graph::searcher;
use crate::graph::searcher::SearcherView;
use crate::graph::vamana::VamanaView;

verus! {

/// Putting entries for different nodes in order leaves them different.
proof fn lemma_order_keeps_nodes_apart(offers: Seq<Entry>)
    requires
        layered::ids_of(offers).no_duplicates(),
        forall|i: int| 0 <= i < offers.len() ==> !(#[trigger] offers[i]).1.nan(),
    ensures
        layered::ids_of(linear_pool::in_order(offers)).no_duplicates(),
{
    broadcast use vstd::seq_lib::group_to_multiset_ensures;

    linear_pool::lemma_in_order(offers);
    let all = linear_pool::in_order(offers);
    let ids = layered::ids_of(all);
    assert forall|i: int, j: int| 0 <= i < j < offers.len() implies offers[i] != offers[j] by {
        assert(layered::ids_of(offers)[i] != layered::ids_of(offers)[j]);
    }
    offers.lemma_multiset_has_no_duplicates();
    all.lemma_multiset_has_no_duplicates_conv();
    assert forall|i: int, j: int| 0 <= i < j < ids.len() implies ids[i] != ids[j] by {
        assert(all[i] != all[j]);
        assert(all.contains(all[i]) && all.contains(all[j]));
        assert(all.to_multiset().count(all[i]) > 0 && all.to_multiset().count(all[j]) > 0);
        assert(offers.contains(all[i]) && offers.contains(all[j]));
        let p = choose|p: int| 0 <= p < offers.len() && offers[p] == all[i];
        let q = choose|q: int| 0 <= q < offers.len() && offers[q] == all[j];
        assert(layered::ids_of(offers)[p] != layered::ids_of(offers)[q]);
    }
}

/// The nearest of different nodes are different.
proof fn lemma_nearest_are_apart(ids: Seq<u32>, score: spec_fn(u32) -> F32, ef: nat)
    requires
        ids.no_duplicates(),
        forall|i: int| 0 <= i < ids.len() ==> !(#[trigger] score(ids[i])).nan(),
    ensures
        layered::ids_of(search_laws::nearest(ids, score, ef)).no_duplicates(),
{
    let offers = search_laws::with_scores(ids, score);
    assert forall|i: int| 0 <= i < offers.len() implies !(#[trigger] offers[i]).1.nan() by {
        assert(!score(ids[i]).nan());
    }
    assert(layered::ids_of(offers) =~= ids);
    lemma_order_keeps_nodes_apart(offers);
    let all = linear_pool::in_order(offers);
    let best = layered::ids_of(search_laws::nearest(ids, score, ef));
    assert forall|i: int, j: int| 0 <= i < j < best.len() implies best[i] != best[j] by {
        assert(layered::ids_of(all)[i] != layered::ids_of(all)[j]);
    }
}

/// What a search finds: different nodes in order of distance, each with its own, as many as it is
/// wide or as it has visited, and no other visited node is nearer than they are. It has visited its
/// entry point, and, as long as one expansion takes them all, every neighbour of every node that it
/// finds.
pub proof fn law_searches_find_the_nearest(space: SearchSpace, ef: nat, entry: u32)
    requires
        ef >= 1,
        search_laws::scores_are_numbers(space),
        search_laws::ids_fit(space, entry),
    ensures
        ({
            let found = search::found(space, ef, entry);
            let seen = search::seen(space, ef, entry);
            &&& linear_pool::sorted(found)
            &&& layered::ids_of(found).no_duplicates()
            &&& found.len() == (if seen.len() <= ef {
                seen.len()
            } else {
                ef
            })
            &&& forall|i: int|
                0 <= i < found.len() ==> seen.contains((#[trigger] found[i]).0) && found[i].1
                    == (space.score)(found[i].0)
            &&& forall|i: int, j: int|
                0 <= i < found.len() && 0 <= j < seen.len() ==> (exists|k: int|
                    0 <= k < found.len() && (#[trigger] found[k]).0 == seen[j]) || (
                #[trigger] found[i]).1.at_most(#[trigger] (space.score)(seen[j]))
            &&& seen.no_duplicates()
            &&& seen.contains(entry)
            &&& forall|i: int, j: int|
                0 <= i < found.len() && 0 <= j < space.rows[found[i].0 as int].len()
                    && space.rows[found[i].0 as int].len() <= space.limit ==> seen.contains(
                    #[trigger] space.rows[found[i].0 as int][j],
                )
        }),
{
    let found = search::found(space, ef, entry);
    let seen = search::seen(space, ef, entry);
    search_laws::law_searches_end(space, ef, entry);
    search_laws::law_found_are_the_nearest_seen(space, ef, entry);
    assert forall|i: int| 0 <= i < seen.len() implies !(#[trigger] (space.score)(seen[i])).nan() by {
        assert(seen[i] < space.rows.len());
    }
    search_laws::law_nearest(seen, space.score, ef);
    lemma_nearest_are_apart(seen, space.score, ef);
    let end = search::outcome(space, space.start(ef, entry));
    assert forall|i: int, j: int|
        0 <= i < found.len() && 0 <= j < space.rows[found[i].0 as int].len()
            && space.rows[found[i].0 as int].len() <= space.limit implies seen.contains(
        #[trigger] space.rows[found[i].0 as int][j],
    ) by {
        assert(found[i].0 == linear_pool::raw(end.pool.items[i].0));
        search_laws::law_search_ends_at_a_local_optimum(space, ef, entry, end, i, j);
    }
}

/// The answer to a query is made of the nearest of all nodes that its search visits: `k` of them, or
/// as many as the search is wide or has visited, in order of distance, none twice, each with its
/// distance.
pub proof fn law_answers_are_the_nearest_seen<K: DistanceKernel>(
    data: Points<K>,
    state: SearcherView,
    query: Seq<F32>,
    k: usize,
)
    requires
        ({
            let start = searcher::search_start(data, state.graph, state.anchors, query);
            let space = searcher::query_space(data, state.graph, query);
            &&& searcher::search_width(data, state.adaptive, state.ef_search, start, query, k) >= 1
            &&& search_laws::scores_are_numbers(space)
            &&& search_laws::ids_fit(space, start.0)
        }),
    ensures
        ({
            let start = searcher::search_start(data, state.graph, state.anchors, query);
            let ef = searcher::search_width(data, state.adaptive, state.ef_search, start, query, k);
            let space = searcher::query_space(data, state.graph, query);
            let found = searcher::answer(data, state, query, k);
            &&& found == search_laws::nearest(
                search::seen(space, ef as nat, start.0),
                space.score,
                if k <= ef {
                    k as nat
                } else {
                    ef as nat
                },
            )
            &&& found.len() <= k
            &&& linear_pool::sorted(found)
            &&& layered::ids_of(found).no_duplicates()
            &&& forall|i: int|
                0 <= i < found.len() ==> (#[trigger] found[i]).0 < space.rows.len() && found[i].1
                    == (space.score)(found[i].0)
        }),
{
    let start = searcher::search_start(data, state.graph, state.anchors, query);
    let ef = searcher::search_width(data, state.adaptive, state.ef_search, start, query, k);
    let space = searcher::query_space(data, state.graph, query);
    let seen = search::seen(space, ef as nat, start.0);
    search_laws::law_found_are_the_nearest_seen(space, ef as nat, start.0);
    assert forall|i: int| 0 <= i < seen.len() implies !(#[trigger] (space.score)(seen[i])).nan() by {
        assert(seen[i] < space.rows.len());
    }
    search_laws::law_nearest(seen, space.score, ef as nat);
    let all = linear_pool::in_order(search_laws::with_scores(seen, space.score));
    let found = search::found(space, ef as nat, start.0);
    linear_pool::lemma_in_order_of_sorted(found);
    let least = if k <= ef {
        k as nat
    } else {
        ef as nat
    };
    search_laws::law_nearest(seen, space.score, least);
    let answer = searcher::answer(data, state, query, k);
    assert(answer =~= search_laws::nearest(seen, space.score, least));
    lemma_nearest_are_apart(seen, space.score, least);
    assert forall|i: int| 0 <= i < answer.len() implies (#[trigger] answer[i]).0 < space.rows.len()
        && answer[i].1 == (space.score)(answer[i].0) by {
        let e = search_laws::nearest(seen, space.score, least)[i];
        assert(seen.contains(e.0));
        let j = choose|j: int| 0 <= j < seen.len() && seen[j] == e.0;
        assert(seen[j] < space.rows.len());
    }
}

/// A search by another score answers with exact distances: at most `k` nodes in order of distance,
/// each one that the search has found, with its distance to the query.
pub proof fn law_coarse_answers_are_exact<K: DistanceKernel, S: NodeScore>(
    data: Points<K>,
    state: SearcherView,
    score: &S,
    query: Seq<F32>,
    k: usize,
)
    requires
        ({
            let start = searcher::search_start(data, state.graph, state.anchors, query);
            let ef = searcher::search_width(data, state.adaptive, state.ef_search, start, query, k);
            let found = search::found(
                searcher::score_space(state.graph, score),
                ef as nat,
                start.0,
            );
            forall|i: int|
                0 <= i < found.len() ==> !data.score_to(query)((#[trigger] found[i]).0).nan()
        }),
    ensures
        ({
            let start = searcher::search_start(data, state.graph, state.anchors, query);
            let ef = searcher::search_width(data, state.adaptive, state.ef_search, start, query, k);
            let found = search::found(
                searcher::score_space(state.graph, score),
                ef as nat,
                start.0,
            );
            let answer = searcher::answer_by(data, state, score, query, k);
            &&& answer.len() == (if found.len() <= k {
                found.len()
            } else {
                k as nat
            })
            &&& linear_pool::sorted(answer)
            &&& forall|i: int|
                0 <= i < answer.len() ==> (exists|j: int|
                    0 <= j < found.len() && (#[trigger] found[j]).0 == answer[i].0) && (
                #[trigger] answer[i]).1 == data.score_to(query)(answer[i].0)
        }),
{
    broadcast use vstd::seq_lib::group_to_multiset_ensures;

    let start = searcher::search_start(data, state.graph, state.anchors, query);
    let ef = searcher::search_width(data, state.adaptive, state.ef_search, start, query, k);
    let found = search::found(searcher::score_space(state.graph, score), ef as nat, start.0);
    let exact = searcher::rescored(data, query, found);
    assert forall|i: int| 0 <= i < exact.len() implies !(#[trigger] exact[i]).1.nan() by {
        assert(!data.score_to(query)(found[i].0).nan());
    }
    linear_pool::lemma_in_order(exact);
    let all = linear_pool::in_order(exact);
    let answer = searcher::answer_by(data, state, score, query, k);
    assert forall|i: int| 0 <= i < answer.len() implies (exists|j: int|
        0 <= j < found.len() && (#[trigger] found[j]).0 == answer[i].0) && (
    #[trigger] answer[i]).1 == data.score_to(query)(answer[i].0) by {
        let e = answer[i];
        assert(e == all[i]);
        assert(all.contains(e));
        assert(all.to_multiset().count(e) > 0);
        assert(exact.contains(e));
        let j = choose|j: int| 0 <= j < exact.len() && exact[j] == e;
        assert(found[j].0 == e.0);
    }
}

/// An answer by another score names no node twice.
pub proof fn law_coarse_answers_name_no_node_twice<K: DistanceKernel, S: NodeScore>(
    data: Points<K>,
    state: SearcherView,
    score: &S,
    query: Seq<F32>,
    k: usize,
)
    requires
        ({
            let start = searcher::search_start(data, state.graph, state.anchors, query);
            let ef = searcher::search_width(data, state.adaptive, state.ef_search, start, query, k);
            let space = searcher::score_space(state.graph, score);
            let found = search::found(space, ef as nat, start.0);
            &&& ef >= 1
            &&& search_laws::scores_are_numbers(space)
            &&& search_laws::ids_fit(space, start.0)
            &&& forall|i: int|
                0 <= i < found.len() ==> !data.score_to(query)((#[trigger] found[i]).0).nan()
        }),
    ensures
        layered::ids_of(searcher::answer_by(data, state, score, query, k)).no_duplicates(),
{
    let start = searcher::search_start(data, state.graph, state.anchors, query);
    let ef = searcher::search_width(data, state.adaptive, state.ef_search, start, query, k);
    let space = searcher::score_space(state.graph, score);
    let seen = search::seen(space, ef as nat, start.0);
    let found = search::found(space, ef as nat, start.0);
    search_laws::law_found_are_the_nearest_seen(space, ef as nat, start.0);
    assert forall|i: int| 0 <= i < seen.len() implies !(#[trigger] (space.score)(seen[i])).nan() by {
        assert(seen[i] < space.rows.len());
    }
    lemma_nearest_are_apart(seen, space.score, ef as nat);
    let exact = searcher::rescored(data, query, found);
    assert(layered::ids_of(exact) =~= layered::ids_of(found));
    assert forall|i: int| 0 <= i < exact.len() implies !(#[trigger] exact[i]).1.nan() by {
        assert(!data.score_to(query)(found[i].0).nan());
    }
    lemma_order_keeps_nodes_apart(exact);
    let all = linear_pool::in_order(exact);
    let best = layered::ids_of(searcher::answer_by(data, state, score, query, k));
    assert forall|i: int, j: int| 0 <= i < j < best.len() implies best[i] != best[j] by {
        assert(layered::ids_of(all)[i] != layered::ids_of(all)[j]);
    }
}

/// Of many queries answered at once, each row has at most `k` nodes, in order of distance and none
/// twice.
pub proof fn law_batch_rows_are_in_order<K: DistanceKernel>(
    data: Points<K>,
    state: SearcherView,
    queries: Seq<Seq<F32>>,
    k: usize,
    rows: Seq<Seq<Entry>>,
)
    requires
        rows.len() == queries.len(),
        forall|i: int|
            0 <= i < rows.len() ==> #[trigger] rows[i] == searcher::answer(
                data,
                state,
                queries[i],
                k,
            ),
        forall|i: int|
            0 <= i < queries.len() ==> {
                let query = #[trigger] queries[i];
                let start = searcher::search_start(data, state.graph, state.anchors, query);
                let space = searcher::query_space(data, state.graph, query);
                &&& searcher::search_width(
                    data,
                    state.adaptive,
                    state.ef_search,
                    start,
                    query,
                    k,
                ) >= 1
                &&& search_laws::scores_are_numbers(space)
                &&& search_laws::ids_fit(space, start.0)
            },
    ensures
        forall|i: int|
            0 <= i < rows.len() ==> {
                &&& (#[trigger] rows[i]).len() <= k
                &&& linear_pool::sorted(rows[i])
                &&& layered::ids_of(rows[i]).no_duplicates()
            },
{
    assert forall|i: int| 0 <= i < rows.len() implies {
        &&& (#[trigger] rows[i]).len() <= k
        &&& linear_pool::sorted(rows[i])
        &&& layered::ids_of(rows[i]).no_duplicates()
    } by {
        let query = queries[i];
        law_answers_are_the_nearest_seen(data, state, query, k);
    }
}

/// Of many queries answered at once by other scores, each row has at most `k` nodes, in order of
/// their exact distances and none twice.
pub proof fn law_coarse_batch_rows_are_in_order<K: DistanceKernel, S: NodeScore>(
    data: Points<K>,
    state: SearcherView,
    scores: Seq<S>,
    queries: Seq<Seq<F32>>,
    k: usize,
    rows: Seq<Seq<Entry>>,
)
    requires
        rows.len() == queries.len(),
        scores.len() == queries.len(),
        forall|i: int|
            0 <= i < rows.len() ==> #[trigger] rows[i] == searcher::answer_by(
                data,
                state,
                &scores[i],
                queries[i],
                k,
            ),
        forall|i: int|
            0 <= i < queries.len() ==> {
                let query = #[trigger] queries[i];
                let start = searcher::search_start(data, state.graph, state.anchors, query);
                let ef = searcher::search_width(
                    data,
                    state.adaptive,
                    state.ef_search,
                    start,
                    query,
                    k,
                );
                let space = searcher::score_space(state.graph, &scores[i]);
                let found = search::found(space, ef as nat, start.0);
                &&& ef >= 1
                &&& search_laws::scores_are_numbers(space)
                &&& search_laws::ids_fit(space, start.0)
                &&& forall|j: int|
                    0 <= j < found.len() ==> !data.score_to(query)((#[trigger] found[j]).0).nan()
            },
    ensures
        forall|i: int|
            0 <= i < rows.len() ==> {
                &&& (#[trigger] rows[i]).len() <= k
                &&& linear_pool::sorted(rows[i])
                &&& layered::ids_of(rows[i]).no_duplicates()
            },
{
    assert forall|i: int| 0 <= i < rows.len() implies {
        &&& (#[trigger] rows[i]).len() <= k
        &&& linear_pool::sorted(rows[i])
        &&& layered::ids_of(rows[i]).no_duplicates()
    } by {
        let query = queries[i];
        law_coarse_answers_are_exact(data, state, &scores[i], query, k);
        law_coarse_answers_name_no_node_twice(data, state, &scores[i], query, k);
    }
}

/// What a searcher was asked before changes no answer: answers depend on the index, the place to
/// start from and the widths alone.
pub proof fn law_answers_do_not_depend_on_earlier_queries<K: DistanceKernel, S: NodeScore>(
    data: Points<K>,
    fresh: SearcherView,
    used: SearcherView,
    score: &S,
    query: Seq<F32>,
    k: usize,
)
    requires
        fresh.graph == used.graph,
        fresh.anchors == used.anchors,
        fresh.adaptive == used.adaptive,
        fresh.ef_search == used.ef_search,
    ensures
        searcher::answer(data, fresh, query, k) == searcher::answer(data, used, query, k),
        searcher::answer_by(data, fresh, score, query, k) == searcher::answer_by(
            data,
            used,
            score,
            query,
            k,
        ),
{
}

/// How wide a search with estimated widths is: never narrower than the number of answers nor than the
/// smallest width, and no wider than the greatest width unless more answers are asked for. The farther
/// the start is from the query, the wider it is.
pub proof fn law_estimated_widths<K: DistanceKernel>(
    data: Points<K>,
    a: AdaptiveView,
    ef_search: usize,
    start: (u32, Option<F32>),
    query: Seq<F32>,
    k: usize,
)
    requires
        a.usable(),
    ensures
        ({
            let width = searcher::search_width(data, Some(a), ef_search, start, query, k);
            &&& width >= k
            &&& width >= a.min_ef
            &&& width <= a.max_ef || width == k
        }),
{
    adaptive_laws::law_estimate_in_range(
        a,
        match start.1 {
            Some(d) => d,
            None => data.score_to(query)(start.0),
        },
    );
}

/// The distance that a search starts at, and the widths: a search from a farther start is no narrower,
/// whether the distance was computed by the layers or not.
pub proof fn law_farther_starts_are_searched_wider<K: DistanceKernel>(
    data: Points<K>,
    a: AdaptiveView,
    ef_search: usize,
    near: u32,
    far: u32,
    query: Seq<F32>,
    k: usize,
)
    requires
        a.usable(),
        a.grows(),
        data.kernel.dist(query, data.vector(near as int)).at_most(
            data.kernel.dist(query, data.vector(far as int)),
        ),
    ensures
        ({
            let d = data.kernel.dist(query, data.vector(near as int));
            let e = data.kernel.dist(query, data.vector(far as int));
            let width = |start: (u32, Option<F32>)|
                searcher::search_width(data, Some(a), ef_search, start, query, k);
            &&& width((near, None)) == width((near, Some(d)))
            &&& width((far, None)) == width((far, Some(e)))
            &&& width((near, None)) <= width((far, None))
        }),
{
    let d = data.kernel.dist(query, data.vector(near as int));
    let e = data.kernel.dist(query, data.vector(far as int));
    assert(data.score_to(query)(near) == d);
    assert(data.score_to(query)(far) == e);
    adaptive_laws::law_estimate_grows(a, d, e);
}

/// A search at the least distance that was sampled, or nearer, is as narrow as can be; one farther than
/// all that were sampled is as wide as can be. The number of answers may ask for more.
pub proof fn law_widths_at_the_ends<K: DistanceKernel>(
    data: Points<K>,
    a: AdaptiveView,
    ef_search: usize,
    start: u32,
    query: Seq<F32>,
    k: usize,
)
    requires
        a.usable(),
        a.grows(),
        a.distances.len() > 1,
        a.max_ef <= 0x100_0000,
    ensures
        ({
            let d = data.kernel.dist(query, data.vector(start as int));
            let width = searcher::search_width(
                data,
                Some(a),
                ef_search,
                (start, None),
                query,
                k,
            );
            &&& (forall|i: int|
                0 <= i < a.distances.len() ==> d.at_most(#[trigger] a.distances[i])) ==> width == (
            if a.min_ef >= k {
                a.min_ef
            } else {
                k
            })
            &&& (forall|i: int|
                0 <= i < a.distances.len() ==> (#[trigger] a.distances[i]).below(d)) ==> width == (
            if a.max_ef >= k {
                a.max_ef
            } else {
                k
            })
        }),
{
    assert(data.score_to(query)(start) == data.kernel.dist(query, data.vector(start as int)));
    adaptive_laws::law_estimate_at_the_ends(
        a,
        data.kernel.dist(query, data.vector(start as int)),
    );
}

/// Where a search starts. Layers lead to their entry point or to a node nearer than it. Without layers
/// it is an anchor that no other anchor is nearer than, or, without anchors, the entry point.
pub proof fn law_searches_start_near<K: DistanceKernel>(
    data: Points<K>,
    graph: VamanaView,
    anchors: Option<Seq<u32>>,
    query: Seq<F32>,
)
    requires
        anchors matches Some(ids) ==> ids.len() > 0 && forall|i: int|
            0 <= i < ids.len() ==> data.kernel.dist(
                query,
                data.vector((#[trigger] ids[i]) as int),
            ).below(F32(MAX_BITS)),
    ensures
        ({
            let start = searcher::search_start(data, graph, anchors, query);
            let d = data.kernel.dist(query, data.vector(start.0 as int));
            match (graph.layers, anchors) {
                (Some(nav), _) => {
                    &&& start.1 == Some(d)
                    &&& start.0 == nav.entry_point || d.below(
                        data.kernel.dist(query, data.vector(nav.entry_point as int)),
                    )
                },
                (None, Some(ids)) => {
                    &&& ids.contains(start.0)
                    &&& forall|i: int|
                        0 <= i < ids.len() ==> d.at_most(
                            data.kernel.dist(query, data.vector((#[trigger] ids[i]) as int)),
                        )
                },
                (None, None) => start.0 == graph.entry_point,
            }
        }),
{
    match (graph.layers, anchors) {
        (Some(nav), _) => {
            layered_laws::law_descent_gets_nearer(data, nav, query);
        },
        (None, Some(ids)) => {
            let all = centroid::distances_from(
                data.kernel,
                data.vectors@,
                data.dim as int,
                query,
                ids,
            );
            centroid::lemma_least(all);
            assert(data.kernel.dist(query, data.vector(ids[0] as int)).below(F32(MAX_BITS)));
            assert(all[0].below(F32(MAX_BITS)));
            let at = centroid::least(all).0;
            assert(at >= 0);
            assert forall|i: int| 0 <= i < ids.len() implies all[at].at_most(
                data.kernel.dist(query, data.vector((#[trigger] ids[i]) as int)),
            ) by {
                assert(!all[i].below(all[at]));
                assert(all[i].below(F32(MAX_BITS)));
            }
        },
        (None, None) => {},
    }
}

/// An answer is as long as it can be: `k` nodes, or all that its search has visited where those are
/// fewer. Only a fixed width can make it shorter; an estimated one never does. Each node comes with its
/// own distance to the query, in order, and no visited node outside of the answer is nearer than one in
/// it.
pub proof fn law_answers_are_full<K: DistanceKernel>(
    data: Points<K>,
    state: SearcherView,
    query: Seq<F32>,
    k: usize,
)
    requires
        state.adaptive matches Some(a) ==> a.usable(),
        ({
            let start = searcher::search_start(data, state.graph, state.anchors, query);
            let space = searcher::query_space(data, state.graph, query);
            &&& searcher::search_width(data, state.adaptive, state.ef_search, start, query, k) >= 1
            &&& search_laws::scores_are_numbers(space)
            &&& search_laws::ids_fit(space, start.0)
        }),
    ensures
        ({
            let start = searcher::search_start(data, state.graph, state.anchors, query);
            let ef = searcher::search_width(data, state.adaptive, state.ef_search, start, query, k);
            let visited = search::seen(
                SearchSpace {
                    rows: state.graph.graph.lists,
                    score: data.score_to(query),
                    limit: 128,
                },
                ef as nat,
                start.0,
            );
            let found = searcher::answer(data, state, query, k);
            &&& state.adaptive is Some && visited.len() >= k ==> found.len() == k
            &&& state.adaptive is None && visited.len() >= k && state.ef_search >= k ==> found.len()
                == k
            &&& visited.len() < k && visited.len() <= ef ==> found.len() == visited.len()
            &&& found.len() <= k
            &&& forall|i: int|
                0 <= i < found.len() ==> visited.contains((#[trigger] found[i]).0) && found[i].1
                    == data.kernel.dist(query, data.vector(found[i].0 as int))
            &&& forall|i: int, j: int|
                #![trigger found[i], found[j]]
                0 <= i <= j < found.len() ==> found[i].1.at_most(found[j].1)
            &&& forall|i: int, v: u32|
                0 <= i < found.len() && #[trigger] visited.contains(v) ==> layered::ids_of(
                    found,
                ).contains(v) || (#[trigger] found[i]).1.at_most(
                    data.kernel.dist(query, data.vector(v as int)),
                )
        }),
{
    let start = searcher::search_start(data, state.graph, state.anchors, query);
    let ef = searcher::search_width(data, state.adaptive, state.ef_search, start, query, k);
    let space = searcher::query_space(data, state.graph, query);
    let visited = search::seen(space, ef as nat, start.0);
    if let Some(a) = state.adaptive {
        law_estimated_widths(data, a, state.ef_search, start, query, k);
    }
    law_answers_are_the_nearest_seen(data, state, query, k);
    search_laws::law_found_are_the_nearest_seen(space, ef as nat, start.0);
    assert forall|i: int| 0 <= i < visited.len() implies !(#[trigger] (space.score)(
        visited[i],
    )).nan() by {
        assert(visited[i] < space.rows.len());
    }
    let least = if k <= ef {
        k as nat
    } else {
        ef as nat
    };
    search_laws::law_nearest(visited, space.score, least);
    let found = searcher::answer(data, state, query, k);
    assert forall|i: int| 0 <= i < found.len() implies visited.contains((#[trigger] found[i]).0)
        && found[i].1 == data.kernel.dist(query, data.vector(found[i].0 as int)) by {
        let e = search_laws::nearest(visited, space.score, least)[i];
        assert(visited.contains(e.0));
    }
    assert forall|i: int, v: u32|
        0 <= i < found.len() && #[trigger] visited.contains(v) implies layered::ids_of(
        found,
    ).contains(v) || (#[trigger] found[i]).1.at_most(
        data.kernel.dist(query, data.vector(v as int)),
    ) by {
        let j = choose|j: int| 0 <= j < visited.len() && visited[j] == v;
        assert((space.score)(visited[j]) == data.kernel.dist(query, data.vector(v as int)));
        let all = search_laws::nearest(visited, space.score, least);
        if exists|m: int| 0 <= m < all.len() && (#[trigger] all[m]).0 == visited[j] {
            let m = choose|m: int| 0 <= m < all.len() && (#[trigger] all[m]).0 == visited[j];
            assert(layered::ids_of(found)[m] == v);
        }
    }
}

/// An answer by another score is made of what its search has found and ranked by exact distances: `k`
/// nodes, or all that the search has visited where those are fewer; an estimated width never makes it
/// shorter. No found node outside of the answer is nearer than one in it.
pub proof fn law_coarse_answers_are_full<K: DistanceKernel, S: NodeScore>(
    data: Points<K>,
    state: SearcherView,
    score: &S,
    query: Seq<F32>,
    k: usize,
)
    requires
        state.adaptive matches Some(a) ==> a.usable(),
        ({
            let start = searcher::search_start(data, state.graph, state.anchors, query);
            let space = searcher::score_space(state.graph, score);
            &&& searcher::search_width(data, state.adaptive, state.ef_search, start, query, k) >= 1
            &&& search_laws::scores_are_numbers(space)
            &&& search_laws::ids_fit(space, start.0)
        }),
        forall|id: u32|
            id < state.graph.graph.lists.len() ==> !(#[trigger] data.score_to(query)(id)).nan(),
    ensures
        ({
            let start = searcher::search_start(data, state.graph, state.anchors, query);
            let ef = searcher::search_width(data, state.adaptive, state.ef_search, start, query, k);
            let space = SearchSpace {
                rows: state.graph.graph.lists,
                score: search::scores(score),
                limit: 128,
            };
            let visited = search::seen(space, ef as nat, start.0);
            let found = search::found(space, ef as nat, start.0);
            let answer = searcher::answer_by(data, state, score, query, k);
            &&& state.adaptive is Some && visited.len() >= k ==> answer.len() == k
            &&& state.adaptive is None && visited.len() >= k && state.ef_search >= k
                ==> answer.len() == k
            &&& visited.len() < k && visited.len() <= ef ==> answer.len() == visited.len()
            &&& forall|i: int, j: int|
                0 <= i < answer.len() && 0 <= j < found.len() ==> layered::ids_of(
                    answer,
                ).contains((#[trigger] found[j]).0) || (#[trigger] answer[i]).1.at_most(
                    data.kernel.dist(query, data.vector(found[j].0 as int)),
                )
        }),
{
    broadcast use vstd::seq_lib::group_to_multiset_ensures;

    let start = searcher::search_start(data, state.graph, state.anchors, query);
    let ef = searcher::search_width(data, state.adaptive, state.ef_search, start, query, k);
    let space = searcher::score_space(state.graph, score);
    let visited = search::seen(space, ef as nat, start.0);
    let found = search::found(space, ef as nat, start.0);
    if let Some(a) = state.adaptive {
        law_estimated_widths(data, a, state.ef_search, start, query, k);
    }
    search_laws::law_found_are_the_nearest_seen(space, ef as nat, start.0);
    assert forall|i: int| 0 <= i < visited.len() implies !(#[trigger] (space.score)(
        visited[i],
    )).nan() by {
        assert(visited[i] < space.rows.len());
    }
    search_laws::law_nearest(visited, space.score, ef as nat);
    assert forall|i: int| 0 <= i < found.len() implies !data.score_to(query)(
        (#[trigger] found[i]).0,
    ).nan() by {
        let e = search_laws::nearest(visited, space.score, ef as nat)[i];
        assert(visited.contains(e.0));
        let j = choose|j: int| 0 <= j < visited.len() && visited[j] == e.0;
        assert(visited[j] < space.rows.len());
    }
    law_coarse_answers_are_exact(data, state, score, query, k);
    let exact = searcher::rescored(data, query, found);
    assert forall|i: int| 0 <= i < exact.len() implies !(#[trigger] exact[i]).1.nan() by {
        assert(!data.score_to(query)(found[i].0).nan());
    }
    linear_pool::lemma_in_order(exact);
    let all = linear_pool::in_order(exact);
    let answer = searcher::answer_by(data, state, score, query, k);
    assert forall|i: int, j: int|
        0 <= i < answer.len() && 0 <= j < found.len() implies layered::ids_of(answer).contains(
        (#[trigger] found[j]).0,
    ) || (#[trigger] answer[i]).1.at_most(
        data.kernel.dist(query, data.vector(found[j].0 as int)),
    ) by {
        let e = exact[j];
        assert(exact.contains(e));
        assert(exact.to_multiset().count(e) > 0);
        assert(all.contains(e));
        let m = choose|m: int| 0 <= m < all.len() && all[m] == e;
        if m < answer.len() {
            assert(layered::ids_of(answer)[m] == found[j].0);
        } else {
            assert(answer[i] == all[i]);
            assert(all[i].1.at_most(all[m].1));
        }
    }
}

/// A run of queries counts for each query the nodes that its search visited: no fewer than it answers.
pub proof fn law_runs_count_what_was_visited<K: DistanceKernel>(
    data: Points<K>,
    state: SearcherView,
    test: Seq<F32>,
    k: usize,
    nq: nat,
    q: int,
)
    requires
        0 <= q < nq,
        state.adaptive matches Some(a) ==> a.usable(),
        ({
            let query = data_row(test, data.dim as int, q);
            let start = searcher::search_start(data, state.graph, state.anchors, query);
            let space = searcher::query_space(data, state.graph, query);
            let ef = searcher::search_width(data, state.adaptive, state.ef_search, start, query, k);
            &&& ef >= 1
            &&& search_laws::scores_are_numbers(space)
            &&& search_laws::ids_fit(space, start.0)
            &&& search::seen(space, ef as nat, start.0).len() <= usize::MAX
        }),
    ensures
        ({
            let query = data_row(test, data.dim as int, q);
            let start = searcher::search_start(data, state.graph, state.anchors, query);
            let ef = searcher::search_width(data, state.adaptive, state.ef_search, start, query, k);
            let visits = scan::visits_of(data, state, test, k, nq)[q];
            let answers = scan::answers_of(data, state, test, k, nq)[q];
            &&& answers == layered::ids_of(searcher::answer(data, state, query, k))
            &&& answers.len() <= visits
            &&& answers.len() < k && visits <= ef ==> answers.len() == visits
        }),
{
    let query = data_row(test, data.dim as int, q);
    law_answers_are_full(data, state, query, k);
    let start = searcher::search_start(data, state.graph, state.anchors, query);
    let space = searcher::query_space(data, state.graph, query);
    let ef = searcher::search_width(data, state.adaptive, state.ef_search, start, query, k);
    law_searches_find_the_nearest(space, ef as nat, start.0);
    let found = search::found(space, ef as nat, start.0);
    linear_pool::lemma_in_order_of_sorted(found);
}

/// A vector of a list of vectors that stand one after the other.
pub open spec fn data_row(vectors: Seq<F32>, dim: int, q: int) -> Seq<F32> {
    vectors.subrange(q * dim, q * dim + dim)
}

} // verus!
