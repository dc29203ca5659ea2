//! What reranking returns.
use vstd::prelude::*;
use crate::distance::ordering;
use crate::distance::single::F32;
use crate::graph::linear_pool::Entry;
use crate::graph::refiner;
use crate::sorting;

verus! {

/// How many candidates take part: `factor` for each of the `k` answers, where there are so many.
pub open spec fn taking_part(k: nat, factor: nat, candidates: nat) -> nat {
    if factor == 0 {
        if k <= candidates {
            k
        } else {
            candidates
        }
    } else if factor * k <= candidates {
        factor * k
    } else {
        candidates
    }
}

/// A candidate that takes part has the id.
pub open spec fn takes_part(candidates: Seq<Entry>, count: int, id: u32) -> bool {
    exists|i: int| 0 <= i < count && (#[trigger] candidates[i]).0 == id
}

/// None of the results is farther than the distance.
pub open spec fn none_farther(results: Seq<Entry>, d: F32) -> bool {
    forall|j: int| 0 <= j < results.len() ==> (#[trigger] results[j]).1.at_most(d)
}

/// Reranking returns `k` of the candidates that take part, or all of them where there are fewer. Each
/// comes with its exact distance, none before a nearer one, and no candidate that takes part and is not
/// returned is nearer than one that is.
pub proof fn law_reranked_are_the_nearest(
    candidates: Seq<Entry>,
    k: usize,
    factor: usize,
    dist: spec_fn(u32) -> F32,
)
    requires
        candidates.len() <= usize::MAX,
        forall|i: int| 0 <= i < candidates.len() ==> !dist((#[trigger] candidates[i]).0).nan(),
    ensures
        ({
            let count = taking_part(k as nat, factor as nat, candidates.len());
            let results = refiner::reranked(candidates, k, factor, dist);
            &&& results.len() == (if k <= candidates.len() {
                k as nat
            } else {
                candidates.len()
            })
            &&& forall|j: int|
                0 <= j < results.len() ==> (#[trigger] results[j]).1 == dist(results[j].0)
                    && takes_part(candidates, count as int, results[j].0)
            &&& forall|a: int, b: int|
                #![trigger results[a], results[b]]
                0 <= a <= b < results.len() ==> results[a].1.at_most(results[b].1)
            &&& forall|i: int|
                0 <= i < count ==> results.contains(
                    ((#[trigger] candidates[i]).0, dist(candidates[i].0)),
                ) || none_farther(results, dist(candidates[i].0))
        }),
{
    let count = refiner::rerank_count(k, factor, candidates.len());
    assert(count == taking_part(k as nat, factor as nat, candidates.len())) by {
        assert(factor == 0 ==> k * factor == 0) by (nonlinear_arith);
        assert(factor >= 1 ==> k * factor >= k) by (nonlinear_arith)
            requires
                k >= 0,
        ;
        assert(k * factor == factor * k) by (nonlinear_arith);
        assert(k == 0 ==> k * factor == 0) by (nonlinear_arith);
    }
    assert(factor >= 1 ==> factor * k >= k) by (nonlinear_arith)
        requires
            k >= 0,
    ;
    let list = refiner::measured(candidates, count, dist);
    let keys = ordering::total_rank_keys(refiner::distances(list));
    let order = sorting::the_order(keys);
    sorting::lemma_order_exists(keys);
    sorting::lemma_stable_order_is_permutation(keys, order);
    let sorted = sorting::gathered(list, order);
    let results = refiner::reranked(candidates, k, factor, dist);
    assert forall|a: int, b: int|
        #![trigger sorted[a], sorted[b]]
        0 <= a <= b < sorted.len() implies sorted[a].1.at_most(sorted[b].1) by {
        assert(order[a] < list.len() && order[b] < list.len());
        assert(!dist(candidates[order[a] as int].0).nan());
        assert(!dist(candidates[order[b] as int].0).nan());
        if a < b {
            assert(sorting::goes_before(keys, order[a] as int, order[b] as int));
            assert(keys[order[a] as int] == sorted[a].1.total_rank());
            assert(keys[order[b] as int] == sorted[b].1.total_rank());
        }
    }
    assert(sorted.len() == count);
    assert forall|a: int, b: int|
        #![trigger results[a], results[b]]
        0 <= a <= b < results.len() implies results[a].1.at_most(results[b].1) by {
        assert(results[a] == sorted[a] && results[b] == sorted[b]);
    }
    assert forall|j: int| 0 <= j < results.len() implies (#[trigger] results[j]).1 == dist(
        results[j].0,
    ) && takes_part(candidates, count, results[j].0) by {
        assert(results[j] == sorted[j]);
        assert(order[j] < list.len());
        assert(candidates[order[j] as int].0 == results[j].0);
    }
    assert forall|i: int| 0 <= i < count implies results.contains(
        ((#[trigger] candidates[i]).0, dist(candidates[i].0)),
    ) || none_farther(results, dist(candidates[i].0)) by {
        sorting::lemma_permutation_is_onto(order, list.len(), i as usize);
        let at = choose|at: int| 0 <= at < order.len() && order[at] == i as usize;
        assert(sorted[at] == list[i]);
        if at < results.len() {
            assert(results[at] == sorted[at]);
        } else {
            assert forall|j: int| 0 <= j < results.len() implies (#[trigger] results[j]).1.at_most(
                dist(candidates[i].0),
            ) by {
                assert(results[j] == sorted[j]);
                assert(sorted[j].1.at_most(sorted[at].1));
            }
        }
    }
    assert(results.len() == (if k <= candidates.len() {
        k as nat
    } else {
        candidates.len()
    }));
}

} // verus!
