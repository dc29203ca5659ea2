//! What the search that goes on past a full result list guarantees.
use vstd::prelude::*;
use crate::distance::DistanceKernel;
use crate::distance::single::F32;
use crate::graph::explore;
use crate::graph::explore::{ExploreSpace, ExploreState, Ranked};
use crate::graph::points::Points;
use crate::graph::search;

verus! {

/// No entry comes before one that stands before it.
pub open spec fn in_rank_order(list: Seq<Ranked>) -> bool {
    forall|i: int, j: int|
        #![trigger list[i], list[j]]
        0 <= i < j < list.len() ==> !explore::comes_before(list[j], list[i])
}

/// The list has the node.
pub open spec fn ranks(list: Seq<Ranked>, v: u32) -> bool {
    exists|i: int| 0 <= i < list.len() && (#[trigger] list[i]).1 == v
}

/// Each node is listed once, with its distance.
pub open spec fn ranked_once(space: ExploreSpace, list: Seq<Ranked>) -> bool {
    &&& forall|i: int| 0 <= i < list.len() ==> (#[trigger] list[i]).0 == (space.score)(list[i].1)
    &&& forall|i: int, j: int|
        #![trigger list[i], list[j]]
        0 <= i < j < list.len() ==> list[i].1 != list[j].1
}

/// There is no room for the node: as many nodes are kept as can be, and none is farther.
pub open spec fn crowded_out(space: ExploreSpace, results: Seq<Ranked>, v: u32) -> bool {
    &&& results.len() >= space.l
    &&& results.len() > 0 ==> results.last().0.rank() <= (space.score)(v).rank()
}

/// Every distance is a number, and neighbours are nodes.
pub open spec fn measured(space: ExploreSpace) -> bool {
    &&& forall|v: u32| v < space.rows.len() ==> !(#[trigger] (space.score)(v)).nan()
    &&& search::closed_below(space.rows, space.rows.len())
}

spec fn consistent(space: ExploreSpace, state: ExploreState) -> bool {
    &&& forall|i: int|
        0 <= i < state.visited.len() ==> (#[trigger] state.visited[i]) < space.rows.len()
    &&& state.results.len() <= space.l
    &&& in_rank_order(state.results)
    &&& ranked_once(space, state.results)
    &&& ranked_once(space, state.candidates)
    &&& forall|i: int, j: int|
        #![trigger state.results[i], state.candidates[j]]
        0 <= i < state.results.len() && 0 <= j < state.candidates.len() ==> state.results[i].1
            != state.candidates[j].1
    &&& forall|i: int|
        0 <= i < state.results.len() ==> state.visited.contains((#[trigger] state.results[i]).1)
    &&& forall|i: int|
        0 <= i < state.candidates.len() ==> state.visited.contains(
            (#[trigger] state.candidates[i]).1,
        )
    &&& forall|v: u32| #[trigger]
        state.visited.contains(v) ==> ranks(state.candidates, v) || ranks(state.results, v)
            || crowded_out(space, state.results, v)
}

/// Where an entry goes.
proof fn lemma_place(list: Seq<Ranked>, e: Ranked)
    ensures
        ({
            let p = explore::rank_place(list, e);
            &&& 0 <= p <= list.len()
            &&& forall|k: int| 0 <= k < p ==> explore::comes_before(#[trigger] list[k], e)
            &&& p < list.len() ==> !explore::comes_before(list[p], e)
        }),
    decreases list.len(),
{
    if list.len() > 0 && explore::comes_before(list[0], e) {
        let rest = list.skip(1);
        lemma_place(rest, e);
        let p = explore::rank_place(list, e);
        assert forall|k: int| 0 <= k < p implies explore::comes_before(#[trigger] list[k], e) by {
            if k > 0 {
                assert(rest[k - 1] == list[k]);
            }
        }
        if p < list.len() {
            assert(rest[p - 1] == list[p]);
        }
    }
}

/// What an entry that is put in its place leaves as it was.
proof fn lemma_inserted(space: ExploreSpace, list: Seq<Ranked>, e: Ranked)
    requires
        ranked_once(space, list),
        e.0 == (space.score)(e.1),
        !ranks(list, e.1),
    ensures
        ({
            let grown = explore::ranked_insert(list, e);
            &&& grown.len() == list.len() + 1
            &&& ranked_once(space, grown)
            &&& in_rank_order(list) ==> in_rank_order(grown)
            &&& forall|v: u32| #[trigger] ranks(grown, v) <==> ranks(list, v) || v == e.1
            &&& forall|i: int|
                0 <= i < grown.len() ==> (#[trigger] grown[i]) == e || list.contains(grown[i])
        }),
{
    lemma_place(list, e);
    let p = explore::rank_place(list, e);
    let grown = explore::ranked_insert(list, e);
    assert(grown[p] == e);
    assert forall|i: int| 0 <= i < grown.len() implies (#[trigger] grown[i]) == e
        || list.contains(grown[i]) by {
        if i < p {
            assert(grown[i] == list[i]);
        } else if i > p {
            assert(grown[i] == list[i - 1]);
        }
    }
    assert forall|i: int, j: int|
        #![trigger grown[i], grown[j]]
        0 <= i < j < grown.len() implies grown[i].1 != grown[j].1 by {
        let a = if i < p {
            i
        } else {
            i - 1
        };
        let b = if j < p {
            j
        } else {
            j - 1
        };
        if i == p {
            assert(grown[j] == list[b]);
        } else if j == p {
            assert(grown[i] == list[a]);
        } else {
            assert(grown[i] == list[a] && grown[j] == list[b]);
        }
    }
    assert forall|i: int| 0 <= i < grown.len() implies (#[trigger] grown[i]).0 == (space.score)(
        grown[i].1,
    ) by {
        if grown[i] != e {
            let k = choose|k: int| 0 <= k < list.len() && list[k] == grown[i];
            assert(list[k].0 == (space.score)(list[k].1));
        }
    }
    if in_rank_order(list) {
        assert forall|i: int, j: int|
            #![trigger grown[i], grown[j]]
            0 <= i < j < grown.len() implies !explore::comes_before(grown[j], grown[i]) by {
            if i == p {
                assert(grown[j] == list[j - 1]);
                assert(!explore::comes_before(list[p], e));
                if j - 1 > p {
                    assert(!explore::comes_before(list[j - 1], list[p]));
                }
            } else if j == p {
                assert(grown[i] == list[i]);
                assert(explore::comes_before(list[i], e));
            } else {
                let a = if i < p {
                    i
                } else {
                    i - 1
                };
                let b = if j < p {
                    j
                } else {
                    j - 1
                };
                assert(grown[i] == list[a] && grown[j] == list[b]);
            }
        }
    }
    assert forall|v: u32| #[trigger] ranks(grown, v) <==> ranks(list, v) || v == e.1 by {
        if ranks(list, v) {
            let k = choose|k: int| 0 <= k < list.len() && (#[trigger] list[k]).1 == v;
            if k < p {
                assert(grown[k] == list[k]);
            } else {
                assert(grown[k + 1] == list[k]);
            }
        }
        if ranks(grown, v) {
            let k = choose|k: int| 0 <= k < grown.len() && (#[trigger] grown[k]).1 == v;
            if grown[k] != e {
                let m = choose|m: int| 0 <= m < list.len() && list[m] == grown[k];
                assert(list[m].1 == v);
            }
        }
    }
}

/// The results after an expanded node was offered to them.
proof fn lemma_kept(space: ExploreSpace, results: Seq<Ranked>, e: Ranked)
    requires
        results.len() <= space.l,
        in_rank_order(results),
        ranked_once(space, results),
        e.0 == (space.score)(e.1),
        !e.0.nan(),
        forall|i: int| 0 <= i < results.len() ==> !(#[trigger] results[i]).0.nan(),
        !ranks(results, e.1),
    ensures
        ({
            let kept = space.kept(results, e);
            &&& kept.len() <= space.l
            &&& in_rank_order(kept)
            &&& ranked_once(space, kept)
            &&& forall|i: int|
                0 <= i < kept.len() ==> (#[trigger] kept[i]) == e || results.contains(kept[i])
            &&& forall|v: u32|
                #![trigger ranks(kept, v)]
                #![trigger ranks(results, v)]
                ranks(results, v) || v == e.1 || crowded_out(space, results, v) ==> ranks(kept, v)
                    || crowded_out(space, kept, v)
        }),
{
    let kept = space.kept(results, e);
    if results.len() >= space.l && results.len() > 0 && !e.0.at_most(results.last().0) {
        assert(kept == results);
        assert forall|i: int| 0 <= i < kept.len() implies (#[trigger] kept[i]) == e
            || results.contains(kept[i]) by {
            assert(results[i] == kept[i]);
        }
        assert(!results.last().0.nan()) by {
            assert(!results[results.len() - 1].0.nan());
        }
        assert(crowded_out(space, kept, e.1));
    } else {
        lemma_inserted(space, results, e);
        let grown = explore::ranked_insert(results, e);
        if grown.len() > space.l {
            assert(kept == grown.drop_last());
            let last = grown.last();
            assert forall|i: int| 0 <= i < kept.len() implies (#[trigger] kept[i]) == e
                || results.contains(kept[i]) by {
                assert(kept[i] == grown[i]);
            }
            assert(in_rank_order(kept)) by {
                assert forall|i: int, j: int|
                    #![trigger kept[i], kept[j]]
                    0 <= i < j < kept.len() implies !explore::comes_before(kept[j], kept[i]) by {
                    assert(kept[i] == grown[i] && kept[j] == grown[j]);
                }
            }
            assert(ranked_once(space, kept)) by {
                assert forall|i: int, j: int|
                    #![trigger kept[i], kept[j]]
                    0 <= i < j < kept.len() implies kept[i].1 != kept[j].1 by {
                    assert(kept[i] == grown[i] && kept[j] == grown[j]);
                }
                assert forall|i: int| 0 <= i < kept.len() implies (#[trigger] kept[i]).0 == (
                space.score)(kept[i].1) by {
                    assert(kept[i] == grown[i]);
                }
            }
            if kept.len() > 0 {
                let x = grown[kept.len() - 1];
                assert(kept.last() == x);
                assert(!explore::comes_before(grown[grown.len() - 1], grown[kept.len() - 1]));
                assert(kept.last().0.rank() <= last.0.rank());
                if results.len() > 0 {
                    assert(kept.last().0.rank() <= results.last().0.rank()) by {
                        assert(ranks(grown, results.last().1)) by {
                            assert(results[results.len() - 1].1 == results.last().1);
                            assert(ranks(results, results.last().1));
                        }
                        let k = choose|k: int|
                            0 <= k < grown.len() && (#[trigger] grown[k]).1 == results.last().1;
                        assert(grown[k].0 == (space.score)(grown[k].1));
                        assert(results[results.len() - 1].0 == (space.score)(
                            results[results.len() - 1].1,
                        ));
                        if k < kept.len() - 1 {
                            assert(kept.len() == results.len());
                            lemma_place(results, e);
                            assert(false) by {
                                let p = explore::rank_place(results, e);
                                let m = results.len() - 1;
                                if p <= m {
                                    assert(grown[m + 1] == results[m]);
                                    assert(grown[k].1 == grown[m + 1].1);
                                } else {
                                    assert(grown[m] == results[m]);
                                    assert(grown[k].1 == grown[m].1);
                                }
                            }
                        }
                    }
                }
            }
            assert forall|v: u32|
                #![trigger ranks(kept, v)]
                #![trigger ranks(results, v)]
                ranks(results, v) || v == e.1 || crowded_out(space, results, v) implies ranks(
                kept,
                v,
            ) || crowded_out(space, kept, v) by {
                if ranks(grown, v) {
                    let k = choose|k: int| 0 <= k < grown.len() && (#[trigger] grown[k]).1 == v;
                    if k < kept.len() {
                        assert(kept[k] == grown[k]);
                    } else {
                        assert(grown[k].0 == (space.score)(grown[k].1));
                    }
                }
            }
        } else {
            assert(kept == grown);
        }
    }
}

/// A node that was not visited before becomes a candidate.
proof fn lemma_spread(space: ExploreSpace, state: ExploreState, list: Seq<u32>, j: int)
    requires
        consistent(space, state),
        0 <= j <= list.len(),
        forall|i: int| 0 <= i < list.len() ==> (#[trigger] list[i]) < space.rows.len(),
    ensures
        consistent(space, space.spread(state, list, j)),
    decreases j,
{
    if j > 0 {
        lemma_spread(space, state, list, j - 1);
        let before = space.spread(state, list, j - 1);
        let v = list[j - 1];
        if !before.visited.contains(v) {
            let e = ((space.score)(v), v);
            let after = space.spread(state, list, j);
            assert(!ranks(before.candidates, v)) by {
                if ranks(before.candidates, v) {
                    let i = choose|i: int|
                        0 <= i < before.candidates.len() && (#[trigger] before.candidates[i]).1
                            == v;
                    assert(before.visited.contains(before.candidates[i].1));
                }
            }
            lemma_inserted(space, before.candidates, e);
            assert forall|i: int| 0 <= i < after.visited.len() implies (
            #[trigger] after.visited[i]) < space.rows.len() by {
                if i < before.visited.len() {
                    assert(after.visited[i] == before.visited[i]);
                }
            }
            assert forall|w: u32| #[trigger] before.visited.contains(w) implies
                after.visited.contains(w) by {
                let i = choose|i: int| 0 <= i < before.visited.len() && before.visited[i] == w;
                assert(after.visited[i] == w);
            }
            assert(after.visited[before.visited.len() as int] == v);
            assert forall|i: int| 0 <= i < after.candidates.len() implies after.visited.contains(
                (#[trigger] after.candidates[i]).1,
            ) by {
                if after.candidates[i] != e {
                    let k = choose|k: int|
                        0 <= k < before.candidates.len() && before.candidates[k]
                            == after.candidates[i];
                    assert(before.visited.contains(before.candidates[k].1));
                }
            }
            assert forall|i: int, k: int|
                #![trigger after.results[i], after.candidates[k]]
                0 <= i < after.results.len() && 0 <= k
                    < after.candidates.len() implies after.results[i].1
                != after.candidates[k].1 by {
                assert(before.visited.contains(before.results[i].1));
                if after.candidates[k] != e {
                    let m = choose|m: int|
                        0 <= m < before.candidates.len() && before.candidates[m]
                            == after.candidates[k];
                    assert(before.results[i].1 != before.candidates[m].1);
                }
            }
            assert forall|w: u32| #[trigger] after.visited.contains(w) implies ranks(
                after.candidates,
                w,
            ) || ranks(after.results, w) || crowded_out(space, after.results, w) by {
                let i = choose|i: int| 0 <= i < after.visited.len() && after.visited[i] == w;
                if i < before.visited.len() {
                    assert(before.visited[i] == w);
                    assert(before.visited.contains(w));
                    assert(ranks(before.candidates, w) ==> ranks(after.candidates, w));
                } else {
                    assert(ranks(after.candidates, w));
                }
            }
        }
    }
}

proof fn lemma_visited_below(space: ExploreSpace, state: ExploreState, v: u32)
    requires
        consistent(space, state),
        state.visited.contains(v),
    ensures
        v < space.rows.len(),
{
    let i = choose|i: int| 0 <= i < state.visited.len() && state.visited[i] == v;
    assert(state.visited[i] < space.rows.len());
}

proof fn lemma_step(space: ExploreSpace, state: ExploreState)
    requires
        consistent(space, state),
        state.candidates.len() > 0,
        measured(space),
    ensures
        consistent(space, space.step(state)),
{
    let e = state.candidates[0];
    let taken = ExploreState {
        candidates: state.candidates.skip(1),
        results: space.kept(state.results, e),
        visited: state.visited,
    };
    assert(!ranks(state.results, e.1)) by {
        if ranks(state.results, e.1) {
            let i = choose|i: int|
                0 <= i < state.results.len() && (#[trigger] state.results[i]).1 == e.1;
            assert(state.results[i].1 != state.candidates[0].1);
        }
    }
    assert forall|i: int| 0 <= i < state.results.len() implies !(
    #[trigger] state.results[i]).0.nan() by {
        assert(state.results[i].0 == (space.score)(state.results[i].1));
        lemma_visited_below(space, state, state.results[i].1);
    }
    lemma_visited_below(space, state, e.1);
    lemma_kept(space, state.results, e);
    assert(ranked_once(space, taken.candidates)) by {
        assert forall|i: int, j: int|
            #![trigger taken.candidates[i], taken.candidates[j]]
            0 <= i < j < taken.candidates.len() implies taken.candidates[i].1
            != taken.candidates[j].1 by {
            assert(taken.candidates[i] == state.candidates[i + 1]);
            assert(taken.candidates[j] == state.candidates[j + 1]);
        }
        assert forall|i: int| 0 <= i < taken.candidates.len() implies (
        #[trigger] taken.candidates[i]).0 == (space.score)(taken.candidates[i].1) by {
            assert(taken.candidates[i] == state.candidates[i + 1]);
        }
    }
    assert forall|i: int, j: int|
        #![trigger taken.results[i], taken.candidates[j]]
        0 <= i < taken.results.len() && 0 <= j < taken.candidates.len() implies taken.results[i].1
        != taken.candidates[j].1 by {
        assert(taken.candidates[j] == state.candidates[j + 1]);
        if taken.results[i] != e {
            let k = choose|k: int|
                0 <= k < state.results.len() && state.results[k] == taken.results[i];
            assert(state.results[k].1 != state.candidates[j + 1].1);
        } else {
            assert(state.candidates[0].1 != state.candidates[j + 1].1);
        }
    }
    assert forall|i: int| 0 <= i < taken.results.len() implies taken.visited.contains(
        (#[trigger] taken.results[i]).1,
    ) by {
        if taken.results[i] != e {
            let k = choose|k: int|
                0 <= k < state.results.len() && state.results[k] == taken.results[i];
            assert(state.visited.contains(state.results[k].1));
        }
    }
    assert forall|i: int| 0 <= i < taken.candidates.len() implies taken.visited.contains(
        (#[trigger] taken.candidates[i]).1,
    ) by {
        assert(taken.candidates[i] == state.candidates[i + 1]);
    }
    assert forall|v: u32| #[trigger] taken.visited.contains(v) implies ranks(
        taken.candidates,
        v,
    ) || ranks(taken.results, v) || crowded_out(space, taken.results, v) by {
        assert(state.visited.contains(v));
        if ranks(state.candidates, v) {
            let i = choose|i: int|
                0 <= i < state.candidates.len() && (#[trigger] state.candidates[i]).1 == v;
            if i > 0 {
                assert(taken.candidates[i - 1] == state.candidates[i]);
            } else {
                assert(ranks(taken.results, v) || crowded_out(space, taken.results, v));
            }
        } else {
            assert(ranks(state.results, v) || crowded_out(space, state.results, v));
            assert(ranks(taken.results, v) || crowded_out(space, taken.results, v));
        }
    }
    let row = space.rows[e.1 as int];
    lemma_spread(space, taken, row, row.len() as int);
}

proof fn lemma_explored(space: ExploreSpace, state: ExploreState, fuel: nat)
    requires
        consistent(space, state),
        measured(space),
    ensures
        consistent(space, space.explored(state, fuel)),
    decreases fuel,
{
    if fuel > 0 && state.candidates.len() > 0 {
        lemma_step(space, state);
        let next = space.step(state);
        if next.visited.len() <= space.max_visited {
            lemma_explored(space, next, (fuel - 1) as nat);
        }
    }
}

/// Where all distances are numbers, an exploring search returns at most `l` nodes, the nearest
/// first and none twice, all of them visited, and leaves out no visited node that was expanded and
/// is nearer than one that it returns.
pub proof fn law_exploring_keeps_the_nearest(space: ExploreSpace, entry: u32)
    requires
        measured(space),
        entry < space.rows.len(),
    ensures
        ({
            let end = space.explored(space.start(entry), space.rows.len());
            let found = space.found(entry);
            &&& found.len() <= space.l
            &&& found.no_duplicates()
            &&& forall|i: int, j: int|
                #![trigger found[i], found[j]]
                0 <= i < j < found.len() ==> (space.score)(found[i]).rank() <= (space.score)(
                    found[j],
                ).rank()
            &&& forall|i: int| 0 <= i < found.len() ==> end.visited.contains(#[trigger] found[i])
            &&& forall|v: u32| #[trigger]
                end.visited.contains(v) && !ranks(end.candidates, v) && !found.contains(v) ==> {
                    &&& found.len() == space.l
                    &&& found.len() > 0 ==> (space.score)(found.last()).rank() <= (space.score)(
                        v,
                    ).rank()
                }
        }),
{
    let start = space.start(entry);
    assert forall|v: u32| #[trigger] start.visited.contains(v) implies ranks(
        start.candidates,
        v,
    ) by {
        assert(start.candidates[0].1 == entry);
    }
    assert(start.visited[0] == entry);
    lemma_explored(space, start, space.rows.len());
    let end = space.explored(start, space.rows.len());
    let found = space.found(entry);
    assert forall|i: int, j: int|
        #![trigger found[i], found[j]]
        0 <= i < j < found.len() implies (space.score)(found[i]).rank() <= (space.score)(
        found[j],
    ).rank() by {
        assert(!explore::comes_before(end.results[j], end.results[i]));
        assert(end.results[i].0 == (space.score)(end.results[i].1));
        assert(end.results[j].0 == (space.score)(end.results[j].1));
    }
    assert forall|i: int, j: int|
        0 <= i < found.len() && 0 <= j < found.len() && i != j implies found[i] != found[j] by {
        if i < j {
            assert(end.results[i].1 != end.results[j].1);
        } else {
            assert(end.results[j].1 != end.results[i].1);
        }
    }
    assert forall|i: int| 0 <= i < found.len() implies end.visited.contains(
        #[trigger] found[i],
    ) by {
        assert(end.visited.contains(end.results[i].1));
    }
    assert forall|v: u32| #[trigger]
        end.visited.contains(v) && !ranks(end.candidates, v) && !found.contains(v) implies {
        &&& found.len() == space.l
        &&& found.len() > 0 ==> (space.score)(found.last()).rank() <= (space.score)(v).rank()
    } by {
        if ranks(end.results, v) {
            let i = choose|i: int|
                0 <= i < end.results.len() && (#[trigger] end.results[i]).1 == v;
            assert(found[i] == v);
        }
        if found.len() > 0 {
            let last = end.results.len() - 1;
            assert(end.results[last].0 == (space.score)(end.results[last].1));
        }
    }
}

/// Exploring vectors from a node returns no more nodes than asked for, none twice, those nearer to the
/// query first. A node that was visited and expanded is left out only where as many were found as asked
/// for, and none of them is farther.
pub proof fn law_exploring_vectors<K: DistanceKernel>(
    data: Points<K>,
    rows: Seq<Seq<u32>>,
    query: Seq<F32>,
    l: usize,
    max_visited: usize,
    entry: u32,
)
    requires
        measured(explore::explore_space(data, rows, query, l, max_visited)),
        entry < rows.len(),
    ensures
        ({
            let space = explore::explore_space(data, rows, query, l, max_visited);
            let end = space.explored(space.start(entry), rows.len());
            let found = space.found(entry);
            &&& found.len() <= l
            &&& found.no_duplicates()
            &&& forall|i: int, j: int|
                #![trigger found[i], found[j]]
                0 <= i < j < found.len() ==> data.kernel.dist(
                    query,
                    data.vector(found[i] as int),
                ).rank() <= data.kernel.dist(query, data.vector(found[j] as int)).rank()
            &&& forall|v: u32| #[trigger]
                end.visited.contains(v) && !ranks(end.candidates, v) && !found.contains(v) ==> {
                    &&& found.len() == l
                    &&& found.len() > 0 ==> data.kernel.dist(
                        query,
                        data.vector(found.last() as int),
                    ).rank() <= data.kernel.dist(query, data.vector(v as int)).rank()
                }
        }),
{
    law_exploring_keeps_the_nearest(
        explore::explore_space(data, rows, query, l, max_visited),
        entry,
    );
}

} // verus!
