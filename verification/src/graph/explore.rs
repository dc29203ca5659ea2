//! A search that goes on past a full result list: a candidate that is farther than the worst result
//! is not kept, but its neighbours are still visited. It ends when there is no candidate left or
//! when more than a given number of nodes have been visited.
use vstd::prelude::*;
use crate::distance::DistanceKernel;
use crate::distance::single::F32;
use crate::graph::points::Points;
use crate::graph::search;
use crate::graph::search::vector_slice;
use crate::graph::vamana::VamanaGraph;
use crate::memory::{HybridBlockedCsr, VisitedTracker};
use crate::memory::visited;

verus! {

/// A distance and a node.
pub type Ranked = (F32, u32);

/// Whether `a` comes before `b`: nearer, or as near with the smaller id.
pub open spec fn comes_before(a: Ranked, b: Ranked) -> bool {
    a.0.rank() < b.0.rank() || a.0.rank() == b.0.rank() && a.1 < b.1
}

/// How many of the entries come before `e`, up to the first that does not.
pub open spec fn rank_place(list: Seq<Ranked>, e: Ranked) -> int
    decreases list.len(),
{
    if list.len() == 0 || !comes_before(list[0], e) {
        0
    } else {
        1 + rank_place(list.skip(1), e)
    }
}

/// The list with an entry put in its place.
pub open spec fn ranked_insert(list: Seq<Ranked>, e: Ranked) -> Seq<Ranked> {
    list.insert(rank_place(list, e), e)
}

/// The state of the search. Both lists are in order, the nearest first.
#[verifier::ext_equal]
pub struct ExploreState {
    /// Nodes to be expanded.
    pub candidates: Seq<Ranked>,
    /// The nearest nodes that were expanded.
    pub results: Seq<Ranked>,
    /// The nodes that were visited.
    pub visited: Seq<u32>,
}

/// What a search looks at.
pub struct ExploreSpace {
    /// The neighbours of each node.
    pub rows: Seq<Seq<u32>>,
    /// The distance of each node.
    pub score: spec_fn(u32) -> F32,
    /// How many results are kept.
    pub l: nat,
    /// The search ends when more nodes than this were visited.
    pub max_visited: nat,
}

impl ExploreSpace {
    /// The results after a node was expanded.
    pub open spec fn kept(self, results: Seq<Ranked>, e: Ranked) -> Seq<Ranked> {
        if results.len() >= self.l && results.len() > 0 && !e.0.at_most(results.last().0) {
            results
        } else {
            let grown = ranked_insert(results, e);
            if grown.len() > self.l {
                grown.drop_last()
            } else {
                grown
            }
        }
    }

    /// The state after the first `j` of a list were visited.
    pub open spec fn spread(self, state: ExploreState, list: Seq<u32>, j: int) -> ExploreState
        decreases j,
    {
        if j <= 0 {
            state
        } else {
            let before = self.spread(state, list, j - 1);
            let v = list[j - 1];
            if before.visited.contains(v) {
                before
            } else {
                ExploreState {
                    candidates: ranked_insert(before.candidates, ((self.score)(v), v)),
                    visited: before.visited.push(v),
                    results: before.results,
                }
            }
        }
    }

    /// The state after the nearest candidate was expanded.
    pub open spec fn step(self, state: ExploreState) -> ExploreState {
        let e = state.candidates[0];
        let taken = ExploreState {
            candidates: state.candidates.skip(1),
            results: self.kept(state.results, e),
            visited: state.visited,
        };
        let row = self.rows[e.1 as int];
        self.spread(taken, row, row.len() as int)
    }

    /// The state at the end of the search, after at most `fuel` steps.
    pub open spec fn explored(self, state: ExploreState, fuel: nat) -> ExploreState
        decreases fuel,
    {
        if fuel == 0 || state.candidates.len() == 0 {
            state
        } else {
            let next = self.step(state);
            if next.visited.len() > self.max_visited {
                next
            } else {
                self.explored(next, (fuel - 1) as nat)
            }
        }
    }

    /// The state at the start.
    pub open spec fn start(self, entry: u32) -> ExploreState {
        ExploreState {
            candidates: seq![((self.score)(entry), entry)],
            results: Seq::empty(),
            visited: seq![entry],
        }
    }

    /// The nodes that the search returns, the nearest first. Every step expands another node, so
    /// there are no more steps than nodes.
    pub open spec fn found(self, entry: u32) -> Seq<u32> {
        let end = self.explored(self.start(entry), self.rows.len());
        Seq::new(end.results.len(), |i: int| end.results[i].1)
    }
}

/// What a search among vectors looks at.
pub open spec fn explore_space<K: DistanceKernel>(
    data: Points<K>,
    rows: Seq<Seq<u32>>,
    query: Seq<F32>,
    l: usize,
    max_visited: usize,
) -> ExploreSpace {
    ExploreSpace {
        rows,
        score: data.score_to(query),
        l: l as nat,
        max_visited: max_visited as nat,
    }
}

proof fn lemma_rank_place(list: Seq<Ranked>, e: Ranked)
    ensures
        0 <= rank_place(list, e) <= list.len(),
    decreases list.len(),
{
    if list.len() > 0 {
        lemma_rank_place(list.skip(1), e);
    }
}

proof fn lemma_rank_place_at(list: Seq<Ranked>, e: Ranked, i: int)
    requires
        0 <= i <= list.len(),
        forall|k: int| 0 <= k < i ==> comes_before(#[trigger] list[k], e),
        i < list.len() ==> !comes_before(list[i], e),
    ensures
        rank_place(list, e) == i,
    decreases i,
{
    if i > 0 {
        assert(comes_before(list[0], e));
        let rest = list.skip(1);
        assert forall|k: int| 0 <= k < i - 1 implies comes_before(#[trigger] rest[k], e) by {
            assert(rest[k] == list[k + 1]);
        }
        lemma_rank_place_at(rest, e, i - 1);
    }
}

fn insert_ranked(list: &mut Vec<(F32, u32)>, e: (F32, u32))
    ensures
        final(list)@ == ranked_insert(old(list)@, e),
        final(list)@.len() == old(list)@.len() + 1,
{
    let rank: i64 = e.0.rank_of();
    let mut i: usize = 0;
    while i < list.len() && (list[i].0.rank_of() < rank || list[i].0.rank_of() == rank && list[i].1
        < e.1)
        invariant
            i <= list@.len(),
            rank == e.0.rank(),
            forall|k: int| 0 <= k < i ==> comes_before(#[trigger] list@[k], e),
        decreases list@.len() - i,
    {
        i += 1;
    }
    proof {
        lemma_rank_place_at(list@, e, i as int);
    }
    list.insert(i, e);
}

proof fn lemma_insert_ids(list: Seq<Ranked>, e: Ranked, bound: nat)
    requires
        forall|i: int| 0 <= i < list.len() ==> (#[trigger] list[i]).1 < bound,
        e.1 < bound,
    ensures
        forall|i: int|
            0 <= i < ranked_insert(list, e).len() ==> (#[trigger] ranked_insert(list, e)[i]).1
                < bound,
{
    lemma_rank_place(list, e);
    let p = rank_place(list, e);
    let out = ranked_insert(list, e);
    assert forall|i: int| 0 <= i < out.len() implies (#[trigger] out[i]).1 < bound by {
        if i < p {
            assert(out[i] == list[i]);
        } else if i > p {
            assert(out[i] == list[i - 1]);
        }
    }
}

impl VamanaGraph {
    /// A search for the vector of a node that goes on past a full result list.
    pub fn greedy_search_explore<K: DistanceKernel>(
        kernel: &K,
        vectors: &[F32],
        dim: usize,
        storage: &HybridBlockedCsr,
        entry_point: u32,
        query_node: u32,
        l: usize,
        max_visited: usize,
    ) -> (found: Vec<u32>)
        requires
            dim > 0,
            query_node <= usize::MAX,
            search::has_vector(vectors@, dim as int, query_node as int),
            explorable(vectors@, dim, storage, entry_point, vectors@.len() / dim as nat, l),
        ensures
            ({
                let data = Points { kernel, vectors, dim };
                found@ == explore_space(
                    data,
                    storage@.lists,
                    data.vector(query_node as int),
                    l,
                    max_visited,
                ).found(entry_point)
            }),
    {
        let query = vector_slice(vectors, dim, query_node);
        VamanaGraph::greedy_search_vec_explore(
            kernel,
            vectors,
            dim,
            storage,
            entry_point,
            query,
            l,
            max_visited,
        )
    }

    /// A search for a vector that goes on past a full result list. Returns the kept nodes, the
    /// nearest first.
    pub fn greedy_search_vec_explore<K: DistanceKernel>(
        kernel: &K,
        vectors: &[F32],
        dim: usize,
        storage: &HybridBlockedCsr,
        entry_point: u32,
        query: &[F32],
        l: usize,
        max_visited: usize,
    ) -> (found: Vec<u32>)
        requires
            dim > 0,
            query@.len() == dim,
            explorable(vectors@, dim, storage, entry_point, vectors@.len() / dim as nat, l),
        ensures
            found@ == explore_space(
                Points { kernel, vectors, dim },
                storage@.lists,
                query@,
                l,
                max_visited,
            ).found(entry_point),
    {
        assert(vectors@.len() == vectors.len());
        let n: usize = vectors.len() / dim;
        let mut visited = VisitedTracker::new(n, l);
        let data = Points { kernel, vectors, dim };
        let ghost space = explore_space(data, storage@.lists, query@, l, max_visited);
        let ghost rows = storage@.lists;
        let ghost bound: nat = if rows.len() <= n {
            rows.len()
        } else {
            n as nat
        };
        let mut candidates: Vec<(F32, u32)> = Vec::new();
        let mut results: Vec<(F32, u32)> = Vec::new();
        let first = kernel.distance(query, vector_slice(vectors, dim, entry_point));
        candidates.push((first, entry_point));
        visited.visit(entry_point);
        let ghost start = space.start(entry_point);
        let ghost whole = space.explored(start, rows.len());
        let ghost mut fuel: nat = rows.len();
        let mut done: bool = false;
        proof {
            assert(candidates@ =~= start.candidates);
            assert(results@ =~= start.results);
            assert(visited@.nodes =~= start.visited);
            visited.lemma_view();
        }
        while !done && candidates.len() > 0
            invariant
                dim > 0,
                query@.len() == dim,
                data == (Points { kernel, vectors, dim }),
                rows == storage@.lists,
                space == explore_space(data, rows, query@, l, max_visited),
                explorable(vectors@, dim, storage, entry_point, n as nat, l),
                bound == (if rows.len() <= n {
                    rows.len()
                } else {
                    n as nat
                }),
                search::closed_below(rows, bound),
                visited.wf(),
                visited@.n == n,
                forall|i: int|
                    0 <= i < visited@.nodes.len() ==> (#[trigger] visited@.nodes[i]) < bound,
                forall|i: int|
                    0 <= i < candidates@.len() ==> (#[trigger] candidates@[i]).1 < bound,
                (rows.len() - fuel) + candidates@.len() == visited@.nodes.len(),
                !done ==> whole == space.explored(
                    ExploreState {
                        candidates: candidates@,
                        results: results@,
                        visited: visited@.nodes,
                    },
                    fuel,
                ),
                done ==> whole == (ExploreState {
                    candidates: candidates@,
                    results: results@,
                    visited: visited@.nodes,
                }),
            decreases
                    fuel,
                    (if done {
                        0int
                    } else {
                        1int
                    }),
        {
            let ghost state = ExploreState {
                candidates: candidates@,
                results: results@,
                visited: visited@.nodes,
            };
            proof {
                visited.lemma_view();
                assert forall|v: u32| #[trigger] visited@.nodes.contains(v) implies v < bound by {
                    let i = choose|i: int|
                        0 <= i < visited@.nodes.len() && visited@.nodes[i] == v;
                    assert(visited@.nodes[i] < bound);
                }
                visited::lemma_distinct_below(visited@.nodes, bound);
                assert(fuel > 0);
            }
            let e = candidates.remove(0);
            assert(candidates@ =~= state.candidates.skip(1));
            assert(e.1 < bound);
            keep_result(&mut results, e, l, Ghost(space));
            let ghost taken = ExploreState {
                candidates: candidates@,
                results: results@,
                visited: visited@.nodes,
            };
            proof {
                assert forall|i: int|
                    0 <= i < candidates@.len() implies (#[trigger] candidates@[i]).1 < bound by {
                    assert(candidates@[i] == state.candidates[i + 1]);
                }
            }
            let row = storage.neighbors(e.1);
            assert(row@.len() == row.len());
            let mut j: usize = 0;
            while j < row.len()
                invariant
                    j <= row@.len(),
                    row@.len() == row.len(),
                    query@.len() == dim,
                    data == (Points { kernel, vectors, dim }),
                    rows == storage@.lists,
                    space == explore_space(data, rows, query@, l, max_visited),
                    explorable(vectors@, dim, storage, entry_point, n as nat, l),
                    bound == (if rows.len() <= n {
                        rows.len()
                    } else {
                        n as nat
                    }),
                    search::closed_below(rows, bound),
                    e.1 < bound,
                    row@ == rows[e.1 as int],
                    visited.wf(),
                    visited@.n == n,
                    forall|i: int|
                        0 <= i < visited@.nodes.len() ==> (#[trigger] visited@.nodes[i]) < bound,
                    forall|i: int|
                        0 <= i < candidates@.len() ==> (#[trigger] candidates@[i]).1 < bound,
                    candidates@.len() - taken.candidates.len() == visited@.nodes.len()
                        - taken.visited.len(),
                    results@ == taken.results,
                    space.spread(taken, row@, j as int) == (ExploreState {
                        candidates: candidates@,
                        results: results@,
                        visited: visited@.nodes,
                    }),
                decreases row@.len() - j,
            {
                let v: u32 = row[j];
                assert(rows[e.1 as int][j as int] < bound);
                let ghost seen = visited@.nodes;
                if visited.visit(v) {
                    assert(search::has_vector(vectors@, dim as int, v as int));
                    let d = kernel.distance(query, vector_slice(vectors, dim, v));
                    proof {
                        lemma_insert_ids(candidates@, (d, v), bound);
                        assert forall|i: int| 0 <= i < visited@.nodes.len() implies (
                        #[trigger] visited@.nodes[i]) < bound by {
                            if i < seen.len() {
                                assert(visited@.nodes[i] == seen[i]);
                            }
                        }
                    }
                    insert_ranked(&mut candidates, (d, v));
                }
                j += 1;
            }
            proof {
                fuel = (fuel - 1) as nat;
                assert(space.step(state) == (ExploreState {
                    candidates: candidates@,
                    results: results@,
                    visited: visited@.nodes,
                }));
            }
            if visited.visited_count() > max_visited {
                done = true;
            }
        }
        let mut found: Vec<u32> = Vec::with_capacity(results.len());
        let mut i: usize = 0;
        let ghost ids = Seq::new(results@.len(), |k: int| results@[k].1);
        while i < results.len()
            invariant
                i <= results@.len(),
                ids == Seq::new(results@.len(), |k: int| results@[k].1),
                found@ == ids.take(i as int),
            decreases results@.len() - i,
        {
            found.push(results[i].1);
            i += 1;
            assert(found@ =~= ids.take(i as int));
        }
        assert(found@ =~= ids);
        found
    }
}

/// A search among vectors can run: every node that it can come to has a vector.
pub open spec fn explorable(
    vectors: Seq<F32>,
    dim: usize,
    storage: &HybridBlockedCsr,
    entry_point: u32,
    n: nat,
    l: usize,
) -> bool {
    let bound = if storage@.lists.len() <= n {
        storage@.lists.len()
    } else {
        n
    };
    &&& storage.wf()
    &&& search::closed_below(storage@.lists, bound)
    &&& entry_point < bound
    &&& forall|id: u32|
        id < bound ==> #[trigger] search::has_vector(vectors, dim as int, id as int) && id
            <= usize::MAX
    &&& 3 * l <= usize::MAX
}

/// Offers an expanded node to the results.
fn keep_result(
    results: &mut Vec<(F32, u32)>,
    e: (F32, u32),
    l: usize,
    Ghost(space): Ghost<ExploreSpace>,
)
    requires
        space.l == l,
    ensures
        final(results)@ == space.kept(old(results)@, e),
{
    let len: usize = results.len();
    if len >= l && len > 0 && !e.0.le(results[len - 1].0) {
        return;
    }
    insert_ranked(results, e);
    if results.len() > l {
        let ghost grown = results@;
        results.pop();
        assert(results@ =~= grown.drop_last());
    }
}

} // verus!
