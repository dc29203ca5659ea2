//! Greedy search over a graph, as steps on a pool of candidates and a list of visited nodes.
//!
//! Each step takes the nearest candidate that has not been expanded, visits its neighbours that
//! have not been visited, and offers them to the pool. The search ends when every entry of the
//! pool has been expanded. The steps are a function of the state, so a search has one outcome.
use vstd::prelude::*;
use crate::distance::DistanceKernel;
use crate::distance::single::F32;
use crate::graph::linear_pool;
use crate::graph::linear_pool::{Entry, LinearPool, PoolView};
use crate::memory::{GraphStorage, VisitedTracker};

verus! {

/// How many unvisited neighbours one expansion of a query search takes at most.
pub const EDGE_BUFFER: usize = 128;

/// How near a node is to what is searched for.
pub trait NodeScore {
    /// Whether the node has a score.
    spec fn known(&self, id: u32) -> bool;

    /// The score of a node: smaller is nearer.
    spec fn score_of(&self, id: u32) -> F32;

    /// The score of a node.
    fn score(&self, id: u32) -> (d: F32)
        requires
            self.known(id),
        ensures
            d == self.score_of(id),
    ;
}

/// The vector of a node in the flat array of all vectors.
pub open spec fn vector_of(vectors: Seq<F32>, dim: int, id: int) -> Seq<F32> {
    vectors.subrange(id * dim, id * dim + dim)
}

/// The array holds a whole vector for the node.
pub open spec fn has_vector(vectors: Seq<F32>, dim: int, id: int) -> bool {
    0 <= id * dim && id * dim + dim <= vectors.len()
}

/// The array holds a whole vector for each of the first `n` nodes.
pub open spec fn covers(vectors: Seq<F32>, dim: int, n: nat) -> bool {
    n * dim <= vectors.len()
}

/// Each of the first `n` nodes has a vector.
pub proof fn lemma_covered(vectors: Seq<F32>, dim: nat, n: nat, id: int)
    requires
        covers(vectors, dim as int, n),
        0 <= id < n,
    ensures
        has_vector(vectors, dim as int, id),
{
    assert(0 <= id * dim && id * dim + dim <= n * dim) by (nonlinear_arith)
        requires
            0 <= id < n,
    ;
}

/// The score of a node is the distance of its vector to a query.
pub struct VectorScore<'a, K: DistanceKernel> {
    /// How distances are computed.
    pub kernel: &'a K,
    /// All vectors, one after the other.
    pub vectors: &'a [F32],
    /// The dimension.
    pub dim: usize,
    /// The query.
    pub query: &'a [F32],
}

/// The distance of a node's vector to a query.
pub open spec fn node_distance<K: DistanceKernel>(
    kernel: &K,
    vectors: Seq<F32>,
    dim: int,
    query: Seq<F32>,
    id: int,
) -> F32 {
    kernel.dist(query, vector_of(vectors, dim, id))
}

/// A node's vector.
pub fn vector_slice(vectors: &[F32], dim: usize, id: u32) -> (v: &[F32])
    requires
        has_vector(vectors@, dim as int, id as int),
        id <= usize::MAX,
    ensures
        v@ == vector_of(vectors@, dim as int, id as int),
        v@.len() == dim,
{
    assert(vectors@.len() == vectors.len());
    let start: usize = id as usize * dim;
    &vectors[start..start + dim]
}

/// The score of a node is the one that a table holds for it.
pub struct ScoreTable<'a> {
    /// The scores, one for each node.
    pub scores: &'a [F32],
}

impl<'a> NodeScore for ScoreTable<'a> {
    open spec fn known(&self, id: u32) -> bool {
        id < self.scores@.len()
    }

    open spec fn score_of(&self, id: u32) -> F32 {
        self.scores@[id as int]
    }

    fn score(&self, id: u32) -> (d: F32) {
        self.scores[id as usize]
    }
}

impl<'a, K: DistanceKernel> NodeScore for VectorScore<'a, K> {
    open spec fn known(&self, id: u32) -> bool {
        &&& has_vector(self.vectors@, self.dim as int, id as int)
        &&& self.query@.len() == self.dim
        &&& id <= usize::MAX
    }

    open spec fn score_of(&self, id: u32) -> F32 {
        node_distance(self.kernel, self.vectors@, self.dim as int, self.query@, id as int)
    }

    fn score(&self, id: u32) -> (d: F32) {
        self.kernel.distance(self.query, vector_slice(self.vectors, self.dim, id))
    }
}

/// A search between two steps.
#[verifier::ext_equal]
pub struct SearchState {
    /// The candidates.
    pub pool: PoolView,
    /// The nodes whose score has been computed, in that order.
    pub visited: Seq<u32>,
}

/// What a search looks at: the graph, the scores, and how many unvisited neighbours one expansion
/// takes at most.
pub struct SearchSpace {
    /// The neighbours of each node.
    pub rows: Seq<Seq<u32>>,
    /// The score of each node.
    pub score: spec_fn(u32) -> F32,
    /// How many unvisited neighbours one expansion takes at most.
    pub limit: nat,
}

/// The scores that `s` gives.
pub open spec fn scores<S: NodeScore>(s: &S) -> spec_fn(u32) -> F32 {
    |id: u32| s.score_of(id)
}

/// The first of `list[..k]` that were not visited, each once, at most `limit` of them.
pub open spec fn fresh_upto(visited: Seq<u32>, list: Seq<u32>, k: int, limit: nat) -> Seq<u32>
    decreases k,
{
    if k <= 0 {
        Seq::empty()
    } else {
        let before = fresh_upto(visited, list, k - 1, limit);
        if before.len() >= limit || visited.contains(list[k - 1]) || before.contains(list[k - 1]) {
            before
        } else {
            before.push(list[k - 1])
        }
    }
}

/// The first neighbours that were not visited, at most `limit` of them.
pub open spec fn fresh(visited: Seq<u32>, list: Seq<u32>, limit: nat) -> Seq<u32> {
    fresh_upto(visited, list, list.len() as int, limit)
}

/// The pool after nodes are offered with their scores, first to last.
pub open spec fn offered(pool: PoolView, ids: Seq<u32>, score: spec_fn(u32) -> F32) -> PoolView
    decreases ids.len(),
{
    if ids.len() == 0 {
        pool
    } else {
        offered(pool, ids.drop_last(), score).insert(ids.last(), score(ids.last()))
    }
}

impl SearchSpace {
    /// The search before its first step: the entry point is visited and offered.
    pub open spec fn start(self, ef: nat, entry: u32) -> SearchState {
        SearchState {
            pool: PoolView::empty(ef).insert(entry, (self.score)(entry)),
            visited: seq![entry],
        }
    }

    /// The search after one step. A search that has ended stays as it is.
    pub open spec fn step(self, state: SearchState) -> SearchState {
        if state.pool.has_next() {
            let found = fresh(
                state.visited,
                self.rows[state.pool.next().0 as int],
                self.limit,
            );
            SearchState {
                pool: offered(state.pool.pop(), found, self.score),
                visited: state.visited + found,
            }
        } else {
            state
        }
    }

    /// The search after `k` steps.
    pub open spec fn after(self, state: SearchState, k: nat) -> SearchState
        decreases k,
    {
        if k == 0 {
            state
        } else {
            self.step(self.after(state, (k - 1) as nat))
        }
    }

    /// `end` is where the search from `state` ends.
    pub open spec fn ends(self, state: SearchState, end: SearchState) -> bool {
        !end.pool.has_next() && exists|k: nat| #[trigger] self.after(state, k) == end
    }
}

/// Where the search from `state` ends.
pub open spec fn outcome(space: SearchSpace, state: SearchState) -> SearchState {
    choose|end: SearchState| space.ends(state, end)
}

/// What a search for `ef` entries from `entry` returns.
pub open spec fn found(space: SearchSpace, ef: nat, entry: u32) -> Seq<Entry> {
    linear_pool::unmarked(outcome(space, space.start(ef, entry)).pool.items)
}

/// Which nodes a search for `ef` entries from `entry` visits, in order.
pub open spec fn seen(space: SearchSpace, ef: nat, entry: u32) -> Seq<u32> {
    outcome(space, space.start(ef, entry)).visited
}

/// A search ends in one state only.
pub proof fn law_search_has_one_outcome(
    space: SearchSpace,
    state: SearchState,
    a: SearchState,
    b: SearchState,
)
    requires
        space.ends(state, a),
        space.ends(state, b),
    ensures
        a == b,
{
    let i = choose|k: nat| #[trigger] space.after(state, k) == a;
    let j = choose|k: nat| #[trigger] space.after(state, k) == b;
    if i <= j {
        lemma_stays(space, state, i, j);
    } else {
        lemma_stays(space, state, j, i);
    }
}

/// A search that has ended after `i` steps is the same after `j`.
proof fn lemma_stays(space: SearchSpace, state: SearchState, i: nat, j: nat)
    requires
        i <= j,
        !space.after(state, i).pool.has_next(),
    ensures
        space.after(state, j) == space.after(state, i),
    decreases j - i,
{
    if i < j {
        lemma_stays(space, state, i, (j - 1) as nat);
    }
}

/// The first `bound` nodes have neighbours among themselves only.
pub open spec fn closed_below(rows: Seq<Seq<u32>>, bound: nat) -> bool {
    &&& bound <= rows.len()
    &&& forall|i: int, j: int|
        0 <= i < bound && 0 <= j < rows[i].len() ==> (#[trigger] rows[i][j]) < bound
}

/// What a search over `storage` from `entry` needs.
pub open spec fn searchable<S: NodeScore, G: GraphStorage>(
    score: &S,
    storage: &G,
    entry: u32,
    visited_n: nat,
) -> bool {
    let n = storage.rows().len();
    let bound = if n <= visited_n {
        n
    } else {
        visited_n
    };
    &&& storage.storage_valid()
    &&& closed_below(storage.rows(), bound)
    &&& entry < bound
    &&& forall|id: u32| id < bound ==> #[trigger] score.known(id)
}

/// The space of a search over a stored graph.
pub open spec fn space_of<S: NodeScore, G: GraphStorage>(
    score: &S,
    storage: &G,
    limit: nat,
) -> SearchSpace {
    SearchSpace { rows: storage.rows(), score: scores(score), limit }
}

/// Runs a search to its end, with a pool for `ef` entries.
pub(crate) fn run_search<S: NodeScore, G: GraphStorage>(
    score: &S,
    storage: &G,
    entry: u32,
    ef: usize,
    limit: usize,
    visited: &mut VisitedTracker,
    pool: &mut LinearPool,
)
    requires
        old(visited).wf(),
        1 <= ef < usize::MAX,
        searchable(score, storage, entry, old(visited)@.n),
    ensures
        final(visited).wf(),
        final(visited)@.n == old(visited)@.n,
        final(pool).wf(),
        final(pool)@.ef == ef,
        forall|i: int|
            0 <= i < final(pool)@.items.len() ==> linear_pool::raw(
                (#[trigger] final(pool)@.items[i]).0,
            ) < storage.rows().len() && linear_pool::raw(final(pool)@.items[i].0) < old(
                visited,
            )@.n,
        ({
            let space = space_of(score, storage, limit as nat);
            let end = SearchState { pool: final(pool)@, visited: final(visited)@.nodes };
            &&& space.ends(space.start(ef as nat, entry), end)
            &&& end == outcome(space, space.start(ef as nat, entry))
        }),
{
    let ghost space = space_of(score, storage, limit as nat);
    let ghost start = space.start(ef as nat, entry);
    let ghost n = visited@.n;
    let ghost bound: nat = if storage.rows().len() <= n {
        storage.rows().len()
    } else {
        n
    };
    visited.reset();
    pool.reset_for(ef);
    let d = score.score(entry);
    visited.visit(entry);
    pool.insert(entry, d);
    let ghost mut k: nat = 0;
    proof {
        assert(visited@.nodes =~= seq![entry]);
        assert(space.after(start, 0) == start);
        lemma_only_entry(ef as nat, entry, d);
        visited.lemma_view();
    }
    while pool.has_next()
        invariant
            visited.wf(),
            visited@.n == n,
            pool.wf(),
            pool@.ef == ef,
            1 <= ef,
            searchable(score, storage, entry, n),
            bound <= n,
            bound <= storage.rows().len(),
            closed_below(storage.rows(), bound),
            forall|id: u32| id < bound ==> #[trigger] score.known(id),
            space == space_of(score, storage, limit as nat),
            space.after(start, k) == (SearchState { pool: pool@, visited: visited@.nodes }),
            forall|i: int| 0 <= i < pool@.items.len() ==> (#[trigger] pool@.items[i]).0 % 0x8000_0000 < bound,
        decreases n - visited@.nodes.len(), pool@.items.len() - pool@.cursor,
    {
        let ghost before = SearchState { pool: pool@, visited: visited@.nodes };
        proof {
            visited.lemma_view();
        }
        if let Some((node, _)) = pool.pop() {
            let ghost popped = pool@;
            proof {
                linear_pool::lemma_next_unmarked(
                    before.pool.items.update(
                        before.pool.cursor as int,
                        (
                            linear_pool::mark(before.pool.items[before.pool.cursor as int].0),
                            before.pool.items[before.pool.cursor as int].1,
                        ),
                    ),
                    before.pool.cursor as int + 1,
                );
                assert(before.pool.items[before.pool.cursor as int].0 % 0x8000_0000 == node);
            }
            expand(
                score,
                storage,
                node,
                limit,
                visited,
                pool,
                Ghost(bound),
            );
            proof {
                let found = fresh(before.visited, storage.rows()[node as int], limit as nat);
                k = k + 1;
                assert(space.after(start, k) == space.step(before));
                visited.lemma_view();
                if found.len() == 0 {
                    assert(found =~= Seq::<u32>::empty());
                    assert(visited@.nodes =~= before.visited);
                    assert(pool@ == popped);
                } else {
                    assert(visited@.nodes.len() > before.visited.len());
                }
            }
        }
    }
    proof {
        let end = SearchState { pool: pool@, visited: visited@.nodes };
        assert(space.ends(start, end));
        law_search_has_one_outcome(space, start, end, outcome(space, start));
    }
}

/// The pool after the entry point was offered.
pub proof fn lemma_only_entry(ef: nat, entry: u32, d: F32)
    requires
        ef >= 1,
    ensures
        PoolView::empty(ef).insert(entry, d).items == seq![(entry, d)],
{
    let p = PoolView::empty(ef);
    assert(linear_pool::insert_pos(p.items, d) == 0);
    assert(p.items.insert(0, (entry, d)) =~= seq![(entry, d)]);
}

/// Visits the neighbours of a node and offers the new ones to the pool.
fn expand<S: NodeScore, G: GraphStorage>(
    score: &S,
    storage: &G,
    node: u32,
    limit: usize,
    visited: &mut VisitedTracker,
    pool: &mut LinearPool,
    Ghost(bound): Ghost<nat>,
)
    requires
        old(visited).wf(),
        old(pool).wf(),
        old(pool)@.ef >= 1,
        storage.storage_valid(),
        node < bound,
        bound <= old(visited)@.n,
        closed_below(storage.rows(), bound),
        forall|id: u32| id < bound ==> #[trigger] score.known(id),
        forall|i: int|
            0 <= i < old(pool)@.items.len() ==> (#[trigger] old(pool)@.items[i]).0 % 0x8000_0000
                < bound,
    ensures
        final(visited).wf(),
        final(visited)@.n == old(visited)@.n,
        final(pool).wf(),
        final(pool)@.ef == old(pool)@.ef,
        forall|i: int|
            0 <= i < final(pool)@.items.len() ==> (#[trigger] final(pool)@.items[i]).0
                % 0x8000_0000 < bound,
        ({
            let found = fresh(old(visited)@.nodes, storage.rows()[node as int], limit as nat);
            &&& final(visited)@.nodes == old(visited)@.nodes + found
            &&& final(pool)@ == offered(old(pool)@, found, scores(score))
        }),
{
    let neighbors = storage.neighbors(node);
    let ghost list = neighbors@;
    let ghost seen = visited@.nodes;
    let ghost first = pool@;
    let mut taken: usize = 0;
    let mut i: usize = 0;
    assert(seen + fresh_upto(seen, list, 0, limit as nat) =~= seen);
    while i < neighbors.len()
        invariant
            i <= list.len(),
            list == neighbors@,
            list == storage.rows()[node as int],
            node < bound,
            visited.wf(),
            visited@.n == old(visited)@.n,
            bound <= visited@.n,
            pool.wf(),
            pool@.ef == first.ef,
            first.ef >= 1,
            closed_below(storage.rows(), bound),
            forall|id: u32| id < bound ==> #[trigger] score.known(id),
            forall|j: int| 0 <= j < pool@.items.len() ==> (#[trigger] pool@.items[j]).0 % 0x8000_0000 < bound,
            taken == fresh_upto(seen, list, i as int, limit as nat).len(),
            taken <= i,
            visited@.nodes == seen + fresh_upto(seen, list, i as int, limit as nat),
            pool@ == offered(
                first,
                fresh_upto(seen, list, i as int, limit as nat),
                scores(score),
            ),
        decreases list.len() - i,
    {
        let v: u32 = neighbors[i];
        let ghost done = fresh_upto(seen, list, i as int, limit as nat);
        assert(storage.rows()[node as int][i as int] < bound);
        assert((seen + done).contains(v) <==> seen.contains(v) || done.contains(v)) by {
            if seen.contains(v) {
                let j = choose|j: int| 0 <= j < seen.len() && seen[j] == v;
                assert((seen + done)[j] == v);
            }
            if done.contains(v) {
                let j = choose|j: int| 0 <= j < done.len() && done[j] == v;
                assert((seen + done)[seen.len() + j] == v);
            }
        }
        if taken < limit && visited.visit(v) {
            let d = score.score(v);
            let ghost before_pool = pool@;
            pool.insert(v, d);
            taken += 1;
            proof {
                assert(done.push(v).drop_last() =~= done);
                assert(visited@.nodes =~= seen + done.push(v));
                lemma_insert_members(before_pool, v, d, bound);
            }
        }
        i += 1;
    }
}

/// What a pool holds after an offer, it held before or was offered.
proof fn lemma_insert_members(pool: PoolView, node: u32, dist: F32, bound: nat)
    requires
        pool.bounded(),
        node < bound,
        forall|i: int| 0 <= i < pool.items.len() ==> (#[trigger] pool.items[i]).0 % 0x8000_0000 < bound,
    ensures
        ({
            let after = pool.insert(node, dist).items;
            forall|i: int| 0 <= i < after.len() ==> (#[trigger] after[i]).0 % 0x8000_0000 < bound
        }),
{
    if !pool.refuses(dist) {
        let pos = linear_pool::insert_pos(pool.items, dist);
        lemma_search_pos_range(pool.items, dist, 0, pool.items.len() as int);
        let grown = pool.items.insert(pos, (node, dist));
        assert forall|i: int| 0 <= i < grown.len() implies (#[trigger] grown[i]).0 % 0x8000_0000 < bound by {
            if i < pos {
                assert(grown[i] == pool.items[i]);
            } else if i > pos {
                assert(grown[i] == pool.items[i - 1]);
            }
        }
    }
}

/// A binary search stays in its range.
pub proof fn lemma_search_pos_range(items: Seq<Entry>, dist: F32, lo: int, hi: int)
    requires
        lo <= hi,
    ensures
        lo <= linear_pool::search_pos(items, dist, lo, hi) <= hi,
    decreases hi - lo,
{
    if lo < hi {
        let mid = lo + (hi - lo) / 2;
        if dist.below(items[mid].1) {
            lemma_search_pos_range(items, dist, lo, mid);
        } else {
            lemma_search_pos_range(items, dist, mid + 1, hi);
        }
    }
}

} // verus!
