//! Answering queries: where a search starts, how wide it is, what is returned.
use vstd::prelude::*;
use crate::distance::DistanceKernel;
use crate::distance::single::F32;
use crate::graph::adaptive_ef::{AdaptiveEfConfig, AdaptiveView};
use crate::graph::centroid;
use crate::graph::centroid::find_nearest;
use crate::graph::layered;
use crate::graph::layered::{all_below, is_descendable, take_ids};
use crate::graph::linear_pool;
use crate::graph::linear_pool::{sort_by_distance, Entry, LinearPool};
use crate::graph::navigation::NavigationLayer;
use crate::graph::points;
use crate::graph::points::Points;
use crate::graph::search;
use crate::graph::search::{vector_slice, NodeScore, SearchSpace, VectorScore, EDGE_BUFFER};
use crate::graph::vamana;
use crate::graph::vamana::{VamanaGraph, VamanaView};
use crate::memory::VisitedTracker;

verus! {

/// Where a search for a query starts: where the layers lead, else at the nearest anchor, else at
/// the entry point; and the distance there, where the layers have computed it.
pub open spec fn search_start<K: DistanceKernel>(
    data: Points<K>,
    graph: VamanaView,
    anchors: Option<Seq<u32>>,
    query: Seq<F32>,
) -> (u32, Option<F32>) {
    match graph.layers {
        Some(nav) => {
            let to = layered::descent(data, nav, query, nav.max_level as nat);
            (to.0, Some(to.1))
        },
        None => match anchors {
            Some(ids) => (
                centroid::nearest_node(
                    data.kernel,
                    data.vectors@,
                    data.dim as int,
                    query,
                    ids,
                    ids[0],
                ),
                None,
            ),
            None => (graph.entry_point, None),
        },
    }
}

/// How wide a search is: as wide as estimated from the distance of its start, but no narrower than
/// the number of answers; without an estimate, the fixed width.
pub open spec fn search_width<K: DistanceKernel>(
    data: Points<K>,
    adaptive: Option<AdaptiveView>,
    ef_search: usize,
    start: (u32, Option<F32>),
    query: Seq<F32>,
    k: usize,
) -> usize {
    match adaptive {
        Some(a) => {
            let distance = match start.1 {
                Some(d) => d,
                None => data.score_to(query)(start.0),
            };
            if a.estimate(distance) >= k {
                a.estimate(distance)
            } else {
                k
            }
        },
        None => ef_search,
    }
}

/// The first `k` of a list in order.
pub open spec fn best_of(list: Seq<Entry>, k: usize) -> Seq<Entry> {
    let sorted = linear_pool::in_order(list);
    if sorted.len() <= k {
        sorted
    } else {
        sorted.take(k as int)
    }
}

/// The nodes of a list with their distances to a query.
pub open spec fn rescored<K: DistanceKernel>(
    data: Points<K>,
    query: Seq<F32>,
    list: Seq<Entry>,
) -> Seq<Entry> {
    Seq::new(list.len(), |i: int| (list[i].0, data.score_to(query)(list[i].0)))
}

/// What a query by distances looks at.
pub open spec fn query_space<K: DistanceKernel>(
    data: Points<K>,
    graph: VamanaView,
    query: Seq<F32>,
) -> SearchSpace {
    SearchSpace {
        rows: graph.graph.lists,
        score: data.score_to(query),
        limit: EDGE_BUFFER as nat,
    }
}

/// What a query by another score looks at.
pub open spec fn score_space<S: NodeScore>(graph: VamanaView, score: &S) -> SearchSpace {
    SearchSpace {
        rows: graph.graph.lists,
        score: search::scores(score),
        limit: EDGE_BUFFER as nat,
    }
}

/// What a searcher holds besides the index, and what it tells of its last search.
pub struct SearcherView {
    /// The index.
    pub graph: VamanaView,
    /// The anchors, where it uses them.
    pub anchors: Option<Seq<u32>>,
    /// How widths are estimated, where they are.
    pub adaptive: Option<AdaptiveView>,
    /// The fixed width.
    pub ef_search: usize,
    /// How far ahead vectors may be fetched.
    pub prefetch_offset: usize,
    /// How many nodes the last search has visited.
    pub last_visited_count: usize,
    /// How wide the last search was.
    pub last_ef_used: usize,
    /// The nodes that the tracker holds.
    pub visited: Seq<u32>,
}

/// Answers queries on an index.
pub struct GraphSearcher<'a, K: DistanceKernel> {
    kernel: &'a K,
    vectors: &'a [F32],
    dim: usize,
    graph: &'a VamanaGraph,
    ef_search: usize,
    visited: VisitedTracker,
    navigation: Option<&'a NavigationLayer>,
    last_visited_count: usize,
    last_ef_used: usize,
    prefetch_offset: usize,
    adaptive_ef: Option<AdaptiveEfConfig>,
    pool: LinearPool,
}

/// Every place where a search can start or come to has a vector.
pub open spec fn answerable(
    graph: VamanaGraph,
    anchors: Option<Seq<u32>>,
    vectors: Seq<F32>,
    dim: usize,
) -> bool {
    let n = vectors.len() / dim as nat;
    let view = graph@;
    let bound = if view.n <= n {
        view.n as nat
    } else {
        n
    };
    &&& dim > 0
    &&& view.dim == dim
    &&& graph.wf()
    &&& bound <= u32::MAX
    &&& search::closed_below(view.graph.lists, bound)
    &&& match view.layers {
        Some(nav) => {
            &&& layered::descendable(nav, vectors, dim as int)
            &&& nav.entry_point < bound
            &&& nav.max_level > 0 ==> nav.lists.len() <= bound
        },
        None => match anchors {
            Some(ids) => ids.len() > 0 && points::below(ids, bound),
            None => view.entry_point < bound,
        },
    }
}

/// Whether every place where a search without anchors can start or come to has a vector. An index
/// that was built over the vectors passes; one that was loaded may not.
pub fn can_answer(graph: &VamanaGraph, vectors: &[F32]) -> (b: bool)
    requires
        graph.wf(),
    ensures
        b == answerable(*graph, None, vectors@, graph@.dim),
{
    assert(vectors@.len() == vectors.len());
    proof {
        graph.lemma_parts();
        graph.held().lemma_shape();
    }
    let dim: usize = graph.dim();
    if dim == 0 {
        return false;
    }
    let count: usize = vectors.len() / dim;
    let bound: usize = if graph.len() <= count {
        graph.len()
    } else {
        count
    };
    if bound > u32::MAX as usize {
        return false;
    }
    let mut i: usize = 0;
    while i < bound
        invariant
            i <= bound <= u32::MAX,
            graph.wf(),
            dim == graph@.dim,
            count == vectors@.len() / dim as nat,
            bound == (if graph@.n <= count {
                graph@.n
            } else {
                count
            }),
            graph@.n == graph@.graph.lists.len(),
            forall|a: int, j: int|
                0 <= a < i && 0 <= j < graph@.graph.lists[a].len() ==> (
                #[trigger] graph@.graph.lists[a][j]) < bound,
        decreases bound - i,
    {
        let row = graph.neighbors(i as u32);
        if !all_below(row, bound) {
            let ghost j = choose|j: int| 0 <= j < row@.len() && !((#[trigger] row@[j]) < bound);
            assert(!(graph@.graph.lists[i as int][j] < bound));
            return false;
        }
        i += 1;
    }
    match graph.layered_nav() {
        Some(nav) => {
            is_descendable(nav, vectors, dim) && (nav.entry_point as u64) < bound as u64
                && (nav.max_level == 0 || nav.upper_lists.len() <= bound)
        },
        None => (graph.entry_point() as u64) < bound as u64,
    }
}

/// Every width that can come of an estimate is one that a search can have.
pub open spec fn widths_fit(adaptive: Option<AdaptiveView>, ef_search: usize, k: usize) -> bool {
    match adaptive {
        Some(a) => {
            &&& a.usable()
            &&& a.max_ef < usize::MAX
            &&& k < usize::MAX
            &&& a.min_ef >= 1 || k >= 1
        },
        None => 1 <= ef_search < usize::MAX,
    }
}

impl<'a, K: DistanceKernel> GraphSearcher<'a, K> {
    /// The vectors and the distance.
    pub closed spec fn data(self) -> Points<'a, K> {
        Points { kernel: self.kernel, vectors: self.vectors, dim: self.dim }
    }

    /// The index.
    pub closed spec fn index(self) -> VamanaGraph {
        *self.graph
    }

    /// The state as plain values.
    pub closed spec fn state(self) -> SearcherView {
        SearcherView {
            graph: self.graph@,
            anchors: match self.navigation {
                Some(nav) => Some(nav.anchors()),
                None => None,
            },
            adaptive: match self.adaptive_ef {
                Some(a) => Some(a@),
                None => None,
            },
            ef_search: self.ef_search,
            prefetch_offset: self.prefetch_offset,
            last_visited_count: self.last_visited_count,
            last_ef_used: self.last_ef_used,
            visited: self.visited@.nodes,
        }
    }

    /// The tracker has a mark for every vector, and every place that a search can come to has a
    /// vector.
    pub closed spec fn wf(self) -> bool {
        &&& self.visited.wf()
        &&& self.pool.wf()
        &&& self.dim > 0
        &&& self.visited@.n == self.vectors@.len() / self.dim as nat
        &&& answerable(*self.graph, self.state().anchors, self.vectors@, self.dim)
    }

    /// A searcher that starts at the entry point or where the layers lead.
    pub fn new(
        kernel: &'a K,
        vectors: &'a [F32],
        graph: &'a VamanaGraph,
        ef_search: usize,
    ) -> (s: Self)
        requires
            answerable(*graph, None, vectors@, graph@.dim),
            3 * ef_search <= usize::MAX,
        ensures
            s.wf(),
            s.data() == (Points { kernel, vectors, dim: graph@.dim }),
            s.index() == *graph,
            s.state() == (SearcherView {
                graph: graph@,
                anchors: None,
                adaptive: None,
                ef_search,
                prefetch_offset: 8,
                last_visited_count: 0,
                last_ef_used: ef_search,
                visited: Seq::empty(),
            }),
    {
        assert(vectors@.len() == vectors.len());
        let dim: usize = graph.dim();
        let n: usize = vectors.len() / dim;
        GraphSearcher {
            kernel,
            vectors,
            dim,
            graph,
            ef_search,
            visited: VisitedTracker::new(n, ef_search),
            navigation: None,
            last_visited_count: 0,
            last_ef_used: ef_search,
            prefetch_offset: 8,
            adaptive_ef: None,
            pool: LinearPool::new(ef_search),
        }
    }

    /// A searcher that starts where the layers lead, else at the nearest anchor.
    pub fn new_with_navigation(
        kernel: &'a K,
        vectors: &'a [F32],
        graph: &'a VamanaGraph,
        ef_search: usize,
        navigation: &'a NavigationLayer,
    ) -> (s: Self)
        requires
            answerable(*graph, Some(navigation.anchors()), vectors@, graph@.dim),
            3 * ef_search <= usize::MAX,
        ensures
            s.wf(),
            s.data() == (Points { kernel, vectors, dim: graph@.dim }),
            s.index() == *graph,
            s.state() == (SearcherView {
                graph: graph@,
                anchors: Some(navigation.anchors()),
                adaptive: None,
                ef_search,
                prefetch_offset: 8,
                last_visited_count: 0,
                last_ef_used: ef_search,
                visited: Seq::empty(),
            }),
    {
        assert(vectors@.len() == vectors.len());
        let dim: usize = graph.dim();
        let n: usize = vectors.len() / dim;
        GraphSearcher {
            kernel,
            vectors,
            dim,
            graph,
            ef_search,
            visited: VisitedTracker::new(n, ef_search),
            navigation: Some(navigation),
            last_visited_count: 0,
            last_ef_used: ef_search,
            prefetch_offset: 8,
            adaptive_ef: None,
            pool: LinearPool::new(ef_search),
        }
    }

    /// Sets how far ahead vectors may be fetched.
    pub fn with_prefetch_offset(&mut self, po: usize) -> (s: &mut Self)
        requires
            old(self).wf(),
        ensures
            *final(self) == *final(s),
            s.wf(),
            s.data() == old(self).data(),
            s.index() == old(self).index(),
            s.state() == (SearcherView { prefetch_offset: po, ..old(self).state() }),
    {
        self.prefetch_offset = po;
        self
    }

    /// Sets how widths are estimated. Where widths can now be greater than before, the tracker is
    /// replaced by a fresh one with more room.
    pub fn with_adaptive_ef(&mut self, config: AdaptiveEfConfig) -> (s: &mut Self)
        requires
            old(self).wf(),
            3 * config@.max_ef <= usize::MAX,
        ensures
            *final(self) == *final(s),
            s.wf(),
            s.data() == old(self).data(),
            s.index() == old(self).index(),
            s.state() == (SearcherView {
                adaptive: Some(config@),
                visited: if config@.max_ef > old(self).state().ef_search {
                    Seq::empty()
                } else {
                    old(self).state().visited
                },
                ..old(self).state()
            }),
    {
        if config.max_ef() > self.ef_search {
            self.visited = VisitedTracker::new(self.visited.len(), config.max_ef());
        }
        self.adaptive_ef = Some(config);
        self
    }

    /// Where a search for a query starts.
    fn start(&self, query: &[F32]) -> (r: (u32, Option<F32>))
        requires
            self.wf(),
            query@.len() == self.data().dim,
        ensures
            r == search_start(self.data(), self.state().graph, self.state().anchors, query@),
            r.0 < self.state().graph.n,
            r.0 < self.data().vectors@.len() / self.data().dim as nat,
    {
        if let Some(nav) = self.graph.layered_nav() {
            let (ep, dist) = nav.initialize(self.kernel, self.vectors, self.dim, query);
            return (ep, Some(dist));
        }
        if let Some(nav) = self.navigation {
            return (
                GraphSearcher::nearest_centroid(
                    self.kernel,
                    nav.centroids(),
                    self.vectors,
                    self.dim,
                    query,
                ),
                None,
            );
        }
        (self.graph.entry_point(), None)
    }

    /// The anchor nearest to a query.
    pub fn nearest_centroid(
        kernel: &K,
        centroids: &[u32],
        vectors: &[F32],
        dim: usize,
        query: &[F32],
    ) -> (id: u32)
        requires
            centroids@.len() > 0,
            dim > 0,
            points::below(centroids@, vectors@.len() / dim as nat),
            query@.len() == dim,
        ensures
            id == centroid::nearest_node(
                kernel,
                vectors@,
                dim as int,
                query@,
                centroids@,
                centroids@[0],
            ),
            centroids@.contains(id),
    {
        proof {
            let n = vectors@.len() / dim as nat;
            lemma_count_covers(vectors@, dim as nat);
            assert(vectors@.len() == vectors.len());
            assert forall|i: int| 0 <= i < centroids@.len() implies search::has_vector(
                vectors@,
                dim as int,
                (#[trigger] centroids@[i]) as int,
            ) && centroids@[i] <= usize::MAX by {
                search::lemma_covered(vectors@, dim as nat, n, centroids@[i] as int);
                vstd::arithmetic::div_mod::lemma_div_is_ordered_by_denominator(
                    vectors@.len() as int,
                    1,
                    dim as int,
                );
            }
            assert(centroids@.contains(centroids@[0]));
        }
        find_nearest(kernel, vectors, dim, query, centroids, centroids[0])
    }

    /// How wide a search is.
    fn width(&self, query: &[F32], start: (u32, Option<F32>), k: usize) -> (ef: usize)
        requires
            self.wf(),
            query@.len() == self.data().dim,
            start.0 < self.data().vectors@.len() / self.data().dim as nat,
            widths_fit(self.state().adaptive, self.state().ef_search, k),
        ensures
            ef == search_width(
                self.data(),
                self.state().adaptive,
                self.state().ef_search,
                start,
                query@,
                k,
            ),
            1 <= ef < usize::MAX,
    {
        match &self.adaptive_ef {
            Some(adaptive) => {
                let distance = match start.1 {
                    Some(d) => d,
                    None => {
                        proof {
                            lemma_count_covers(self.vectors@, self.dim as nat);
                            search::lemma_covered(
                                self.vectors@,
                                self.dim as nat,
                                self.vectors@.len() / self.dim as nat,
                                start.0 as int,
                            );
                            lemma_place_fits(self.vectors@, self.dim as nat, start.0 as int);
                            assert(self.vectors@.len() == self.vectors.len());
                        }
                        self.kernel.distance(
                            query,
                            vector_slice(self.vectors, self.dim, start.0),
                        )
                    },
                };
                let ef: usize = adaptive.estimate_ef(distance);
                if ef >= k {
                    ef
                } else {
                    k
                }
            },
            None => self.ef_search,
        }
    }

    /// The search itself can run from any start.
    proof fn lemma_ready(self, entry: u32, l: usize)
        requires
            self.wf(),
            entry < self.state().graph.n,
            entry < self.data().vectors@.len() / self.data().dim as nat,
            1 <= l < usize::MAX,
        ensures
            vamana::vectors_ready(
                self.vectors@,
                self.dim,
                &self.graph.held(),
                entry,
                self.visited@.n,
                l,
            ),
            self.graph.held()@.lists == self.state().graph.graph.lists,
            self.graph.held()@.lists.len() == self.state().graph.n,
    {
        self.graph.lemma_parts();
        let n = self.vectors@.len() / self.dim as nat;
        lemma_count_covers(self.vectors@, self.dim as nat);
        assert forall|id: u32| id < n implies #[trigger] search::has_vector(
            self.vectors@,
            self.dim as int,
            id as int,
        ) && id <= usize::MAX by {
            search::lemma_covered(self.vectors@, self.dim as nat, n, id as int);
            lemma_place_fits(self.vectors@, self.dim as nat, id as int);
            assert(self.vectors@.len() == self.vectors.len());
        }
    }

    /// The `k` nearest nodes that a search finds, the nearest first, with their distances.
    pub fn search(&mut self, query: &[F32], k: usize) -> (results: Vec<(u32, F32)>)
        requires
            old(self).wf(),
            query@.len() == old(self).data().dim,
            widths_fit(old(self).state().adaptive, old(self).state().ef_search, k),
        ensures
            final(self).wf(),
            final(self).data() == old(self).data(),
            final(self).index() == old(self).index(),
            ({
                let before = old(self).state();
                let data = old(self).data();
                let start = search_start(data, before.graph, before.anchors, query@);
                let ef = search_width(data, before.adaptive, before.ef_search, start, query@, k);
                let space = query_space(data, before.graph, query@);
                &&& results@ == answer(data, before, query@, k)
                &&& final(self).state() == (SearcherView {
                    last_visited_count: search::seen(space, ef as nat, start.0).len() as usize,
                    last_ef_used: ef,
                    visited: search::seen(space, ef as nat, start.0),
                    ..before
                })
            }),
    {
        let start = self.start(query);
        let ef: usize = self.width(query, start, k);
        self.last_ef_used = ef;
        proof {
            old(self).lemma_ready(start.0, ef);
        }
        let found = VamanaGraph::greedy_search_vec_reuse(
            self.kernel,
            self.vectors,
            self.dim,
            self.graph.storage(),
            start.0,
            query,
            ef,
            &mut self.visited,
            &mut self.pool,
            self.prefetch_offset,
        );
        self.last_visited_count = self.visited.visited_count();
        proof {
            let score = VectorScore {
                kernel: self.kernel,
                vectors: self.vectors,
                dim: self.dim,
                query,
            };
            let space = query_space(old(self).data(), old(self).state().graph, query@);
            assert(search::scores(&score) =~= space.score);
        }
        take_best(&found, k)
    }

    /// The `k` nearest of the nodes that a search by one-byte codes finds, the nearest first, with
    /// their exact distances. `sq8` scores the nodes by their codes and the query's.
    pub fn search_sq8<S: NodeScore>(
        &mut self,
        query: &[F32],
        k: usize,
        sq8: &S,
    ) -> (results: Vec<(u32, F32)>)
        requires
            old(self).wf(),
            query@.len() == old(self).data().dim,
            widths_fit(old(self).state().adaptive, old(self).state().ef_search, k),
            scores_all(sq8, old(self).state().graph.n as nat),
        ensures
            final(self).wf(),
            final(self).data() == old(self).data(),
            final(self).index() == old(self).index(),
            ({
                let before = old(self).state();
                let data = old(self).data();
                let start = search_start(data, before.graph, before.anchors, query@);
                let ef = search_width(data, before.adaptive, before.ef_search, start, query@, k);
                let space = score_space(before.graph, sq8);
                &&& results@ == answer_by(data, before, sq8, query@, k)
                &&& final(self).state() == (SearcherView {
                    last_visited_count: search::seen(space, ef as nat, start.0).len() as usize,
                    last_ef_used: ef,
                    visited: search::seen(space, ef as nat, start.0),
                    ..before
                })
            }),
    {
        let start = self.start(query);
        let ef: usize = self.width(query, start, k);
        self.last_ef_used = ef;
        self.search_by(query, k, sq8, start.0, ef)
    }

    /// The `k` nearest of the nodes that a search by four-bit product codes finds, the nearest
    /// first, with their exact distances. The width is the fixed one.
    pub fn search_pq4<S: NodeScore>(
        &mut self,
        query: &[F32],
        k: usize,
        pq4: &S,
    ) -> (results: Vec<(u32, F32)>)
        requires
            old(self).wf(),
            query@.len() == old(self).data().dim,
            old(self).state().ef_search < usize::MAX,
            scores_all(pq4, old(self).state().graph.n as nat),
        ensures
            final(self).wf(),
            final(self).data() == old(self).data(),
            final(self).index() == old(self).index(),
            ({
                let before = old(self).state();
                let data = old(self).data();
                let start = search_start(data, before.graph, before.anchors, query@);
                let ef = before.ef_search;
                let space = score_space(before.graph, pq4);
                if ef == 0 {
                    &&& results@.len() == 0
                    &&& final(self).state() == (SearcherView {
                        last_visited_count: before.visited.len() as usize,
                        ..before
                    })
                } else {
                    &&& results@ == best_of(
                        rescored(data, query@, search::found(space, ef as nat, start.0)),
                        k,
                    )
                    &&& final(self).state() == (SearcherView {
                        last_visited_count: search::seen(space, ef as nat, start.0).len() as usize,
                        visited: search::seen(space, ef as nat, start.0),
                        ..before
                    })
                }
            }),
    {
        let start = self.start(query);
        if self.ef_search == 0 {
            self.last_visited_count = self.visited.visited_count();
            return Vec::new();
        }
        let ef: usize = self.ef_search;
        self.search_by(query, k, pq4, start.0, ef)
    }

    /// The `k` nearest of the nodes that a search by one-byte product codes finds, the nearest
    /// first, with their exact distances. The width is the fixed one.
    pub fn search_pq8<S: NodeScore>(
        &mut self,
        query: &[F32],
        k: usize,
        pq8: &S,
    ) -> (results: Vec<(u32, F32)>)
        requires
            old(self).wf(),
            query@.len() == old(self).data().dim,
            old(self).state().ef_search < usize::MAX,
            scores_all(pq8, old(self).state().graph.n as nat),
        ensures
            final(self).wf(),
            final(self).data() == old(self).data(),
            final(self).index() == old(self).index(),
            ({
                let before = old(self).state();
                let data = old(self).data();
                let start = search_start(data, before.graph, before.anchors, query@);
                let ef = before.ef_search;
                let space = score_space(before.graph, pq8);
                if ef == 0 {
                    &&& results@.len() == 0
                    &&& final(self).state() == (SearcherView {
                        last_visited_count: before.visited.len() as usize,
                        ..before
                    })
                } else {
                    &&& results@ == best_of(
                        rescored(data, query@, search::found(space, ef as nat, start.0)),
                        k,
                    )
                    &&& final(self).state() == (SearcherView {
                        last_visited_count: search::seen(space, ef as nat, start.0).len() as usize,
                        visited: search::seen(space, ef as nat, start.0),
                        ..before
                    })
                }
            }),
    {
        self.search_pq4(query, k, pq8)
    }

    /// A search by a score from the given start, of the given width.
    fn search_by<S: NodeScore>(
        &mut self,
        query: &[F32],
        k: usize,
        score: &S,
        entry: u32,
        ef: usize,
    ) -> (results: Vec<(u32, F32)>)
        requires
            old(self).wf(),
            query@.len() == old(self).data().dim,
            1 <= ef < usize::MAX,
            entry < old(self).state().graph.n,
            entry < old(self).data().vectors@.len() / old(self).data().dim as nat,
            scores_all(score, old(self).state().graph.n as nat),
        ensures
            final(self).wf(),
            final(self).data() == old(self).data(),
            final(self).index() == old(self).index(),
            ({
                let before = old(self).state();
                let data = old(self).data();
                let space = score_space(before.graph, score);
                &&& results@ == best_of(
                    rescored(data, query@, search::found(space, ef as nat, entry)),
                    k,
                )
                &&& final(self).state() == (SearcherView {
                    last_visited_count: search::seen(space, ef as nat, entry).len() as usize,
                    visited: search::seen(space, ef as nat, entry),
                    ..before
                })
            }),
    {
        proof {
            self.lemma_ready(entry, ef);
        }
        let found = VamanaGraph::greedy_search_scored(
            score,
            self.graph.storage(),
            entry,
            ef,
            &mut self.visited,
            &mut self.pool,
        );
        self.last_visited_count = self.visited.visited_count();
        let exact = rescore(self.kernel, self.vectors, self.dim, query, &found);
        take_best(&exact, k)
    }

    /// How many nodes the last search has visited.
    pub fn last_visited_count(&self) -> (c: usize)
        ensures
            c == self.state().last_visited_count,
    {
        self.last_visited_count
    }

    /// How wide the last search was.
    pub fn last_ef_used(&self) -> (ef: usize)
        ensures
            ef == self.state().last_ef_used,
    {
        self.last_ef_used
    }

    /// The answers to many queries. Each is answered as by `search`; the state of the searcher
    /// stays as it is.
    pub fn batch_search(&self, queries: &[&[F32]], k: usize) -> (all: Vec<Vec<(u32, F32)>>)
        requires
            self.wf(),
            forall|i: int|
                0 <= i < queries@.len() ==> (#[trigger] queries@[i])@.len() == self.data().dim,
            widths_fit(self.state().adaptive, self.state().ef_search, k),
        ensures
            all@.len() == queries@.len(),
            forall|i: int|
                0 <= i < queries@.len() ==> (#[trigger] all@[i])@ == answer(
                    self.data(),
                    self.state(),
                    queries@[i]@,
                    k,
                ),
    {
        assert(self.vectors@.len() == self.vectors.len());
        let n: usize = self.vectors.len() / self.dim;
        let mut visited = VisitedTracker::new(n, 0);
        let mut pool = LinearPool::new(0);
        let mut all: Vec<Vec<(u32, F32)>> = Vec::with_capacity(queries.len());
        let mut i: usize = 0;
        while i < queries.len()
            invariant
                i <= queries@.len(),
                self.wf(),
                visited.wf(),
                visited@.n == self.visited@.n,
                pool.wf(),
                forall|j: int|
                    0 <= j < queries@.len() ==> (#[trigger] queries@[j])@.len()
                        == self.data().dim,
                widths_fit(self.state().adaptive, self.state().ef_search, k),
                all@.len() == i,
                forall|j: int|
                    0 <= j < i ==> (#[trigger] all@[j])@ == answer(
                        self.data(),
                        self.state(),
                        queries@[j]@,
                        k,
                    ),
            decreases queries@.len() - i,
        {
            let query: &[F32] = queries[i];
            assert(queries@[i as int]@.len() == self.data().dim);
            let answer = self.answer_one(query, k, &mut visited, &mut pool);
            all.push(answer);
            i += 1;
        }
        all
    }

    /// The answer to one query, with a tracker and a pool of the caller.
    pub fn answer_one(
        &self,
        query: &[F32],
        k: usize,
        visited: &mut VisitedTracker,
        pool: &mut LinearPool,
    ) -> (results: Vec<(u32, F32)>)
        requires
            self.wf(),
            query@.len() == self.data().dim,
            widths_fit(self.state().adaptive, self.state().ef_search, k),
            old(visited).wf(),
            old(visited)@.n == self.data().vectors@.len() / self.data().dim as nat,
        ensures
            final(visited).wf(),
            final(visited)@.n == old(visited)@.n,
            final(pool).wf(),
            results@ == answer(self.data(), self.state(), query@, k),
    {
        let start = self.start(query);
        let ef: usize = self.width(query, start, k);
        proof {
            self.lemma_ready(start.0, ef);
        }
        let found = VamanaGraph::greedy_search_vec_reuse(
            self.kernel,
            self.vectors,
            self.dim,
            self.graph.storage(),
            start.0,
            query,
            ef,
            visited,
            pool,
            self.prefetch_offset,
        );
        proof {
            let score = VectorScore {
                kernel: self.kernel,
                vectors: self.vectors,
                dim: self.dim,
                query,
            };
            let space = query_space(self.data(), self.state().graph, query@);
            assert(search::scores(&score) =~= space.score);
        }
        take_best(&found, k)
    }

    /// The answer to one query by another score, reranked by exact distances, with a tracker and a
    /// pool of the caller.
    pub fn answer_one_sq8<S: NodeScore>(
        &self,
        query: &[F32],
        k: usize,
        sq8: &S,
        visited: &mut VisitedTracker,
        pool: &mut LinearPool,
    ) -> (results: Vec<(u32, F32)>)
        requires
            self.wf(),
            query@.len() == self.data().dim,
            widths_fit(self.state().adaptive, self.state().ef_search, k),
            scores_all(sq8, self.state().graph.n as nat),
            old(visited).wf(),
            old(visited)@.n == self.data().vectors@.len() / self.data().dim as nat,
        ensures
            final(visited).wf(),
            final(visited)@.n == old(visited)@.n,
            final(pool).wf(),
            results@ == answer_by(self.data(), self.state(), sq8, query@, k),
    {
        let start = self.start(query);
        let ef: usize = self.width(query, start, k);
        proof {
            self.lemma_ready(start.0, ef);
        }
        let found = VamanaGraph::greedy_search_sq8(
            sq8,
            self.graph.storage(),
            start.0,
            ef,
            visited,
            pool,
            self.prefetch_offset,
        );
        let exact = rescore(self.kernel, self.vectors, self.dim, query, &found);
        take_best(&exact, k)
    }

    /// The answers to many queries by other scores, one for each query, reranked by exact distances.
    /// Each is answered as by `search_sq8`; the state of the searcher stays as it is.
    pub fn batch_search_sq8<S: NodeScore>(
        &self,
        queries: &[&[F32]],
        k: usize,
        scores: &[S],
    ) -> (all: Vec<Vec<(u32, F32)>>)
        requires
            self.wf(),
            scores@.len() == queries@.len(),
            forall|i: int|
                0 <= i < queries@.len() ==> (#[trigger] queries@[i])@.len() == self.data().dim,
            forall|i: int|
                0 <= i < scores@.len() ==> scores_all(
                    #[trigger] &scores@[i],
                    self.state().graph.n as nat,
                ),
            widths_fit(self.state().adaptive, self.state().ef_search, k),
        ensures
            all@.len() == queries@.len(),
            forall|i: int|
                0 <= i < queries@.len() ==> (#[trigger] all@[i])@ == answer_by(
                    self.data(),
                    self.state(),
                    &scores@[i],
                    queries@[i]@,
                    k,
                ),
    {
        assert(self.vectors@.len() == self.vectors.len());
        let n: usize = self.vectors.len() / self.dim;
        let mut visited = VisitedTracker::new(n, 0);
        let mut pool = LinearPool::new(0);
        let mut all: Vec<Vec<(u32, F32)>> = Vec::with_capacity(queries.len());
        let mut i: usize = 0;
        while i < queries.len()
            invariant
                i <= queries@.len(),
                scores@.len() == queries@.len(),
                self.wf(),
                visited.wf(),
                visited@.n == self.visited@.n,
                pool.wf(),
                forall|j: int|
                    0 <= j < queries@.len() ==> (#[trigger] queries@[j])@.len()
                        == self.data().dim,
                forall|j: int|
                    0 <= j < scores@.len() ==> scores_all(
                        #[trigger] &scores@[j],
                        self.state().graph.n as nat,
                    ),
                widths_fit(self.state().adaptive, self.state().ef_search, k),
                all@.len() == i,
                forall|j: int|
                    0 <= j < i ==> (#[trigger] all@[j])@ == answer_by(
                        self.data(),
                        self.state(),
                        &scores@[j],
                        queries@[j]@,
                        k,
                    ),
            decreases queries@.len() - i,
        {
            let query: &[F32] = queries[i];
            assert(queries@[i as int]@.len() == self.data().dim);
            assert(scores_all(&scores@[i as int], self.state().graph.n as nat));
            let answer = self.answer_one_sq8(query, k, &scores[i], &mut visited, &mut pool);
            all.push(answer);
            i += 1;
        }
        all
    }

    /// The nodes of the answers to many queries.
    pub fn batch_search_ids(&self, queries: &[&[F32]], k: usize) -> (all: Vec<Vec<u32>>)
        requires
            self.wf(),
            forall|i: int|
                0 <= i < queries@.len() ==> (#[trigger] queries@[i])@.len() == self.data().dim,
            widths_fit(self.state().adaptive, self.state().ef_search, k),
        ensures
            all@.len() == queries@.len(),
            forall|i: int|
                0 <= i < queries@.len() ==> (#[trigger] all@[i])@ == layered::ids_of(
                    answer(self.data(), self.state(), queries@[i]@, k),
                ),
    {
        let answers = self.batch_search(queries, k);
        let mut all: Vec<Vec<u32>> = Vec::with_capacity(answers.len());
        let mut i: usize = 0;
        while i < answers.len()
            invariant
                i <= answers@.len(),
                answers@.len() == queries@.len(),
                forall|j: int|
                    0 <= j < answers@.len() ==> (#[trigger] answers@[j])@ == answer(
                        self.data(),
                        self.state(),
                        queries@[j]@,
                        k,
                    ),
                all@.len() == i,
                forall|j: int|
                    0 <= j < i ==> (#[trigger] all@[j])@ == layered::ids_of(
                        answer(self.data(), self.state(), queries@[j]@, k),
                    ),
            decreases answers@.len() - i,
        {
            assert(answers@[i as int]@ == answer(self.data(), self.state(), queries@[i as int]@, k));
            all.push(take_ids(&answers[i]));
            i += 1;
        }
        all
    }
}

/// The answer to a query.
pub open spec fn answer<K: DistanceKernel>(
    data: Points<K>,
    state: SearcherView,
    query: Seq<F32>,
    k: usize,
) -> Seq<Entry> {
    let start = search_start(data, state.graph, state.anchors, query);
    let ef = search_width(data, state.adaptive, state.ef_search, start, query, k);
    best_of(search::found(query_space(data, state.graph, query), ef as nat, start.0), k)
}

/// The answer to a query by another score.
pub open spec fn answer_by<K: DistanceKernel, S: NodeScore>(
    data: Points<K>,
    state: SearcherView,
    score: &S,
    query: Seq<F32>,
    k: usize,
) -> Seq<Entry> {
    let start = search_start(data, state.graph, state.anchors, query);
    let ef = search_width(data, state.adaptive, state.ef_search, start, query, k);
    best_of(
        rescored(
            data,
            query,
            search::found(score_space(state.graph, score), ef as nat, start.0),
        ),
        k,
    )
}

/// Every node has a score.
pub open spec fn scores_all<S: NodeScore>(score: &S, n: nat) -> bool {
    forall|id: u32| id < n ==> #[trigger] score.known(id)
}

/// The vectors cover as many nodes as their length allows.
pub proof fn lemma_count_covers(vectors: Seq<F32>, dim: nat)
    requires
        dim > 0,
    ensures
        search::covers(vectors, dim as int, vectors.len() / dim),
        vectors.len() / dim <= vectors.len(),
{
    let n = vectors.len() / dim;
    vstd::arithmetic::div_mod::lemma_fundamental_div_mod(vectors.len() as int, dim as int);
    assert(n * dim <= vectors.len()) by (nonlinear_arith)
        requires
            vectors.len() == dim * n + vectors.len() as int % dim as int,
            0 <= vectors.len() as int % dim as int,
    ;
    assert(n <= n * dim) by (nonlinear_arith)
        requires
            dim >= 1,
            n >= 0,
    ;
}

proof fn lemma_place_fits(vectors: Seq<F32>, dim: nat, id: int)
    requires
        dim > 0,
        0 <= id < vectors.len() / dim,
    ensures
        id < vectors.len(),
{
    lemma_count_covers(vectors, dim);
}

/// The first `k` of a list in order.
fn take_best(found: &Vec<(u32, F32)>, k: usize) -> (results: Vec<(u32, F32)>)
    ensures
        results@ == best_of(found@, k),
{
    let mut results = sort_by_distance(found.as_slice());
    results.truncate(k);
    assert(results@ =~= best_of(found@, k));
    results
}

/// The nodes of a list with their distances to a query.
fn rescore<K: DistanceKernel>(
    kernel: &K,
    vectors: &[F32],
    dim: usize,
    query: &[F32],
    found: &Vec<(u32, F32)>,
) -> (out: Vec<(u32, F32)>)
    requires
        dim > 0,
        query@.len() == dim,
        vamana::entries_below(
            found@,
            vectors@.len() / dim as nat,
            vectors@.len() / dim as nat,
        ),
    ensures
        out@ == rescored(Points { kernel, vectors, dim }, query@, found@),
{
    let ghost data = Points { kernel, vectors, dim };
    let ghost all = rescored(data, query@, found@);
    assert(vectors@.len() == vectors.len());
    let mut out: Vec<(u32, F32)> = Vec::with_capacity(found.len());
    let mut i: usize = 0;
    while i < found.len()
        invariant
            i <= found@.len(),
            dim > 0,
            query@.len() == dim,
            vectors@.len() == vectors.len(),
            vamana::entries_below(
                found@,
                vectors@.len() / dim as nat,
                vectors@.len() / dim as nat,
            ),
            data == (Points { kernel, vectors, dim }),
            all == rescored(data, query@, found@),
            out@ == all.take(i as int),
        decreases found@.len() - i,
    {
        let id: u32 = found[i].0;
        proof {
            let n = vectors@.len() / dim as nat;
            assert(found@[i as int].0 < n);
            lemma_count_covers(vectors@, dim as nat);
            search::lemma_covered(vectors@, dim as nat, n, id as int);
        }
        out.push((id, kernel.distance(query, vector_slice(vectors, dim, id))));
        i += 1;
        assert(out@ =~= all.take(i as int));
    }
    assert(out@ =~= all);
    out
}

} // verus!
