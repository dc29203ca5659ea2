//! The index: a proximity graph over vectors, built by searching and pruning.
use vstd::prelude::*;
use vstd::slice::slice_to_vec;
use crate::build::{BuildConfig, BuildMetadata, ChaCha8Rng};
use crate::build::rng::RngView;
use crate::distance::DistanceKernel;
use crate::distance::single::F32;
use crate::graph::centroid;
use crate::graph::centroid::compute_medoid;
use crate::graph::construction;
use crate::graph::construction::{build_storage, NeighborChoice, QuantChoice, StrategyChoice};
use crate::graph::layered;
use crate::graph::layered::{take_ids, LayeredNavigation, LayeredView};
use crate::graph::linear_pool::{Entry, LinearPool};
use crate::graph::points::Points;
use crate::graph::quant_aware_prune::{ErrorFn, Exponentials, QuantAwarePruneConfig};
use crate::graph::search;
use crate::graph::searcher;
use crate::graph::search::{
    run_search, vector_slice, NodeScore, SearchSpace, VectorScore, EDGE_BUFFER,
};
use crate::memory::{HybridBlockedCsr, VisitedTracker};
use crate::memory::graph::{CsrView, DegreeStats};

pub use crate::graph::construction::VamanaBuildConfig;

verus! {

/// An index over `n` vectors.
pub struct VamanaGraph {
    storage: HybridBlockedCsr,
    entry_point: u32,
    dim: usize,
    n: usize,
    metadata: Option<BuildMetadata>,
    metadata_text: Vec<u8>,
    layered_nav: Option<LayeredNavigation>,
}

/// An index as plain values.
pub struct VamanaView {
    /// The edges.
    pub graph: CsrView,
    /// The slots of all blocks.
    pub slots: Seq<u32>,
    /// Where a search starts.
    pub entry_point: u32,
    /// The dimension.
    pub dim: usize,
    /// The number of nodes.
    pub n: usize,
    /// What is recorded of the build.
    pub metadata: Option<BuildMetadata>,
    /// The same as the text that the index file holds; empty where there is none.
    pub metadata_text: Seq<u8>,
    /// The layers above the graph.
    pub layers: Option<LayeredView>,
}

impl View for VamanaGraph {
    type V = VamanaView;

    closed spec fn view(&self) -> VamanaView {
        VamanaView {
            graph: self.storage@,
            slots: self.storage.slots(),
            entry_point: self.entry_point,
            dim: self.dim,
            n: self.n,
            metadata: self.metadata,
            metadata_text: self.metadata_text@,
            layers: match self.layered_nav {
                Some(nav) => Some(nav@),
                None => None,
            },
        }
    }
}

/// What a search with a score looks at.
pub open spec fn space_for<S: NodeScore>(
    score: &S,
    storage: &HybridBlockedCsr,
    limit: nat,
) -> SearchSpace {
    search::space_of(score, storage, limit)
}

/// A search can run: every node that it can come to has a score.
pub open spec fn search_ready<S: NodeScore>(
    score: &S,
    storage: &HybridBlockedCsr,
    entry_point: u32,
    visited_n: nat,
    l: usize,
) -> bool {
    &&& search::searchable(score, storage, entry_point, visited_n)
    &&& 1 <= l < usize::MAX
}

/// A search among vectors can run: every node that it can come to has a vector.
pub open spec fn vectors_ready(
    vectors: Seq<F32>,
    dim: usize,
    storage: &HybridBlockedCsr,
    entry_point: u32,
    visited_n: nat,
    l: usize,
) -> bool {
    let bound = if storage@.lists.len() <= visited_n {
        storage@.lists.len()
    } else {
        visited_n
    };
    &&& storage.wf()
    &&& search::closed_below(storage@.lists, bound)
    &&& entry_point < bound
    &&& forall|id: u32|
        id < bound ==> #[trigger] search::has_vector(vectors, dim as int, id as int) && id
            <= usize::MAX
    &&& 1 <= l < usize::MAX
}

/// Where every node has a vector, it has a distance to any query.
pub proof fn lemma_vectors_ready<K: DistanceKernel>(
    score: &VectorScore<K>,
    storage: &HybridBlockedCsr,
    entry_point: u32,
    visited_n: nat,
    l: usize,
)
    requires
        vectors_ready(score.vectors@, score.dim, storage, entry_point, visited_n, l),
        score.query@.len() == score.dim,
    ensures
        search_ready(score, storage, entry_point, visited_n, l),
{
    let bound = if storage@.lists.len() <= visited_n {
        storage@.lists.len()
    } else {
        visited_n
    };
    assert forall|id: u32| id < bound implies #[trigger] score.known(id) by {
        assert(search::has_vector(score.vectors@, score.dim as int, id as int));
    }
}

/// Every record can be handed to `to_text`.
pub open spec fn takes_records<F: Fn(&BuildMetadata) -> Vec<u8>>(to_text: F) -> bool {
    forall|m: BuildMetadata| #[trigger] call_requires(to_text, (&m,))
}

/// The text is what `to_text` makes of the record.
pub open spec fn text_of_record<F: Fn(&BuildMetadata) -> Vec<u8>>(
    to_text: F,
    m: BuildMetadata,
    text: Seq<u8>,
) -> bool {
    exists|t: Vec<u8>| #[trigger] call_ensures(to_text, (&m,), t) && t@ == text
}

/// The index holds the record of a build that ended at the given time, and the text that `to_text`
/// makes of it.
pub open spec fn holds_record<F: Fn(&BuildMetadata) -> Vec<u8>>(
    v: VamanaView,
    to_text: F,
    n: usize,
    dim: usize,
    timestamp: u64,
) -> bool {
    v.metadata matches Some(m) && m.recorded(n, dim, timestamp) && text_of_record(
        to_text,
        m,
        v.metadata_text,
    )
}

/// What a build with these settings makes of these vectors, with a random generator that stands at
/// `before` at the start and at `after` at the end.
pub open spec fn is_built<K: DistanceKernel, F: Fn(&BuildMetadata) -> Vec<u8>>(
    g: VamanaGraph,
    after: RngView,
    kernel: &K,
    vectors: &[F32],
    dim: usize,
    config: &VamanaBuildConfig,
    before: RngView,
    levels: Seq<u8>,
    timestamp: u64,
    to_text: F,
) -> bool {
    let n = vectors@.len() / dim as nat;
    let data = Points { kernel, vectors, dim };
    let choice = StrategyChoice { data: &data, n: n as usize, config };
    let entry = centroid::medoid(kernel, vectors@, dim as nat, n);
    &&& g.wf()
    &&& g.free_slots_marked()
    &&& g@.n == n
    &&& g@.dim == dim
    &&& g@.entry_point == entry
    &&& g@.graph.r_max == config.r_max
    &&& (g@.graph, after) == construction::built(
        data,
        choice,
        before,
        entry,
        n,
        *config,
    )
    &&& holds_record(g@, to_text, n as usize, dim, timestamp)
    &&& g@.layers == (if config.enable_layered_nav && n > 0 {
        Some(layered::layers_of(data, entry, levels, config.r_max / 2))
    } else {
        None
    })
    &&& g@.layers matches Some(l) ==> l.lists.len() == l.levels.len()
        && l.lists.len() <= n
    &&& n > 0 ==> entry < n && searcher::answerable(g, None, vectors@, dim)
    &&& construction::proper(g@.graph, n)
    &&& forall|i: int| 0 <= i < n ==> (#[trigger] g@.graph.all(i)).len() <= config.r_max
}

impl VamanaGraph {
    /// The storage is sound, and the node count is its length.
    pub closed spec fn wf(self) -> bool {
        &&& self.storage.wf()
        &&& self.n == self.storage@.lists.len()
    }

    /// Every free slot of the blocks holds the sentinel.
    pub closed spec fn free_slots_marked(self) -> bool {
        self.storage.free_slots_marked()
    }

    /// The storage.
    pub closed spec fn held(self) -> HybridBlockedCsr {
        self.storage
    }

    /// The layers.
    pub closed spec fn held_layers(self) -> Option<LayeredNavigation> {
        self.layered_nav
    }

    /// How the parts and the plain values fit together.
    pub proof fn lemma_parts(self)
        requires
            self.wf(),
        ensures
            self.held().wf(),
            self.held()@ == self@.graph,
            self.held().slots() == self@.slots,
            self@.n == self@.graph.lists.len(),
            self.free_slots_marked() == self.held().free_slots_marked(),
            match self.held_layers() {
                Some(nav) => self@.layers == Some(nav@),
                None => self@.layers is None,
            },
    {
    }

    /// Builds an index over vectors that stand one after the other in a flat array. `levels` are
    /// the levels of the nodes, drawn at random; they are used where the settings ask for layers.
    /// `timestamp` is recorded as the time of the build, and `to_text` makes of the record the text
    /// that the index file holds.
    pub fn build<K: DistanceKernel, F: Fn(&BuildMetadata) -> Vec<u8>>(
        kernel: &K,
        vectors: &[F32],
        dim: usize,
        config: &VamanaBuildConfig,
        rng: &mut ChaCha8Rng,
        levels: &[u8],
        timestamp: u64,
        to_text: F,
    ) -> (g: Self)
        requires
            takes_records(to_text),
            dim > 0,
            vectors@.len() % dim as nat == 0,
            config.usable(vectors@.len() / dim as nat),
            config.enable_layered_nav ==> levels@.len() == vectors@.len() / dim as nat,
        ensures
            is_built(
                g,
                final(rng)@,
                kernel,
                vectors,
                dim,
                config,
                old(rng)@,
                levels@,
                timestamp,
                to_text,
            ),
    {
        assert(vectors@.len() == vectors.len());
        let n: usize = vectors.len() / dim;
        let data = Points { kernel, vectors, dim };
        let choice = StrategyChoice { data: &data, n, config };
        let mut g = VamanaGraph::build_with_choice(
            kernel,
            vectors,
            dim,
            config,
            &choice,
            rng,
            timestamp,
            to_text,
        );
        if config.enable_layered_nav && n > 0 {
            proof {
                lemma_exact_division(vectors@.len(), dim as nat);
            }
            let nav = LayeredNavigation::build(
                kernel,
                vectors,
                dim,
                g.entry_point,
                levels,
                config.r_max / 2,
            );
            g.layered_nav = Some(nav);
        }
        proof {
            if n > 0 {
                lemma_exact_division(vectors@.len(), dim as nat);
                construction::lemma_blocks_closed(g@.graph, n as nat);
                search::lemma_covered(vectors@, dim as nat, n as nat, g.entry_point as int);
                search::lemma_covered(vectors@, dim as nat, n as nat, 0);
            }
        }
        g
    }

    /// Builds an index without layers, with the neighbours of each node chosen by a pruning that
    /// weighs quantization errors.
    pub fn build_with_quant_aware_prune<
        K: DistanceKernel,
        E: ErrorFn,
        X: Fn(F32) -> F32,
        L: Fn(F32) -> F32,
        F: Fn(&BuildMetadata) -> Vec<u8>,
    >(
        kernel: &K,
        vectors: &[F32],
        dim: usize,
        config: &VamanaBuildConfig,
        qa_config: &QuantAwarePruneConfig,
        error_fn: &E,
        exponentials: &Exponentials<X, L>,
        rng: &mut ChaCha8Rng,
        timestamp: u64,
        to_text: F,
    ) -> (g: Self)
        requires
            takes_records(to_text),
            dim > 0,
            vectors@.len() % dim as nat == 0,
            config.usable(vectors@.len() / dim as nat),
            exponentials.usable(),
            forall|u: u32, v: u32|
                u < vectors@.len() / dim as nat && v < vectors@.len() / dim as nat
                    ==> #[trigger] error_fn.known(u, v),
        ensures
            g.wf(),
            g.free_slots_marked(),
            ({
                let n = vectors@.len() / dim as nat;
                let data = Points { kernel, vectors, dim };
                let choice = QuantChoice {
                    data: &data,
                    n: n as usize,
                    errors: error_fn,
                    exponentials,
                    config: qa_config,
                };
                let entry = centroid::medoid(kernel, vectors@, dim as nat, n);
                &&& g@.n == n
                &&& g@.dim == dim
                &&& g@.entry_point == entry
                &&& g@.graph.r_max == config.r_max
                &&& (g@.graph, final(rng)@) == construction::built(
                    data,
                    choice,
                    old(rng)@,
                    entry,
                    n,
                    *config,
                )
                &&& holds_record(g@, to_text, n as usize, dim, timestamp)
                &&& g@.layers is None
                &&& n > 0 ==> searcher::answerable(g, None, vectors@, dim)
                &&& construction::proper(g@.graph, n)
                &&& forall|i: int|
                    0 <= i < n ==> (#[trigger] g@.graph.all(i)).len() <= config.r_max
            }),
    {
        assert(vectors@.len() == vectors.len());
        let n: usize = vectors.len() / dim;
        let data = Points { kernel, vectors, dim };
        let choice = QuantChoice {
            data: &data,
            n,
            errors: error_fn,
            exponentials,
            config: qa_config,
        };
        proof {
            lemma_exact_division(vectors@.len(), dim as nat);
        }
        VamanaGraph::build_with_choice(
            kernel,
            vectors,
            dim,
            config,
            &choice,
            rng,
            timestamp,
            to_text,
        )
    }

    /// Builds an index without layers, with the neighbours of each node chosen in the given way.
    pub fn build_with_choice<
        K: DistanceKernel,
        C: NeighborChoice,
        F: Fn(&BuildMetadata) -> Vec<u8>,
    >(
        kernel: &K,
        vectors: &[F32],
        dim: usize,
        config: &VamanaBuildConfig,
        choice: &C,
        rng: &mut ChaCha8Rng,
        timestamp: u64,
        to_text: F,
    ) -> (g: Self)
        requires
            takes_records(to_text),
            dim > 0,
            vectors@.len() % dim as nat == 0,
            config.usable(vectors@.len() / dim as nat),
            choice.nodes() == vectors@.len() / dim as nat,
            search::covers(vectors@, dim as int, vectors@.len() / dim as nat) ==> choice.ready(),
        ensures
            g.wf(),
            g.free_slots_marked(),
            ({
                let n = vectors@.len() / dim as nat;
                let data = Points { kernel, vectors, dim };
                let entry = centroid::medoid(kernel, vectors@, dim as nat, n);
                &&& g@.n == n
                &&& g@.dim == dim
                &&& g@.entry_point == entry
                &&& g@.graph.r_max == config.r_max
                &&& n > 0 ==> entry < n
                &&& (g@.graph, final(rng)@) == construction::built(
                    data,
                    *choice,
                    old(rng)@,
                    entry,
                    n,
                    *config,
                )
                &&& holds_record(g@, to_text, n as usize, dim, timestamp)
                &&& g@.layers is None
                &&& n > 0 ==> searcher::answerable(g, None, vectors@, dim)
                &&& construction::proper(g@.graph, n)
                &&& forall|i: int|
                    0 <= i < n ==> (#[trigger] g@.graph.all(i)).len() <= config.r_max
            }),
    {
        assert(vectors@.len() == vectors.len());
        let n: usize = vectors.len() / dim;
        proof {
            lemma_exact_division(vectors@.len(), dim as nat);
        }
        let data = Points { kernel, vectors, dim };
        let entry_point: u32 = compute_medoid(kernel, vectors, dim, n);
        let storage = build_storage(&data, choice, n, entry_point, config, rng);
        proof {
            construction::lemma_blocks_closed(storage@, n as nat);
        }
        VamanaGraph::recorded(storage, entry_point, dim, None, timestamp, to_text)
    }

    /// An index of the given parts, with the record of a build that ended at the given time.
    pub fn recorded<F: Fn(&BuildMetadata) -> Vec<u8>>(
        storage: HybridBlockedCsr,
        entry_point: u32,
        dim: usize,
        layered_nav: Option<LayeredNavigation>,
        timestamp: u64,
        to_text: F,
    ) -> (g: Self)
        requires
            storage.wf(),
            takes_records(to_text),
        ensures
            g.wf(),
            g.held() == storage,
            g@.graph == storage@,
            g@.slots == storage.slots(),
            g@.entry_point == entry_point,
            g@.dim == dim,
            g@.n == storage@.lists.len(),
            holds_record(g@, to_text, g@.n, dim, timestamp),
            g@.layers == (match layered_nav {
                Some(nav) => Some(nav@),
                None => None,
            }),
    {
        let n: usize = storage.len();
        let settings = BuildConfig::default();
        let record = BuildMetadata::from_config(&settings, n, dim, timestamp);
        let metadata_text = to_text(&record);
        VamanaGraph {
            storage,
            entry_point,
            dim,
            n,
            metadata: Some(record),
            metadata_text,
            layered_nav,
        }
    }

    /// An index over a graph that is there already.
    pub fn from_storage(storage: HybridBlockedCsr, entry_point: u32, dim: usize) -> (g: Self)
        requires
            storage.wf(),
        ensures
            g.wf(),
            g.held() == storage,
            g@.graph == storage@,
            g@.slots == storage.slots(),
            g@.entry_point == entry_point,
            g@.dim == dim,
            g@.n == storage@.lists.len(),
            g@.metadata is None,
            g@.metadata_text.len() == 0,
            g@.layers is None,
    {
        let n: usize = storage.len();
        VamanaGraph {
            storage,
            entry_point,
            dim,
            n,
            metadata: None,
            metadata_text: Vec::new(),
            layered_nav: None,
        }
    }

    /// An index of the given parts.
    pub fn assemble(
        storage: HybridBlockedCsr,
        entry_point: u32,
        dim: usize,
        metadata_text: Vec<u8>,
        layered_nav: Option<LayeredNavigation>,
    ) -> (g: Self)
        requires
            storage.wf(),
        ensures
            g.wf(),
            g.held() == storage,
            g@.graph == storage@,
            g@.slots == storage.slots(),
            g@.entry_point == entry_point,
            g@.dim == dim,
            g@.n == storage@.lists.len(),
            g@.metadata is None,
            g@.metadata_text == metadata_text@,
            g@.layers == (match layered_nav {
                Some(nav) => Some(nav@),
                None => None,
            }),
    {
        let n: usize = storage.len();
        VamanaGraph { storage, entry_point, dim, n, metadata: None, metadata_text, layered_nav }
    }

    /// A search for the vector of a node. Returns what the pool holds at the end, nearest first,
    /// and all nodes that were visited.
    pub fn greedy_search<K: DistanceKernel>(
        kernel: &K,
        vectors: &[F32],
        dim: usize,
        storage: &HybridBlockedCsr,
        entry_point: u32,
        query_node: u32,
        l: usize,
    ) -> (r: (Vec<u32>, Vec<u32>))
        requires
            dim > 0,
            query_node <= usize::MAX,
            search::has_vector(vectors@, dim as int, query_node as int),
            3 * l <= usize::MAX,
            vectors_ready(
                vectors@,
                dim,
                storage,
                entry_point,
                vectors@.len() / dim as nat,
                l,
            ),
        ensures
            ({
                let data = Points { kernel, vectors, dim };
                let space = layered::layer_space(
                    data,
                    storage@.lists,
                    data.vector(query_node as int),
                );
                &&& r.0@ == layered::ids_of(search::found(space, l as nat, entry_point))
                &&& r.1@ == search::seen(space, l as nat, entry_point)
            }),
    {
        let query = vector_slice(vectors, dim, query_node);
        VamanaGraph::greedy_search_vec(kernel, vectors, dim, storage, entry_point, query, l)
    }

    /// A search for a vector. Returns what the pool holds at the end, nearest first, and all nodes
    /// that were visited.
    pub fn greedy_search_vec<K: DistanceKernel>(
        kernel: &K,
        vectors: &[F32],
        dim: usize,
        storage: &HybridBlockedCsr,
        entry_point: u32,
        query: &[F32],
        l: usize,
    ) -> (r: (Vec<u32>, Vec<u32>))
        requires
            dim > 0,
            query@.len() == dim,
            3 * l <= usize::MAX,
            vectors_ready(
                vectors@,
                dim,
                storage,
                entry_point,
                vectors@.len() / dim as nat,
                l,
            ),
        ensures
            ({
                let space = layered::layer_space(
                    Points { kernel, vectors, dim },
                    storage@.lists,
                    query@,
                );
                &&& r.0@ == layered::ids_of(search::found(space, l as nat, entry_point))
                &&& r.1@ == search::seen(space, l as nat, entry_point)
            }),
    {
        assert(vectors@.len() == vectors.len());
        let n: usize = vectors.len() / dim;
        let mut visited = VisitedTracker::new(n, l);
        let found = VamanaGraph::greedy_search_vec_build(
            kernel,
            vectors,
            dim,
            storage,
            entry_point,
            query,
            l,
            &mut visited,
        );
        (take_ids(&found), slice_to_vec(visited.visited_nodes()))
    }

    /// A search for a vector, with a tracker that is cleared first. Returns what the pool holds at
    /// the end, nearest first; the tracker holds the nodes that were visited.
    pub fn greedy_search_vec_build<K: DistanceKernel>(
        kernel: &K,
        vectors: &[F32],
        dim: usize,
        storage: &HybridBlockedCsr,
        entry_point: u32,
        query: &[F32],
        l: usize,
        visited: &mut VisitedTracker,
    ) -> (found: Vec<(u32, F32)>)
        requires
            old(visited).wf(),
            query@.len() == dim,
            vectors_ready(
                vectors@,
                dim,
                storage,
                entry_point,
                old(visited)@.n,
                l,
            ),
        ensures
            final(visited).wf(),
            final(visited)@.n == old(visited)@.n,
            ({
                let space = layered::layer_space(
                    Points { kernel, vectors, dim },
                    storage@.lists,
                    query@,
                );
                &&& found@ == search::found(space, l as nat, entry_point)
                &&& final(visited)@.nodes == search::seen(space, l as nat, entry_point)
            }),
    {
        let score = VectorScore { kernel, vectors, dim, query };
        proof {
            lemma_vectors_ready(&score, storage, entry_point, visited@.n, l);
        }
        let mut pool = LinearPool::new(l);
        run_search(&score, storage, entry_point, l, usize::MAX, visited, &mut pool);
        proof {
            let data = Points { kernel, vectors, dim };
            let space = layered::layer_space(data, storage@.lists, query@);
            assert(search::scores(&score) =~= space.score);
        }
        pool.to_sorted_vec()
    }

    /// A search for a vector, with a tracker and a pool that are cleared first; of each node at
    /// most 128 neighbours that were not visited before are taken. `_po` is how far ahead vectors
    /// may be fetched, which changes nothing in the result.
    pub fn greedy_search_vec_reuse<K: DistanceKernel>(
        kernel: &K,
        vectors: &[F32],
        dim: usize,
        storage: &HybridBlockedCsr,
        entry_point: u32,
        query: &[F32],
        l: usize,
        visited: &mut VisitedTracker,
        pool: &mut LinearPool,
        _po: usize,
    ) -> (found: Vec<(u32, F32)>)
        requires
            old(visited).wf(),
            query@.len() == dim,
            vectors_ready(
                vectors@,
                dim,
                storage,
                entry_point,
                old(visited)@.n,
                l,
            ),
        ensures
            final(visited).wf(),
            final(visited)@.n == old(visited)@.n,
            final(pool).wf(),
            ({
                let space = space_for(
                    &VectorScore { kernel, vectors, dim, query },
                    storage,
                    EDGE_BUFFER as nat,
                );
                &&& found@ == search::found(space, l as nat, entry_point)
                &&& final(visited)@.nodes == search::seen(space, l as nat, entry_point)
            }),
            entries_below(found@, storage@.lists.len(), old(visited)@.n),
    {
        let score = VectorScore { kernel, vectors, dim, query };
        proof {
            lemma_vectors_ready(&score, storage, entry_point, visited@.n, l);
        }
        VamanaGraph::greedy_search_scored(&score, storage, entry_point, l, visited, pool)
    }

    /// A search by any score, with a tracker and a pool that are cleared first; of each node at
    /// most 128 neighbours that were not visited before are taken.
    pub fn greedy_search_scored<S: NodeScore>(
        score: &S,
        storage: &HybridBlockedCsr,
        entry_point: u32,
        l: usize,
        visited: &mut VisitedTracker,
        pool: &mut LinearPool,
    ) -> (found: Vec<(u32, F32)>)
        requires
            old(visited).wf(),
            search_ready(score, storage, entry_point, old(visited)@.n, l),
        ensures
            final(visited).wf(),
            final(visited)@.n == old(visited)@.n,
            final(pool).wf(),
            ({
                let space = space_for(score, storage, EDGE_BUFFER as nat);
                &&& found@ == search::found(space, l as nat, entry_point)
                &&& final(visited)@.nodes == search::seen(space, l as nat, entry_point)
            }),
            entries_below(found@, storage@.lists.len(), old(visited)@.n),
    {
        run_search(score, storage, entry_point, l, EDGE_BUFFER, visited, pool);
        pool.to_sorted_vec()
    }

    /// A search by the distances between one-byte codes.
    pub fn greedy_search_sq8<S: NodeScore>(
        sq8: &S,
        storage: &HybridBlockedCsr,
        entry_point: u32,
        l: usize,
        visited: &mut VisitedTracker,
        pool: &mut LinearPool,
        _po: usize,
    ) -> (found: Vec<(u32, F32)>)
        requires
            old(visited).wf(),
            search_ready(sq8, storage, entry_point, old(visited)@.n, l),
        ensures
            final(visited).wf(),
            final(visited)@.n == old(visited)@.n,
            final(pool).wf(),
            ({
                let space = space_for(sq8, storage, EDGE_BUFFER as nat);
                &&& found@ == search::found(space, l as nat, entry_point)
                &&& final(visited)@.nodes == search::seen(space, l as nat, entry_point)
            }),
            entries_below(found@, storage@.lists.len(), old(visited)@.n),
    {
        VamanaGraph::greedy_search_scored(sq8, storage, entry_point, l, visited, pool)
    }

    /// A search by the table distances of four-bit product codes. Where nothing may be kept there
    /// is no search.
    pub fn greedy_search_pq4<S: NodeScore>(
        pq4: &S,
        storage: &HybridBlockedCsr,
        entry_point: u32,
        ef_search: usize,
        visited: &mut VisitedTracker,
        pool: &mut LinearPool,
        _po: usize,
    ) -> (found: Vec<(u32, F32)>)
        requires
            old(visited).wf(),
            ef_search >= 1 ==> search_ready(
                pq4,
                storage,
                entry_point,
                old(visited)@.n,
                ef_search,
            ),
        ensures
            final(visited).wf(),
            final(visited)@.n == old(visited)@.n,
            ef_search == 0 ==> found@.len() == 0 && *final(visited) == *old(visited)
                && *final(pool) == *old(pool),
            ef_search >= 1 ==> final(pool).wf() && ({
                let space = space_for(pq4, storage, EDGE_BUFFER as nat);
                &&& found@ == search::found(space, ef_search as nat, entry_point)
                &&& final(visited)@.nodes == search::seen(space, ef_search as nat, entry_point)
            }),
            entries_below(found@, storage@.lists.len(), old(visited)@.n),
    {
        if ef_search == 0 {
            return Vec::new();
        }
        VamanaGraph::greedy_search_scored(pq4, storage, entry_point, ef_search, visited, pool)
    }

    /// A search by the table distances of one-byte product codes. Where nothing may be kept there
    /// is no search.
    pub fn greedy_search_pq8<S: NodeScore>(
        pq8: &S,
        storage: &HybridBlockedCsr,
        entry_point: u32,
        ef_search: usize,
        visited: &mut VisitedTracker,
        pool: &mut LinearPool,
        _po: usize,
    ) -> (found: Vec<(u32, F32)>)
        requires
            old(visited).wf(),
            ef_search >= 1 ==> search_ready(
                pq8,
                storage,
                entry_point,
                old(visited)@.n,
                ef_search,
            ),
        ensures
            final(visited).wf(),
            final(visited)@.n == old(visited)@.n,
            ef_search == 0 ==> found@.len() == 0 && *final(visited) == *old(visited)
                && *final(pool) == *old(pool),
            ef_search >= 1 ==> final(pool).wf() && ({
                let space = space_for(pq8, storage, EDGE_BUFFER as nat);
                &&& found@ == search::found(space, ef_search as nat, entry_point)
                &&& final(visited)@.nodes == search::seen(space, ef_search as nat, entry_point)
            }),
            entries_below(found@, storage@.lists.len(), old(visited)@.n),
    {
        if ef_search == 0 {
            return Vec::new();
        }
        VamanaGraph::greedy_search_scored(pq8, storage, entry_point, ef_search, visited, pool)
    }

    /// The number of nodes.
    pub fn len(&self) -> (n: usize)
        ensures
            n == self@.n,
    {
        self.n
    }

    /// Whether there are no nodes.
    pub fn is_empty(&self) -> (b: bool)
        ensures
            b == (self@.n == 0),
    {
        self.n == 0
    }

    /// The dimension.
    pub fn dim(&self) -> (d: usize)
        ensures
            d == self@.dim,
    {
        self.dim
    }

    /// Where a search starts.
    pub fn entry_point(&self) -> (e: u32)
        ensures
            e == self@.entry_point,
    {
        self.entry_point
    }

    /// The neighbours of a node that a search looks at.
    pub fn neighbors(&self, node_id: u32) -> (s: &[u32])
        requires
            self.wf(),
            node_id < self@.n,
        ensures
            s@ == self@.graph.lists[node_id as int],
    {
        self.storage.neighbors(node_id)
    }

    /// The storage.
    pub fn storage(&self) -> (s: &HybridBlockedCsr)
        ensures
            *s == self.held(),
            s@ == self@.graph,
            s.slots() == self@.slots,
            self.wf() ==> s.wf() && s@.lists.len() == self@.n,
    {
        &self.storage
    }

    /// The storage, to be changed in place. The index stays sound as long as the storage does and
    /// has as many nodes as before.
    pub fn storage_mut(&mut self) -> (s: &mut HybridBlockedCsr)
        ensures
            *s == old(self).held(),
            final(self).held() == *final(s),
            final(self)@ == (VamanaView {
                graph: final(s)@,
                slots: final(s).slots(),
                ..old(self)@
            }),
            final(s).wf() && final(s)@.lists.len() == old(self)@.n ==> final(self).wf(),
    {
        &mut self.storage
    }

    /// What is recorded of the build.
    pub fn metadata(&self) -> (m: Option<&BuildMetadata>)
        ensures
            m == (match self@.metadata {
                Some(x) => Some(&x),
                None => None,
            }),
    {
        match &self.metadata {
            Some(m) => Some(m),
            None => None,
        }
    }

    /// The text that the index file holds of the build; empty where there is none.
    pub fn metadata_text(&self) -> (s: &[u8])
        ensures
            s@ == self@.metadata_text,
    {
        self.metadata_text.as_slice()
    }

    /// Sets what is recorded of the build, as values and as the text for the index file.
    pub fn set_metadata(&mut self, metadata: Option<BuildMetadata>, text: Vec<u8>)
        ensures
            old(self).wf() ==> final(self).wf(),
            final(self).held() == old(self).held(),
            final(self).held_layers() == old(self).held_layers(),
            final(self)@ == (VamanaView { metadata, metadata_text: text@, ..old(self)@ }),
    {
        self.metadata = metadata;
        self.metadata_text = text;
    }

    /// The layers above the graph.
    pub fn layered_nav(&self) -> (nav: Option<&LayeredNavigation>)
        ensures
            match nav {
                Some(x) => self.held_layers() == Some(*x) && self@.layers == Some(x@),
                None => self.held_layers() is None && self@.layers is None,
            },
    {
        match &self.layered_nav {
            Some(nav) => Some(nav),
            None => None,
        }
    }

    /// The degrees of all nodes, summed up.
    pub fn degree_stats(&self) -> (s: DegreeStats)
        requires
            self.wf(),
        ensures
            self@.graph.summed_up(s),
    {
        self.storage.log_degree_distribution()
    }
}

/// Every id of the list is below both bounds.
pub open spec fn entries_below(list: Seq<Entry>, a: nat, b: nat) -> bool {
    forall|i: int| 0 <= i < list.len() ==> (#[trigger] list[i]).0 < a && list[i].0 < b
}

/// A length that is a multiple of the dimension.
pub proof fn lemma_exact_division(len: nat, dim: nat)
    requires
        dim > 0,
        len % dim == 0,
    ensures
        (len / dim) * dim == len,
{
    vstd::arithmetic::div_mod::lemma_fundamental_div_mod(len as int, dim as int);
    vstd::arithmetic::mul::lemma_mul_is_commutative((len / dim) as int, dim as int);
}

} // verus!
