//! Layers above the graph, for finding a good place to start a search.
//!
//! Layer 0 is the graph itself. Every node has a level, and layer `l` holds the nodes of level `l`
//! and above, with a graph of its own: small layers are built from all pairs, large ones from a
//! seed of all pairs and then node by node with searches in what is built so far. A search starts
//! at the top layer and goes down, in each layer to the nearest node that it can reach by ever
//! nearer neighbours.
use vstd::prelude::*;
use vstd::slice::slice_to_vec;
use crate::build::rng;
use crate::build::rng::{ChaCha8Rng, Draw, RngView};
use crate::distance::DistanceKernel;
use crate::distance::single::{F32, ONE_BITS};
use crate::graph::linear_pool;
use crate::graph::linear_pool::LinearPool;
use crate::graph::points;
use crate::graph::points::Points;
use crate::graph::robust_prune::PruneStrategy;
use crate::graph::search;
use crate::graph::search::{run_search, vector_slice, SearchSpace, VectorScore};
use crate::memory::{GraphStorage, VisitedTracker};
use crate::memory::graph::contains;

verus! {

/// Layers up to this size are built from all pairs.
pub const BRUTE_FORCE_THRESHOLD: usize = 2000;

/// How many places to start from are kept at most.
pub const MAX_ENTRY_CANDIDATES: usize = 50;

/// The generator that levels are drawn from, after it was asked for those of `i` nodes.
pub open spec fn level_source(i: nat) -> RngView
    decreases i,
{
    if i == 0 {
        RngView::fresh(42)
    } else {
        level_source((i - 1) as nat).after(Draw::U64)
    }
}

/// The number of 53 bits that the level of node `i` comes from: the upper bits of the next 64-bit
/// number.
pub open spec fn level_draw(i: nat) -> u64 {
    rng::chacha8_u64(level_source(i).seed, level_source(i).draws) / 2048
}

/// The levels of `n` nodes, where `m` is how much smaller each layer is than the one below it.
/// `level_of` makes a level of a number of 53 bits and of `m`; for layers that shrink that way it
/// is `-ln(x / 2^53) / ln(m)`, rounded down.
pub fn draw_levels<F: Fn(u64, usize) -> u8>(n: usize, m: usize, level_of: F) -> (levels: Vec<u8>)
    requires
        forall|x: u64| #[trigger] call_requires(level_of, (x, m)),
    ensures
        levels@.len() == n,
        forall|i: int|
            0 <= i < n ==> call_ensures(level_of, (level_draw(i as nat), m), #[trigger] levels@[i]),
{
    let mut rng = ChaCha8Rng::new();
    let mut levels: Vec<u8> = Vec::with_capacity(n);
    let mut i: usize = 0;
    while i < n
        invariant
            i <= n,
            rng@ == level_source(i as nat),
            forall|x: u64| #[trigger] call_requires(level_of, (x, m)),
            levels@.len() == i,
            forall|k: int|
                0 <= k < i ==> call_ensures(
                    level_of,
                    (level_draw(k as nat), m),
                    #[trigger] levels@[k],
                ),
        decreases n - i,
    {
        let x: u64 = rng.next_u64() / 2048;
        let level: u8 = level_of(x, m);
        levels.push(level);
        i += 1;
    }
    levels
}

/// The neighbours of each node as a list of lists.
pub open spec fn rows_of(adj: Seq<Vec<u32>>) -> Seq<Seq<u32>> {
    Seq::new(adj.len(), |i: int| adj[i]@)
}

/// There is a list for each of `n` nodes, and it holds ids of nodes.
pub open spec fn rows_valid(rows: Seq<Seq<u32>>, n: nat) -> bool {
    &&& rows.len() == n
    &&& forall|i: int| 0 <= i < n ==> points::below(#[trigger] rows[i], n)
}

/// A list of lists as a graph to search in.
pub struct AdjacencyLists<'a> {
    /// The neighbours of each node.
    pub lists: &'a [Vec<u32>],
}

impl<'a> GraphStorage for AdjacencyLists<'a> {
    open spec fn rows(&self) -> Seq<Seq<u32>> {
        rows_of(self.lists@)
    }

    open spec fn storage_valid(&self) -> bool {
        true
    }

    fn len(&self) -> (n: usize) {
        self.lists.len()
    }

    fn neighbors(&self, node_id: u32) -> (s: &[u32]) {
        self.lists[node_id as usize].as_slice()
    }
}

/// What a search in a layer looks at. Every neighbour is taken.
pub open spec fn layer_space<K: DistanceKernel>(
    data: Points<K>,
    rows: Seq<Seq<u32>>,
    query: Seq<F32>,
) -> SearchSpace {
    SearchSpace { rows, score: data.score_to(query), limit: usize::MAX as nat }
}

/// The ids of entries.
pub open spec fn ids_of(entries: Seq<linear_pool::Entry>) -> Seq<u32> {
    Seq::new(entries.len(), |i: int| entries[i].0)
}

/// The neighbours to keep in a layer: the strictest threshold, no filling.
pub open spec fn layer_pruned<K: DistanceKernel>(
    data: Points<K>,
    node: u32,
    list: Seq<u32>,
    k: usize,
) -> Seq<u32> {
    data.pruned(PruneStrategy::RobustPrune, node, list, F32(ONE_BITS), k, false)
}

/// The lists after `new` was added to those of `node`. Where that makes more than `k`, all of them
/// are pruned again.
pub open spec fn add_back<K: DistanceKernel>(
    data: Points<K>,
    rows: Seq<Seq<u32>>,
    node: u32,
    new: u32,
    k: usize,
) -> Seq<Seq<u32>> {
    let list = rows[node as int];
    if list.contains(new) {
        rows
    } else if list.len() + 1 > k {
        rows.update(node as int, layer_pruned(data, node, list.push(new), k))
    } else {
        rows.update(node as int, list.push(new))
    }
}

/// The lists after `new` was added to those of the first `j` of `nodes`.
pub open spec fn add_back_all<K: DistanceKernel>(
    data: Points<K>,
    rows: Seq<Seq<u32>>,
    nodes: Seq<u32>,
    j: int,
    new: u32,
    k: usize,
) -> Seq<Seq<u32>>
    decreases j,
{
    if j <= 0 {
        rows
    } else {
        add_back(data, add_back_all(data, rows, nodes, j - 1, new, k), nodes[j - 1], new, k)
    }
}

/// The lists after `node` got its neighbours, and each of them got `node` back.
pub open spec fn linked<K: DistanceKernel>(
    data: Points<K>,
    rows: Seq<Seq<u32>>,
    node: u32,
    neighbors: Seq<u32>,
    k: usize,
) -> Seq<Seq<u32>> {
    add_back_all(
        data,
        rows.update(node as int, neighbors),
        neighbors,
        neighbors.len() as int,
        node,
        k,
    )
}

/// The lists after the first `i` nodes of a layer got their neighbours, each from all others.
pub open spec fn from_all_pairs<K: DistanceKernel>(
    data: Points<K>,
    rows: Seq<Seq<u32>>,
    nodes: Seq<u32>,
    i: int,
    k: usize,
) -> Seq<Seq<u32>>
    decreases i,
{
    if i <= 0 {
        rows
    } else {
        let u = nodes[i - 1];
        linked(
            data,
            from_all_pairs(data, rows, nodes, i - 1, k),
            u,
            layer_pruned(data, u, nodes.remove(i - 1), k),
            k,
        )
    }
}

/// The lists after the first `i` nodes of a large layer got their neighbours: the seed from all
/// pairs, every later one from a search in the lists so far.
pub open spec fn from_searches<K: DistanceKernel>(
    data: Points<K>,
    rows: Seq<Seq<u32>>,
    nodes: Seq<u32>,
    i: int,
    k: usize,
) -> Seq<Seq<u32>>
    decreases i,
{
    if i <= BRUTE_FORCE_THRESHOLD {
        let seeds = nodes.take(i);
        from_all_pairs(data, rows, seeds, seeds.len() as int, k)
    } else {
        let before = from_searches(data, rows, nodes, i - 1, k);
        let u = nodes[i - 1];
        let found = search::found(
            layer_space(data, before, data.vector(u as int)),
            (4 * k) as nat,
            nodes[0],
        );
        linked(data, before, u, layer_pruned(data, u, ids_of(found), k), k)
    }
}

/// The graph of a layer.
pub open spec fn layer_graph<K: DistanceKernel>(
    data: Points<K>,
    n: nat,
    nodes: Seq<u32>,
    k: usize,
) -> Seq<Seq<u32>> {
    let rows = Seq::new(n, |i: int| Seq::<u32>::empty());
    if nodes.len() <= BRUTE_FORCE_THRESHOLD {
        from_all_pairs(data, rows, nodes, nodes.len() as int, k)
    } else {
        from_searches(data, rows, nodes, nodes.len() as int, k)
    }
}

/// The first `i` nodes that have at least the given level, by id.
pub open spec fn members_upto(levels: Seq<u8>, level: u8, i: int) -> Seq<u32>
    decreases i,
{
    if i <= 0 {
        Seq::empty()
    } else if levels[i - 1] >= level {
        members_upto(levels, level, i - 1).push((i - 1) as u32)
    } else {
        members_upto(levels, level, i - 1)
    }
}

/// The nodes of a layer, by id.
pub open spec fn members(levels: Seq<u8>, level: u8) -> Seq<u32> {
    members_upto(levels, level, levels.len() as int)
}

/// A list of exactly `k` neighbours, filled up with the node itself.
pub open spec fn padded(list: Seq<u32>, k: usize, node: u32) -> Seq<u32> {
    if list.len() < k {
        list + Seq::new((k - list.len()) as nat, |i: int| node)
    } else {
        list
    }
}

/// The edges of all layers up to `level`, layer after layer, `k` for each layer of a node.
pub open spec fn upper_lists_upto<K: DistanceKernel>(
    data: Points<K>,
    levels: Seq<u8>,
    level: nat,
    k: usize,
) -> Seq<Seq<u32>>
    decreases level,
{
    let n = levels.len();
    if level == 0 {
        Seq::new(n, |i: int| Seq::<u32>::empty())
    } else {
        let before = upper_lists_upto(data, levels, (level - 1) as nat, k);
        let nodes = members(levels, level as u8);
        if nodes.len() <= 1 {
            before
        } else {
            let graph = layer_graph(data, n, nodes, k);
            Seq::new(
                n,
                |i: int|
                    if levels[i] >= level {
                        before[i] + padded(graph[i], k, i as u32)
                    } else {
                        before[i]
                    },
            )
        }
    }
}

/// The members of a layer are nodes of at least its level, each once.
pub proof fn lemma_members(levels: Seq<u8>, level: u8, i: int)
    requires
        0 <= i <= levels.len(),
        levels.len() <= u32::MAX,
    ensures
        ({
            let m = members_upto(levels, level, i);
            &&& m.len() <= i
            &&& forall|a: int|
                0 <= a < m.len() ==> (#[trigger] m[a]) < i && levels[m[a] as int] >= level
            &&& forall|a: int, b: int|
                #![trigger m[a], m[b]]
                0 <= a < b < m.len() ==> m[a] < m[b]
            &&& forall|x: u32| x < i && levels[x as int] >= level ==> #[trigger] m.contains(x)
        }),
    decreases i,
{
    if i > 0 {
        lemma_members(levels, level, i - 1);
        let before = members_upto(levels, level, i - 1);
        let m = members_upto(levels, level, i);
        assert forall|a: int| 0 <= a < m.len() implies (#[trigger] m[a]) < i && levels[m[a] as int]
            >= level by {
            if a < before.len() {
                assert(m[a] == before[a]);
            }
        }
        assert forall|a: int, b: int|
            #![trigger m[a], m[b]]
            0 <= a < b < m.len() implies m[a] < m[b] by {
            assert(m[a] == before[a]);
            if b < before.len() {
                assert(m[b] == before[b]);
            }
        }
        assert forall|x: u32| x < i && levels[x as int] >= level implies #[trigger] m.contains(
            x,
        ) by {
            if x == i - 1 {
                assert(m[before.len() as int] == x);
            } else {
                assert(before.contains(x));
                let a = choose|a: int| 0 <= a < before.len() && before[a] == x;
                assert(m[a] == x);
            }
        }
    }
}

/// The layers.
pub struct LayeredNavigation {
    /// Where a search starts, in the top layer.
    pub entry_point: u32,
    /// The number of the top layer.
    pub max_level: u8,
    /// How many neighbours a node has in a layer.
    pub k: usize,
    /// The level of each node.
    pub node_levels: Vec<u8>,
    /// The neighbours of each node, layer after layer, `k` for each.
    pub upper_lists: Vec<Vec<u32>>,
    /// Other places to start from.
    pub entry_candidates: Vec<u32>,
}

/// The layers as plain values.
#[verifier::ext_equal]
pub struct LayeredView {
    /// Where a search starts.
    pub entry_point: u32,
    /// The number of the top layer.
    pub max_level: u8,
    /// How many neighbours a node has in a layer.
    pub k: nat,
    /// The level of each node.
    pub levels: Seq<u8>,
    /// The neighbours of each node.
    pub lists: Seq<Seq<u32>>,
    /// Other places to start from.
    pub candidates: Seq<u32>,
}

impl View for LayeredNavigation {
    type V = LayeredView;

    open spec fn view(&self) -> LayeredView {
        LayeredView {
            entry_point: self.entry_point,
            max_level: self.max_level,
            k: self.k as nat,
            levels: self.node_levels@,
            lists: rows_of(self.upper_lists@),
            candidates: self.entry_candidates@,
        }
    }
}

impl LayeredView {
    /// No layers above `n` nodes.
    pub open spec fn none(n: nat, k: nat) -> LayeredView {
        LayeredView {
            entry_point: 0,
            max_level: 0,
            k,
            levels: Seq::new(n, |i: int| 0u8),
            lists: Seq::new(n, |i: int| Seq::<u32>::empty()),
            candidates: Seq::empty(),
        }
    }
}

/// The greatest of some levels.
pub open spec fn top_level(levels: Seq<u8>) -> u8
    decreases levels.len(),
{
    if levels.len() == 0 {
        0
    } else if levels.last() > top_level(levels.drop_last()) {
        levels.last()
    } else {
        top_level(levels.drop_last())
    }
}

/// The place of the greatest number, the last where there are several, among the first `i`.
pub open spec fn farthest(dists: Seq<F32>, i: int) -> int
    decreases i,
{
    if i <= 1 {
        0
    } else {
        let before = farthest(dists, i - 1);
        if dists[i - 1].below(dists[before]) {
            before
        } else {
            i - 1
        }
    }
}

/// The distances of nodes to a given one.
pub open spec fn spread_from<K: DistanceKernel>(
    data: Points<K>,
    from: u32,
    nodes: Seq<u32>,
) -> Seq<F32> {
    Seq::new(nodes.len(), |i: int| data.score_to(data.vector(from as int))(nodes[i]))
}

/// The smaller of two lists of numbers, place by place: the second where it is smaller.
pub open spec fn place_wise_min(a: Seq<F32>, b: Seq<F32>) -> Seq<F32> {
    Seq::new(
        a.len(),
        |i: int|
            if b[i].below(a[i]) {
                b[i]
            } else {
                a[i]
            },
    )
}

/// `more` further nodes, each time the one farthest from those chosen so far.
pub open spec fn spread_out<K: DistanceKernel>(
    data: Points<K>,
    nodes: Seq<u32>,
    chosen: Seq<u32>,
    dists: Seq<F32>,
    more: nat,
) -> Seq<u32>
    decreases more,
{
    if more == 0 {
        chosen
    } else {
        let next = nodes[farthest(dists, nodes.len() as int)];
        spread_out(
            data,
            nodes,
            chosen.push(next),
            place_wise_min(dists, spread_from(data, next, nodes)),
            (more - 1) as nat,
        )
    }
}

/// The places to start from: the nodes of the top layer, or fifty of them that are far apart.
pub open spec fn entry_candidates_of<K: DistanceKernel>(
    data: Points<K>,
    levels: Seq<u8>,
    max_level: u8,
    entry: u32,
) -> Seq<u32> {
    let nodes = members(levels, max_level);
    if nodes.len() <= MAX_ENTRY_CANDIDATES {
        nodes
    } else {
        spread_out(
            data,
            nodes,
            seq![entry],
            spread_from(data, entry, nodes),
            (MAX_ENTRY_CANDIDATES - 1) as nat,
        )
    }
}

/// The layers over the given nodes: the entry point is lifted to the top layer.
pub open spec fn layers_of<K: DistanceKernel>(
    data: Points<K>,
    entry: u32,
    drawn: Seq<u8>,
    k: usize,
) -> LayeredView {
    if drawn.len() == 0 || k == 0 {
        LayeredView::none(0, k as nat)
    } else {
        let top = top_level(drawn);
        let levels = drawn.update(entry as int, top);
        LayeredView {
            entry_point: entry,
            max_level: top,
            k: k as nat,
            levels,
            lists: upper_lists_upto(data, levels, top as nat, k),
            candidates: entry_candidates_of(data, levels, top, entry),
        }
    }
}

impl LayeredNavigation {
    /// The layers over `n` nodes. `drawn` are the levels of the nodes, drawn at random so that
    /// each layer is thinner than the one below.
    pub fn build<K: DistanceKernel>(
        kernel: &K,
        vectors: &[F32],
        dim: usize,
        entry_point: u32,
        drawn: &[u8],
        k: usize,
    ) -> (nav: Self)
        requires
            search::covers(vectors@, dim as int, drawn@.len()),
            drawn@.len() <= u32::MAX,
            drawn@.len() > 0 ==> entry_point < drawn@.len(),
            12 * k <= usize::MAX,
        ensures
            nav@ == layers_of(Points { kernel, vectors, dim }, entry_point, drawn@, k),
            nav@.lists.len() == nav@.levels.len(),
            rows_valid(nav@.lists, nav@.levels.len()),
            nav@.levels.len() == (if k == 0 {
                0
            } else {
                drawn@.len()
            }),
    {
        let n: usize = drawn.len();
        if n == 0 || k == 0 {
            let nav = LayeredNavigation::empty(0, k);
            return nav;
        }
        let data = Points { kernel, vectors, dim };
        let max_level: u8 = max_of_levels(drawn);
        let mut node_levels = slice_to_vec(drawn);
        node_levels[entry_point as usize] = max_level;
        let upper_lists = build_upper_layers(&data, &node_levels, max_level, k);
        let entry_candidates = select_entry_candidates(
            &data,
            &node_levels,
            max_level,
            entry_point,
        );
        let nav = LayeredNavigation {
            entry_point,
            max_level,
            k,
            node_levels,
            upper_lists,
            entry_candidates,
        };
        assert(nav@ =~= layers_of(data, entry_point, drawn@, k));
        nav
    }

    /// No layers above `n` nodes.
    pub fn empty(n: usize, k: usize) -> (nav: Self)
        ensures
            nav@ == LayeredView::none(n as nat, k as nat),
    {
        let upper_lists: Vec<Vec<u32>> = vec![Vec::new();n];
        let nav = LayeredNavigation {
            entry_point: 0,
            max_level: 0,
            k,
            node_levels: vec![0u8;n],
            upper_lists,
            entry_candidates: Vec::new(),
        };
        assert forall|i: int| 0 <= i < n implies (#[trigger] nav@.lists[i]) == Seq::<
            u32,
        >::empty() by {
            assert(upper_lists@[i]@ =~= Seq::<u32>::empty());
        }
        assert(nav@ =~= LayeredView::none(n as nat, k as nat));
        nav
    }

    /// The number of the top layer.
    pub fn max_level(&self) -> (l: u8)
        ensures
            l == self@.max_level,
    {
        self.max_level
    }

    /// Adds `new_neighbor` to the neighbours of `node`. Where that makes more than `k`, all of
    /// them are pruned again.
    pub fn add_bidirectional_edge<K: DistanceKernel>(
        kernel: &K,
        vectors: &[F32],
        dim: usize,
        adj: &mut Vec<Vec<u32>>,
        node: u32,
        new_neighbor: u32,
        k: usize,
    )
        requires
            rows_valid(rows_of(old(adj)@), old(adj)@.len()),
            old(adj)@.len() <= u32::MAX,
            search::covers(vectors@, dim as int, old(adj)@.len()),
            node < old(adj)@.len(),
            new_neighbor < old(adj)@.len(),
        ensures
            rows_of(final(adj)@) == add_back(
                Points { kernel, vectors, dim },
                rows_of(old(adj)@),
                node,
                new_neighbor,
                k,
            ),
            rows_valid(rows_of(final(adj)@), old(adj)@.len()),
    {
        let data = Points { kernel, vectors, dim };
        add_edge_back(&data, adj, node, new_neighbor, k);
    }

    /// A search in a layer from `entry`, for `ef` nodes.
    pub fn search_upper_layer<K: DistanceKernel>(
        kernel: &K,
        vectors: &[F32],
        dim: usize,
        adj: &[Vec<u32>],
        entry: u32,
        query: &[F32],
        ef: usize,
        visited: &mut VisitedTracker,
    ) -> (found: Vec<(u32, F32)>)
        requires
            old(visited).wf(),
            old(visited)@.n == adj@.len(),
            1 <= ef < usize::MAX,
            rows_valid(rows_of(adj@), adj@.len()),
            adj@.len() <= u32::MAX,
            search::covers(vectors@, dim as int, adj@.len()),
            entry < adj@.len(),
            query@.len() == dim,
        ensures
            final(visited).wf(),
            final(visited)@.n == old(visited)@.n,
            ({
                let space = layer_space(
                    Points { kernel, vectors, dim },
                    rows_of(adj@),
                    query@,
                );
                &&& found@ == search::found(space, ef as nat, entry)
                &&& final(visited)@.nodes == search::seen(space, ef as nat, entry)
            }),
            points::below(ids_of(found@), adj@.len()),
    {
        let score = VectorScore { kernel, vectors, dim, query };
        let storage = AdjacencyLists { lists: adj };
        let mut pool = LinearPool::new(ef);
        proof {
            assert forall|id: u32| id < adj@.len() implies #[trigger] search::NodeScore::known(
                &score,
                id,
            ) by {
                search::lemma_covered(vectors@, dim as nat, adj@.len(), id as int);
            }
            assert forall|i: int, j: int|
                0 <= i < adj@.len() && 0 <= j < storage.rows()[i].len() implies (
            #[trigger] storage.rows()[i][j]) < adj@.len() by {
                assert(points::below(rows_of(adj@)[i], adj@.len()));
            }
        }
        run_search(&score, &storage, entry, ef, usize::MAX, visited, &mut pool);
        proof {
            let space = layer_space(Points { kernel, vectors, dim }, rows_of(adj@), query@);
            assert(search::scores(&score) =~= space.score);
            assert(search::space_of(&score, &storage, usize::MAX as nat) == space);
        }
        let found = pool.to_sorted_vec();
        assert forall|i: int| 0 <= i < ids_of(found@).len() implies (#[trigger] ids_of(found@)[i])
            < adj@.len() by {
            assert(found@[i].0 == linear_pool::raw(pool@.items[i].0));
        }
        found
    }

    /// The place to start a search in the graph, and its distance to the query: from the entry
    /// point down through the layers, in each to the nearest node that ever nearer neighbours
    /// lead to.
    pub fn initialize<K: DistanceKernel>(
        &self,
        kernel: &K,
        vectors: &[F32],
        dim: usize,
        query: &[F32],
    ) -> (r: (u32, F32))
        requires
            descendable(self@, vectors@, dim as int),
            query@.len() == dim,
        ensures
            r == descent(
                Points { kernel, vectors, dim },
                self@,
                query@,
                self@.max_level as nat,
            ),
            r.0 == self@.entry_point || r.0 < self@.lists.len(),
            r.1 == search::node_distance(kernel, vectors@, dim as int, query@, r.0 as int),
    {
        let data = Points { kernel, vectors, dim };
        let ghost nav = self@;
        let ghost n = nav.lists.len();
        let mut u: u32 = self.entry_point;
        let mut dist: F32 = kernel.distance(query, vector_slice(vectors, dim, u));
        let ghost top = nav.max_level as nat;
        let ghost start = (u, dist);
        let ghost whole = descend(data, nav, query@, start, top);
        let mut level: u8 = self.max_level;
        while level > 0
            invariant
                nav == self@,
                n == nav.lists.len(),
                level > 0 ==> n <= u32::MAX && rows_valid(nav.lists, n) && data.has(n) && u < n,
                data == (Points { kernel, vectors, dim }),
                query@.len() == dim,
                u == self.entry_point || u < n,
                dist == data.score_to(query@)(u),
                whole == descend(data, nav, query@, (u, dist), level as nat),
            decreases level,
        {
            let (v, d) = self.walk(&data, query, level, u, dist);
            u = v;
            dist = d;
            level -= 1;
        }
        (u, dist)
    }

    /// The walk through one layer.
    fn walk<K: DistanceKernel>(
        &self,
        data: &Points<K>,
        query: &[F32],
        level: u8,
        u: u32,
        dist: F32,
    ) -> (r: (u32, F32))
        requires
            level >= 1,
            self@.lists.len() <= u32::MAX,
            rows_valid(self@.lists, self@.lists.len()),
            data.has(self@.lists.len()),
            query@.len() == data.dim,
            u < self@.lists.len(),
            dist == data.score_to(query@)(u),
        ensures
            r == walked(*data, self@, query@, level, (u, dist)),
            r.0 < self@.lists.len(),
            r.1 == data.score_to(query@)(r.0),
    {
        let ghost nav = self@;
        let ghost n = nav.lists.len();
        let ghost whole = walked(*data, nav, query@, level, (u, dist));
        let mut at: u32 = u;
        let mut near: F32 = dist;
        let mut changed: bool = true;
        while changed
            invariant
                nav == self@,
                n == nav.lists.len(),
                n <= u32::MAX,
                rows_valid(nav.lists, n),
                data.has(n),
                query@.len() == data.dim,
                level >= 1,
                at < n,
                near == data.score_to(query@)(at),
                changed ==> whole == walked(*data, nav, query@, level, (at, near)),
                !changed ==> whole == (at, near),
            decreases
                    near.rank() + 0x8000_0000,
                    (if changed {
                        1int
                    } else {
                        0int
                    }),
        {
            let ghost before = (at, near);
            let edges = &self.upper_lists[at as usize];
            let ghost row = nav.lists[at as int];
            assert(row == edges@);
            assert(points::below(row, n));
            assert(0 <= (level - 1) * self.k <= 255 * usize::MAX) by (nonlinear_arith)
                requires
                    1 <= level <= 255,
                    self.k <= usize::MAX,
            ;
            let start128: u128 = (level as u128 - 1) * self.k as u128;
            changed = false;
            if start128 < edges.len() as u128 {
                let start: usize = start128 as usize;
                let end: usize = if edges.len() - start < self.k {
                    edges.len()
                } else {
                    start + self.k
                };
                let ghost part = layer_part(nav, at, level);
                assert(part =~= row.subrange(start as int, end as int));
                let mut j: usize = start;
                while j < end
                    invariant
                        nav == self@,
                        n == nav.lists.len(),
                        n <= u32::MAX,
                        data.has(n),
                        query@.len() == data.dim,
                        start <= j <= end <= edges@.len(),
                        row == edges@,
                        points::below(row, n),
                        part == row.subrange(start as int, end as int),
                        at < n,
                        near == data.score_to(query@)(at),
                        (at, near) == stepped(*data, query@, part, before, j - start),
                        changed == near.below(before.1),
                        !changed ==> (at, near) == before,
                    decreases end - j,
                {
                    let v: u32 = edges[j];
                    assert(part[j - start] == v);
                    assert(row[j as int] < n);
                    if v != at {
                        let d = data.kernel.distance(query, data.slice(v, Ghost(n)));
                        assert(d == data.score_to(query@)(v));
                        if d.lt(near) {
                            near = d;
                            at = v;
                            changed = true;
                        }
                    }
                    j += 1;
                }
            }
        }
        (at, near)
    }
}

/// The neighbours of a node in a layer.
pub open spec fn layer_part(nav: LayeredView, u: u32, level: u8) -> Seq<u32> {
    let row = nav.lists[u as int];
    let start = (level - 1) * nav.k;
    if start >= row.len() {
        Seq::empty()
    } else if start + nav.k <= row.len() {
        row.subrange(start, start + nav.k)
    } else {
        row.subrange(start, row.len() as int)
    }
}

/// The nearest of a node and the first `j` of a list, where each is compared with the nearest so
/// far.
pub open spec fn stepped<K: DistanceKernel>(
    data: Points<K>,
    query: Seq<F32>,
    part: Seq<u32>,
    from: (u32, F32),
    j: int,
) -> (u32, F32)
    decreases j,
{
    if j <= 0 {
        from
    } else {
        let best = stepped(data, query, part, from, j - 1);
        let v = part[j - 1];
        let d = data.score_to(query)(v);
        if v != best.0 && d.below(best.1) {
            (v, d)
        } else {
            best
        }
    }
}

/// Where the walk through one layer ends: it goes on as long as a neighbour is nearer.
pub open spec fn walked<K: DistanceKernel>(
    data: Points<K>,
    nav: LayeredView,
    query: Seq<F32>,
    level: u8,
    from: (u32, F32),
) -> (u32, F32)
    decreases from.1.rank() + 0x8000_0000,
{
    let part = layer_part(nav, from.0, level);
    let next = stepped(data, query, part, from, part.len() as int);
    if next.1.below(from.1) {
        walked(data, nav, query, level, next)
    } else {
        from
    }
}

/// Where the walk down from `level` ends.
pub open spec fn descend<K: DistanceKernel>(
    data: Points<K>,
    nav: LayeredView,
    query: Seq<F32>,
    from: (u32, F32),
    level: nat,
) -> (u32, F32)
    decreases level,
{
    if level == 0 {
        from
    } else {
        descend(
            data,
            nav,
            query,
            walked(data, nav, query, level as u8, from),
            (level - 1) as nat,
        )
    }
}

/// There is a vector wherever a walk down through the layers can come.
pub open spec fn descendable(nav: LayeredView, vectors: Seq<F32>, dim: int) -> bool {
    &&& search::has_vector(vectors, dim, nav.entry_point as int)
    &&& nav.entry_point <= usize::MAX
    &&& nav.max_level > 0 ==> {
        &&& nav.lists.len() <= u32::MAX
        &&& rows_valid(nav.lists, nav.lists.len())
        &&& nav.entry_point < nav.lists.len()
        &&& search::covers(vectors, dim, nav.lists.len())
    }
}

/// Whether a list holds ids of nodes only.
pub(crate) fn all_below(list: &[u32], n: usize) -> (b: bool)
    ensures
        b == points::below(list@, n as nat),
{
    let mut i: usize = 0;
    while i < list.len()
        invariant
            i <= list@.len(),
            forall|j: int| 0 <= j < i ==> (#[trigger] list@[j]) < n,
        decreases list@.len() - i,
    {
        if list[i] as usize >= n {
            assert(!(list@[i as int] < n));
            return false;
        }
        i += 1;
    }
    true
}

/// Whether there is a vector wherever a walk down through the layers can come.
pub fn is_descendable(nav: &LayeredNavigation, vectors: &[F32], dim: usize) -> (b: bool)
    requires
        dim > 0,
    ensures
        b == descendable(nav@, vectors@, dim as int),
{
    assert(vectors@.len() == vectors.len());
    let count: usize = vectors.len() / dim;
    let entry: usize = nav.entry_point as usize;
    let n: usize = nav.upper_lists.len();
    proof {
        lemma_covers_up_to(vectors@, dim as nat, nav.entry_point as nat + 1);
        lemma_covers_up_to(vectors@, dim as nat, n as nat);
        assert((nav.entry_point + 1) * dim == nav.entry_point * dim + dim) by (nonlinear_arith);
        assert(0 <= nav.entry_point * dim) by (nonlinear_arith);
    }
    if nav.entry_point as u64 >= count as u64 {
        return false;
    }
    if nav.max_level == 0 {
        return true;
    }
    if n > u32::MAX as usize || n > count || entry >= n {
        return false;
    }
    let mut i: usize = 0;
    while i < n
        invariant
            i <= n,
            nav.max_level != 0,
            n == nav.upper_lists@.len(),
            forall|j: int| 0 <= j < i ==> points::below(#[trigger] nav@.lists[j], n as nat),
        decreases n - i,
    {
        if !all_below(nav.upper_lists[i].as_slice(), n) {
            assert(!points::below(nav@.lists[i as int], n as nat));
            return false;
        }
        i += 1;
    }
    true
}

/// As many vectors are covered as the array is long.
pub proof fn lemma_covers_up_to(vectors: Seq<F32>, dim: nat, n: nat)
    requires
        dim > 0,
    ensures
        search::covers(vectors, dim as int, n) <==> n <= vectors.len() / dim,
{
    let q = vectors.len() / dim;
    vstd::arithmetic::div_mod::lemma_fundamental_div_mod(vectors.len() as int, dim as int);
    assert(vectors.len() as int / dim as int == q);
    let r = vectors.len() as int % dim as int;
    if n <= q {
        assert(n * dim <= vectors.len()) by (nonlinear_arith)
            requires
                n <= q,
                vectors.len() == dim * q + r,
                r >= 0,
        ;
    } else {
        assert(n * dim > vectors.len()) by (nonlinear_arith)
            requires
                n >= q + 1,
                vectors.len() == dim * q + r,
                r < dim,
        ;
    }
}

/// Where the walk down from the entry point ends.
pub open spec fn descent<K: DistanceKernel>(
    data: Points<K>,
    nav: LayeredView,
    query: Seq<F32>,
    level: nat,
) -> (u32, F32) {
    descend(
        data,
        nav,
        query,
        (nav.entry_point, data.score_to(query)(nav.entry_point)),
        level,
    )
}

fn max_of_levels(levels: &[u8]) -> (m: u8)
    ensures
        m == top_level(levels@),
{
    let mut m: u8 = 0;
    let mut i: usize = 0;
    while i < levels.len()
        invariant
            i <= levels@.len(),
            m == top_level(levels@.take(i as int)),
        decreases levels@.len() - i,
    {
        assert(levels@.take(i + 1).drop_last() =~= levels@.take(i as int));
        if levels[i] > m {
            m = levels[i];
        }
        i += 1;
    }
    assert(levels@.take(i as int) =~= levels@);
    m
}

fn layer_members(levels: &Vec<u8>, level: u8) -> (m: Vec<u32>)
    requires
        levels@.len() <= u32::MAX,
    ensures
        m@ == members(levels@, level),
{
    let mut m: Vec<u32> = Vec::new();
    let mut i: usize = 0;
    while i < levels.len()
        invariant
            i <= levels@.len(),
            levels@.len() <= u32::MAX,
            m@ == members_upto(levels@, level, i as int),
        decreases levels@.len() - i,
    {
        if levels[i] >= level {
            m.push(i as u32);
        }
        i += 1;
    }
    m
}

fn add_edge_back<K: DistanceKernel>(
    data: &Points<K>,
    adj: &mut Vec<Vec<u32>>,
    node: u32,
    new: u32,
    k: usize,
)
    requires
        rows_valid(rows_of(old(adj)@), old(adj)@.len()),
        data.has(old(adj)@.len()),
        node < old(adj)@.len(),
        new < old(adj)@.len(),
    ensures
        rows_of(final(adj)@) == add_back(*data, rows_of(old(adj)@), node, new, k),
        rows_valid(rows_of(final(adj)@), old(adj)@.len()),
{
    let ghost n = adj@.len();
    let ghost rows = rows_of(adj@);
    let at: usize = node as usize;
    assert(points::below(rows[at as int], n));
    if contains(adj[at].as_slice(), new) {
        return;
    }
    let ghost want = add_back(*data, rows, node, new, k);
    let ghost grown = rows[at as int].push(new);
    assert(points::below(grown, n));
    if adj[at].len() >= k {
        let mut all = slice_to_vec(adj[at].as_slice());
        all.push(new);
        assert(all@ == grown);
        let kept = data.prune(
            PruneStrategy::RobustPrune,
            node,
            all.as_slice(),
            F32(ONE_BITS),
            k,
            false,
            Ghost(n),
        );
        adj[at] = kept;
    } else {
        adj[at].push(new);
    }
    assert(rows_of(adj@) =~= want);
    assert forall|i: int| 0 <= i < n implies points::below(#[trigger] rows_of(adj@)[i], n) by {
        if i != at {
            assert(points::below(rows[i], n));
        }
    }
}

/// Gives a node its neighbours, and each of them the node back.
fn link<K: DistanceKernel>(
    data: &Points<K>,
    adj: &mut Vec<Vec<u32>>,
    node: u32,
    neighbors: Vec<u32>,
    k: usize,
)
    requires
        rows_valid(rows_of(old(adj)@), old(adj)@.len()),
        data.has(old(adj)@.len()),
        node < old(adj)@.len(),
        points::below(neighbors@, old(adj)@.len()),
    ensures
        rows_of(final(adj)@) == linked(*data, rows_of(old(adj)@), node, neighbors@, k),
        rows_valid(rows_of(final(adj)@), old(adj)@.len()),
        final(adj)@.len() == old(adj)@.len(),
{
    let ghost n = adj@.len();
    let ghost rows = rows_of(adj@);
    adj[node as usize] = slice_to_vec(neighbors.as_slice());
    let ghost first = rows.update(node as int, neighbors@);
    assert(rows_of(adj@) =~= first);
    assert forall|i: int| 0 <= i < n implies points::below(#[trigger] rows_of(adj@)[i], n) by {
        if i != node {
            assert(points::below(rows[i], n));
        }
    }
    let mut j: usize = 0;
    while j < neighbors.len()
        invariant
            j <= neighbors@.len(),
            n == adj@.len(),
            rows_valid(rows_of(adj@), n),
            data.has(n),
            node < n,
            points::below(neighbors@, n),
            rows_of(adj@) == add_back_all(*data, first, neighbors@, j as int, node, k),
        decreases neighbors@.len() - j,
    {
        assert(neighbors@[j as int] < n);
        add_edge_back(data, adj, neighbors[j], node, k);
        assert(rows_of(adj@).len() == n);
        j += 1;
    }
}

/// All nodes of a list but the one at a place.
fn all_but(nodes: &[u32], i: usize) -> (rest: Vec<u32>)
    requires
        i < nodes@.len(),
    ensures
        rest@ == nodes@.remove(i as int),
{
    let mut rest: Vec<u32> = Vec::with_capacity(nodes.len());
    let mut j: usize = 0;
    while j < nodes.len()
        invariant
            j <= nodes@.len(),
            i < nodes@.len(),
            rest@ == (if j <= i {
                nodes@.take(j as int)
            } else {
                nodes@.take(j as int).remove(i as int)
            }),
        decreases nodes@.len() - j,
    {
        if j != i {
            rest.push(nodes[j]);
        }
        j += 1;
        assert(rest@ =~= (if j <= i {
            nodes@.take(j as int)
        } else {
            nodes@.take(j as int).remove(i as int)
        }));
    }
    assert(nodes@.take(j as int) =~= nodes@);
    rest
}

fn build_level_brute_force<K: DistanceKernel>(
    data: &Points<K>,
    nodes: &[u32],
    adj: &mut Vec<Vec<u32>>,
    k: usize,
)
    requires
        rows_valid(rows_of(old(adj)@), old(adj)@.len()),
        data.has(old(adj)@.len()),
        points::below(nodes@, old(adj)@.len()),
    ensures
        rows_of(final(adj)@) == from_all_pairs(
            *data,
            rows_of(old(adj)@),
            nodes@,
            nodes@.len() as int,
            k,
        ),
        rows_valid(rows_of(final(adj)@), old(adj)@.len()),
        final(adj)@.len() == old(adj)@.len(),
{
    let ghost n = adj@.len();
    let ghost first = rows_of(adj@);
    let mut i: usize = 0;
    while i < nodes.len()
        invariant
            i <= nodes@.len(),
            n == adj@.len(),
            rows_valid(rows_of(adj@), n),
            data.has(n),
            points::below(nodes@, n),
            rows_of(adj@) == from_all_pairs(*data, first, nodes@, i as int, k),
        decreases nodes@.len() - i,
    {
        let u: u32 = nodes[i];
        assert(nodes@[i as int] < n);
        let rest = all_but(nodes, i);
        assert(points::below(rest@, n)) by {
            assert forall|j: int| 0 <= j < rest@.len() implies (#[trigger] rest@[j]) < n by {
                let m = if j < i {
                    j
                } else {
                    j + 1
                };
                assert(rest@[j] == nodes@[m]);
            }
        }
        let kept = data.prune(
            PruneStrategy::RobustPrune,
            u,
            rest.as_slice(),
            F32(ONE_BITS),
            k,
            false,
            Ghost(n),
        );
        link(data, adj, u, kept, k);
        i += 1;
    }
}

fn build_level_graph_guided<K: DistanceKernel>(
    data: &Points<K>,
    nodes: &[u32],
    adj: &mut Vec<Vec<u32>>,
    k: usize,
)
    requires
        rows_valid(rows_of(old(adj)@), old(adj)@.len()),
        data.has(old(adj)@.len()),
        points::below(nodes@, old(adj)@.len()),
        nodes@.len() > BRUTE_FORCE_THRESHOLD,
        1 <= k,
        12 * k <= usize::MAX,
    ensures
        rows_of(final(adj)@) == from_searches(
            *data,
            rows_of(old(adj)@),
            nodes@,
            nodes@.len() as int,
            k,
        ),
        rows_valid(rows_of(final(adj)@), old(adj)@.len()),
        final(adj)@.len() == old(adj)@.len(),
{
    let ghost n = adj@.len();
    let ghost first = rows_of(adj@);
    let seeds = &nodes[0..BRUTE_FORCE_THRESHOLD];
    assert(seeds@ =~= nodes@.take(BRUTE_FORCE_THRESHOLD as int));
    assert(points::below(seeds@, n)) by {
        assert forall|j: int| 0 <= j < seeds@.len() implies (#[trigger] seeds@[j]) < n by {
            assert(seeds@[j] == nodes@[j]);
        }
    }
    build_level_brute_force(data, seeds, adj, k);
    let ef: usize = k * 4;
    let mut visited = VisitedTracker::new(adj.len(), ef);
    let entry: u32 = nodes[0];
    let mut i: usize = BRUTE_FORCE_THRESHOLD;
    while i < nodes.len()
        invariant
            BRUTE_FORCE_THRESHOLD <= i <= nodes@.len(),
            n == adj@.len(),
            rows_valid(rows_of(adj@), n),
            data.has(n),
            points::below(nodes@, n),
            visited.wf(),
            visited@.n == n,
            1 <= k,
            ef == 4 * k,
            ef < usize::MAX,
            entry == nodes@[0],
            rows_of(adj@) == from_searches(*data, first, nodes@, i as int, k),
        decreases nodes@.len() - i,
    {
        let u: u32 = nodes[i];
        assert(nodes@[i as int] < n);
        assert(nodes@[0] < n);
        let query = data.slice(u, Ghost(n));
        let found = LayeredNavigation::search_upper_layer(
            data.kernel,
            data.vectors,
            data.dim,
            adj.as_slice(),
            entry,
            query,
            ef,
            &mut visited,
        );
        let ids = take_ids(&found);
        let kept = data.prune(
            PruneStrategy::RobustPrune,
            u,
            ids.as_slice(),
            F32(ONE_BITS),
            k,
            false,
            Ghost(n),
        );
        assert(*data == Points { kernel: data.kernel, vectors: data.vectors, dim: data.dim });
        link(data, adj, u, kept, k);
        i += 1;
    }
}

/// The ids of entries.
pub(crate) fn take_ids(entries: &Vec<(u32, F32)>) -> (ids: Vec<u32>)
    ensures
        ids@ == ids_of(entries@),
{
    let mut ids: Vec<u32> = Vec::with_capacity(entries.len());
    let mut i: usize = 0;
    while i < entries.len()
        invariant
            i <= entries@.len(),
            ids@ == ids_of(entries@).take(i as int),
        decreases entries@.len() - i,
    {
        ids.push(entries[i].0);
        i += 1;
        assert(ids@ =~= ids_of(entries@).take(i as int));
    }
    assert(ids@ =~= ids_of(entries@));
    ids
}

/// The edges of all layers.
fn build_upper_layers<K: DistanceKernel>(
    data: &Points<K>,
    levels: &Vec<u8>,
    max_level: u8,
    k: usize,
) -> (lists: Vec<Vec<u32>>)
    requires
        data.has(levels@.len()),
        1 <= k,
        12 * k <= usize::MAX,
    ensures
        rows_of(lists@) == upper_lists_upto(*data, levels@, max_level as nat, k),
        rows_valid(rows_of(lists@), levels@.len()),
{
    let n: usize = levels.len();
    let mut lists: Vec<Vec<u32>> = vec![Vec::new();n];
    proof {
        assert forall|i: int| 0 <= i < n implies (#[trigger] lists@[i])@ == Seq::<u32>::empty() by {
            assert(lists@[i]@ =~= Seq::<u32>::empty());
        }
        assert(rows_of(lists@) =~= upper_lists_upto(*data, levels@, 0, k));
    }
    let mut level: u8 = 0;
    while level < max_level
        invariant
            level <= max_level,
            n == levels@.len(),
            data.has(n as nat),
            1 <= k,
            12 * k <= usize::MAX,
            lists@.len() == n,
            rows_of(lists@) == upper_lists_upto(*data, levels@, level as nat, k),
            rows_valid(rows_of(lists@), n as nat),
        decreases max_level - level,
    {
        level += 1;
        let nodes = layer_members(levels, level);
        let ghost before = rows_of(lists@);
        if nodes.len() > 1 {
            proof {
                lemma_members(levels@, level, n as int);
            }
            let mut adj: Vec<Vec<u32>> = vec![Vec::new();n];
            let ghost start = Seq::new(n as nat, |i: int| Seq::<u32>::empty());
            proof {
                assert forall|i: int| 0 <= i < n implies (#[trigger] adj@[i])@ == Seq::<
                    u32,
                >::empty() by {
                    assert(adj@[i]@ =~= Seq::<u32>::empty());
                }
                assert(rows_of(adj@) =~= start);
            }
            if nodes.len() <= BRUTE_FORCE_THRESHOLD {
                build_level_brute_force(data, nodes.as_slice(), &mut adj, k);
            } else {
                build_level_graph_guided(data, nodes.as_slice(), &mut adj, k);
            }
            let ghost graph = layer_graph(*data, n as nat, nodes@, k);
            assert(rows_of(adj@) == graph);
            append_layer(levels, level, k, &adj, &mut lists);
            proof {
                assert(rows_of(lists@) =~= upper_lists_upto(*data, levels@, level as nat, k));
            }
        }
    }
    lists
}

/// Appends the edges of one layer to the lists of its nodes.
fn append_layer(
    levels: &Vec<u8>,
    level: u8,
    k: usize,
    adj: &Vec<Vec<u32>>,
    lists: &mut Vec<Vec<u32>>,
)
    requires
        levels@.len() == adj@.len(),
        levels@.len() == old(lists)@.len(),
        levels@.len() <= u32::MAX,
        rows_valid(rows_of(adj@), levels@.len()),
        rows_valid(rows_of(old(lists)@), levels@.len()),
    ensures
        final(lists)@.len() == old(lists)@.len(),
        rows_valid(rows_of(final(lists)@), levels@.len()),
        forall|i: int|
            0 <= i < levels@.len() ==> (#[trigger] rows_of(final(lists)@)[i]) == (if levels@[i]
                >= level {
                rows_of(old(lists)@)[i] + padded(rows_of(adj@)[i], k, i as u32)
            } else {
                rows_of(old(lists)@)[i]
            }),
{
    let ghost before = rows_of(lists@);
    let n: usize = levels.len();
    let mut i: usize = 0;
    while i < n
        invariant
            i <= n,
            n == levels@.len(),
            n == adj@.len(),
            n == lists@.len(),
            n <= u32::MAX,
            before.len() == n,
            rows_valid(rows_of(adj@), n as nat),
            rows_valid(before, n as nat),
            rows_valid(rows_of(lists@), n as nat),
            forall|m: int|
                0 <= m < n ==> (#[trigger] rows_of(lists@)[m]) == (if m < i && levels@[m] >= level {
                    before[m] + padded(rows_of(adj@)[m], k, m as u32)
                } else {
                    before[m]
                }),
        decreases n - i,
    {
        if levels[i] >= level {
            let ghost old_rows = rows_of(lists@);
            let mut row = slice_to_vec(lists[i].as_slice());
            assert(row@ == before[i as int]) by {
                assert(old_rows[i as int] == lists@[i as int]@);
            }
            row.extend_from_slice(adj[i].as_slice());
            let ghost edges = rows_of(adj@)[i as int];
            assert(row@ =~= before[i as int] + edges);
            let mut filled: usize = adj[i].len();
            while filled < k
                invariant
                    edges.len() <= filled,
                    filled <= k || filled == edges.len(),
                    row@ == before[i as int] + edges + Seq::new(
                        (filled - edges.len()) as nat,
                        |m: int| i as u32,
                    ),
                decreases k - filled,
            {
                row.push(i as u32);
                filled += 1;
                assert(row@ =~= before[i as int] + edges + Seq::new(
                    (filled - edges.len()) as nat,
                    |m: int| i as u32,
                ));
            }
            assert(row@ =~= before[i as int] + padded(edges, k, i as u32));
            proof {
                assert(points::below(rows_of(adj@)[i as int], n as nat));
                assert(points::below(before[i as int], n as nat));
                assert(points::below(row@, n as nat)) by {
                    assert forall|m: int| 0 <= m < row@.len() implies (#[trigger] row@[m]) < n by {
                        let b = before[i as int].len();
                        if m < b {
                            assert(row@[m] == before[i as int][m]);
                        } else if m < b + edges.len() {
                            assert(row@[m] == edges[m - b]);
                        }
                    }
                }
            }
            lists[i] = row;
            proof {
                assert forall|m: int| 0 <= m < n implies points::below(
                    #[trigger] rows_of(lists@)[m],
                    n as nat,
                ) by {
                    if m != i {
                        assert(rows_of(lists@)[m] == old_rows[m]);
                    }
                }
                assert forall|m: int| 0 <= m < n implies (#[trigger] rows_of(lists@)[m]) == (if m
                    < i + 1 && levels@[m] >= level {
                    before[m] + padded(rows_of(adj@)[m], k, m as u32)
                } else {
                    before[m]
                }) by {
                    if m != i {
                        assert(rows_of(lists@)[m] == old_rows[m]);
                    }
                }
            }
        }
        i += 1;
    }
}

/// The places to start from.
fn select_entry_candidates<K: DistanceKernel>(
    data: &Points<K>,
    levels: &Vec<u8>,
    max_level: u8,
    entry_point: u32,
) -> (chosen: Vec<u32>)
    requires
        data.has(levels@.len()),
        entry_point < levels@.len(),
    ensures
        chosen@ == entry_candidates_of(*data, levels@, max_level, entry_point),
{
    let ghost n = levels@.len();
    let nodes = layer_members(levels, max_level);
    proof {
        lemma_members(levels@, max_level, n as int);
    }
    if nodes.len() <= MAX_ENTRY_CANDIDATES {
        return nodes;
    }
    let mut chosen: Vec<u32> = Vec::new();
    chosen.push(entry_point);
    assert(chosen@ =~= seq![entry_point]);
    let mut dists = spread(data, entry_point, &nodes, Ghost(n));
    let ghost whole = entry_candidates_of(*data, levels@, max_level, entry_point);
    while chosen.len() < MAX_ENTRY_CANDIDATES
        invariant
            1 <= chosen@.len() <= MAX_ENTRY_CANDIDATES,
            nodes@.len() > MAX_ENTRY_CANDIDATES,
            data.has(n),
            points::below(nodes@, n),
            dists@.len() == nodes@.len(),
            whole == spread_out(
                *data,
                nodes@,
                chosen@,
                dists@,
                (MAX_ENTRY_CANDIDATES - chosen@.len()) as nat,
            ),
        decreases MAX_ENTRY_CANDIDATES - chosen@.len(),
    {
        let at: usize = find_farthest(&dists);
        let next: u32 = nodes[at];
        assert(nodes@[at as int] < n);
        chosen.push(next);
        let others = spread(data, next, &nodes, Ghost(n));
        let ghost before = dists@;
        let mut i: usize = 0;
        while i < dists.len()
            invariant
                i <= dists@.len(),
                dists@.len() == before.len(),
                dists@.len() == others@.len(),
                forall|m: int|
                    0 <= m < dists@.len() ==> #[trigger] dists@[m] == (if m < i {
                        place_wise_min(before, others@)[m]
                    } else {
                        before[m]
                    }),
            decreases dists@.len() - i,
        {
            if others[i].lt(dists[i]) {
                dists[i] = others[i];
            }
            i += 1;
        }
        assert(dists@ =~= place_wise_min(before, others@));
    }
    chosen
}

fn spread<K: DistanceKernel>(
    data: &Points<K>,
    from: u32,
    nodes: &Vec<u32>,
    Ghost(n): Ghost<nat>,
) -> (dists: Vec<F32>)
    requires
        data.has(n),
        from < n,
        points::below(nodes@, n),
    ensures
        dists@ == spread_from(*data, from, nodes@),
{
    let center = data.slice(from, Ghost(n));
    let mut dists: Vec<F32> = Vec::with_capacity(nodes.len());
    let mut i: usize = 0;
    while i < nodes.len()
        invariant
            i <= nodes@.len(),
            data.has(n),
            points::below(nodes@, n),
            center@ == data.vector(from as int),
            center@.len() == data.dim,
            dists@ == spread_from(*data, from, nodes@).take(i as int),
        decreases nodes@.len() - i,
    {
        assert(nodes@[i as int] < n);
        dists.push(data.kernel.distance(center, data.slice(nodes[i], Ghost(n))));
        i += 1;
        assert(dists@ =~= spread_from(*data, from, nodes@).take(i as int));
    }
    assert(dists@ =~= spread_from(*data, from, nodes@));
    dists
}

fn find_farthest(dists: &Vec<F32>) -> (at: usize)
    requires
        dists@.len() > 0,
    ensures
        at < dists@.len(),
        at == farthest(dists@, dists@.len() as int),
{
    let mut at: usize = 0;
    let mut i: usize = 1;
    while i < dists.len()
        invariant
            1 <= i <= dists@.len(),
            at < i,
            at == farthest(dists@, i as int),
        decreases dists@.len() - i,
    {
        if !dists[at].gt(dists[i]) {
            at = i;
        }
        i += 1;
    }
    at
}

} // verus!
