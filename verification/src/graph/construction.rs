//! The steps of a build: a random graph to start from, rounds in which every node gets better
//! neighbours, and a last pruning down to the degree limit.
use vstd::prelude::*;
use vstd::slice::slice_to_vec;
use crate::build::rng;
use crate::build::rng::{ChaCha8Rng, Draw, RngView};
use crate::distance::DistanceKernel;
use crate::distance::single::{F32, ONE_BITS, ONE_POINT_TWO_BITS};
use crate::graph::centroid;
use crate::graph::centroid::list_ids;
use crate::graph::layered;
use crate::graph::linear_pool::LinearPool;
use crate::graph::points;
use crate::graph::points::Points;
use crate::graph::quant_aware_prune;
use crate::graph::quant_aware_prune::{
    ErrorFn, Exponentials, QuantAwarePruneConfig, QuantAwareRobustPrune,
};
use crate::graph::robust_prune::PruneStrategy;
use crate::graph::search;
use crate::graph::search::{run_search, SearchSpace, VectorScore};
use crate::memory::{HybridBlockedCsr, VisitedTracker};
use crate::memory::graph::{contains, CsrView};
use crate::memory::visited;
use crate::SENTINEL;

verus! {

/// How many nodes are planned on the same state of the graph before the plans are carried out.
pub const BUILD_BATCH_SIZE: usize = 10_000;

/// The settings of a build.
#[derive(Debug, Clone, Copy)]
pub struct VamanaBuildConfig {
    /// The occlusion threshold of all rounds but the first, which has one.
    pub alpha: F32,
    /// The width of the searches.
    pub l_build: usize,
    /// The degree limit.
    pub r_max: usize,
    /// The degree above which a node is pruned during the build.
    pub r_soft: usize,
    /// The number of rounds.
    pub max_iterations: usize,
    /// Whether prunings with a threshold above one fill up.
    pub saturate: bool,
    /// Whether there are layers above the graph.
    pub enable_layered_nav: bool,
    /// How much thinner each layer is than the one below.
    pub nav_m: usize,
    /// Which pruning is used.
    pub prune_strategy: PruneStrategy,
}

impl VamanaBuildConfig {
    /// The usual settings: 1.3 times the degree limit before a node is pruned, two rounds.
    pub open spec fn usual() -> VamanaBuildConfig {
        VamanaBuildConfig {
            alpha: F32(ONE_POINT_TWO_BITS),
            l_build: 200,
            r_max: 64,
            r_soft: 83,
            max_iterations: 2,
            saturate: true,
            enable_layered_nav: true,
            nav_m: 16,
            prune_strategy: PruneStrategy::RobustPrune,
        }
    }

    /// The settings are ones that a build of `n` nodes can run with.
    pub open spec fn usable(self, n: nat) -> bool {
        &&& !self.alpha.nan()
        &&& self.l_build >= 1
        &&& 3 * self.l_build <= usize::MAX
        &&& self.r_max <= u16::MAX
        &&& n * self.r_max <= usize::MAX
        &&& n <= SENTINEL
    }
}

impl Default for VamanaBuildConfig {
    fn default() -> (c: Self)
        ensures
            c == VamanaBuildConfig::usual(),
    {
        VamanaBuildConfig {
            alpha: F32(ONE_POINT_TWO_BITS),
            l_build: 200,
            r_max: 64,
            r_soft: 83,
            max_iterations: 2,
            saturate: true,
            enable_layered_nav: true,
            nav_m: 16,
            prune_strategy: PruneStrategy::RobustPrune,
        }
    }
}

/// Every node's neighbours are nodes, none twice, never the node itself, and the overflow list is
/// used only where the block is full.
pub open spec fn proper(view: CsrView, n: nat) -> bool {
    &&& view.lists.len() == n
    &&& view.overflow.len() == n
    &&& forall|i: int| 0 <= i < n ==> #[trigger] proper_list(view, i, n)
}

/// The same of one node.
pub open spec fn proper_list(view: CsrView, i: int, n: nat) -> bool {
    &&& points::below(view.all(i), n)
    &&& view.all(i).no_duplicates()
    &&& !view.all(i).contains(i as u32)
    &&& view.lists[i].len() <= view.r_max
    &&& view.overflow[i].len() > 0 ==> view.lists[i].len() == view.r_max
}

/// A list of distinct nodes other than the node itself.
pub open spec fn proper_neighbors(list: Seq<u32>, node: u32, n: nat) -> bool {
    &&& points::below(list, n)
    &&& list.no_duplicates()
    &&& !list.contains(node)
}

/// Distinct neighbours other than the node are fewer than the nodes.
pub proof fn lemma_proper_degree(view: CsrView, i: int, n: nat)
    requires
        proper(view, n),
        0 <= i < n,
        n <= SENTINEL,
    ensures
        view.all(i).len() < n,
{
    assert(proper_list(view, i, n));
    let s = view.all(i).push(i as u32);
    assert(s.no_duplicates()) by {
        assert forall|a: int, b: int| 0 <= a < s.len() && 0 <= b < s.len() && a != b implies s[a]
            != s[b] by {
            if a == s.len() - 1 {
                assert(view.all(i).contains(view.all(i)[b]));
            } else if b == s.len() - 1 {
                assert(view.all(i).contains(view.all(i)[a]));
            }
        }
    }
    assert forall|v: u32| #[trigger] s.contains(v) implies v < n by {
        let a = choose|a: int| 0 <= a < s.len() && s[a] == v;
        if a < view.all(i).len() {
            assert(view.all(i)[a] < n);
        }
    }
    visited::lemma_distinct_below(s, n);
}

/// To replace a node's neighbours by proper ones keeps the graph proper.
pub proof fn lemma_set_proper(view: CsrView, node: int, list: Seq<u32>, n: nat)
    requires
        proper(view, n),
        0 <= node < n,
        proper_neighbors(list, node as u32, n),
        n <= SENTINEL,
    ensures
        proper(view.set_neighbors(node, list), n),
        view.set_neighbors(node, list).all(node) == list,
        forall|i: int|
            0 <= i < n && i != node ==> view.set_neighbors(node, list).all(i) == #[trigger] view.all(
                i,
            ),
{
    let after = view.set_neighbors(node, list);
    assert(after.all(node) =~= list);
    assert forall|i: int| 0 <= i < n implies #[trigger] proper_list(after, i, n) by {
        assert(proper_list(view, i, n));
        if i != node {
            assert(after.all(i) == view.all(i));
        }
    }
}

/// To add an edge to another node keeps the graph proper.
pub proof fn lemma_add_proper(view: CsrView, from: int, to: u32, n: nat)
    requires
        proper(view, n),
        0 <= from < n,
        to < n,
        to != from,
        n <= SENTINEL,
    ensures
        proper(view.add_edge(from, to), n),
{
    let after = view.add_edge(from, to);
    let before_all = view.all(from);
    assert(proper_list(view, from, n));
    assert forall|i: int| 0 <= i < n implies #[trigger] proper_list(after, i, n) by {
        assert(proper_list(view, i, n));
        if i != from {
            assert(after.all(i) == view.all(i));
        } else if after.lists[from] != view.lists[from] || after.overflow[from]
            != view.overflow[from] {
            assert(!view.lists[from].contains(to));
            let all = after.all(from);
            assert(!before_all.contains(to)) by {
                if before_all.contains(to) {
                    let a = choose|a: int| 0 <= a < before_all.len() && before_all[a] == to;
                    if a < view.lists[from].len() {
                        assert(view.lists[from][a] == to);
                    } else {
                        assert(view.overflow[from][a - view.lists[from].len()] == to);
                        assert(view.overflow[from].contains(to));
                    }
                }
            }
            assert(all =~= before_all.push(to)) by {
                if view.lists[from].len() < view.r_max {
                    assert(view.overflow[from] =~= Seq::<u32>::empty());
                }
            }
            assert forall|a: int, b: int|
                0 <= a < all.len() && 0 <= b < all.len() && a != b implies all[a] != all[b] by {
                if a == before_all.len() {
                    assert(before_all.contains(before_all[b]));
                } else if b == before_all.len() {
                    assert(before_all.contains(before_all[a]));
                }
            }
            assert forall|a: int| 0 <= a < all.len() implies (#[trigger] all[a]) < n by {
                if a < before_all.len() {
                    assert(all[a] == before_all[a]);
                }
            }
            assert(!all.contains(from as u32)) by {
                if all.contains(from as u32) {
                    let a = choose|a: int| 0 <= a < all.len() && all[a] == from as u32;
                    if a < before_all.len() {
                        assert(before_all.contains(before_all[a]));
                    }
                }
            }
        }
    }
}

/// Random neighbours of a node: numbers below `n` are drawn until there are `count` distinct ones
/// other than the node, or `fuel` were drawn. Returns them and the generator after that.
pub open spec fn random_neighbors(
    rng: RngView,
    node: u32,
    n: u32,
    count: nat,
    got: Seq<u32>,
    fuel: nat,
) -> (Seq<u32>, RngView)
    decreases fuel,
{
    if got.len() >= count || fuel == 0 {
        (got, rng)
    } else {
        let j = rng::chacha8_below(rng.seed, rng.draws, n);
        let next = rng.after(Draw::Below { bound: n });
        let more = if j == node || got.contains(j) {
            got
        } else {
            got.push(j)
        };
        random_neighbors(next, node, n, count, more, (fuel - 1) as nat)
    }
}

/// The graph after the edges between a node and the first `j` of a list were added, both ways.
pub open spec fn joined(view: CsrView, node: u32, list: Seq<u32>, j: int) -> CsrView
    decreases j,
{
    if j <= 0 {
        view
    } else {
        joined(view, node, list, j - 1).add_edge(node as int, list[j - 1]).add_edge(
            list[j - 1] as int,
            node,
        )
    }
}

/// The graph after the first `i` nodes were joined with random ones, and the generator.
pub open spec fn randomized(
    view: CsrView,
    rng: RngView,
    n: u32,
    count: nat,
    i: int,
) -> (CsrView, RngView)
    decreases i,
{
    if i <= 0 {
        (view, rng)
    } else {
        let before = randomized(view, rng, n, count, i - 1);
        let drawn = random_neighbors(
            before.1,
            (i - 1) as u32,
            n,
            count,
            Seq::empty(),
            u64::MAX as nat,
        );
        (joined(before.0, (i - 1) as u32, drawn.0, drawn.0.len() as int), drawn.1)
    }
}

/// How many random neighbours each node gets.
pub open spec fn random_degree(n: nat, r_max: nat) -> nat {
    if r_max < n {
        r_max
    } else if n == 0 {
        0
    } else {
        (n - 1) as nat
    }
}

/// The random graph that a build starts from, and the generator after it. One number is drawn
/// before the first neighbour.
pub open spec fn random_graph(rng: RngView, n: nat, r_max: nat) -> (CsrView, RngView) {
    let empty = CsrView::empty(n, r_max);
    if n == 0 {
        (empty, rng)
    } else {
        randomized(
            empty,
            rng.after(Draw::Below { bound: n as u32 }),
            n as u32,
            random_degree(n, r_max),
            n as int,
        )
    }
}

/// What the search for a node's neighbours looks at.
pub open spec fn build_space<K: DistanceKernel>(
    data: Points<K>,
    rows: Seq<Seq<u32>>,
    node: u32,
) -> SearchSpace {
    layered::layer_space(data, rows, data.vector(node as int))
}

/// How the neighbours of a node are chosen among the nodes that a search for it has visited.
pub trait NeighborChoice {
    /// How many nodes there are to choose from: none, unless an implementation says otherwise.
    open spec fn nodes(&self) -> nat {
        0
    }

    /// Every node can be chosen for.
    open spec fn ready(&self) -> bool {
        true
    }

    /// The neighbours of a node: none, unless an implementation says otherwise.
    open spec fn chosen(&self, node: u32, seen: Seq<u32>, alpha: F32) -> Seq<u32> {
        Seq::empty()
    }

    /// The neighbours of a node.
    fn choose_neighbors(&self, node: u32, seen: &[u32], alpha: F32) -> (list: Vec<u32>)
        requires
            self.ready(),
            node < self.nodes(),
            points::below(seen@, self.nodes()),
            seen@.no_duplicates(),
            !alpha.nan(),
        ensures
            list@ == self.chosen(node, seen@, alpha),
            proper_neighbors(list@, node, self.nodes()),
    ;
}

/// The neighbours that the configured pruning keeps.
pub struct StrategyChoice<'a, K: DistanceKernel> {
    /// The vectors.
    pub data: &'a Points<'a, K>,
    /// The number of nodes.
    pub n: usize,
    /// The settings.
    pub config: &'a VamanaBuildConfig,
}

impl<'a, K: DistanceKernel> NeighborChoice for StrategyChoice<'a, K> {
    open spec fn nodes(&self) -> nat {
        self.n as nat
    }

    open spec fn ready(&self) -> bool {
        self.data.has(self.n as nat)
    }

    open spec fn chosen(&self, node: u32, seen: Seq<u32>, alpha: F32) -> Seq<u32> {
        self.data.pruned(
            self.config.prune_strategy,
            node,
            seen,
            alpha,
            self.config.r_max,
            self.config.saturate && F32(ONE_BITS).below(alpha),
        )
    }

    fn choose_neighbors(&self, node: u32, seen: &[u32], alpha: F32) -> (list: Vec<u32>) {
        self.data.prune(
            self.config.prune_strategy,
            node,
            seen,
            alpha,
            self.config.r_max,
            self.config.saturate && alpha.gt(F32(ONE_BITS)),
            Ghost(self.n as nat),
        )
    }
}

/// The neighbours that the pruning which weighs quantization errors keeps. Its threshold is that of
/// the round.
pub struct QuantChoice<
    'a,
    K: DistanceKernel,
    E: ErrorFn,
    X: Fn(F32) -> F32,
    L: Fn(F32) -> F32,
> {
    /// The vectors.
    pub data: &'a Points<'a, K>,
    /// The number of nodes.
    pub n: usize,
    /// The errors.
    pub errors: &'a E,
    /// The functions that a scale can need.
    pub exponentials: &'a Exponentials<X, L>,
    /// The settings of the pruning.
    pub config: &'a QuantAwarePruneConfig,
}

impl<
    'a,
    K: DistanceKernel,
    E: ErrorFn,
    X: Fn(F32) -> F32,
    L: Fn(F32) -> F32,
> NeighborChoice for QuantChoice<'a, K, E, X, L> {
    open spec fn nodes(&self) -> nat {
        self.n as nat
    }

    open spec fn ready(&self) -> bool {
        &&& self.data.has(self.n as nat)
        &&& self.exponentials.usable()
        &&& forall|u: u32, v: u32| u < self.n && v < self.n ==> #[trigger] self.errors.known(u, v)
    }

    open spec fn chosen(&self, node: u32, seen: Seq<u32>, alpha: F32) -> Seq<u32> {
        let space = quant_aware_prune::quant_space(
            self.data.kernel,
            self.data.vectors@,
            self.data.dim as int,
            node,
            self.errors,
        );
        let list = quant_aware_prune::others(seen, node);
        space.kept(
            list,
            self.exponentials.scale_of(
                quant_aware_prune::measures(list, space.dist),
                self.config.normalization,
            ),
            self.exponentials.scale_of(
                quant_aware_prune::measures(list, space.error),
                self.config.normalization,
            ),
            QuantAwarePruneConfig { alpha, ..*self.config },
        )
    }

    fn choose_neighbors(&self, node: u32, seen: &[u32], alpha: F32) -> (list: Vec<u32>) {
        let config = QuantAwarePruneConfig {
            alpha,
            beta: self.config.beta,
            epsilon: self.config.epsilon,
            r_max: self.config.r_max,
            normalization: self.config.normalization,
        };
        proof {
            search::lemma_covered(
                self.data.vectors@,
                self.data.dim as nat,
                self.n as nat,
                node as int,
            );
            assert forall|i: int| 0 <= i < seen@.len() implies search::has_vector(
                self.data.vectors@,
                self.data.dim as int,
                (#[trigger] seen@[i]) as int,
            ) && seen@[i] <= usize::MAX && self.errors.known(node, seen@[i]) by {
                search::lemma_covered(
                    self.data.vectors@,
                    self.data.dim as nat,
                    self.n as nat,
                    seen@[i] as int,
                );
            }
            let space = quant_aware_prune::quant_space(
                self.data.kernel,
                self.data.vectors@,
                self.data.dim as int,
                node,
                self.errors,
            );
            let rest = quant_aware_prune::others(seen@, node);
            let mu_dist = self.exponentials.scale_of(
                quant_aware_prune::measures(rest, space.dist),
                config.normalization,
            );
            let mu_error = self.exponentials.scale_of(
                quant_aware_prune::measures(rest, space.error),
                config.normalization,
            );
            quant_aware_prune::law_quant_prune_keeps_candidates(
                space,
                seen@,
                node,
                mu_dist,
                mu_error,
                config,
            );
            quant_aware_prune::lemma_others_distinct(seen@, node);
            let kept = space.kept(rest, mu_dist, mu_error, config);
            assert forall|i: int| 0 <= i < kept.len() implies (#[trigger] kept[i]) < self.n by {
                let j = choose|j: int| 0 <= j < seen@.len() && seen@[j] == kept[i];
                assert(seen@[j] < self.n);
            }
        }
        QuantAwareRobustPrune::prune(
            self.data.kernel,
            seen,
            node,
            self.data.vectors,
            self.data.dim,
            self.errors,
            self.exponentials,
            &config,
        )
    }
}

/// The new neighbours of a node, chosen among all nodes that a search for it visits.
pub open spec fn planned<K: DistanceKernel, C: NeighborChoice>(
    data: Points<K>,
    choice: C,
    rows: Seq<Seq<u32>>,
    entry: u32,
    node: u32,
    l_build: nat,
    alpha: F32,
) -> Seq<u32> {
    choice.chosen(node, search::seen(build_space(data, rows, node), l_build, entry), alpha)
}

/// The graph after the back edge from `nb` to `node` was added; a node that then has more than
/// `r_soft` neighbours is pruned.
pub open spec fn back_linked<K: DistanceKernel>(
    data: Points<K>,
    view: CsrView,
    nb: u32,
    node: u32,
    config: VamanaBuildConfig,
    alpha: F32,
) -> CsrView {
    let added = view.add_edge(nb as int, node);
    if added.all(nb as int).len() > config.r_soft {
        added.set_neighbors(
            nb as int,
            data.pruned(
                config.prune_strategy,
                nb,
                added.all(nb as int),
                alpha,
                config.r_max,
                config.saturate && F32(ONE_BITS).below(alpha),
            ),
        )
    } else {
        added
    }
}

/// The graph after the back edges from the first `j` of a list were added.
pub open spec fn back_linked_all<K: DistanceKernel>(
    data: Points<K>,
    view: CsrView,
    list: Seq<u32>,
    j: int,
    node: u32,
    config: VamanaBuildConfig,
    alpha: F32,
) -> CsrView
    decreases j,
{
    if j <= 0 {
        view
    } else {
        back_linked(
            data,
            back_linked_all(data, view, list, j - 1, node, config, alpha),
            list[j - 1],
            node,
            config,
            alpha,
        )
    }
}

/// The graph after a node got new neighbours and each of them an edge back.
pub open spec fn connected<K: DistanceKernel>(
    data: Points<K>,
    view: CsrView,
    node: u32,
    list: Seq<u32>,
    config: VamanaBuildConfig,
    alpha: F32,
) -> CsrView {
    back_linked_all(
        data,
        view.set_neighbors(node as int, list),
        list,
        list.len() as int,
        node,
        config,
        alpha,
    )
}

/// The graph after the first `j` plans of a batch were carried out. All plans of the batch are
/// made on the graph as it was before.
pub open spec fn carried_out<K: DistanceKernel, C: NeighborChoice>(
    data: Points<K>,
    choice: C,
    view: CsrView,
    entry: u32,
    batch: Seq<u32>,
    j: int,
    config: VamanaBuildConfig,
    alpha: F32,
) -> CsrView
    decreases j,
{
    if j <= 0 {
        view
    } else {
        connected(
            data,
            carried_out(data, choice, view, entry, batch, j - 1, config, alpha),
            batch[j - 1],
            planned(data, choice, view.lists, entry, batch[j - 1], config.l_build as nat, alpha),
            config,
            alpha,
        )
    }
}

/// The graph after a round over the nodes from place `from` on, batch after batch.
pub open spec fn round_from<K: DistanceKernel, C: NeighborChoice>(
    data: Points<K>,
    choice: C,
    view: CsrView,
    entry: u32,
    order: Seq<u32>,
    from: int,
    config: VamanaBuildConfig,
    alpha: F32,
) -> CsrView
    decreases order.len() - from,
{
    if from >= order.len() {
        view
    } else {
        let end = if order.len() - from <= BUILD_BATCH_SIZE {
            order.len() as int
        } else {
            from + BUILD_BATCH_SIZE
        };
        let batch = order.subrange(from, end);
        round_from(
            data,
            choice,
            carried_out(data, choice, view, entry, batch, batch.len() as int, config, alpha),
            entry,
            order,
            end,
            config,
            alpha,
        )
    }
}

/// The threshold of a round.
pub open spec fn round_alpha(config: VamanaBuildConfig, round: nat) -> F32 {
    if round == 0 {
        F32(ONE_BITS)
    } else {
        config.alpha
    }
}

/// The graph after the first `rounds` rounds, and the generator. Each round goes over the nodes in
/// a new random order.
pub open spec fn rounds<K: DistanceKernel, C: NeighborChoice>(
    data: Points<K>,
    choice: C,
    start: (CsrView, RngView),
    entry: u32,
    n: nat,
    config: VamanaBuildConfig,
    count: nat,
) -> (CsrView, RngView)
    decreases count,
{
    if count == 0 {
        start
    } else {
        let before = rounds(data, choice, start, entry, n, config, (count - 1) as nat);
        let ids = centroid::all_ids(n);
        let order = rng::chacha8_shuffle(before.1.seed, before.1.draws, ids);
        (
            round_from(
                data,
                choice,
                before.0,
                entry,
                order,
                0,
                config,
                round_alpha(config, (count - 1) as nat),
            ),
            before.1.after(Draw::Shuffle { items: ids }),
        )
    }
}

/// The graph after those of the first `i` nodes that have more than `r_max` neighbours were pruned.
pub open spec fn trimmed<K: DistanceKernel>(
    data: Points<K>,
    view: CsrView,
    i: int,
    alpha: F32,
    r_max: usize,
    saturate: bool,
    strategy: PruneStrategy,
) -> CsrView
    decreases i,
{
    if i <= 0 {
        view
    } else {
        let before = trimmed(data, view, i - 1, alpha, r_max, saturate, strategy);
        if before.all(i - 1).len() <= r_max {
            before
        } else {
            before.set_neighbors(
                i - 1,
                data.pruned(
                    strategy,
                    (i - 1) as u32,
                    before.all(i - 1),
                    alpha,
                    r_max,
                    saturate,
                ),
            )
        }
    }
}

/// The graph of a build, and the generator after it.
pub open spec fn built<K: DistanceKernel, C: NeighborChoice>(
    data: Points<K>,
    choice: C,
    rng: RngView,
    entry: u32,
    n: nat,
    config: VamanaBuildConfig,
) -> (CsrView, RngView) {
    let after = rounds(
        data,
        choice,
        random_graph(rng, n, config.r_max as nat),
        entry,
        n,
        config,
        config.max_iterations as nat,
    );
    (
        trimmed(
            data,
            after.0,
            n as int,
            config.alpha,
            config.r_max,
            config.saturate,
            config.prune_strategy,
        ),
        after.1,
    )
}

/// All neighbours of a node.
fn all_neighbors(storage: &HybridBlockedCsr, node: u32) -> (all: Vec<u32>)
    requires
        storage.wf(),
        node < storage@.lists.len(),
    ensures
        all@ == storage@.all(node as int),
{
    let (main, overflow) = storage.neighbors_full(node);
    let mut all = slice_to_vec(main);
    all.extend_from_slice(overflow);
    assert(all@ =~= storage@.all(node as int));
    all
}

/// The storage is sound: its arrays fit together, its free slots are marked, and its edges are
/// proper.
pub open spec fn sound(storage: HybridBlockedCsr, n: nat, r_max: nat) -> bool {
    &&& storage.wf()
    &&& storage.free_slots_marked()
    &&& proper(storage@, n)
    &&& storage@.r_max == r_max
    &&& n <= SENTINEL
    &&& n <= usize::MAX
}

/// Adds an edge to a sound graph.
fn add_edge_to(storage: &mut HybridBlockedCsr, from: u32, to: u32, Ghost(n): Ghost<nat>)
    requires
        sound(*old(storage), n, old(storage)@.r_max),
        from < n,
        to < n,
        from != to,
    ensures
        sound(*final(storage), n, old(storage)@.r_max),
        final(storage)@ == old(storage)@.add_edge(from as int, to),
{
    proof {
        lemma_proper_degree(storage@, from as int, n);
        lemma_add_proper(storage@, from as int, to, n);
    }
    storage.add_edge(from, to);
}

/// Replaces a node's neighbours in a sound graph.
fn replace_neighbors(
    storage: &mut HybridBlockedCsr,
    node: u32,
    list: &[u32],
    Ghost(n): Ghost<nat>,
)
    requires
        sound(*old(storage), n, old(storage)@.r_max),
        node < n,
        proper_neighbors(list@, node, n),
    ensures
        sound(*final(storage), n, old(storage)@.r_max),
        final(storage)@ == old(storage)@.set_neighbors(node as int, list@),
{
    proof {
        lemma_set_proper(storage@, node as int, list@, n);
    }
    storage.set_neighbors(node, list);
}

/// Joins every node with random ones, both ways. Returns a random node.
pub fn init_random_graph(
    storage: &mut HybridBlockedCsr,
    n: usize,
    config: &VamanaBuildConfig,
    rng: &mut ChaCha8Rng,
) -> (entry: u32)
    requires
        sound(*old(storage), n as nat, config.r_max as nat),
        old(storage)@ == CsrView::empty(n as nat, config.r_max as nat),
    ensures
        sound(*final(storage), n as nat, config.r_max as nat),
        (final(storage)@, final(rng)@) == random_graph(old(rng)@, n as nat, config.r_max as nat),
        entry == (if n == 0 {
            0
        } else {
            rng::chacha8_below(old(rng)@.seed, old(rng)@.draws, n as u32)
        }),
{
    if n == 0 {
        return 0;
    }
    let ghost empty = storage@;
    let total: u32 = n as u32;
    let entry: u32 = rng.below(total);
    let ghost first = rng@;
    let count: usize = if config.r_max < n {
        config.r_max
    } else {
        n - 1
    };
    let mut node: u32 = 0;
    while node < total
        invariant
            node <= total,
            total == n,
            count == random_degree(n as nat, config.r_max as nat),
            sound(*storage, n as nat, config.r_max as nat),
            (storage@, rng@) == randomized(empty, first, total, count as nat, node as int),
        decreases total - node,
    {
        let ghost before = storage@;
        let list = draw_neighbors(rng, node, total, count);
        let mut j: usize = 0;
        while j < list.len()
            invariant
                j <= list@.len(),
                total == n,
                node < total,
                proper_neighbors(list@, node, n as nat),
                sound(*storage, n as nat, config.r_max as nat),
                storage@ == joined(before, node, list@, j as int),
            decreases list@.len() - j,
        {
            let other: u32 = list[j];
            assert(list@[j as int] < n);
            assert(list@.contains(list@[j as int]));
            add_edge_to(storage, node, other, Ghost(n as nat));
            add_edge_to(storage, other, node, Ghost(n as nat));
            j += 1;
        }
        node += 1;
    }
    entry
}

/// Draws the random neighbours of a node.
fn draw_neighbors(rng: &mut ChaCha8Rng, node: u32, n: u32, count: usize) -> (list: Vec<u32>)
    requires
        n > 0,
        node < n,
    ensures
        proper_neighbors(list@, node, n as nat),
        (list@, final(rng)@) == random_neighbors(
            old(rng)@,
            node,
            n,
            count as nat,
            Seq::empty(),
            u64::MAX as nat,
        ),
{
    let mut list: Vec<u32> = Vec::with_capacity(count);
    let mut fuel: u64 = u64::MAX;
    let ghost start = rng@;
    let ghost whole = random_neighbors(start, node, n, count as nat, Seq::empty(), u64::MAX as nat);
    assert(list@ =~= Seq::<u32>::empty());
    while list.len() < count && fuel > 0
        invariant
            n > 0,
            node < n,
            proper_neighbors(list@, node, n as nat),
            whole == random_neighbors(rng@, node, n, count as nat, list@, fuel as nat),
        decreases fuel,
    {
        let j: u32 = rng.below(n);
        if j != node && !contains(list.as_slice(), j) {
            let ghost before = list@;
            list.push(j);
            proof {
                assert forall|a: int, b: int|
                    0 <= a < list@.len() && 0 <= b < list@.len() && a != b implies list@[a]
                    != list@[b] by {
                    if a == before.len() {
                        assert(before.contains(before[b]));
                    } else if b == before.len() {
                        assert(before.contains(before[a]));
                    }
                }
                assert(!list@.contains(node)) by {
                    if list@.contains(node) {
                        let a = choose|a: int| 0 <= a < list@.len() && list@[a] == node;
                        if a < before.len() {
                            assert(before.contains(before[a]));
                        }
                    }
                }
                assert forall|a: int| 0 <= a < list@.len() implies (#[trigger] list@[a]) < n by {
                    if a < before.len() {
                        assert(list@[a] == before[a]);
                    }
                }
            }
        }
        fuel -= 1;
    }
    list
}

/// The new neighbours of a node, found by a search in the graph.
pub fn plan_node<K: DistanceKernel, C: NeighborChoice>(
    data: &Points<K>,
    choice: &C,
    storage: &HybridBlockedCsr,
    entry: u32,
    node: u32,
    config: &VamanaBuildConfig,
    alpha: F32,
    visited: &mut VisitedTracker,
) -> (list: Vec<u32>)
    requires
        storage.wf(),
        proper(storage@, storage@.lists.len()),
        data.has(storage@.lists.len()),
        entry < storage@.lists.len(),
        node < storage@.lists.len(),
        old(visited).wf(),
        old(visited)@.n == storage@.lists.len(),
        1 <= config.l_build < usize::MAX,
        choice.ready(),
        choice.nodes() == storage@.lists.len(),
        !alpha.nan(),
    ensures
        final(visited).wf(),
        final(visited)@.n == old(visited)@.n,
        list@ == planned(
            *data,
            *choice,
            storage@.lists,
            entry,
            node,
            config.l_build as nat,
            alpha,
        ),
        proper_neighbors(list@, node, storage@.lists.len()),
{
    let ghost n = storage@.lists.len();
    let query = data.slice(node, Ghost(n));
    proof {
        lemma_blocks_closed(storage@, n);
    }
    search_rows(data, storage, entry, query, config.l_build, visited);
    let ghost seen = visited@.nodes;
    proof {
        visited.lemma_view();
        assert forall|i: int| 0 <= i < seen.len() implies (#[trigger] seen[i]) < n by {
            assert(seen.contains(seen[i]));
        }
    }
    choice.choose_neighbors(node, visited.visited_nodes(), alpha)
}

/// The blocks of a proper graph name nodes only.
pub proof fn lemma_blocks_closed(view: CsrView, n: nat)
    requires
        proper(view, n),
    ensures
        search::closed_below(view.lists, n),
{
    assert forall|i: int, j: int| 0 <= i < n && 0 <= j < view.lists[i].len() implies (
    #[trigger] view.lists[i][j]) < n by {
        assert(proper_list(view, i, n));
        assert(view.all(i)[j] == view.lists[i][j]);
    }
}

/// A search that takes every neighbour. Returns the pool.
pub(crate) fn search_rows<K: DistanceKernel>(
    data: &Points<K>,
    storage: &HybridBlockedCsr,
    entry: u32,
    query: &[F32],
    ef: usize,
    visited: &mut VisitedTracker,
) -> (pool: LinearPool)
    requires
        storage.wf(),
        search::closed_below(storage@.lists, storage@.lists.len()),
        data.has(storage@.lists.len()),
        entry < storage@.lists.len(),
        query@.len() == data.dim,
        old(visited).wf(),
        old(visited)@.n == storage@.lists.len(),
        1 <= ef < usize::MAX,
    ensures
        final(visited).wf(),
        final(visited)@.n == old(visited)@.n,
        ({
            let space = layered::layer_space(*data, storage@.lists, query@);
            &&& pool.wf()
            &&& pool@ == search::outcome(space, space.start(ef as nat, entry)).pool
            &&& final(visited)@.nodes == search::seen(space, ef as nat, entry)
        }),
{
    let score = VectorScore { kernel: data.kernel, vectors: data.vectors, dim: data.dim, query };
    let mut pool = LinearPool::new(ef);
    proof {
        assert forall|id: u32| id < storage@.lists.len() implies #[trigger] search::NodeScore::known(
            &score,
            id,
        ) by {
            search::lemma_covered(
                data.vectors@,
                data.dim as nat,
                storage@.lists.len(),
                id as int,
            );
        }
    }
    run_search(&score, storage, entry, ef, usize::MAX, visited, &mut pool);
    proof {
        let space = layered::layer_space(*data, storage@.lists, query@);
        assert(search::scores(&score) =~= space.score);
        assert(search::space_of(&score, storage, usize::MAX as nat) == space);
    }
    pool
}

/// Gives a node new neighbours and each of them an edge back; a neighbour that then has more than
/// `r_soft` neighbours is pruned.
pub fn connect_bidirectional<K: DistanceKernel>(
    data: &Points<K>,
    storage: &mut HybridBlockedCsr,
    node: u32,
    neighbors: &[u32],
    alpha: F32,
    config: &VamanaBuildConfig,
)
    requires
        sound(*old(storage), old(storage)@.lists.len(), old(storage)@.r_max),
        data.has(old(storage)@.lists.len()),
        node < old(storage)@.lists.len(),
        proper_neighbors(neighbors@, node, old(storage)@.lists.len()),
        !alpha.nan(),
    ensures
        sound(*final(storage), old(storage)@.lists.len(), old(storage)@.r_max),
        final(storage)@ == connected(
            *data,
            old(storage)@,
            node,
            neighbors@,
            *config,
            alpha,
        ),
{
    let ghost n = storage@.lists.len();
    let ghost r = storage@.r_max;
    replace_neighbors(storage, node, neighbors, Ghost(n));
    let ghost first = storage@;
    let saturate: bool = config.saturate && alpha.gt(F32(ONE_BITS));
    let mut j: usize = 0;
    while j < neighbors.len()
        invariant
            j <= neighbors@.len(),
            sound(*storage, n, r),
            data.has(n),
            node < n,
            proper_neighbors(neighbors@, node, n),
            !alpha.nan(),
            saturate == (config.saturate && F32(ONE_BITS).below(alpha)),
            storage@ == back_linked_all(
                *data,
                first,
                neighbors@,
                j as int,
                node,
                *config,
                alpha,
            ),
        decreases neighbors@.len() - j,
    {
        let nb: u32 = neighbors[j];
        assert(neighbors@[j as int] < n);
        assert(neighbors@.contains(neighbors@[j as int]));
        add_edge_to(storage, nb, node, Ghost(n));
        if storage.degree(nb) > config.r_soft {
            let all = all_neighbors(storage, nb);
            assert(proper_list(storage@, nb as int, n));
            let kept = data.prune(
                config.prune_strategy,
                nb,
                all.as_slice(),
                alpha,
                config.r_max,
                saturate,
                Ghost(n),
            );
            replace_neighbors(storage, nb, kept.as_slice(), Ghost(n));
        }
        j += 1;
    }
}

/// Prunes every node that has more than `r_max` neighbours.
pub fn final_prune<K: DistanceKernel>(
    data: &Points<K>,
    storage: &mut HybridBlockedCsr,
    alpha: F32,
    r_max: usize,
    saturate: bool,
    strategy: PruneStrategy,
)
    requires
        sound(*old(storage), old(storage)@.lists.len(), old(storage)@.r_max),
        data.has(old(storage)@.lists.len()),
        !alpha.nan(),
    ensures
        sound(*final(storage), old(storage)@.lists.len(), old(storage)@.r_max),
        final(storage)@ == trimmed(
            *data,
            old(storage)@,
            old(storage)@.lists.len() as int,
            alpha,
            r_max,
            saturate,
            strategy,
        ),
        forall|i: int|
            0 <= i < old(storage)@.lists.len() ==> (#[trigger] final(storage)@.all(i)).len()
                <= r_max,
{
    let ghost n = storage@.lists.len();
    let ghost r = storage@.r_max;
    let ghost first = storage@;
    let total: usize = storage.len();
    let mut node: u32 = 0;
    while (node as usize) < total
        invariant
            node <= total,
            total == n,
            sound(*storage, n, r),
            data.has(n),
            !alpha.nan(),
            storage@ == trimmed(
                *data,
                first,
                node as int,
                alpha,
                r_max,
                saturate,
                strategy,
            ),
            forall|i: int|
                0 <= i < node ==> (#[trigger] storage@.all(i)).len() <= r_max,
        decreases total - node,
    {
        if storage.degree(node) > r_max {
            let all = all_neighbors(storage, node);
            assert(proper_list(storage@, node as int, n));
            let kept = data.prune(
                strategy,
                node,
                all.as_slice(),
                alpha,
                r_max,
                saturate,
                Ghost(n),
            );
            let ghost before = storage@;
            replace_neighbors(storage, node, kept.as_slice(), Ghost(n));
            proof {
                lemma_set_proper(before, node as int, kept@, n);
                assert forall|i: int| 0 <= i < node implies (#[trigger] storage@.all(i)).len()
                    == before.all(i).len() by {}
            }
        }
        node += 1;
    }
}

/// The threshold of a round, counted from zero.
pub fn alpha_of_round(config: &VamanaBuildConfig, round: usize) -> (alpha: F32)
    ensures
        alpha == round_alpha(*config, round as nat),
{
    if round == 0 {
        F32(ONE_BITS)
    } else {
        config.alpha
    }
}

/// One round of a build over the nodes in the given order.
pub fn run_round<K: DistanceKernel, C: NeighborChoice>(
    data: &Points<K>,
    choice: &C,
    storage: &mut HybridBlockedCsr,
    entry: u32,
    order: &Vec<u32>,
    config: &VamanaBuildConfig,
    alpha: F32,
)
    requires
        sound(*old(storage), old(storage)@.lists.len(), old(storage)@.r_max),
        data.has(old(storage)@.lists.len()),
        entry < old(storage)@.lists.len(),
        points::below(order@, old(storage)@.lists.len()),
        config.usable(old(storage)@.lists.len()),
        choice.ready(),
        choice.nodes() == old(storage)@.lists.len(),
        !alpha.nan(),
    ensures
        sound(*final(storage), old(storage)@.lists.len(), old(storage)@.r_max),
        final(storage)@ == round_from(
            *data,
            *choice,
            old(storage)@,
            entry,
            order@,
            0,
            *config,
            alpha,
        ),
{
    let ghost n = storage@.lists.len();
    let ghost r = storage@.r_max;
    let ghost whole = round_from(*data, *choice, storage@, entry, order@, 0, *config, alpha);
    let mut visited = VisitedTracker::new(storage.len(), config.l_build);
    let mut from: usize = 0;
    while from < order.len()
        invariant
            from <= order@.len(),
            sound(*storage, n, r),
            data.has(n),
            entry < n,
            points::below(order@, n),
            config.usable(n),
            choice.ready(),
            choice.nodes() == n,
            !alpha.nan(),
            visited.wf(),
            visited@.n == n,
            whole == round_from(*data, *choice, storage@, entry, order@, from as int, *config, alpha),
        decreases order@.len() - from,
    {
        let end: usize = if order.len() - from <= BUILD_BATCH_SIZE {
            order.len()
        } else {
            from + BUILD_BATCH_SIZE
        };
        let ghost batch = order@.subrange(from as int, end as int);
        let ghost before = storage@;
        let mut plans: Vec<Vec<u32>> = Vec::with_capacity(end - from);
        let mut i: usize = from;
        while i < end
            invariant
                from <= i <= end <= order@.len(),
                sound(*storage, n, r),
                storage@ == before,
                data.has(n),
                entry < n,
                points::below(order@, n),
                config.usable(n),
                choice.ready(),
                choice.nodes() == n,
                !alpha.nan(),
                visited.wf(),
                visited@.n == n,
                batch == order@.subrange(from as int, end as int),
                plans@.len() == i - from,
                forall|k: int|
                    0 <= k < plans@.len() ==> (#[trigger] plans@[k])@ == planned(
                        *data,
                        *choice,
                        before.lists,
                        entry,
                        batch[k],
                        config.l_build as nat,
                        alpha,
                    ) && proper_neighbors(plans@[k]@, batch[k], n),
            decreases end - i,
        {
            assert(order@[i as int] < n);
            let plan = plan_node(
                data,
                choice,
                storage,
                entry,
                order[i],
                config,
                alpha,
                &mut visited,
            );
            assert(batch[i - from] == order@[i as int]);
            plans.push(plan);
            i += 1;
        }
        let mut j: usize = 0;
        while j < plans.len()
            invariant
                j <= plans@.len(),
                from < end <= order@.len(),
                plans@.len() == end - from,
                sound(*storage, n, r),
                data.has(n),
                points::below(order@, n),
                !alpha.nan(),
                batch == order@.subrange(from as int, end as int),
                forall|k: int|
                    0 <= k < plans@.len() ==> (#[trigger] plans@[k])@ == planned(
                        *data,
                        *choice,
                        before.lists,
                        entry,
                        batch[k],
                        config.l_build as nat,
                        alpha,
                    ) && proper_neighbors(plans@[k]@, batch[k], n),
                storage@ == carried_out(*data, *choice, before, entry, batch, j as int, *config, alpha),
            decreases plans@.len() - j,
        {
            assert(batch[j as int] == order@[from + j]);
            assert(order@[from + j] < n);
            connect_bidirectional(
                data,
                storage,
                order[from + j],
                plans[j].as_slice(),
                alpha,
                config,
            );
            j += 1;
        }
        from = end;
    }
}

/// A random order of `n` nodes.
pub fn permutation(n: usize, rng: &mut ChaCha8Rng) -> (order: Vec<u32>)
    requires
        n <= SENTINEL,
    ensures
        order@ == rng::chacha8_shuffle(
            old(rng)@.seed,
            old(rng)@.draws,
            centroid::all_ids(n as nat),
        ),
        final(rng)@ == old(rng)@.after(Draw::Shuffle { items: centroid::all_ids(n as nat) }),
        order@.len() == n,
        points::below(order@, n as nat),
        order@.no_duplicates(),
{
    let mut order = list_ids(n);
    rng.shuffle(&mut order);
    proof {
        centroid::lemma_reordered(order@, n as nat);
    }
    order
}

/// The graph of a build.
pub fn build_storage<K: DistanceKernel, C: NeighborChoice>(
    data: &Points<K>,
    choice: &C,
    n: usize,
    entry: u32,
    config: &VamanaBuildConfig,
    rng: &mut ChaCha8Rng,
) -> (storage: HybridBlockedCsr)
    requires
        data.has(n as nat),
        config.usable(n as nat),
        choice.ready(),
        choice.nodes() == n,
        n > 0 ==> entry < n,
    ensures
        sound(storage, n as nat, config.r_max as nat),
        (storage@, final(rng)@) == built(*data, *choice, old(rng)@, entry, n as nat, *config),
        forall|i: int|
            0 <= i < n ==> (#[trigger] storage@.all(i)).len() <= config.r_max,
{
    let mut storage = HybridBlockedCsr::new(n, config.r_max);
    proof {
        assert forall|i: int| 0 <= i < n implies #[trigger] proper_list(
            storage@,
            i,
            n as nat,
        ) by {
            assert(storage@.all(i) =~= Seq::<u32>::empty());
        }
    }
    init_random_graph(&mut storage, n, config, rng);
    let ghost start = (storage@, rng@);
    let mut round: usize = 0;
    while round < config.max_iterations
        invariant
            round <= config.max_iterations,
            sound(storage, n as nat, config.r_max as nat),
            data.has(n as nat),
            config.usable(n as nat),
            choice.ready(),
            choice.nodes() == n,
            n > 0 ==> entry < n,
            (storage@, rng@) == rounds(
                *data,
                *choice,
                start,
                entry,
                n as nat,
                *config,
                round as nat,
            ),
        decreases config.max_iterations - round,
    {
        let order = permutation(n, rng);
        let alpha: F32 = alpha_of_round(config, round);
        if n > 0 {
            run_round(data, choice, &mut storage, entry, &order, config, alpha);
        }
        round += 1;
    }
    final_prune(
        data,
        &mut storage,
        config.alpha,
        config.r_max,
        config.saturate,
        config.prune_strategy,
    );
    storage
}

} // verus!
