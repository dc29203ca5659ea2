//! Pruning a node's neighbours.
//!
//! `RobustPrune` keeps a candidate unless a nearer kept neighbour occludes it, for a threshold that
//! rises from one to `alpha`, and may fill the free slots with the nearest remaining candidates.
//! `DirectionalPrune` scans once at the strictest threshold and relaxes it only until `r_min`
//! neighbours are kept; it never fills up.
use vstd::prelude::*;
use crate::distance::DistanceKernel;
use crate::distance::arith;
use crate::distance::single::{F32, MAX_BITS, ONE_BITS, ONE_POINT_TWO_BITS};
use crate::graph::candidates;
use crate::graph::candidates::{prepare_candidates, Scored};
use crate::graph::prune_laws;
use crate::graph::search;
use crate::graph::search::vector_slice;

verus! {

/// Which pruning is used.
#[derive(Debug, Clone, Copy, PartialEq, Eq, Structural)]
pub enum PruneStrategy {
    /// Rising threshold, optional filling.
    RobustPrune,
    /// One strict scan, relaxed only up to the minimum degree.
    DirectionalPrune,
}

impl Default for PruneStrategy {
    fn default() -> (s: Self)
        ensures
            s == PruneStrategy::RobustPrune,
    {
        PruneStrategy::RobustPrune
    }
}

/// The settings of `RobustPrune`.
#[derive(Debug, Clone, Copy)]
pub struct RobustPruneConfig {
    /// The last threshold.
    pub alpha: F32,
    /// How many neighbours are kept at most.
    pub r_max: usize,
}

impl Default for RobustPruneConfig {
    fn default() -> (c: Self)
        ensures
            c == (RobustPruneConfig { alpha: F32(ONE_POINT_TWO_BITS), r_max: 64 }),
    {
        RobustPruneConfig { alpha: F32(ONE_POINT_TWO_BITS), r_max: 64 }
    }
}

/// What a pruning looks at: the candidates, nearest first, and the distances between them.
pub struct PruneSpace {
    /// The candidates with their distances to the node.
    pub scored: Seq<Scored>,
    /// The distance between two candidates.
    pub pair: spec_fn(u32, u32) -> F32,
}

/// A pruning between two candidates: how much each candidate is occluded, and which candidates, by
/// their place, are kept so far. The greatest finite number stands for a candidate that is settled,
/// because it is kept or because a kept one has the same vector.
#[verifier::ext_equal]
pub struct PruneState {
    /// How much each candidate is occluded.
    pub occlusion: Seq<F32>,
    /// The kept candidates, in the order in which they were kept.
    pub kept: Seq<int>,
}

/// The mark of a settled candidate.
pub open spec fn settled(f: F32) -> bool {
    f.0 == MAX_BITS
}

impl PruneSpace {
    /// Before the first candidate.
    pub open spec fn start(self) -> PruneState {
        PruneState {
            occlusion: Seq::new(self.scored.len(), |i: int| F32(0)),
            kept: Seq::empty(),
        }
    }

    /// The distance between the candidates at two places.
    pub open spec fn between(self, j: int, i: int) -> F32 {
        (self.pair)(self.scored[j].1, self.scored[i].1)
    }

    /// How much candidate `i` is occluded by the nearer ones among `kept[k..]`, where it is
    /// occluded by `f` so far: the greatest ratio of its distance to the node and its distance to
    /// a kept candidate. The first ratio above the threshold ends the walk, as does a kept
    /// candidate with the same vector.
    pub open spec fn occluded(self, i: int, f: F32, kept: Seq<int>, k: int, threshold: F32) -> F32
        decreases kept.len() - k,
    {
        if k >= kept.len() {
            f
        } else if kept[k] >= i {
            self.occluded(i, f, kept, k + 1, threshold)
        } else if self.between(kept[k], i).zero() {
            F32(MAX_BITS)
        } else {
            let ratio = self.scored[i].0.over(self.between(kept[k], i));
            let g = if f.below(ratio) {
                ratio
            } else {
                f
            };
            if threshold.below(g) {
                g
            } else {
                self.occluded(i, g, kept, k + 1, threshold)
            }
        }
    }

    /// The pruning after candidate `i` was looked at.
    pub open spec fn visit(
        self,
        state: PruneState,
        i: int,
        threshold: F32,
        r_max: nat,
    ) -> PruneState {
        let f = state.occlusion[i];
        if state.kept.len() >= r_max || settled(f) || threshold.below(f) {
            state
        } else {
            let g = self.occluded(i, f, state.kept, 0, threshold);
            if threshold.below(g) {
                PruneState { occlusion: state.occlusion.update(i, g), kept: state.kept }
            } else {
                PruneState {
                    occlusion: state.occlusion.update(i, F32(MAX_BITS)),
                    kept: state.kept.push(i),
                }
            }
        }
    }

    /// The pruning after the candidates before place `i` were looked at once.
    pub open spec fn scan(
        self,
        state: PruneState,
        i: int,
        threshold: F32,
        r_max: nat,
    ) -> PruneState
        decreases i,
    {
        if i <= 0 {
            state
        } else {
            self.visit(self.scan(state, i - 1, threshold, r_max), i - 1, threshold, r_max)
        }
    }

    /// The pruning after all rounds from `threshold` on.
    pub open spec fn rounds(
        self,
        state: PruneState,
        threshold: F32,
        alpha: F32,
        r_max: nat,
    ) -> PruneState
        decreases alpha.rank() - threshold.rank(),
        when threshold_valid(threshold, alpha)
        via Self::rounds_end
    {
        if state.kept.len() >= r_max {
            state
        } else {
            let next = self.scan(state, self.scored.len() as int, threshold, r_max);
            if alpha.at_most(threshold) {
                next
            } else {
                self.rounds(next, next_threshold(threshold, alpha), alpha, r_max)
            }
        }
    }

    #[via_fn]
    proof fn rounds_end(self, state: PruneState, threshold: F32, alpha: F32, r_max: nat) {
        if !alpha.at_most(threshold) {
            lemma_threshold_rises(threshold, alpha);
        }
    }

    /// The ids of the candidates at some places.
    pub open spec fn ids(self, places: Seq<int>) -> Seq<u32> {
        Seq::new(places.len(), |i: int| self.scored[places[i]].1)
    }

    /// The nearest unsettled candidates before place `i`, as many as there is room for.
    pub open spec fn filled(self, state: PruneState, i: int, r_max: nat) -> Seq<int>
        decreases i,
    {
        if i <= 0 {
            state.kept
        } else {
            let before = self.filled(state, i - 1, r_max);
            if before.len() >= r_max || settled(state.occlusion[i - 1]) {
                before
            } else {
                before.push(i - 1)
            }
        }
    }

    /// What `RobustPrune` keeps.
    pub open spec fn robust(self, alpha: F32, r_max: nat, saturate: bool) -> Seq<u32> {
        let end = self.rounds(self.start(), F32(ONE_BITS), alpha, r_max);
        self.ids(
            if saturate {
                self.filled(end, self.scored.len() as int, r_max)
            } else {
                end.kept
            },
        )
    }
}

/// A threshold that a pruning up to `alpha` can have.
pub open spec fn threshold_valid(threshold: F32, alpha: F32) -> bool {
    &&& !threshold.nan()
    &&& !alpha.nan()
    &&& F32(ONE_BITS).at_most(threshold)
    &&& threshold == F32(ONE_BITS) || F32(ONE_POINT_TWO_BITS).below(alpha) || alpha.at_most(
        threshold,
    )
}

/// The threshold of the next round: 1.2 times the last one, or `alpha` times where `alpha` is less
/// than 1.2, and at most `alpha`.
pub open spec fn next_threshold(threshold: F32, alpha: F32) -> F32 {
    threshold.times(alpha.lesser(F32(ONE_POINT_TWO_BITS))).lesser(alpha)
}

/// The threshold rises from round to round.
pub proof fn lemma_threshold_rises(threshold: F32, alpha: F32)
    requires
        threshold_valid(threshold, alpha),
        !alpha.at_most(threshold),
    ensures
        threshold.rank() < next_threshold(threshold, alpha).rank() <= alpha.rank(),
        threshold_valid(next_threshold(threshold, alpha), alpha),
{
    let c = F32(ONE_POINT_TWO_BITS);
    assert(threshold.below(alpha));
    if c.below(alpha) {
        assert(threshold.finite());
        arith::lemma_growth(threshold);
    } else {
        assert(threshold == F32(ONE_BITS));
        arith::lemma_one_times(alpha);
    }
}

/// The distances between candidates.
pub open spec fn pair_distances<K: DistanceKernel>(
    kernel: &K,
    vectors: Seq<F32>,
    dim: int,
) -> spec_fn(u32, u32) -> F32 {
    |a: u32, b: u32|
        kernel.dist(
            search::vector_of(vectors, dim, a as int),
            search::vector_of(vectors, dim, b as int),
        )
}

/// What a pruning of a node's candidates looks at.
pub open spec fn prune_space<K: DistanceKernel>(
    kernel: &K,
    vectors: Seq<F32>,
    dim: int,
    node: u32,
    list: Seq<u32>,
) -> PruneSpace {
    PruneSpace {
        scored: candidates::prepared(
            list,
            node,
            candidates::distances_to(kernel, vectors, dim, node),
        ),
        pair: pair_distances(kernel, vectors, dim),
    }
}

/// The places of kept candidates as the loops hold them.
pub open spec fn places(v: Seq<usize>) -> Seq<int> {
    v.map_values(|x: usize| x as int)
}

/// Every candidate has a vector.
pub open spec fn scored_valid(scored: Seq<Scored>, vectors: Seq<F32>, dim: int) -> bool {
    forall|i: int|
        0 <= i < scored.len() ==> search::has_vector(
            vectors,
            dim,
            (#[trigger] scored[i]).1 as int,
        ) && scored[i].1 <= usize::MAX
}

/// The distance between two candidates.
fn between<K: DistanceKernel>(
    kernel: &K,
    vectors: &[F32],
    dim: usize,
    scored: &Vec<(F32, u32)>,
    j: usize,
    i: usize,
) -> (d: F32)
    requires
        scored_valid(scored@, vectors@, dim as int),
        i < scored@.len(),
        j < scored@.len(),
    ensures
        d == pair_distances(kernel, vectors@, dim as int)(scored@[j as int].1, scored@[i as int].1),
{
    assert(search::has_vector(vectors@, dim as int, scored@[i as int].1 as int));
    assert(search::has_vector(vectors@, dim as int, scored@[j as int].1 as int));
    kernel.distance(
        vector_slice(vectors, dim, scored[j].1),
        vector_slice(vectors, dim, scored[i].1),
    )
}

/// How much a candidate is occluded by the kept ones.
fn occlusion_of<K: DistanceKernel>(
    kernel: &K,
    vectors: &[F32],
    dim: usize,
    scored: &Vec<(F32, u32)>,
    kept: &Vec<usize>,
    i: usize,
    f: F32,
    threshold: F32,
) -> (g: F32)
    requires
        scored_valid(scored@, vectors@, dim as int),
        i < scored@.len(),
        forall|k: int| 0 <= k < kept@.len() ==> (#[trigger] kept@[k]) < scored@.len(),
    ensures
        g == (PruneSpace {
            scored: scored@,
            pair: pair_distances(kernel, vectors@, dim as int),
        }).occluded(i as int, f, places(kept@), 0, threshold),
{
    let ghost space = PruneSpace {
        scored: scored@,
        pair: pair_distances(kernel, vectors@, dim as int),
    };
    let mut factor: F32 = f;
    let mut k: usize = 0;
    while k < kept.len()
        invariant
            scored_valid(scored@, vectors@, dim as int),
            i < scored@.len(),
            k <= kept@.len(),
            forall|m: int| 0 <= m < kept@.len() ==> (#[trigger] kept@[m]) < scored@.len(),
            space == (PruneSpace {
                scored: scored@,
                pair: pair_distances(kernel, vectors@, dim as int),
            }),
            space.occluded(i as int, f, places(kept@), 0, threshold) == space.occluded(
                i as int,
                factor,
                places(kept@),
                k as int,
                threshold,
            ),
        decreases kept@.len() - k,
    {
        let j: usize = kept[k];
        assert(places(kept@)[k as int] == j);
        if j < i {
            let d = between(kernel, vectors, dim, scored, j, i);
            assert(d == space.between(j as int, i as int));
            if d.is_zero() {
                return F32(MAX_BITS);
            }
            let ratio = scored[i].0.div(d);
            if ratio.gt(factor) {
                factor = ratio;
            }
            if factor.gt(threshold) {
                return factor;
            }
        }
        k += 1;
    }
    factor
}

/// The pruning with a rising threshold.
pub struct RobustPrune;

impl RobustPrune {
    /// The neighbours to keep of a node's candidates, at most `r_max`.
    pub fn prune<K: DistanceKernel>(
        kernel: &K,
        candidates: &[u32],
        query_node: u32,
        vectors: &[F32],
        dim: usize,
        alpha: F32,
        r_max: usize,
        saturate: bool,
    ) -> (result: Vec<u32>)
        requires
            candidates::candidates_valid(vectors@, dim as int, query_node, candidates@),
            !alpha.nan(),
        ensures
            result@ == prune_space(
                kernel,
                vectors@,
                dim as int,
                query_node,
                candidates@,
            ).robust(alpha, r_max as nat, saturate),
    {
        let scored = prepare_candidates(kernel, candidates, query_node, vectors, dim);
        let n: usize = scored.len();
        let ghost dist = candidates::distances_to(kernel, vectors@, dim as int, query_node);
        let ghost space = prune_space(kernel, vectors@, dim as int, query_node, candidates@);
        proof {
            lemma_scored_valid(kernel, vectors@, dim as int, query_node, candidates@);
        }
        let mut occlusion: Vec<F32> = vec![F32(0);n];
        let mut kept: Vec<usize> = Vec::new();
        let mut current: F32 = F32(ONE_BITS);
        let increment: F32 = alpha.min(F32(ONE_POINT_TWO_BITS));
        let ghost start = space.start();
        let ghost end = space.rounds(start, F32(ONE_BITS), alpha, r_max as nat);
        assert(places(kept@) =~= start.kept);
        assert(occlusion@ =~= start.occlusion);
        let mut done: bool = false;
        while !done && kept.len() < r_max
            invariant
                n == scored@.len(),
                scored@ == space.scored,
                scored_valid(scored@, vectors@, dim as int),
                space.pair == pair_distances(kernel, vectors@, dim as int),
                occlusion@.len() == n,
                forall|k: int| 0 <= k < kept@.len() ==> (#[trigger] kept@[k]) < n,
                increment == alpha.lesser(F32(ONE_POINT_TWO_BITS)),
                end == space.rounds(start, F32(ONE_BITS), alpha, r_max as nat),
                threshold_valid(current, alpha),
                !done ==> end == space.rounds(
                    PruneState { occlusion: occlusion@, kept: places(kept@) },
                    current,
                    alpha,
                    r_max as nat,
                ),
                done ==> end == (PruneState { occlusion: occlusion@, kept: places(kept@) }),
            decreases
                    alpha.rank() - current.rank(),
                    (if done {
                        0int
                    } else {
                        1int
                    }),
        {
            let ghost before = PruneState { occlusion: occlusion@, kept: places(kept@) };
            let mut i: usize = 0;
            while i < n
                invariant
                    i <= n,
                    n == scored@.len(),
                    scored@ == space.scored,
                    scored_valid(scored@, vectors@, dim as int),
                    space.pair == pair_distances(kernel, vectors@, dim as int),
                    occlusion@.len() == n,
                    forall|k: int| 0 <= k < kept@.len() ==> (#[trigger] kept@[k]) < n,
                    (PruneState { occlusion: occlusion@, kept: places(kept@) }) == space.scan(
                        before,
                        i as int,
                        current,
                        r_max as nat,
                    ),
                decreases n - i,
            {
                let f: F32 = occlusion[i];
                if kept.len() < r_max && f.0 != MAX_BITS && !f.gt(current) {
                    let g = occlusion_of(kernel, vectors, dim, &scored, &kept, i, f, current);
                    assert(space == (PruneSpace {
                        scored: scored@,
                        pair: pair_distances(kernel, vectors@, dim as int),
                    }));
                    let ghost kept_before = kept@;
                    if g.gt(current) {
                        occlusion[i] = g;
                    } else {
                        occlusion[i] = F32(MAX_BITS);
                        kept.push(i);
                        assert(places(kept@) =~= places(kept_before).push(i as int));
                    }
                }
                i += 1;
            }
            if current.ge(alpha) {
                done = true;
            } else {
                proof {
                    lemma_threshold_rises(current, alpha);
                }
                current = current.mul(increment).min(alpha);
            }
        }
        let ghost state = PruneState { occlusion: occlusion@, kept: places(kept@) };
        assert(end == state);
        let mut result: Vec<u32> = Vec::new();
        let mut k: usize = 0;
        while k < kept.len()
            invariant
                k <= kept@.len(),
                scored@ == space.scored,
                forall|m: int| 0 <= m < kept@.len() ==> (#[trigger] kept@[m]) < scored@.len(),
                result@ == space.ids(places(kept@)).take(k as int),
            decreases kept@.len() - k,
        {
            result.push(scored[kept[k]].1);
            k += 1;
            assert(result@ =~= space.ids(places(kept@)).take(k as int));
        }
        assert(result@ =~= space.ids(state.kept));
        if saturate {
            let mut i: usize = 0;
            while i < n
                invariant
                    i <= n,
                    n == scored@.len(),
                    n == occlusion@.len(),
                    scored@ == space.scored,
                    state.occlusion == occlusion@,
                    result@ == space.ids(space.filled(state, i as int, r_max as nat)),
                decreases n - i,
            {
                let ghost before = space.filled(state, i as int, r_max as nat);
                if result.len() < r_max && occlusion[i].0 != MAX_BITS {
                    result.push(scored[i].1);
                    assert(result@ =~= space.ids(before.push(i as int)));
                }
                i += 1;
            }
        }
        result
    }

    /// The neighbours to keep, with the settings in a struct. A threshold above one fills up.
    pub fn prune_with_config<K: DistanceKernel>(
        kernel: &K,
        candidates: &[u32],
        query_node: u32,
        vectors: &[F32],
        dim: usize,
        config: &RobustPruneConfig,
    ) -> (result: Vec<u32>)
        requires
            candidates::candidates_valid(vectors@, dim as int, query_node, candidates@),
            !config.alpha.nan(),
        ensures
            result@ == prune_space(
                kernel,
                vectors@,
                dim as int,
                query_node,
                candidates@,
            ).robust(config.alpha, config.r_max as nat, F32(ONE_BITS).below(config.alpha)),
    {
        RobustPrune::prune(
            kernel,
            candidates,
            query_node,
            vectors,
            dim,
            config.alpha,
            config.r_max,
            config.alpha.gt(F32(ONE_BITS)),
        )
    }
}

/// The candidates of a pruning have vectors.
pub proof fn lemma_scored_valid<K: DistanceKernel>(
    kernel: &K,
    vectors: Seq<F32>,
    dim: int,
    node: u32,
    list: Seq<u32>,
)
    requires
        candidates::candidates_valid(vectors, dim, node, list),
    ensures
        scored_valid(prune_space(kernel, vectors, dim, node, list).scored, vectors, dim),
{
    let dist = candidates::distances_to(kernel, vectors, dim, node);
    candidates::lemma_prepared(list, node, dist);
    let scored = candidates::prepared(list, node, dist);
    assert forall|i: int| 0 <= i < scored.len() implies search::has_vector(
        vectors,
        dim,
        (#[trigger] scored[i]).1 as int,
    ) && scored[i].1 <= usize::MAX by {
        assert(list.contains(scored[i].1));
        let j = choose|j: int| 0 <= j < list.len() && list[j] == scored[i].1;
        assert(search::has_vector(vectors, dim, list[j] as int));
    }
}

/// The settings of `DirectionalPrune`.
#[derive(Debug, Clone, Copy)]
pub struct DirectionalPruneConfig {
    /// How many neighbours the strict scan keeps at most.
    pub r_max: usize,
    /// How many neighbours are wanted at least.
    pub r_min: usize,
    /// The relaxed threshold.
    pub backfill_alpha: F32,
}

impl DirectionalPruneConfig {
    /// A quarter of `r_max` at least, and a threshold of at least one.
    pub open spec fn params(r_max: usize, alpha: F32) -> DirectionalPruneConfig {
        DirectionalPruneConfig {
            r_max,
            r_min: if r_max / 4 >= 1 {
                r_max / 4
            } else {
                1
            },
            backfill_alpha: alpha.greater(F32(ONE_BITS)),
        }
    }

    /// The settings that follow from the degree limit and the threshold.
    pub fn from_params(r_max: usize, alpha: F32) -> (c: Self)
        ensures
            c == DirectionalPruneConfig::params(r_max, alpha),
    {
        DirectionalPruneConfig {
            r_max,
            r_min: if r_max / 4 >= 1 {
                r_max / 4
            } else {
                1
            },
            backfill_alpha: alpha.max(F32(ONE_BITS)),
        }
    }
}

impl Default for DirectionalPruneConfig {
    fn default() -> (c: Self)
        ensures
            c == DirectionalPruneConfig::params(64, F32(ONE_POINT_TWO_BITS)),
    {
        DirectionalPruneConfig::from_params(64, F32(ONE_POINT_TWO_BITS))
    }
}

impl PruneSpace {
    /// Candidate `i` is nearer to one of the kept ones than to the node.
    pub open spec fn overshadowed(self, kept: Seq<int>, i: int) -> bool {
        exists|k: int|
            0 <= k < kept.len() && self.between(#[trigger] kept[k], i).below(self.scored[i].0)
    }

    /// What the strict scan keeps of the candidates before place `i`.
    pub open spec fn directed(self, i: int, r_max: nat) -> Seq<int>
        decreases i,
    {
        if i <= 0 {
            Seq::empty()
        } else {
            let before = self.directed(i - 1, r_max);
            if before.len() >= r_max || self.overshadowed(before, i - 1) {
                before
            } else {
                before.push(i - 1)
            }
        }
    }

    /// Candidate `i` has the same vector as one of the kept ones, or its distance to the node is
    /// more than `alpha` times its distance to one of them.
    pub open spec fn blocked(self, kept: Seq<int>, i: int, alpha: F32) -> bool {
        exists|k: int|
            0 <= k < kept.len() && (self.between(#[trigger] kept[k], i).zero() || alpha.below(
                self.scored[i].0.over(self.between(kept[k], i)),
            ))
    }

    /// The kept candidates after the relaxed scan of the candidates before place `i`, which stops
    /// where there are `r_min`.
    pub open spec fn backfilled(
        self,
        first: Seq<int>,
        i: int,
        r_min: nat,
        alpha: F32,
    ) -> Seq<int>
        decreases i,
    {
        if i <= 0 {
            first
        } else {
            let before = self.backfilled(first, i - 1, r_min, alpha);
            if before.len() >= r_min || first.contains(i - 1) || self.blocked(
                before,
                i - 1,
                alpha,
            ) {
                before
            } else {
                before.push(i - 1)
            }
        }
    }

    /// What `DirectionalPrune` keeps: the relaxed scan stops at `r_min`, and at `r_max` where that is
    /// less.
    pub open spec fn directional(self, r_max: nat, r_min: nat, alpha: F32) -> Seq<u32> {
        let n = self.scored.len() as int;
        self.ids(self.backfilled(self.directed(n, r_max), n, floor_of(r_max, r_min), alpha))
    }
}

/// How many neighbours are wanted at least, within the limit.
pub open spec fn floor_of(r_max: nat, r_min: nat) -> nat {
    if r_min <= r_max {
        r_min
    } else {
        r_max
    }
}

/// The pruning with one strict scan.
pub struct DirectionalPrune;

impl DirectionalPrune {
    /// The neighbours to keep of a node's candidates.
    pub fn prune<K: DistanceKernel>(
        kernel: &K,
        candidates: &[u32],
        query_node: u32,
        vectors: &[F32],
        dim: usize,
        r_max: usize,
        r_min: usize,
        backfill_alpha: F32,
    ) -> (result: Vec<u32>)
        requires
            candidates::candidates_valid(vectors@, dim as int, query_node, candidates@),
        ensures
            result@ == prune_space(
                kernel,
                vectors@,
                dim as int,
                query_node,
                candidates@,
            ).directional(r_max as nat, r_min as nat, backfill_alpha),
            result@.len() <= r_max,
    {
        let scored = prepare_candidates(kernel, candidates, query_node, vectors, dim);
        let n: usize = scored.len();
        let ghost space = prune_space(kernel, vectors@, dim as int, query_node, candidates@);
        proof {
            lemma_scored_valid(kernel, vectors@, dim as int, query_node, candidates@);
        }
        let mut kept: Vec<usize> = Vec::new();
        let mut taken: Vec<bool> = vec![false;n];
        let mut i: usize = 0;
        assert(places(kept@) =~= space.directed(0, r_max as nat));
        while i < n
            invariant
                i <= n,
                n == scored@.len(),
                n == taken@.len(),
                scored@ == space.scored,
                scored_valid(scored@, vectors@, dim as int),
                space.pair == pair_distances(kernel, vectors@, dim as int),
                forall|k: int| 0 <= k < kept@.len() ==> (#[trigger] kept@[k]) < i,
                places(kept@) == space.directed(i as int, r_max as nat),
                forall|m: int| 0 <= m < n ==> #[trigger] taken@[m] == places(kept@).contains(m),
            decreases n - i,
        {
            let ghost before = kept@;
            if kept.len() < r_max && !any_shadow(kernel, vectors, dim, &scored, &kept, i) {
                kept.push(i);
                taken[i] = true;
                proof {
                    assert(places(kept@) =~= places(before).push(i as int));
                    assert(places(kept@)[before.len() as int] == i);
                    assert forall|m: int| 0 <= m < n implies #[trigger] taken@[m] == places(
                        kept@,
                    ).contains(m) by {
                        if places(before).contains(m) {
                            let k = choose|k: int|
                                0 <= k < places(before).len() && places(before)[k] == m;
                            assert(places(kept@)[k] == m);
                        }
                        if places(kept@).contains(m) && m != i {
                            let k = choose|k: int|
                                0 <= k < places(kept@).len() && places(kept@)[k] == m;
                            assert(places(before)[k] == m);
                        }
                    }
                }
            }
            i += 1;
        }
        let ghost first = places(kept@);
        let floor: usize = if r_min <= r_max {
            r_min
        } else {
            r_max
        };
        i = 0;
        while i < n
            invariant
                i <= n,
                n == scored@.len(),
                n == taken@.len(),
                scored@ == space.scored,
                scored_valid(scored@, vectors@, dim as int),
                space.pair == pair_distances(kernel, vectors@, dim as int),
                forall|k: int| 0 <= k < kept@.len() ==> (#[trigger] kept@[k]) < n,
                first == space.directed(n as int, r_max as nat),
                places(kept@) == space.backfilled(first, i as int, floor as nat, backfill_alpha),
                forall|m: int| 0 <= m < n ==> #[trigger] taken@[m] == first.contains(m),
            decreases n - i,
        {
            let ghost before = kept@;
            if kept.len() < floor && !taken[i] && !any_block(
                kernel,
                vectors,
                dim,
                &scored,
                &kept,
                i,
                backfill_alpha,
            ) {
                kept.push(i);
                assert(places(kept@) =~= places(before).push(i as int));
            }
            i += 1;
        }
        let mut result: Vec<u32> = Vec::new();
        let mut k: usize = 0;
        while k < kept.len()
            invariant
                k <= kept@.len(),
                scored@ == space.scored,
                forall|m: int| 0 <= m < kept@.len() ==> (#[trigger] kept@[m]) < scored@.len(),
                result@ == space.ids(places(kept@)).take(k as int),
            decreases kept@.len() - k,
        {
            result.push(scored[kept[k]].1);
            k += 1;
            assert(result@ =~= space.ids(places(kept@)).take(k as int));
        }
        assert(result@ =~= space.ids(places(kept@)));
        proof {
            prune_laws::lemma_directional_len(
                space,
                r_max as nat,
                r_min as nat,
                backfill_alpha,
            );
        }
        result
    }

    /// The neighbours to keep, with the settings in a struct.
    pub fn prune_with_config<K: DistanceKernel>(
        kernel: &K,
        candidates: &[u32],
        query_node: u32,
        vectors: &[F32],
        dim: usize,
        config: &DirectionalPruneConfig,
    ) -> (result: Vec<u32>)
        requires
            candidates::candidates_valid(vectors@, dim as int, query_node, candidates@),
        ensures
            result@ == prune_space(
                kernel,
                vectors@,
                dim as int,
                query_node,
                candidates@,
            ).directional(config.r_max as nat, config.r_min as nat, config.backfill_alpha),
            result@.len() <= config.r_max,
    {
        DirectionalPrune::prune(
            kernel,
            candidates,
            query_node,
            vectors,
            dim,
            config.r_max,
            config.r_min,
            config.backfill_alpha,
        )
    }
}

/// Whether a candidate is nearer to one of the kept ones than to the node.
fn any_shadow<K: DistanceKernel>(
    kernel: &K,
    vectors: &[F32],
    dim: usize,
    scored: &Vec<(F32, u32)>,
    kept: &Vec<usize>,
    i: usize,
) -> (b: bool)
    requires
        scored_valid(scored@, vectors@, dim as int),
        i < scored@.len(),
        forall|k: int| 0 <= k < kept@.len() ==> (#[trigger] kept@[k]) < scored@.len(),
    ensures
        b == (PruneSpace {
            scored: scored@,
            pair: pair_distances(kernel, vectors@, dim as int),
        }).overshadowed(places(kept@), i as int),
{
    let ghost space = PruneSpace {
        scored: scored@,
        pair: pair_distances(kernel, vectors@, dim as int),
    };
    let mut k: usize = 0;
    while k < kept.len()
        invariant
            scored_valid(scored@, vectors@, dim as int),
            i < scored@.len(),
            k <= kept@.len(),
            forall|m: int| 0 <= m < kept@.len() ==> (#[trigger] kept@[m]) < scored@.len(),
            space == (PruneSpace {
                scored: scored@,
                pair: pair_distances(kernel, vectors@, dim as int),
            }),
            forall|m: int|
                0 <= m < k ==> !space.between(#[trigger] places(kept@)[m], i as int).below(
                    scored@[i as int].0,
                ),
        decreases kept@.len() - k,
    {
        let d = between(kernel, vectors, dim, scored, kept[k], i);
        assert(d == space.between(places(kept@)[k as int], i as int));
        if d.lt(scored[i].0) {
            return true;
        }
        k += 1;
    }
    false
}

/// Whether a candidate is blocked by one of the kept ones at the relaxed threshold.
fn any_block<K: DistanceKernel>(
    kernel: &K,
    vectors: &[F32],
    dim: usize,
    scored: &Vec<(F32, u32)>,
    kept: &Vec<usize>,
    i: usize,
    alpha: F32,
) -> (b: bool)
    requires
        scored_valid(scored@, vectors@, dim as int),
        i < scored@.len(),
        forall|k: int| 0 <= k < kept@.len() ==> (#[trigger] kept@[k]) < scored@.len(),
    ensures
        b == (PruneSpace {
            scored: scored@,
            pair: pair_distances(kernel, vectors@, dim as int),
        }).blocked(places(kept@), i as int, alpha),
{
    let ghost space = PruneSpace {
        scored: scored@,
        pair: pair_distances(kernel, vectors@, dim as int),
    };
    let mut k: usize = 0;
    while k < kept.len()
        invariant
            scored_valid(scored@, vectors@, dim as int),
            i < scored@.len(),
            k <= kept@.len(),
            forall|m: int| 0 <= m < kept@.len() ==> (#[trigger] kept@[m]) < scored@.len(),
            space == (PruneSpace {
                scored: scored@,
                pair: pair_distances(kernel, vectors@, dim as int),
            }),
            forall|m: int|
                0 <= m < k ==> !space.between(#[trigger] places(kept@)[m], i as int).zero()
                    && !alpha.below(
                    scored@[i as int].0.over(space.between(places(kept@)[m], i as int)),
                ),
        decreases kept@.len() - k,
    {
        let d = between(kernel, vectors, dim, scored, kept[k], i);
        assert(d == space.between(places(kept@)[k as int], i as int));
        if d.is_zero() || scored[i].0.div(d).gt(alpha) {
            return true;
        }
        k += 1;
    }
    false
}

/// What the chosen pruning keeps. `DirectionalPrune` takes its minimum degree from `r_max` and its
/// relaxed threshold from `alpha`, and does not fill up.
pub open spec fn kept_by(
    strategy: PruneStrategy,
    space: PruneSpace,
    alpha: F32,
    r_max: usize,
    saturate: bool,
) -> Seq<u32> {
    match strategy {
        PruneStrategy::RobustPrune => space.robust(alpha, r_max as nat, saturate),
        PruneStrategy::DirectionalPrune => {
            let config = DirectionalPruneConfig::params(r_max, alpha);
            space.directional(r_max as nat, config.r_min as nat, config.backfill_alpha)
        },
    }
}

/// Prunes with the chosen strategy.
pub fn prune_dispatch<K: DistanceKernel>(
    kernel: &K,
    strategy: PruneStrategy,
    candidates: &[u32],
    query_node: u32,
    vectors: &[F32],
    dim: usize,
    alpha: F32,
    r_max: usize,
    saturate: bool,
) -> (result: Vec<u32>)
    requires
        candidates::candidates_valid(vectors@, dim as int, query_node, candidates@),
        !alpha.nan(),
    ensures
        result@ == kept_by(
            strategy,
            prune_space(kernel, vectors@, dim as int, query_node, candidates@),
            alpha,
            r_max,
            saturate,
        ),
{
    match strategy {
        PruneStrategy::RobustPrune => RobustPrune::prune(
            kernel,
            candidates,
            query_node,
            vectors,
            dim,
            alpha,
            r_max,
            saturate,
        ),
        PruneStrategy::DirectionalPrune => {
            let config = DirectionalPruneConfig::from_params(r_max, alpha);
            DirectionalPrune::prune(
                kernel,
                candidates,
                query_node,
                vectors,
                dim,
                config.r_max,
                config.r_min,
                config.backfill_alpha,
            )
        },
    }
}

} // verus!
