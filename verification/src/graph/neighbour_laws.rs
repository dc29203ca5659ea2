//! What the neighbours of a node are worth: which candidates a pruning may leave out, and why.
use vstd::prelude::*;
use crate::distance::DistanceKernel;
use crate::distance::single::{F32, MAX_BITS, ONE_BITS};
use crate::graph::candidates;
use crate::graph::points::Points;
use crate::graph::prune_laws;
use crate::graph::robust_prune;
use crate::graph::robust_prune::PruneStrategy;

verus! {

/// The distance between two nodes.
pub open spec fn gap<K: DistanceKernel>(data: Points<K>, a: u32, b: u32) -> F32 {
    data.kernel.dist(data.vector(a as int), data.vector(b as int))
}

/// `p` hides `c` from the node at this threshold: `p` and `c` are at no distance from each other, or
/// the distance of `c` to the node is more than the threshold times its distance to `p`.
pub open spec fn hides<K: DistanceKernel>(
    data: Points<K>,
    node: u32,
    p: u32,
    c: u32,
    threshold: F32,
) -> bool {
    gap(data, p, c).zero() || threshold.below(gap(data, node, c).over(gap(data, p, c)))
}

/// One of the kept neighbours, and none that is farther than `c`, hides `c` from the node.
pub open spec fn hidden<K: DistanceKernel>(
    data: Points<K>,
    node: u32,
    kept: Seq<u32>,
    c: u32,
    threshold: F32,
) -> bool {
    exists|k: int|
        0 <= k < kept.len() && hides(data, node, #[trigger] kept[k], c, threshold) && !gap(
            data,
            node,
            c,
        ).below(gap(data, node, kept[k]))
}

/// One of the kept neighbours is nearer to `c` than the node is.
pub open spec fn overshadowed<K: DistanceKernel>(
    data: Points<K>,
    node: u32,
    kept: Seq<u32>,
    c: u32,
) -> bool {
    exists|k: int|
        0 <= k < kept.len() && gap(data, #[trigger] kept[k], c).below(gap(data, node, c))
}

/// No two candidates are at no distance from each other, and no ratio of distances is the greatest
/// finite number.
pub open spec fn all_apart<K: DistanceKernel>(data: Points<K>, node: u32, list: Seq<u32>) -> bool {
    forall|a: u32, b: u32|
        #[trigger] list.contains(a) && #[trigger] list.contains(b) && a != b && a != node && b
            != node ==> !gap(data, a, b).zero() && gap(data, node, b).over(gap(data, a, b))
            != F32(MAX_BITS)
}

/// The neighbours are candidates, each once and never the node, and at most `r_max`; where one can
/// be kept, the first is a candidate that none is nearer than.
pub open spec fn are_candidates<K: DistanceKernel>(
    data: Points<K>,
    node: u32,
    list: Seq<u32>,
    r_max: nat,
    kept: Seq<u32>,
) -> bool {
    &&& kept.no_duplicates()
    &&& kept.len() <= r_max
    &&& forall|k: int| 0 <= k < kept.len() ==> list.contains(#[trigger] kept[k]) && kept[k] != node
    &&& forall|c: u32| #[trigger] list.contains(c) && c != node && r_max >= 1 ==> kept.len() >= 1
        && !gap(data, node, c).below(gap(data, node, kept[0]))
}

/// What a pruning with a rising threshold up to `alpha` keeps of a node's candidates. While there is
/// room, a candidate is left out only if a kept one hides it at `alpha`. Without filling, no kept one
/// hides a farther one that is kept after it. With filling, room is left only where the candidates
/// are used up.
pub open spec fn robustly_pruned<K: DistanceKernel>(
    data: Points<K>,
    node: u32,
    list: Seq<u32>,
    alpha: F32,
    r_max: nat,
    saturate: bool,
    kept: Seq<u32>,
) -> bool {
    let last = alpha.greater(F32(ONE_BITS));
    &&& are_candidates(data, node, list, r_max, kept)
    &&& forall|c: u32| #[trigger]
        list.contains(c) && c != node && !kept.contains(c) && kept.len() < r_max ==> hidden(
            data,
            node,
            kept,
            c,
            last,
        )
    &&& !saturate ==> forall|a: int, b: int|
        #![trigger kept[a], kept[b]]
        0 <= a < b < kept.len() && gap(data, node, kept[a]).below(gap(data, node, kept[b]))
            ==> !hides(data, node, kept[a], kept[b], last)
    &&& saturate && all_apart(data, node, list) ==> kept.len() == (if list.to_set().remove(
        node,
    ).len() <= r_max {
        list.to_set().remove(node).len()
    } else {
        r_max
    })
}

/// How many neighbours are wanted at least: a quarter of the limit, and one.
pub open spec fn wanted(r_max: nat) -> nat {
    if r_max / 4 >= 1 {
        r_max / 4
    } else {
        1
    }
}

/// What a pruning by directions keeps of a node's candidates. While there is room, a candidate is
/// left out only if a kept one is nearer to it than the node is; while fewer are kept than wanted,
/// only if a kept one hides it at `alpha`. Where more are kept than wanted, no kept one is nearer to
/// one kept before it than to the node.
pub open spec fn directionally_pruned<K: DistanceKernel>(
    data: Points<K>,
    node: u32,
    list: Seq<u32>,
    alpha: F32,
    r_max: nat,
    kept: Seq<u32>,
) -> bool {
    let last = alpha.greater(F32(ONE_BITS));
    &&& are_candidates(data, node, list, r_max, kept)
    &&& forall|c: u32| #[trigger]
        list.contains(c) && c != node && !kept.contains(c) && kept.len() < r_max ==> overshadowed(
            data,
            node,
            kept,
            c,
        )
    &&& forall|c: u32| #[trigger]
        list.contains(c) && c != node && !kept.contains(c) && kept.len() < r_max && kept.len()
            < wanted(r_max) ==> exists|k: int|
            0 <= k < kept.len() && hides(data, node, #[trigger] kept[k], c, last)
    &&& kept.len() > wanted(r_max) ==> forall|a: int, b: int|
        #![trigger kept[a], kept[b]]
        0 <= a < b < kept.len() ==> !gap(data, kept[a], kept[b]).below(gap(data, node, kept[b]))
}

/// What the chosen pruning keeps of a node's candidates.
pub open spec fn well_pruned<K: DistanceKernel>(
    data: Points<K>,
    strategy: PruneStrategy,
    node: u32,
    list: Seq<u32>,
    alpha: F32,
    r_max: nat,
    saturate: bool,
    kept: Seq<u32>,
) -> bool {
    match strategy {
        PruneStrategy::RobustPrune => robustly_pruned(
            data,
            node,
            list,
            alpha,
            r_max,
            saturate,
            kept,
        ),
        PruneStrategy::DirectionalPrune => directionally_pruned(
            data,
            node,
            list,
            alpha,
            r_max,
            kept,
        ),
    }
}

/// A candidate other than the node stands at some place, with its distance to the node.
proof fn lemma_place<K: DistanceKernel>(
    data: Points<K>,
    node: u32,
    list: Seq<u32>,
    c: u32,
) -> (i: int)
    requires
        list.contains(c),
        c != node,
    ensures
        ({
            let space = robust_prune::prune_space(
                data.kernel,
                data.vectors@,
                data.dim as int,
                node,
                list,
            );
            0 <= i < space.scored.len() && space.scored[i] == (gap(data, node, c), c)
        }),
{
    let dist = candidates::distances_to(data.kernel, data.vectors@, data.dim as int, node);
    candidates::lemma_prepared(list, node, dist);
    let scored = candidates::prepared(list, node, dist);
    assert(candidates::lists(scored, c));
    choose|i: int| 0 <= i < scored.len() && (#[trigger] scored[i]).1 == c
}

/// The places stand in the order of the distances, and the distances between them are those between
/// their nodes.
proof fn lemma_space<K: DistanceKernel>(data: Points<K>, node: u32, list: Seq<u32>)
    ensures
        ({
            let space = robust_prune::prune_space(
                data.kernel,
                data.vectors@,
                data.dim as int,
                node,
                list,
            );
            &&& forall|i: int|
                0 <= i < space.scored.len() ==> (#[trigger] space.scored[i]).0 == gap(
                    data,
                    node,
                    space.scored[i].1,
                ) && list.contains(space.scored[i].1) && space.scored[i].1 != node
            &&& forall|i: int, j: int|
                #![trigger space.scored[i], space.scored[j]]
                0 <= i < j < space.scored.len() ==> !space.scored[j].0.below(space.scored[i].0)
                    && space.scored[i].1 != space.scored[j].1
            &&& forall|i: int, j: int| #[trigger]
                space.between(i, j) == gap(data, space.scored[i].1, space.scored[j].1)
        }),
{
    let dist = candidates::distances_to(data.kernel, data.vectors@, data.dim as int, node);
    candidates::lemma_prepared(list, node, dist);
    let scored = candidates::prepared(list, node, dist);
    assert forall|i: int, j: int|
        #![trigger scored[i], scored[j]]
        0 <= i < j < scored.len() implies !scored[j].0.below(scored[i].0) && scored[i].1
        != scored[j].1 by {
        assert(candidates::nearer(scored[i], scored[j]));
        assert(scored[i].0 == dist(scored[i].1) && scored[j].0 == dist(scored[j].1));
    }
}

/// What a pruning keeps are candidates, and the nearest comes first.
proof fn lemma_are_candidates<K: DistanceKernel>(
    data: Points<K>,
    strategy: PruneStrategy,
    node: u32,
    list: Seq<u32>,
    alpha: F32,
    r_max: usize,
    saturate: bool,
)
    requires
        !alpha.nan(),
    ensures
        are_candidates(
            data,
            node,
            list,
            r_max as nat,
            data.pruned(strategy, node, list, alpha, r_max, saturate),
        ),
{
    let dist = candidates::distances_to(data.kernel, data.vectors@, data.dim as int, node);
    let pair = robust_prune::pair_distances(data.kernel, data.vectors@, data.dim as int);
    prune_laws::law_prune_keeps_candidates(
        strategy,
        list,
        node,
        dist,
        pair,
        alpha,
        r_max,
        saturate,
    );
    let kept = data.pruned(strategy, node, list, alpha, r_max, saturate);
    lemma_space(data, node, list);
    assert forall|c: u32| #[trigger] list.contains(c) && c != node && r_max >= 1 implies kept.len()
        >= 1 && !gap(data, node, c).below(gap(data, node, kept[0])) by {
        let i = lemma_place(data, node, list, c);
        prune_laws::law_prune_keeps_the_nearest(
            strategy,
            list,
            node,
            dist,
            pair,
            alpha,
            r_max,
            saturate,
        );
        let space = prune_laws::space_over(list, node, dist, pair);
        assert(kept[0] == space.scored[0].1);
        assert(space.scored[0].0 == gap(data, node, kept[0]));
        if i > 0 {
            assert(!space.scored[i].0.below(space.scored[0].0));
        }
    }
}

/// What `RobustPrune` keeps: while there is room, every candidate that it leaves out is hidden at
/// `alpha` by one that it keeps; without filling, none that it keeps hides a farther one kept later;
/// with filling, room is left only where the candidates are used up.
pub proof fn law_robust_prune<K: DistanceKernel>(
    data: Points<K>,
    node: u32,
    list: Seq<u32>,
    alpha: F32,
    r_max: usize,
    saturate: bool,
)
    requires
        !alpha.nan(),
        alpha.rank() < MAX_BITS,
    ensures
        robustly_pruned(
            data,
            node,
            list,
            alpha,
            r_max as nat,
            saturate,
            data.pruned(PruneStrategy::RobustPrune, node, list, alpha, r_max, saturate),
        ),
{
    let strategy = PruneStrategy::RobustPrune;
    let last = alpha.greater(F32(ONE_BITS));
    let kept = data.pruned(strategy, node, list, alpha, r_max, saturate);
    let dist = candidates::distances_to(data.kernel, data.vectors@, data.dim as int, node);
    let pair = robust_prune::pair_distances(data.kernel, data.vectors@, data.dim as int);
    let space = prune_laws::space_over(list, node, dist, pair);
    lemma_are_candidates(data, strategy, node, list, alpha, r_max, saturate);
    lemma_space(data, node, list);
    prune_laws::lemma_left_out_are_hidden(space, alpha, r_max as nat, saturate);
    let places = prune_laws::robust_places(space, alpha, r_max as nat, saturate);
    assert(kept == space.ids(places));
    assert forall|c: u32| #[trigger]
        list.contains(c) && c != node && !kept.contains(c) && kept.len() < r_max implies hidden(
        data,
        node,
        kept,
        c,
        last,
    ) by {
        let i = lemma_place(data, node, list, c);
        assert(space.scored[i] == (gap(data, node, c), c));
        assert(!places.contains(i)) by {
            if places.contains(i) {
                let k = choose|k: int| 0 <= k < places.len() && places[k] == i;
                assert(kept[k] == c);
                assert(kept.contains(c));
            }
        }
        assert(prune_laws::hidden_by(space, places, i, last));
        let k = choose|k: int|
            0 <= k < places.len() && (#[trigger] places[k]) < i && prune_laws::hides(
                space,
                places[k],
                i,
                last,
            );
        assert(kept[k] == space.scored[places[k]].1);
        assert(space.between(places[k], i) == gap(data, kept[k], c));
        assert(!space.scored[i].0.below(space.scored[places[k]].0));
        assert(hides(data, node, kept[k], c, last));
    }
    if !saturate {
        prune_laws::law_kept_neighbours_are_not_occluded(space, alpha, r_max as nat);
        assert forall|a: int, b: int|
            #![trigger kept[a], kept[b]]
            0 <= a < b < kept.len() && gap(data, node, kept[a]).below(
                gap(data, node, kept[b]),
            ) implies !hides(data, node, kept[a], kept[b], last) by {
            let x = places[a];
            let y = places[b];
            assert(space.scored[x].1 == kept[a] && space.scored[y].1 == kept[b]);
            if x >= y {
                assert(x != y);
                assert(!space.scored[x].0.below(space.scored[y].0));
            }
            assert(prune_laws::visible(space, x, y, last));
            assert(space.between(x, y) == gap(data, kept[a], kept[b]));
        }
    } else if all_apart(data, node, list) {
        assert forall|j: int, i: int|
            0 <= j < i < space.scored.len() implies !(#[trigger] space.between(j, i)).zero()
            && !robust_prune::settled(space.scored[i].0.over(space.between(j, i))) by {
            let a = space.scored[j].1;
            let b = space.scored[i].1;
            assert(list.contains(a) && list.contains(b) && a != b);
            assert(space.between(j, i) == gap(data, a, b));
        }
        prune_laws::law_saturation_keeps_as_many_as_it_can(
            list,
            node,
            dist,
            pair,
            alpha,
            r_max as nat,
        );
    }
}

/// What `DirectionalPrune` keeps: while there is room, every candidate that it leaves out is nearer
/// to one that it keeps than to the node; while it keeps fewer than wanted, every one that it leaves
/// out is hidden at `alpha`.
pub proof fn law_directional_prune<K: DistanceKernel>(
    data: Points<K>,
    node: u32,
    list: Seq<u32>,
    alpha: F32,
    r_max: usize,
    saturate: bool,
)
    requires
        !alpha.nan(),
    ensures
        directionally_pruned(
            data,
            node,
            list,
            alpha,
            r_max as nat,
            data.pruned(PruneStrategy::DirectionalPrune, node, list, alpha, r_max, saturate),
        ),
{
    let strategy = PruneStrategy::DirectionalPrune;
    let last = alpha.greater(F32(ONE_BITS));
    let kept = data.pruned(strategy, node, list, alpha, r_max, saturate);
    let dist = candidates::distances_to(data.kernel, data.vectors@, data.dim as int, node);
    let pair = robust_prune::pair_distances(data.kernel, data.vectors@, data.dim as int);
    let space = prune_laws::space_over(list, node, dist, pair);
    lemma_are_candidates(data, strategy, node, list, alpha, r_max, saturate);
    lemma_space(data, node, list);
    let r_min = wanted(r_max as nat);
    prune_laws::lemma_directional_left_out(space, r_max as nat, r_min, last);
    let n = space.scored.len() as int;
    let places = space.backfilled(
        space.directed(n, r_max as nat),
        n,
        robust_prune::floor_of(r_max as nat, r_min),
        last,
    );
    assert(kept == space.ids(places));
    assert forall|c: u32| #[trigger]
        list.contains(c) && c != node && !kept.contains(c) && kept.len() < r_max implies {
        &&& overshadowed(data, node, kept, c)
        &&& kept.len() < r_min ==> exists|k: int|
            0 <= k < kept.len() && hides(data, node, #[trigger] kept[k], c, last)
    } by {
        let i = lemma_place(data, node, list, c);
        assert(space.scored[i] == (gap(data, node, c), c));
        assert(!places.contains(i)) by {
            if places.contains(i) {
                let k = choose|k: int| 0 <= k < places.len() && places[k] == i;
                assert(kept[k] == c);
                assert(kept.contains(c));
            }
        }
        let k = choose|k: int|
            0 <= k < places.len() && #[trigger] space.between(places[k], i).below(
                space.scored[i].0,
            );
        assert(kept[k] == space.scored[places[k]].1);
        assert(space.between(places[k], i) == gap(data, kept[k], c));
        if kept.len() < r_min {
            let m = choose|m: int|
                0 <= m < places.len() && #[trigger] prune_laws::hides(space, places[m], i, last);
            assert(kept[m] == space.scored[places[m]].1);
            assert(space.between(places[m], i) == gap(data, kept[m], c));
            assert(hides(data, node, kept[m], c, last));
        }
    }
    if kept.len() > r_min {
        assert forall|a: int, b: int|
            #![trigger kept[a], kept[b]]
            0 <= a < b < kept.len() implies !gap(data, kept[a], kept[b]).below(
            gap(data, node, kept[b]),
        ) by {
            let x = places[a];
            let y = places[b];
            assert(!space.between(x, y).below(space.scored[y].0));
            assert(space.between(x, y) == gap(data, kept[a], kept[b]));
        }
    }
}

/// What the chosen pruning keeps of a node's candidates.
pub proof fn law_prunings_leave_out_with_reason<K: DistanceKernel>(
    data: Points<K>,
    strategy: PruneStrategy,
    node: u32,
    list: Seq<u32>,
    alpha: F32,
    r_max: usize,
    saturate: bool,
)
    requires
        !alpha.nan(),
        alpha.rank() < MAX_BITS,
    ensures
        well_pruned(
            data,
            strategy,
            node,
            list,
            alpha,
            r_max as nat,
            saturate,
            data.pruned(strategy, node, list, alpha, r_max, saturate),
        ),
{
    match strategy {
        PruneStrategy::RobustPrune => {
            law_robust_prune(data, node, list, alpha, r_max, saturate);
        },
        PruneStrategy::DirectionalPrune => {
            law_directional_prune(data, node, list, alpha, r_max, saturate);
        },
    }
}

} // verus!
