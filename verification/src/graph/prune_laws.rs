//! What the prunings guarantee.
use vstd::prelude::*;
use crate::distance::arith;
use crate::distance::single::{F32, MAX_BITS, ONE_BITS, ONE_POINT_TWO_BITS};
use crate::graph::candidates;
use crate::graph::robust_prune;
use crate::graph::robust_prune::{DirectionalPruneConfig, PruneSpace, PruneState, PruneStrategy};

verus! {

/// Places of candidates, each once.
pub open spec fn distinct_places(places: Seq<int>, n: nat) -> bool {
    &&& places.no_duplicates()
    &&& forall|i: int| 0 <= i < places.len() ==> 0 <= (#[trigger] places[i]) < n
}

/// The kept candidates are settled, each is kept once, and there are at most `r_max`.
spec fn consistent(space: PruneSpace, state: PruneState, r_max: nat) -> bool {
    &&& state.occlusion.len() == space.scored.len()
    &&& distinct_places(state.kept, space.scored.len())
    &&& state.kept.len() <= r_max
    &&& forall|k: int|
        0 <= k < state.kept.len() ==> robust_prune::settled(
            state.occlusion[#[trigger] state.kept[k]],
        )
}

proof fn lemma_visit_consistent(
    space: PruneSpace,
    state: PruneState,
    i: int,
    threshold: F32,
    r_max: nat,
)
    requires
        consistent(space, state, r_max),
        0 <= i < space.scored.len(),
    ensures
        consistent(space, space.visit(state, i, threshold, r_max), r_max),
{
    let after = space.visit(state, i, threshold, r_max);
    if after.kept.len() > state.kept.len() {
        assert(after.kept == state.kept.push(i));
        assert(!state.kept.contains(i)) by {
            if state.kept.contains(i) {
                let k = choose|k: int| 0 <= k < state.kept.len() && state.kept[k] == i;
                assert(robust_prune::settled(state.occlusion[state.kept[k]]));
            }
        }
        assert forall|a: int, b: int|
            0 <= a < after.kept.len() && 0 <= b < after.kept.len() && a != b implies after.kept[a]
            != after.kept[b] by {
            if a == state.kept.len() && b < state.kept.len() {
                assert(state.kept.contains(state.kept[b]));
            }
            if b == state.kept.len() && a < state.kept.len() {
                assert(state.kept.contains(state.kept[a]));
            }
        }
        assert forall|k: int| 0 <= k < after.kept.len() implies robust_prune::settled(
            after.occlusion[#[trigger] after.kept[k]],
        ) by {
            if k < state.kept.len() {
                assert(after.kept[k] == state.kept[k]);
            }
        }
    } else {
        assert(after.kept == state.kept);
        assert forall|k: int| 0 <= k < after.kept.len() implies robust_prune::settled(
            after.occlusion[#[trigger] after.kept[k]],
        ) by {
            assert(robust_prune::settled(state.occlusion[state.kept[k]]));
        }
    }
}

proof fn lemma_scan_consistent(
    space: PruneSpace,
    state: PruneState,
    i: int,
    threshold: F32,
    r_max: nat,
)
    requires
        consistent(space, state, r_max),
        0 <= i <= space.scored.len(),
    ensures
        consistent(space, space.scan(state, i, threshold, r_max), r_max),
        state.kept.is_prefix_of(space.scan(state, i, threshold, r_max).kept),
    decreases i,
{
    if i > 0 {
        lemma_scan_consistent(space, state, i - 1, threshold, r_max);
        let before = space.scan(state, i - 1, threshold, r_max);
        lemma_visit_consistent(space, before, i - 1, threshold, r_max);
        let after = space.scan(state, i, threshold, r_max);
        assert(before.kept.is_prefix_of(after.kept));
        assert(state.kept.is_prefix_of(after.kept)) by {
            assert(state.kept =~= after.kept.take(state.kept.len() as int));
        }
    }
}

proof fn lemma_rounds_consistent(
    space: PruneSpace,
    state: PruneState,
    threshold: F32,
    alpha: F32,
    r_max: nat,
)
    requires
        consistent(space, state, r_max),
        robust_prune::threshold_valid(threshold, alpha),
    ensures
        consistent(space, space.rounds(state, threshold, alpha, r_max), r_max),
        state.kept.is_prefix_of(space.rounds(state, threshold, alpha, r_max).kept),
    decreases alpha.rank() - threshold.rank(),
{
    if state.kept.len() < r_max {
        let n = space.scored.len() as int;
        lemma_scan_consistent(space, state, n, threshold, r_max);
        let next = space.scan(state, n, threshold, r_max);
        if !alpha.at_most(threshold) {
            robust_prune::lemma_threshold_rises(threshold, alpha);
            let t = robust_prune::next_threshold(threshold, alpha);
            lemma_rounds_consistent(space, next, t, alpha, r_max);
            let end = space.rounds(next, t, alpha, r_max);
            assert(state.kept =~= end.kept.take(state.kept.len() as int));
        }
    }
}

proof fn lemma_start_consistent(space: PruneSpace, r_max: nat)
    ensures
        consistent(space, space.start(), r_max),
{
}

proof fn lemma_filled(space: PruneSpace, state: PruneState, i: int, r_max: nat)
    requires
        consistent(space, state, r_max),
        0 <= i <= space.scored.len(),
    ensures
        ({
            let f = space.filled(state, i, r_max);
            &&& distinct_places(f, space.scored.len())
            &&& f.len() <= r_max
            &&& state.kept.is_prefix_of(f)
            &&& forall|k: int| state.kept.len() <= k < f.len() ==> 0 <= (#[trigger] f[k]) < i
            &&& f.len() < r_max ==> forall|j: int|
                0 <= j < i ==> f.contains(j) || robust_prune::settled(
                    #[trigger] state.occlusion[j],
                )
        }),
    decreases i,
{
    let f = space.filled(state, i, r_max);
    if i > 0 {
        lemma_filled(space, state, i - 1, r_max);
        let before = space.filled(state, i - 1, r_max);
        if f == before {
            if f.len() < r_max {
                assert forall|j: int| 0 <= j < i implies f.contains(j) || robust_prune::settled(
                    #[trigger] state.occlusion[j],
                ) by {
                }
            }
        } else {
            assert(f == before.push(i - 1));
            assert(!before.contains(i - 1)) by {
                if before.contains(i - 1) {
                    let k = choose|k: int| 0 <= k < before.len() && before[k] == i - 1;
                    if k < state.kept.len() {
                        assert(before[k] == state.kept[k]);
                        assert(robust_prune::settled(state.occlusion[state.kept[k]]));
                    }
                }
            }
            assert forall|a: int, b: int|
                0 <= a < f.len() && 0 <= b < f.len() && a != b implies f[a] != f[b] by {
                if a == before.len() {
                    assert(before.contains(before[b]));
                } else if b == before.len() {
                    assert(before.contains(before[a]));
                }
            }
            assert(state.kept =~= f.take(state.kept.len() as int));
            if f.len() < r_max {
                assert forall|j: int| 0 <= j < i implies f.contains(j) || robust_prune::settled(
                    #[trigger] state.occlusion[j],
                ) by {
                    if j == i - 1 {
                        assert(f[before.len() as int] == j);
                    } else if before.contains(j) {
                        let k = choose|k: int| 0 <= k < before.len() && before[k] == j;
                        assert(f[k] == j);
                    }
                }
            }
        }
    }
}

proof fn lemma_directed(space: PruneSpace, i: int, r_max: nat)
    requires
        0 <= i <= space.scored.len(),
    ensures
        ({
            let d = space.directed(i, r_max);
            &&& distinct_places(d, i as nat)
            &&& d.len() <= r_max
            &&& i >= 1 && r_max >= 1 ==> d.len() >= 1 && d[0] == 0
        }),
    decreases i,
{
    if i > 0 {
        lemma_directed(space, i - 1, r_max);
        let before = space.directed(i - 1, r_max);
        let d = space.directed(i, r_max);
        assert forall|a: int, b: int| 0 <= a < d.len() && 0 <= b < d.len() && a != b implies d[a]
            != d[b] by {
            if d != before {
                if a == before.len() {
                    assert(before[b] < i - 1);
                } else if b == before.len() {
                    assert(before[a] < i - 1);
                }
            }
        }
        assert forall|a: int| 0 <= a < d.len() implies 0 <= (#[trigger] d[a]) < i by {
            if a < before.len() {
                assert(d[a] == before[a]);
            }
        }
    }
}

proof fn lemma_backfilled(
    space: PruneSpace,
    first: Seq<int>,
    i: int,
    r_min: nat,
    alpha: F32,
)
    requires
        0 <= i <= space.scored.len(),
        distinct_places(first, space.scored.len()),
    ensures
        ({
            let b = space.backfilled(first, i, r_min, alpha);
            &&& distinct_places(b, space.scored.len())
            &&& first.is_prefix_of(b)
            &&& b.len() <= r_min || b == first
            &&& forall|k: int| first.len() <= k < b.len() ==> 0 <= (#[trigger] b[k]) < i
        }),
    decreases i,
{
    if i > 0 {
        lemma_backfilled(space, first, i - 1, r_min, alpha);
        let before = space.backfilled(first, i - 1, r_min, alpha);
        let b = space.backfilled(first, i, r_min, alpha);
        if b != before {
            assert(b == before.push(i - 1));
            assert(!before.contains(i - 1)) by {
                if before.contains(i - 1) {
                    let k = choose|k: int| 0 <= k < before.len() && before[k] == i - 1;
                    if k < first.len() {
                        assert(first[k] == before[k]);
                        assert(first.contains(i - 1));
                    }
                }
            }
            assert forall|x: int, y: int|
                0 <= x < b.len() && 0 <= y < b.len() && x != y implies b[x] != b[y] by {
                if x == before.len() {
                    assert(before.contains(before[y]));
                } else if y == before.len() {
                    assert(before.contains(before[x]));
                }
            }
            assert(first =~= b.take(first.len() as int));
        }
    }
}

/// Distinct places have distinct ids, all of them candidates other than the node.
proof fn lemma_ids(
    space: PruneSpace,
    places: Seq<int>,
    list: Seq<u32>,
    node: u32,
    dist: spec_fn(u32) -> F32,
)
    requires
        candidates::is_prepared(space.scored, list, node, dist),
        distinct_places(places, space.scored.len()),
    ensures
        space.ids(places).no_duplicates(),
        forall|i: int|
            0 <= i < space.ids(places).len() ==> list.contains(#[trigger] space.ids(places)[i])
                && space.ids(places)[i] != node,
{
    let ids = space.ids(places);
    assert forall|a: int, b: int| 0 <= a < ids.len() && 0 <= b < ids.len() && a != b implies ids[a]
        != ids[b] by {
        let x = places[a];
        let y = places[b];
        if x < y {
            assert(candidates::nearer(space.scored[x], space.scored[y]));
        } else {
            assert(candidates::nearer(space.scored[y], space.scored[x]));
        }
    }
    assert forall|i: int| 0 <= i < ids.len() implies list.contains(#[trigger] ids[i]) && ids[i]
        != node by {
        let s = space.scored[places[i]];
        assert(list.contains(s.1));
    }
}

/// The space of a pruning over the given candidates.
pub open spec fn space_over(
    list: Seq<u32>,
    node: u32,
    dist: spec_fn(u32) -> F32,
    pair: spec_fn(u32, u32) -> F32,
) -> PruneSpace {
    PruneSpace { scored: candidates::prepared(list, node, dist), pair }
}

/// What a pruning keeps are candidates, none twice, never the node itself, and at most `r_max`.
pub proof fn law_prune_keeps_candidates(
    strategy: PruneStrategy,
    list: Seq<u32>,
    node: u32,
    dist: spec_fn(u32) -> F32,
    pair: spec_fn(u32, u32) -> F32,
    alpha: F32,
    r_max: usize,
    saturate: bool,
)
    requires
        !alpha.nan(),
    ensures
        ({
            let kept = robust_prune::kept_by(
                strategy,
                space_over(list, node, dist, pair),
                alpha,
                r_max,
                saturate,
            );
            &&& kept.no_duplicates()
            &&& forall|i: int|
                0 <= i < kept.len() ==> list.contains(#[trigger] kept[i]) && kept[i] != node
            &&& kept.len() <= r_max
        }),
{
    let space = space_over(list, node, dist, pair);
    let n = space.scored.len() as int;
    candidates::lemma_prepared(list, node, dist);
    match strategy {
        PruneStrategy::RobustPrune => {
            lemma_start_consistent(space, r_max as nat);
            lemma_rounds_consistent(
                space,
                space.start(),
                F32(ONE_BITS),
                alpha,
                r_max as nat,
            );
            let end = space.rounds(space.start(), F32(ONE_BITS), alpha, r_max as nat);
            lemma_filled(space, end, n, r_max as nat);
            lemma_ids(space, end.kept, list, node, dist);
            lemma_ids(space, space.filled(end, n, r_max as nat), list, node, dist);
        },
        PruneStrategy::DirectionalPrune => {
            let config = DirectionalPruneConfig::params(r_max, alpha);
            law_directional_prune_keeps_candidates(
                list,
                node,
                dist,
                pair,
                r_max as nat,
                config.r_min as nat,
                config.backfill_alpha,
            );
        },
    }
}

/// What `DirectionalPrune` keeps are candidates, none twice, never the node itself, and at most
/// `r_max`, whatever `r_min` and the threshold for the rest are. The nearest candidate comes first.
pub proof fn law_directional_prune_keeps_candidates(
    list: Seq<u32>,
    node: u32,
    dist: spec_fn(u32) -> F32,
    pair: spec_fn(u32, u32) -> F32,
    r_max: nat,
    r_min: nat,
    backfill_alpha: F32,
)
    ensures
        ({
            let space = space_over(list, node, dist, pair);
            let kept = space.directional(r_max, r_min, backfill_alpha);
            &&& kept.no_duplicates()
            &&& forall|i: int|
                0 <= i < kept.len() ==> list.contains(#[trigger] kept[i]) && kept[i] != node
            &&& kept.len() <= r_max
            &&& r_max >= 1 && space.scored.len() >= 1 ==> kept.len() >= 1 && kept[0]
                == space.scored[0].1
        }),
{
    let space = space_over(list, node, dist, pair);
    let n = space.scored.len() as int;
    candidates::lemma_prepared(list, node, dist);
    lemma_directed(space, n, r_max);
    let first = space.directed(n, r_max);
    let floor = robust_prune::floor_of(r_max, r_min);
    lemma_backfilled(space, first, n, floor, backfill_alpha);
    let all = space.backfilled(first, n, floor, backfill_alpha);
    lemma_ids(space, all, list, node, dist);
    if r_max >= 1 && n >= 1 {
        assert(all[0] == 0) by {
            assert(first[0] == all.take(first.len() as int)[0]);
        }
    }
}

/// As long as a neighbour may be kept at all and there is a candidate, the nearest candidate is
/// kept, first.
pub proof fn law_prune_keeps_the_nearest(
    strategy: PruneStrategy,
    list: Seq<u32>,
    node: u32,
    dist: spec_fn(u32) -> F32,
    pair: spec_fn(u32, u32) -> F32,
    alpha: F32,
    r_max: usize,
    saturate: bool,
)
    requires
        !alpha.nan(),
        r_max >= 1,
        space_over(list, node, dist, pair).scored.len() >= 1,
    ensures
        ({
            let space = space_over(list, node, dist, pair);
            let kept = robust_prune::kept_by(strategy, space, alpha, r_max, saturate);
            kept.len() >= 1 && kept[0] == space.scored[0].1
        }),
{
    let space = space_over(list, node, dist, pair);
    let n = space.scored.len() as int;
    match strategy {
        PruneStrategy::RobustPrune => {
            let one = F32(ONE_BITS);
            let start = space.start();
            lemma_start_consistent(space, r_max as nat);
            lemma_first_kept(space, n, r_max as nat);
            let first = space.scan(start, n, one, r_max as nat);
            lemma_scan_consistent(space, start, n, one, r_max as nat);
            if !alpha.at_most(one) {
                robust_prune::lemma_threshold_rises(one, alpha);
                lemma_rounds_consistent(
                    space,
                    first,
                    robust_prune::next_threshold(one, alpha),
                    alpha,
                    r_max as nat,
                );
            }
            let end = space.rounds(start, one, alpha, r_max as nat);
            lemma_rounds_consistent(space, start, one, alpha, r_max as nat);
            assert(first.kept.is_prefix_of(end.kept));
            assert(end.kept[0] == 0) by {
                assert(first.kept[0] == end.kept.take(first.kept.len() as int)[0]);
            }
            lemma_filled(space, end, n, r_max as nat);
            let f = space.filled(end, n, r_max as nat);
            assert(f[0] == 0) by {
                assert(end.kept[0] == f.take(end.kept.len() as int)[0]);
            }
        },
        PruneStrategy::DirectionalPrune => {
            let config = DirectionalPruneConfig::params(r_max, alpha);
            law_directional_prune_keeps_candidates(
                list,
                node,
                dist,
                pair,
                r_max as nat,
                config.r_min as nat,
                config.backfill_alpha,
            );
        },
    }
}

proof fn lemma_first_kept(space: PruneSpace, i: int, r_max: nat)
    requires
        1 <= i <= space.scored.len(),
        r_max >= 1,
    ensures
        ({
            let s = space.scan(space.start(), i, F32(ONE_BITS), r_max);
            s.kept.len() >= 1 && s.kept[0] == 0
        }),
    decreases i,
{
    let one = F32(ONE_BITS);
    if i == 1 {
        assert(space.scan(space.start(), 0, one, r_max) == space.start());
        assert(space.occluded(0, F32(0), space.start().kept, 0, one) == F32(0));
        assert(!one.below(F32(0)));
    } else {
        lemma_first_kept(space, i - 1, r_max);
    }
}

/// With filling, free slots are left only where no candidate is left: every candidate is kept, or
/// is settled because it has the vector of a kept one.
pub proof fn law_saturation_fills_up(space: PruneSpace, alpha: F32, r_max: nat)
    requires
        !alpha.nan(),
    ensures
        ({
            let n = space.scored.len() as int;
            let end = space.rounds(space.start(), F32(ONE_BITS), alpha, r_max);
            let places = space.filled(end, n, r_max);
            &&& space.robust(alpha, r_max, true) == space.ids(places)
            &&& places.len() < r_max ==> forall|j: int|
                0 <= j < n ==> places.contains(j) || robust_prune::settled(
                    #[trigger] end.occlusion[j],
                )
        }),
{
    let n = space.scored.len() as int;
    lemma_start_consistent(space, r_max);
    lemma_rounds_consistent(space, space.start(), F32(ONE_BITS), alpha, r_max);
    lemma_filled(space, space.rounds(space.start(), F32(ONE_BITS), alpha, r_max), n, r_max);
}

/// No two candidates have the same vector, and no ratio of distances is the mark of a settled
/// candidate.
pub open spec fn apart(space: PruneSpace) -> bool {
    forall|j: int, i: int|
        0 <= j < i < space.scored.len() ==> !(#[trigger] space.between(j, i)).zero()
            && !robust_prune::settled(space.scored[i].0.over(space.between(j, i)))
}

/// Only kept candidates are settled.
spec fn only_kept_settled(state: PruneState) -> bool {
    forall|i: int|
        0 <= i < state.occlusion.len() && robust_prune::settled(#[trigger] state.occlusion[i])
            ==> state.kept.contains(i)
}

proof fn lemma_occluded_unsettled(
    space: PruneSpace,
    i: int,
    f: F32,
    kept: Seq<int>,
    k: int,
    threshold: F32,
)
    requires
        apart(space),
        0 <= i < space.scored.len(),
        0 <= k <= kept.len(),
        distinct_places(kept, space.scored.len()),
        !robust_prune::settled(f),
    ensures
        !robust_prune::settled(space.occluded(i, f, kept, k, threshold)),
    decreases kept.len() - k,
{
    if k < kept.len() {
        if kept[k] >= i {
            lemma_occluded_unsettled(space, i, f, kept, k + 1, threshold);
        } else {
            assert(!space.between(kept[k], i).zero());
            let ratio = space.scored[i].0.over(space.between(kept[k], i));
            let g = if f.below(ratio) {
                ratio
            } else {
                f
            };
            if !threshold.below(g) {
                lemma_occluded_unsettled(space, i, g, kept, k + 1, threshold);
            }
        }
    }
}

proof fn lemma_scan_settles_kept(
    space: PruneSpace,
    state: PruneState,
    i: int,
    threshold: F32,
    r_max: nat,
)
    requires
        apart(space),
        consistent(space, state, r_max),
        only_kept_settled(state),
        0 <= i <= space.scored.len(),
    ensures
        only_kept_settled(space.scan(state, i, threshold, r_max)),
    decreases i,
{
    if i > 0 {
        lemma_scan_settles_kept(space, state, i - 1, threshold, r_max);
        lemma_scan_consistent(space, state, i - 1, threshold, r_max);
        let before = space.scan(state, i - 1, threshold, r_max);
        let after = space.scan(state, i, threshold, r_max);
        let f = before.occlusion[i - 1];
        if !(before.kept.len() >= r_max || robust_prune::settled(f) || threshold.below(f)) {
            let g = space.occluded(i - 1, f, before.kept, 0, threshold);
            lemma_occluded_unsettled(space, i - 1, f, before.kept, 0, threshold);
            assert forall|j: int|
                0 <= j < after.occlusion.len() && robust_prune::settled(
                    #[trigger] after.occlusion[j],
                ) implies after.kept.contains(j) by {
                if j != i - 1 {
                    assert(after.occlusion[j] == before.occlusion[j]);
                    let k = choose|k: int| 0 <= k < before.kept.len() && before.kept[k] == j;
                    assert(after.kept[k] == j);
                } else {
                    assert(after.kept == before.kept.push(i - 1));
                    assert(after.kept[before.kept.len() as int] == j);
                }
            }
        }
    }
}

proof fn lemma_rounds_settle_kept(
    space: PruneSpace,
    state: PruneState,
    threshold: F32,
    alpha: F32,
    r_max: nat,
)
    requires
        apart(space),
        consistent(space, state, r_max),
        only_kept_settled(state),
        robust_prune::threshold_valid(threshold, alpha),
    ensures
        only_kept_settled(space.rounds(state, threshold, alpha, r_max)),
    decreases alpha.rank() - threshold.rank(),
{
    if state.kept.len() < r_max {
        let n = space.scored.len() as int;
        lemma_scan_consistent(space, state, n, threshold, r_max);
        lemma_scan_settles_kept(space, state, n, threshold, r_max);
        if !alpha.at_most(threshold) {
            robust_prune::lemma_threshold_rises(threshold, alpha);
            lemma_rounds_settle_kept(
                space,
                space.scan(state, n, threshold, r_max),
                robust_prune::next_threshold(threshold, alpha),
                alpha,
                r_max,
            );
        }
    }
}

/// Different places among `n` are at most `n`, and `n` where none is missing.
proof fn lemma_places_count(places: Seq<int>, n: nat)
    requires
        distinct_places(places, n),
    ensures
        places.len() <= n,
        (forall|j: int| 0 <= j < n ==> #[trigger] places.contains(j)) ==> places.len() == n,
{
    let all = vstd::set_lib::set_int_range(0, n as int);
    vstd::set_lib::lemma_int_range(0, n as int);
    places.unique_seq_to_set();
    assert forall|x: int| #[trigger] places.to_set().contains(x) implies all.contains(x) by {
        let k = choose|k: int| 0 <= k < places.len() && places[k] == x;
        assert(0 <= places[k] < n);
    }
    assert(places.to_set().subset_of(all));
    vstd::set_lib::lemma_len_subset(places.to_set(), all);
    if forall|j: int| 0 <= j < n ==> #[trigger] places.contains(j) {
        assert(places.to_set() =~= all) by {
            assert forall|x: int| all.contains(x) implies #[trigger] places.to_set().contains(
                x,
            ) by {
                assert(places.contains(x));
            }
        }
    }
}

/// There are as many prepared candidates as different ones other than the node.
proof fn lemma_prepared_count(list: Seq<u32>, node: u32, dist: spec_fn(u32) -> F32)
    ensures
        candidates::prepared(list, node, dist).len() == list.to_set().remove(node).len(),
{
    candidates::lemma_prepared(list, node, dist);
    let scored = candidates::prepared(list, node, dist);
    let ids = Seq::new(scored.len(), |i: int| scored[i].1);
    assert forall|i: int, j: int| 0 <= i < j < ids.len() implies ids[i] != ids[j] by {
        assert(candidates::nearer(scored[i], scored[j]));
        assert(scored[i].0 == dist(scored[i].1) && scored[j].0 == dist(scored[j].1));
    }
    ids.unique_seq_to_set();
    let want = list.to_set().remove(node);
    assert forall|x: u32| #[trigger] ids.to_set().contains(x) implies want.contains(x) by {
        let k = choose|k: int| 0 <= k < ids.len() && ids[k] == x;
        assert(list.contains(scored[k].1) && scored[k].1 != node);
    }
    assert forall|x: u32| #[trigger] want.contains(x) implies ids.to_set().contains(x) by {
        assert(list.contains(x) && x != node);
        assert(candidates::lists(scored, x));
        let k = choose|k: int| 0 <= k < scored.len() && (#[trigger] scored[k]).1 == x;
        assert(ids[k] == x);
    }
    assert(ids.to_set() =~= want);
}

/// Where no two candidates have the same vector, filling leaves no slot free that a candidate could
/// take: as many are kept as there are different candidates other than the node, and at most
/// `r_max`.
pub proof fn law_saturation_keeps_as_many_as_it_can(
    list: Seq<u32>,
    node: u32,
    dist: spec_fn(u32) -> F32,
    pair: spec_fn(u32, u32) -> F32,
    alpha: F32,
    r_max: nat,
)
    requires
        !alpha.nan(),
        apart(space_over(list, node, dist, pair)),
    ensures
        ({
            let count = list.to_set().remove(node).len();
            space_over(list, node, dist, pair).robust(alpha, r_max, true).len() == if count
                <= r_max {
                count
            } else {
                r_max
            }
        }),
{
    let space = space_over(list, node, dist, pair);
    let n = space.scored.len();
    let end = space.rounds(space.start(), F32(ONE_BITS), alpha, r_max);
    let places = space.filled(end, n as int, r_max);
    lemma_start_consistent(space, r_max);
    lemma_rounds_consistent(space, space.start(), F32(ONE_BITS), alpha, r_max);
    lemma_filled(space, end, n as int, r_max);
    lemma_rounds_settle_kept(space, space.start(), F32(ONE_BITS), alpha, r_max);
    lemma_places_count(places, n);
    lemma_prepared_count(list, node, dist);
    if places.len() < r_max {
        assert forall|j: int| 0 <= j < n implies #[trigger] places.contains(j) by {
            if robust_prune::settled(end.occlusion[j]) {
                assert(end.kept.contains(j));
                let k = choose|k: int| 0 <= k < end.kept.len() && end.kept[k] == j;
                assert(places[k] == end.kept[k]);
            }
        }
    }
}

/// Filling adds to what a pruning keeps and takes nothing away.
pub proof fn law_saturation_only_adds(space: PruneSpace, alpha: F32, r_max: nat)
    requires
        !alpha.nan(),
    ensures
        space.robust(alpha, r_max, false).is_prefix_of(space.robust(alpha, r_max, true)),
{
    let n = space.scored.len() as int;
    let end = space.rounds(space.start(), F32(ONE_BITS), alpha, r_max);
    let places = space.filled(end, n, r_max);
    lemma_start_consistent(space, r_max);
    lemma_rounds_consistent(space, space.start(), F32(ONE_BITS), alpha, r_max);
    lemma_filled(space, end, n, r_max);
    let a = space.robust(alpha, r_max, false);
    let b = space.robust(alpha, r_max, true);
    assert(a =~= b.subrange(0, a.len() as int)) by {
        assert forall|i: int| 0 <= i < a.len() implies a[i] == b[i] by {
            assert(end.kept[i] == places.subrange(0, end.kept.len() as int)[i]);
        }
    }
}

/// The candidate at place `i` is not occluded by the one at place `j` at this threshold: it has
/// another vector, and its distance to the node is not more than the threshold times its distance
/// to `j`.
pub open spec fn visible(space: PruneSpace, j: int, i: int, threshold: F32) -> bool {
    !space.between(j, i).zero() && !threshold.below(
        space.scored[i].0.over(space.between(j, i)),
    )
}

/// No kept candidate is occluded by a nearer one that was kept before it.
pub open spec fn unoccluded(space: PruneSpace, kept: Seq<int>, threshold: F32) -> bool {
    forall|a: int, b: int|
        #![trigger kept[a], kept[b]]
        0 <= a < b < kept.len() && kept[a] < kept[b] ==> visible(
            space,
            kept[a],
            kept[b],
            threshold,
        )
}

proof fn lemma_occluded(
    space: PruneSpace,
    i: int,
    f: F32,
    kept: Seq<int>,
    k: int,
    threshold: F32,
)
    requires
        0 <= k <= kept.len(),
        !threshold.nan(),
        threshold.rank() < MAX_BITS,
        !threshold.below(space.occluded(i, f, kept, k, threshold)),
        !threshold.below(f),
        !f.nan(),
    ensures
        forall|m: int|
            k <= m < kept.len() && kept[m] < i ==> visible(
                space,
                #[trigger] kept[m],
                i,
                threshold,
            ),
    decreases kept.len() - k,
{
    if k < kept.len() {
        if kept[k] >= i {
            lemma_occluded(space, i, f, kept, k + 1, threshold);
        } else if space.between(kept[k], i).zero() {
            assert(threshold.below(F32(MAX_BITS)));
        } else {
            let ratio = space.scored[i].0.over(space.between(kept[k], i));
            let g = if f.below(ratio) {
                ratio
            } else {
                f
            };
            assert(!threshold.below(g));
            lemma_occluded(space, i, g, kept, k + 1, threshold);
            assert(!threshold.below(ratio));
        }
    }
}

/// The factors of unsettled candidates are numbers.
spec fn factors_are_numbers(state: PruneState) -> bool {
    forall|i: int| 0 <= i < state.occlusion.len() ==> !(#[trigger] state.occlusion[i]).nan()
}

proof fn lemma_occluded_number(
    space: PruneSpace,
    i: int,
    f: F32,
    kept: Seq<int>,
    k: int,
    threshold: F32,
)
    requires
        0 <= k <= kept.len(),
        !f.nan(),
    ensures
        !space.occluded(i, f, kept, k, threshold).nan(),
    decreases kept.len() - k,
{
    if k < kept.len() {
        if kept[k] >= i {
            lemma_occluded_number(space, i, f, kept, k + 1, threshold);
        } else if !space.between(kept[k], i).zero() {
            let ratio = space.scored[i].0.over(space.between(kept[k], i));
            let g = if f.below(ratio) {
                ratio
            } else {
                f
            };
            lemma_occluded_number(space, i, g, kept, k + 1, threshold);
        }
    }
}

proof fn lemma_scan_unoccluded(
    space: PruneSpace,
    state: PruneState,
    i: int,
    threshold: F32,
    r_max: nat,
)
    requires
        state.occlusion.len() == space.scored.len(),
        0 <= i <= space.scored.len(),
        !threshold.nan(),
        threshold.rank() < MAX_BITS,
        factors_are_numbers(state),
        unoccluded(space, state.kept, threshold),
    ensures
        space.scan(state, i, threshold, r_max).occlusion.len() == space.scored.len(),
        factors_are_numbers(space.scan(state, i, threshold, r_max)),
        unoccluded(space, space.scan(state, i, threshold, r_max).kept, threshold),
    decreases i,
{
    if i > 0 {
        lemma_scan_unoccluded(space, state, i - 1, threshold, r_max);
        let before = space.scan(state, i - 1, threshold, r_max);
        let f = before.occlusion[i - 1];
        if !(before.kept.len() >= r_max || robust_prune::settled(f) || threshold.below(f)) {
            lemma_occluded_number(space, i - 1, f, before.kept, 0, threshold);
            let g = space.occluded(i - 1, f, before.kept, 0, threshold);
            if !threshold.below(g) {
                lemma_occluded(space, i - 1, f, before.kept, 0, threshold);
                let kept = before.kept.push(i - 1);
                assert forall|a: int, b: int|
                    #![trigger kept[a], kept[b]]
                    0 <= a < b < kept.len() && kept[a] < kept[b] implies visible(
                    space,
                    kept[a],
                    kept[b],
                    threshold,
                ) by {
                    if b == before.kept.len() {
                        assert(before.kept[a] == kept[a]);
                    } else {
                        assert(before.kept[a] == kept[a] && before.kept[b] == kept[b]);
                    }
                }
            }
        }
    }
}

proof fn lemma_rounds_unoccluded(
    space: PruneSpace,
    state: PruneState,
    threshold: F32,
    alpha: F32,
    r_max: nat,
)
    requires
        state.occlusion.len() == space.scored.len(),
        robust_prune::threshold_valid(threshold, alpha),
        threshold.rank() < MAX_BITS,
        alpha.rank() < MAX_BITS,
        factors_are_numbers(state),
        unoccluded(space, state.kept, threshold),
    ensures
        ({
            let last = if alpha.at_most(threshold) {
                threshold
            } else {
                alpha
            };
            unoccluded(space, space.rounds(state, threshold, alpha, r_max).kept, last)
        }),
    decreases alpha.rank() - threshold.rank(),
{
    let n = space.scored.len() as int;
    let last = if alpha.at_most(threshold) {
        threshold
    } else {
        alpha
    };
    if state.kept.len() >= r_max {
        lemma_unoccluded_rises(space, state.kept, threshold, last);
    } else {
        lemma_scan_unoccluded(space, state, n, threshold, r_max);
        let next = space.scan(state, n, threshold, r_max);
        if !alpha.at_most(threshold) {
            robust_prune::lemma_threshold_rises(threshold, alpha);
            let t = robust_prune::next_threshold(threshold, alpha);
            lemma_unoccluded_rises(space, next.kept, threshold, t);
            lemma_rounds_unoccluded(space, next, t, alpha, r_max);
            let end = space.rounds(next, t, alpha, r_max);
            if alpha.at_most(t) {
                lemma_unoccluded_rises(space, end.kept, t, alpha);
            }
        }
    }
}

proof fn lemma_unoccluded_rises(space: PruneSpace, kept: Seq<int>, low: F32, high: F32)
    requires
        unoccluded(space, kept, low),
        !low.nan(),
        !high.nan(),
        low.rank() <= high.rank(),
    ensures
        unoccluded(space, kept, high),
{
    assert forall|a: int, b: int|
        #![trigger kept[a], kept[b]]
        0 <= a < b < kept.len() && kept[a] < kept[b] implies visible(
        space,
        kept[a],
        kept[b],
        high,
    ) by {
        assert(visible(space, kept[a], kept[b], low));
    }
}

/// Without filling, no neighbour that is kept is occluded, at the threshold `alpha` (or one, where
/// `alpha` is less), by a nearer one that was kept before it.
pub proof fn law_kept_neighbours_are_not_occluded(space: PruneSpace, alpha: F32, r_max: nat)
    requires
        !alpha.nan(),
        alpha.rank() < MAX_BITS,
    ensures
        ({
            let end = space.rounds(space.start(), F32(ONE_BITS), alpha, r_max);
            &&& space.robust(alpha, r_max, false) == space.ids(end.kept)
            &&& unoccluded(space, end.kept, alpha.greater(F32(ONE_BITS)))
        }),
{
    lemma_rounds_unoccluded(space, space.start(), F32(ONE_BITS), alpha, r_max);
    let end = space.rounds(space.start(), F32(ONE_BITS), alpha, r_max);
    if alpha.at_most(F32(ONE_BITS)) {
        lemma_unoccluded_rises(
            space,
            end.kept,
            F32(ONE_BITS),
            alpha.greater(F32(ONE_BITS)),
        );
    }
}

/// A pruning with a threshold of one keeps a first part of what a pruning with any other threshold
/// keeps, so no other threshold keeps fewer.
pub proof fn law_threshold_one_keeps_fewest(space: PruneSpace, alpha: F32, r_max: nat)
    requires
        !alpha.nan(),
    ensures
        space.robust(F32(ONE_BITS), r_max, false).is_prefix_of(
            space.robust(alpha, r_max, false),
        ),
        space.robust(F32(ONE_BITS), r_max, false).len() <= space.robust(alpha, r_max, false).len(),
{
    let one = F32(ONE_BITS);
    let start = space.start();
    let first = space.rounds(start, one, one, r_max);
    let end = space.rounds(start, one, alpha, r_max);
    assert(one.at_most(one));
    if start.kept.len() < r_max {
        let next = space.scan(start, space.scored.len() as int, one, r_max);
        assert(first == next);
        if !alpha.at_most(one) {
            robust_prune::lemma_threshold_rises(one, alpha);
            lemma_start_consistent(space, r_max);
            lemma_scan_consistent(space, start, space.scored.len() as int, one, r_max);
            lemma_rounds_consistent(
                space,
                next,
                robust_prune::next_threshold(one, alpha),
                alpha,
                r_max,
            );
        }
    }
    assert(first.kept.is_prefix_of(end.kept));
    let a = space.robust(one, r_max, false);
    let b = space.robust(alpha, r_max, false);
    assert(a =~= b.subrange(0, a.len() as int)) by {
        assert forall|i: int| 0 <= i < a.len() implies a[i] == b[i] by {
            assert(first.kept[i] == end.kept.subrange(0, first.kept.len() as int)[i]);
        }
    }
}

proof fn lemma_strict(space: PruneSpace, i: int, r_max: nat)
    requires
        0 <= i <= space.scored.len(),
    ensures
        ({
            let kept = space.directed(i, r_max);
            &&& forall|a: int, b: int|
                #![trigger kept[a], kept[b]]
                0 <= a < b < kept.len() ==> !space.between(kept[a], kept[b]).below(
                    space.scored[kept[b]].0,
                )
            &&& kept.len() < r_max ==> forall|j: int|
                0 <= j < i ==> kept.contains(j) || #[trigger] space.overshadowed(kept, j)
        }),
    decreases i,
{
    if i > 0 {
        lemma_strict(space, i - 1, r_max);
        let before = space.directed(i - 1, r_max);
        let kept = space.directed(i, r_max);
        if kept != before {
            assert(kept == before.push(i - 1));
            assert forall|a: int, b: int|
                #![trigger kept[a], kept[b]]
                0 <= a < b < kept.len() implies !space.between(kept[a], kept[b]).below(
                space.scored[kept[b]].0,
            ) by {
                if b == before.len() {
                    assert(!space.overshadowed(before, i - 1));
                    assert(before[a] == kept[a]);
                } else {
                    assert(before[a] == kept[a] && before[b] == kept[b]);
                }
            }
            assert forall|j: int| 0 <= j < i && kept.len() < r_max implies kept.contains(j)
                || #[trigger] space.overshadowed(kept, j) by {
                if j == i - 1 {
                    assert(kept[before.len() as int] == j);
                } else if before.contains(j) {
                    let k = choose|k: int| 0 <= k < before.len() && before[k] == j;
                    assert(kept[k] == j);
                } else {
                    assert(space.overshadowed(before, j));
                    let k = choose|k: int|
                        0 <= k < before.len() && space.between(#[trigger] before[k], j).below(
                            space.scored[j].0,
                        );
                    assert(kept[k] == before[k]);
                }
            }
        }
    }
}

/// No more than `r_max` candidates are kept, whatever is wanted at least.
pub proof fn lemma_directional_len(space: PruneSpace, r_max: nat, r_min: nat, alpha: F32)
    ensures
        space.directional(r_max, r_min, alpha).len() <= r_max,
{
    let n = space.scored.len() as int;
    lemma_directed(space, n, r_max);
    lemma_backfilled(
        space,
        space.directed(n, r_max),
        n,
        robust_prune::floor_of(r_max, r_min),
        alpha,
    );
}

/// `DirectionalPrune` adds nothing to a strict scan that kept `r_min` neighbours or more, and never
/// fills up beyond `r_min` or keeps more than `r_max`. The strict scan keeps no candidate that is
/// nearer to one kept before it than to the node, and leaves out, while there is room, only those
/// that are.
pub proof fn law_directions_are_kept_once(space: PruneSpace, r_max: nat, r_min: nat, alpha: F32)
    ensures
        ({
            let n = space.scored.len() as int;
            let strict = space.directed(n, r_max);
            let kept = space.directional(r_max, r_min, alpha);
            &&& strict.len() >= r_min ==> kept == space.ids(strict)
            &&& strict.len() < r_min ==> kept.len() <= r_min
            &&& kept.len() <= r_max
            &&& space.ids(strict).is_prefix_of(kept)
            &&& forall|a: int, b: int|
                #![trigger strict[a], strict[b]]
                0 <= a < b < strict.len() ==> !space.between(strict[a], strict[b]).below(
                    space.scored[strict[b]].0,
                )
            &&& strict.len() < r_max ==> forall|j: int|
                0 <= j < n ==> strict.contains(j) || #[trigger] space.overshadowed(strict, j)
        }),
{
    let n = space.scored.len() as int;
    let strict = space.directed(n, r_max);
    lemma_strict(space, n, r_max);
    lemma_directed(space, n, r_max);
    let floor = robust_prune::floor_of(r_max, r_min);
    lemma_backfilled(space, strict, n, floor, alpha);
    let all = space.backfilled(strict, n, floor, alpha);
    if strict.len() >= floor {
        assert(all.len() <= floor ==> all.len() == strict.len());
        assert(all =~= strict);
    }
    let kept = space.directional(r_max, r_min, alpha);
    assert(space.ids(strict) =~= kept.take(strict.len() as int)) by {
        assert forall|i: int| 0 <= i < strict.len() implies space.ids(strict)[i] == kept[i] by {
            assert(strict[i] == all.take(strict.len() as int)[i]);
        }
    }
}

/// A kept candidate that is nearer than the one at place `i` occludes it by exactly `f`, or has its
/// vector.
spec fn occluder(space: PruneSpace, kept: Seq<int>, i: int, f: F32) -> bool {
    exists|k: int|
        0 <= k < kept.len() && (#[trigger] kept[k]) < i && (space.between(kept[k], i).zero()
            || space.scored[i].0.over(space.between(kept[k], i)) == f)
}

/// What a candidate's occlusion comes from: nothing yet, that it is kept, or a kept candidate.
spec fn explained(space: PruneSpace, state: PruneState, i: int) -> bool {
    ||| state.occlusion[i] == F32(0)
    ||| state.kept.contains(i)
    ||| occluder(space, state.kept, i, state.occlusion[i])
}

spec fn all_explained(space: PruneSpace, state: PruneState) -> bool {
    &&& state.occlusion.len() == space.scored.len()
    &&& forall|i: int| 0 <= i < space.scored.len() ==> #[trigger] explained(space, state, i)
}

/// After a round at a threshold, a candidate is kept, settled or occluded above the threshold.
spec fn covered(state: PruneState, i: int, threshold: F32) -> bool {
    ||| state.kept.contains(i)
    ||| robust_prune::settled(state.occlusion[i])
    ||| threshold.below(state.occlusion[i])
}

proof fn lemma_occluded_by(
    space: PruneSpace,
    i: int,
    f: F32,
    kept: Seq<int>,
    k: int,
    threshold: F32,
)
    requires
        0 <= k <= kept.len(),
    ensures
        ({
            let g = space.occluded(i, f, kept, k, threshold);
            g == f || occluder(space, kept, i, g)
        }),
    decreases kept.len() - k,
{
    if k < kept.len() {
        if kept[k] >= i {
            lemma_occluded_by(space, i, f, kept, k + 1, threshold);
        } else if !space.between(kept[k], i).zero() {
            let ratio = space.scored[i].0.over(space.between(kept[k], i));
            let g = if f.below(ratio) {
                ratio
            } else {
                f
            };
            if !threshold.below(g) {
                lemma_occluded_by(space, i, g, kept, k + 1, threshold);
            }
        }
    }
}

proof fn lemma_scan_explained(
    space: PruneSpace,
    state: PruneState,
    i: int,
    threshold: F32,
    r_max: nat,
)
    requires
        all_explained(space, state),
        0 <= i <= space.scored.len(),
    ensures
        ({
            let after = space.scan(state, i, threshold, r_max);
            &&& all_explained(space, after)
            &&& after.kept.len() < r_max ==> forall|j: int|
                0 <= j < i ==> #[trigger] covered(after, j, threshold)
        }),
    decreases i,
{
    if i > 0 {
        lemma_scan_explained(space, state, i - 1, threshold, r_max);
        let before = space.scan(state, i - 1, threshold, r_max);
        let after = space.scan(state, i, threshold, r_max);
        let p = i - 1;
        let f = before.occlusion[p];
        lemma_occluded_by(space, p, f, before.kept, 0, threshold);
        assert forall|j: int| 0 <= j < space.scored.len() implies #[trigger] explained(
            space,
            after,
            j,
        ) by {
            assert(explained(space, before, j));
            if before.kept.contains(j) {
                let k = choose|k: int| 0 <= k < before.kept.len() && before.kept[k] == j;
                assert(after.kept[k] == j);
            } else if occluder(space, before.kept, j, before.occlusion[j]) {
                let k = choose|k: int|
                    0 <= k < before.kept.len() && (#[trigger] before.kept[k]) < j && (
                    space.between(before.kept[k], j).zero() || space.scored[j].0.over(
                        space.between(before.kept[k], j),
                    ) == before.occlusion[j]);
                assert(after.kept[k] == before.kept[k]);
            }
            if j == p && after.kept.len() > before.kept.len() {
                assert(after.kept[before.kept.len() as int] == p);
            }
        }
        if after.kept.len() < r_max {
            assert forall|j: int| 0 <= j < i implies #[trigger] covered(after, j, threshold) by {
                if j < p {
                    assert(covered(before, j, threshold));
                    if before.kept.contains(j) {
                        let k = choose|k: int| 0 <= k < before.kept.len() && before.kept[k] == j;
                        assert(after.kept[k] == j);
                    }
                } else if after.kept.len() > before.kept.len() {
                    assert(after.kept[before.kept.len() as int] == p);
                }
            }
        }
    }
}

proof fn lemma_rounds_explained(
    space: PruneSpace,
    state: PruneState,
    threshold: F32,
    alpha: F32,
    r_max: nat,
)
    requires
        all_explained(space, state),
        robust_prune::threshold_valid(threshold, alpha),
    ensures
        ({
            let end = space.rounds(state, threshold, alpha, r_max);
            &&& all_explained(space, end)
            &&& end.kept.len() < r_max ==> forall|j: int|
                0 <= j < space.scored.len() ==> #[trigger] covered(
                    end,
                    j,
                    alpha.greater(F32(ONE_BITS)),
                )
        }),
    decreases alpha.rank() - threshold.rank(),
{
    if state.kept.len() < r_max {
        let n = space.scored.len() as int;
        lemma_scan_explained(space, state, n, threshold, r_max);
        let next = space.scan(state, n, threshold, r_max);
        if alpha.at_most(threshold) {
            let last = alpha.greater(F32(ONE_BITS));
            if next.kept.len() < r_max {
                assert forall|j: int| 0 <= j < n implies #[trigger] covered(next, j, last) by {
                    assert(covered(next, j, threshold));
                }
            }
        } else {
            robust_prune::lemma_threshold_rises(threshold, alpha);
            lemma_rounds_explained(
                space,
                next,
                robust_prune::next_threshold(threshold, alpha),
                alpha,
                r_max,
            );
        }
    }
}

/// The candidate at place `j` hides the one at place `i` from the node at this threshold: they have
/// the same vector, or the distance of `i` to the node is more than the threshold times its distance
/// to `j`.
pub open spec fn hides(space: PruneSpace, j: int, i: int, threshold: F32) -> bool {
    space.between(j, i).zero() || threshold.below(space.scored[i].0.over(space.between(j, i)))
}

/// One of the places, a nearer one, hides the candidate at place `i` at this threshold.
pub open spec fn hidden_by(space: PruneSpace, places: Seq<int>, i: int, threshold: F32) -> bool {
    exists|k: int|
        0 <= k < places.len() && (#[trigger] places[k]) < i && hides(
            space,
            places[k],
            i,
            threshold,
        )
}

/// The places that `RobustPrune` keeps.
pub open spec fn robust_places(
    space: PruneSpace,
    alpha: F32,
    r_max: nat,
    saturate: bool,
) -> Seq<int> {
    let end = space.rounds(space.start(), F32(ONE_BITS), alpha, r_max);
    if saturate {
        space.filled(end, space.scored.len() as int, r_max)
    } else {
        end.kept
    }
}

/// Of the places that `RobustPrune` leaves out while there is room, each is hidden at `alpha` (or at
/// one, where `alpha` is less) by a nearer one that it keeps, with filling and without.
pub proof fn lemma_left_out_are_hidden(space: PruneSpace, alpha: F32, r_max: nat, saturate: bool)
    requires
        !alpha.nan(),
        alpha.rank() < MAX_BITS,
    ensures
        ({
            let n = space.scored.len() as int;
            let places = robust_places(space, alpha, r_max, saturate);
            &&& space.robust(alpha, r_max, saturate) == space.ids(places)
            &&& distinct_places(places, space.scored.len())
            &&& places.len() < r_max ==> forall|i: int|
                0 <= i < n && !(#[trigger] places.contains(i)) ==> hidden_by(
                    space,
                    places,
                    i,
                    alpha.greater(F32(ONE_BITS)),
                )
        }),
{
    let n = space.scored.len() as int;
    let start = space.start();
    let one = F32(ONE_BITS);
    let last = alpha.greater(one);
    assert(all_explained(space, start));
    lemma_rounds_explained(space, start, one, alpha, r_max);
    lemma_start_consistent(space, r_max);
    lemma_rounds_consistent(space, start, one, alpha, r_max);
    let end = space.rounds(start, one, alpha, r_max);
    lemma_filled(space, end, n, r_max);
    let places = robust_places(space, alpha, r_max, saturate);
    if places.len() < r_max {
        assert forall|i: int| 0 <= i < n && !(#[trigger] places.contains(i)) implies hidden_by(
            space,
            places,
            i,
            last,
        ) by {
            assert(end.kept.len() <= places.len());
            assert(explained(space, end, i));
            assert(covered(end, i, last));
            if end.kept.contains(i) {
                let k = choose|k: int| 0 <= k < end.kept.len() && end.kept[k] == i;
                assert(places[k] == i);
            }
            let f = end.occlusion[i];
            assert(occluder(space, end.kept, i, f));
            let k = choose|k: int|
                0 <= k < end.kept.len() && (#[trigger] end.kept[k]) < i && (space.between(
                    end.kept[k],
                    i,
                ).zero() || space.scored[i].0.over(space.between(end.kept[k], i)) == f);
            assert(places[k] == end.kept[k]);
            assert(last.below(F32(MAX_BITS)));
            assert(hides(space, places[k], i, last));
        }
    }
}

proof fn lemma_backfill_blocks(
    space: PruneSpace,
    first: Seq<int>,
    i: int,
    r_min: nat,
    alpha: F32,
)
    requires
        0 <= i <= space.scored.len(),
    ensures
        ({
            let b = space.backfilled(first, i, r_min, alpha);
            &&& first.is_prefix_of(b)
            &&& b.len() < r_min ==> forall|j: int|
                0 <= j < i ==> b.contains(j) || #[trigger] space.blocked(b, j, alpha)
        }),
    decreases i,
{
    if i > 0 {
        lemma_backfill_blocks(space, first, i - 1, r_min, alpha);
        let before = space.backfilled(first, i - 1, r_min, alpha);
        let b = space.backfilled(first, i, r_min, alpha);
        assert(first.is_prefix_of(b)) by {
            assert(first =~= b.take(first.len() as int));
        }
        if b.len() < r_min {
            assert forall|j: int| 0 <= j < i implies b.contains(j) || #[trigger] space.blocked(
                b,
                j,
                alpha,
            ) by {
                if j == i - 1 {
                    if b != before {
                        assert(b[before.len() as int] == j);
                    } else if first.contains(j) {
                        let k = choose|k: int| 0 <= k < first.len() && first[k] == j;
                        assert(first[k] == b.take(first.len() as int)[k]);
                        assert(b[k] == j);
                    }
                } else if before.contains(j) {
                    let k = choose|k: int| 0 <= k < before.len() && before[k] == j;
                    assert(b[k] == j);
                } else {
                    assert(space.blocked(before, j, alpha));
                    let k = choose|k: int|
                        0 <= k < before.len() && (space.between(#[trigger] before[k], j).zero()
                            || alpha.below(
                            space.scored[j].0.over(space.between(before[k], j)),
                        ));
                    assert(b[k] == before[k]);
                }
            }
        }
    }
}

/// Of the places that `DirectionalPrune` leaves out: while there is room, each is nearer to a kept
/// one than to the node; while fewer are kept than wanted, each is hidden by a kept one at the relaxed
/// threshold. Where more are kept than wanted, no kept one is nearer to one kept before it than to the
/// node.
pub proof fn lemma_directional_left_out(space: PruneSpace, r_max: nat, r_min: nat, alpha: F32)
    ensures
        ({
            let n = space.scored.len() as int;
            let places = space.backfilled(
                space.directed(n, r_max),
                n,
                robust_prune::floor_of(r_max, r_min),
                alpha,
            );
            &&& space.directional(r_max, r_min, alpha) == space.ids(places)
            &&& distinct_places(places, space.scored.len())
            &&& places.len() < r_max ==> forall|i: int|
                0 <= i < n && !(#[trigger] places.contains(i)) ==> exists|k: int|
                    0 <= k < places.len() && #[trigger] space.between(places[k], i).below(
                        space.scored[i].0,
                    )
            &&& places.len() < r_max && places.len() < r_min ==> forall|i: int|
                0 <= i < n && !(#[trigger] places.contains(i)) ==> exists|k: int|
                    0 <= k < places.len() && #[trigger] hides(space, places[k], i, alpha)
            &&& places.len() > r_min ==> forall|a: int, b: int|
                #![trigger places[a], places[b]]
                0 <= a < b < places.len() ==> !space.between(places[a], places[b]).below(
                    space.scored[places[b]].0,
                )
        }),
{
    let n = space.scored.len() as int;
    let floor = robust_prune::floor_of(r_max, r_min);
    let strict = space.directed(n, r_max);
    let places = space.backfilled(strict, n, floor, alpha);
    lemma_strict(space, n, r_max);
    lemma_directed(space, n, r_max);
    lemma_backfilled(space, strict, n, floor, alpha);
    lemma_backfill_blocks(space, strict, n, floor, alpha);
    if places.len() < r_max {
        assert forall|i: int| 0 <= i < n && !(#[trigger] places.contains(i)) implies exists|k: int|
            0 <= k < places.len() && #[trigger] space.between(places[k], i).below(
                space.scored[i].0,
            ) by {
            if strict.contains(i) {
                let k = choose|k: int| 0 <= k < strict.len() && strict[k] == i;
                assert(strict[k] == places.take(strict.len() as int)[k]);
                assert(places[k] == i);
            }
            assert(space.overshadowed(strict, i));
            let k = choose|k: int|
                0 <= k < strict.len() && space.between(#[trigger] strict[k], i).below(
                    space.scored[i].0,
                );
            assert(strict[k] == places.take(strict.len() as int)[k]);
            assert(space.between(places[k], i).below(space.scored[i].0));
        }
    }
    if places.len() < r_max && places.len() < r_min {
        assert forall|i: int| 0 <= i < n && !(#[trigger] places.contains(i)) implies exists|k: int|
            0 <= k < places.len() && #[trigger] hides(space, places[k], i, alpha) by {
            assert(space.blocked(places, i, alpha));
            let k = choose|k: int|
                0 <= k < places.len() && (space.between(#[trigger] places[k], i).zero()
                    || alpha.below(space.scored[i].0.over(space.between(places[k], i))));
            assert(hides(space, places[k], i, alpha));
        }
    }
    if places.len() > r_min {
        assert(places == strict);
    }
}

/// The threshold rises from one to 1.2 and then on: what is kept at 1.2 is a first part of what is kept
/// at any greater threshold.
pub proof fn law_threshold_one_point_two_comes_second(space: PruneSpace, alpha: F32, r_max: nat)
    requires
        F32(ONE_POINT_TWO_BITS).at_most(alpha),
    ensures
        space.robust(F32(ONE_POINT_TWO_BITS), r_max, false).is_prefix_of(
            space.robust(alpha, r_max, false),
        ),
{
    let one = F32(ONE_BITS);
    let c = F32(ONE_POINT_TWO_BITS);
    let n = space.scored.len() as int;
    let start = space.start();
    let low = space.rounds(start, one, c, r_max);
    let end = space.rounds(start, one, alpha, r_max);
    arith::lemma_one_times(c);
    lemma_start_consistent(space, r_max);
    if start.kept.len() < r_max {
        let first = space.scan(start, n, one, r_max);
        lemma_scan_consistent(space, start, n, one, r_max);
        robust_prune::lemma_threshold_rises(one, c);
        robust_prune::lemma_threshold_rises(one, alpha);
        assert(robust_prune::next_threshold(one, c) == c);
        assert(robust_prune::next_threshold(one, alpha) == c);
        assert(low == space.rounds(first, c, c, r_max));
        assert(end == space.rounds(first, c, alpha, r_max));
        if first.kept.len() < r_max {
            let second = space.scan(first, n, c, r_max);
            lemma_scan_consistent(space, first, n, c, r_max);
            assert(low == second);
            if !alpha.at_most(c) {
                robust_prune::lemma_threshold_rises(c, alpha);
                lemma_rounds_consistent(
                    space,
                    second,
                    robust_prune::next_threshold(c, alpha),
                    alpha,
                    r_max,
                );
            }
        }
    }
    assert(low.kept.is_prefix_of(end.kept));
    let a = space.robust(c, r_max, false);
    let b = space.robust(alpha, r_max, false);
    assert(a =~= b.subrange(0, a.len() as int)) by {
        assert forall|i: int| 0 <= i < a.len() implies a[i] == b[i] by {
            assert(low.kept[i] == end.kept.subrange(0, low.kept.len() as int)[i]);
        }
    }
}

} // verus!
