//! What a build does to a graph: every node gets neighbours among the nodes that a search for it
//! visits, each of them gets an edge back, and no node is left with more than the limit.
use vstd::prelude::*;
use crate::build::rng;
use crate::build::rng::RngView;
use crate::distance::DistanceKernel;
use crate::distance::single::{F32, MAX_BITS, ONE_BITS};
use crate::graph::centroid;
use crate::graph::construction;
use crate::graph::construction::{
    NeighborChoice, StrategyChoice, VamanaBuildConfig, BUILD_BATCH_SIZE,
};
use crate::graph::neighbour_laws;
use crate::graph::points;
use crate::graph::points::Points;
use crate::graph::robust_prune::PruneStrategy;
use crate::graph::rp_tuning;
use crate::graph::search;
use crate::graph::search::SearchSpace;
use crate::graph::search_laws;
use crate::memory::graph;
use crate::memory::graph::CsrView;
use crate::SENTINEL;

verus! {

/// The nodes that a search for a node's own vector visits, taking every neighbour of each.
pub open spec fn visited_for<K: DistanceKernel>(
    data: Points<K>,
    rows: Seq<Seq<u32>>,
    entry: u32,
    node: u32,
    width: nat,
) -> Seq<u32> {
    search::seen(
        SearchSpace {
            rows,
            score: data.score_to(data.vector(node as int)),
            limit: usize::MAX as nat,
        },
        width,
        entry,
    )
}

/// A pruning that fills up where the settings ask for it and the threshold is above one.
pub open spec fn pruned_in_round<K: DistanceKernel>(
    data: Points<K>,
    config: VamanaBuildConfig,
    node: u32,
    list: Seq<u32>,
    alpha: F32,
    kept: Seq<u32>,
) -> bool {
    neighbour_laws::well_pruned(
        data,
        config.prune_strategy,
        node,
        list,
        alpha,
        config.r_max as nat,
        config.saturate && F32(ONE_BITS).below(alpha),
        kept,
    )
}

/// The neighbours that are chosen for a node in a round are what the configured pruning may keep, at
/// the threshold of that round, of the nodes to choose from.
pub proof fn law_chosen_at_the_threshold<K: DistanceKernel>(
    choice: StrategyChoice<K>,
    node: u32,
    seen: Seq<u32>,
    alpha: F32,
)
    requires
        !alpha.nan(),
        alpha.rank() < MAX_BITS,
    ensures
        pruned_in_round(
            *choice.data,
            *choice.config,
            node,
            seen,
            alpha,
            choice.chosen(node, seen, alpha),
        ),
{
    neighbour_laws::law_prunings_leave_out_with_reason(
        *choice.data,
        choice.config.prune_strategy,
        node,
        seen,
        alpha,
        choice.config.r_max,
        choice.config.saturate && F32(ONE_BITS).below(alpha),
    );
}

/// What a search for a node visits is what its neighbours are chosen among, at the threshold of the
/// round.
pub proof fn law_planned_among_the_visited<K: DistanceKernel>(
    data: Points<K>,
    choice: StrategyChoice<K>,
    rows: Seq<Seq<u32>>,
    entry: u32,
    node: u32,
    width: nat,
    alpha: F32,
)
    requires
        *choice.data == data,
        !alpha.nan(),
        alpha.rank() < MAX_BITS,
    ensures
        pruned_in_round(
            data,
            *choice.config,
            node,
            visited_for(data, rows, entry, node, width),
            alpha,
            construction::planned(data, choice, rows, entry, node, width, alpha),
        ),
{
    law_chosen_at_the_threshold(choice, node, visited_for(data, rows, entry, node, width), alpha);
}

/// The neighbours of a node after an edge to another one was asked for: it is there once, after those
/// that were there before.
pub open spec fn with_edge(list: Seq<u32>, to: u32) -> Seq<u32> {
    if list.contains(to) {
        list
    } else {
        list.push(to)
    }
}

/// What an edge back does to the neighbours of `nb`: the edge is there. Where there are then more than
/// `r_soft` neighbours, they are pruned at the threshold, and the edge may be left out as any other.
pub open spec fn linked_back<K: DistanceKernel>(
    data: Points<K>,
    config: VamanaBuildConfig,
    nb: u32,
    node: u32,
    before: Seq<u32>,
    alpha: F32,
    after: Seq<u32>,
) -> bool {
    let all = with_edge(before, node);
    if all.len() <= config.r_soft {
        after == all
    } else {
        pruned_in_round(data, config, nb, all, alpha, after)
    }
}

/// An edge is added at the end of a node's neighbours.
proof fn lemma_added(view: CsrView, from: int, to: u32, n: nat)
    requires
        construction::proper(view, n),
        0 <= from < n,
    ensures
        view.add_edge(from, to).all(from) == with_edge(view.all(from), to),
        view.add_edge(from, to).lists.len() == n,
        view.add_edge(from, to).overflow.len() == n,
        forall|i: int|
            0 <= i < n && i != from ==> #[trigger] view.add_edge(from, to).all(i) == view.all(i),
{
    assert(construction::proper_list(view, from, n));
    let all = view.all(from);
    let after = view.add_edge(from, to);
    if view.lists[from].contains(to) || view.overflow[from].contains(to) {
        assert(all.contains(to)) by {
            if view.lists[from].contains(to) {
                let k = choose|k: int| 0 <= k < view.lists[from].len() && view.lists[from][k] == to;
                assert(all[k] == to);
            } else {
                let k = choose|k: int|
                    0 <= k < view.overflow[from].len() && view.overflow[from][k] == to;
                assert(all[view.lists[from].len() + k] == to);
            }
        }
    } else {
        assert(!all.contains(to)) by {
            if all.contains(to) {
                let k = choose|k: int| 0 <= k < all.len() && all[k] == to;
                if k < view.lists[from].len() {
                    assert(view.lists[from][k] == to);
                } else {
                    assert(view.overflow[from][k - view.lists[from].len()] == to);
                    assert(view.overflow[from].contains(to));
                }
            }
        }
        assert(after.all(from) =~= all.push(to)) by {
            if view.lists[from].len() < view.r_max {
                assert(view.overflow[from] =~= Seq::<u32>::empty());
            }
        }
    }
    assert forall|i: int| 0 <= i < n && i != from implies #[trigger] view.add_edge(from, to).all(i)
        == view.all(i) by {
        assert(after.all(i) =~= view.all(i));
    }
}

proof fn lemma_back_linked<K: DistanceKernel>(
    data: Points<K>,
    view: CsrView,
    nb: u32,
    node: u32,
    config: VamanaBuildConfig,
    alpha: F32,
    n: nat,
)
    requires
        construction::proper(view, n),
        n <= SENTINEL,
        nb < n,
        node < n,
        nb != node,
        !alpha.nan(),
        alpha.rank() < MAX_BITS,
    ensures
        ({
            let after = construction::back_linked(data, view, nb, node, config, alpha);
            &&& construction::proper(after, n)
            &&& linked_back(
                data,
                config,
                nb,
                node,
                view.all(nb as int),
                alpha,
                after.all(nb as int),
            )
            &&& forall|i: int| 0 <= i < n && i != nb ==> #[trigger] after.all(i) == view.all(i)
        }),
{
    let added = view.add_edge(nb as int, node);
    let all = added.all(nb as int);
    construction::lemma_add_proper(view, nb as int, node, n);
    lemma_added(view, nb as int, node, n);
    if all.len() > config.r_soft {
        assert(construction::proper_list(added, nb as int, n));
        let saturate = config.saturate && F32(ONE_BITS).below(alpha);
        neighbour_laws::law_prunings_leave_out_with_reason(
            data,
            config.prune_strategy,
            nb,
            all,
            alpha,
            config.r_max,
            saturate,
        );
        data.lemma_pruned(config.prune_strategy, nb, all, alpha, config.r_max, saturate, n);
        construction::lemma_set_proper(
            added,
            nb as int,
            data.pruned(config.prune_strategy, nb, all, alpha, config.r_max, saturate),
            n,
        );
        let after = construction::back_linked(data, view, nb, node, config, alpha);
        assert forall|i: int| 0 <= i < n && i != nb implies #[trigger] after.all(i) == view.all(
            i,
        ) by {
            assert(added.all(i) == view.all(i));
        }
    }
}

proof fn lemma_back_linked_all<K: DistanceKernel>(
    data: Points<K>,
    view: CsrView,
    list: Seq<u32>,
    j: int,
    node: u32,
    config: VamanaBuildConfig,
    alpha: F32,
    n: nat,
)
    requires
        construction::proper(view, n),
        n <= SENTINEL,
        node < n,
        construction::proper_neighbors(list, node, n),
        0 <= j <= list.len(),
        !alpha.nan(),
        alpha.rank() < MAX_BITS,
    ensures
        ({
            let after = construction::back_linked_all(data, view, list, j, node, config, alpha);
            &&& construction::proper(after, n)
            &&& forall|k: int|
                0 <= k < j ==> linked_back(
                    data,
                    config,
                    #[trigger] list[k],
                    node,
                    view.all(list[k] as int),
                    alpha,
                    after.all(list[k] as int),
                )
            &&& forall|i: int|
                0 <= i < n && (forall|k: int| 0 <= k < j ==> #[trigger] list[k] != i)
                    ==> #[trigger] after.all(i) == view.all(i)
        }),
    decreases j,
{
    if j > 0 {
        lemma_back_linked_all(data, view, list, j - 1, node, config, alpha, n);
        let before = construction::back_linked_all(data, view, list, j - 1, node, config, alpha);
        let after = construction::back_linked_all(data, view, list, j, node, config, alpha);
        let nb = list[j - 1];
        assert(nb < n);
        assert(list.contains(nb));
        lemma_back_linked(data, before, nb, node, config, alpha, n);
        assert(before.all(nb as int) == view.all(nb as int)) by {
            assert forall|k: int| 0 <= k < j - 1 implies #[trigger] list[k] != nb by {
                assert(list[k] != list[j - 1]);
            }
        }
        assert forall|k: int| 0 <= k < j implies linked_back(
            data,
            config,
            #[trigger] list[k],
            node,
            view.all(list[k] as int),
            alpha,
            after.all(list[k] as int),
        ) by {
            if k < j - 1 {
                assert(list[k] != list[j - 1]);
                assert(list[k] < n);
                assert(after.all(list[k] as int) == before.all(list[k] as int));
            }
        }
        assert forall|i: int|
            0 <= i < n && (forall|k: int| 0 <= k < j ==> #[trigger] list[k] != i)
                implies #[trigger] after.all(i) == view.all(i) by {
            assert(list[j - 1] != i);
            assert(before.all(i) == view.all(i));
        }
    }
}

/// A node is connected both ways: it has the new neighbours and no others, each of them has an edge
/// back or is pruned, and no other node changes.
pub proof fn law_nodes_are_connected_both_ways<K: DistanceKernel>(
    data: Points<K>,
    view: CsrView,
    node: u32,
    list: Seq<u32>,
    config: VamanaBuildConfig,
    alpha: F32,
    n: nat,
)
    requires
        construction::proper(view, n),
        n <= SENTINEL,
        node < n,
        construction::proper_neighbors(list, node, n),
        !alpha.nan(),
        alpha.rank() < MAX_BITS,
    ensures
        ({
            let after = construction::connected(data, view, node, list, config, alpha);
            &&& construction::proper(after, n)
            &&& after.all(node as int) == list
            &&& forall|x: u32|
                x < n && x != node ==> if list.contains(x) {
                    linked_back(
                        data,
                        config,
                        x,
                        node,
                        view.all(x as int),
                        alpha,
                        #[trigger] after.all(x as int),
                    )
                } else {
                    after.all(x as int) == view.all(x as int)
                }
        }),
{
    let first = view.set_neighbors(node as int, list);
    construction::lemma_set_proper(view, node as int, list, n);
    lemma_back_linked_all(data, first, list, list.len() as int, node, config, alpha, n);
    let after = construction::connected(data, view, node, list, config, alpha);
    assert(after.all(node as int) == first.all(node as int)) by {
        assert forall|k: int| 0 <= k < list.len() implies #[trigger] list[k] != node by {
            assert(list.contains(list[k]));
        }
    }
    assert forall|x: u32| x < n && x != node implies if list.contains(x) {
        linked_back(
            data,
            config,
            x,
            node,
            view.all(x as int),
            alpha,
            #[trigger] after.all(x as int),
        )
    } else {
        after.all(x as int) == view.all(x as int)
    } by {
        assert(first.all(x as int) == view.all(x as int));
        if list.contains(x) {
            let k = choose|k: int| 0 <= k < list.len() && list[k] == x;
            assert(list[k] == x);
        } else {
            assert forall|k: int| 0 <= k < list.len() implies #[trigger] list[k] != x by {
                assert(list.contains(list[k]));
            }
        }
    }
}

/// One step of a round: a node gets, among the nodes that a search for it visits in the graph as it
/// was when the batch began, the neighbours that the pruning keeps at the threshold of the round, and
/// is connected with them both ways.
pub open spec fn is_step<K: DistanceKernel>(
    data: Points<K>,
    batch: CsrView,
    before: CsrView,
    after: CsrView,
    entry: u32,
    node: u32,
    config: VamanaBuildConfig,
    alpha: F32,
) -> bool {
    let list = after.all(node as int);
    &&& after.lists.len() == before.lists.len()
    &&& pruned_in_round(
        data,
        config,
        node,
        visited_for(data, batch.lists, entry, node, config.l_build as nat),
        alpha,
        list,
    )
    &&& forall|x: u32|
        x < before.lists.len() && x != node ==> if list.contains(x) {
            linked_back(
                data,
                config,
                x,
                node,
                before.all(x as int),
                alpha,
                #[trigger] after.all(x as int),
            )
        } else {
            after.all(x as int) == before.all(x as int)
        }
}

/// The graphs of a round: from each to the next, one node after the other in the given order is given
/// its neighbours. Ten thousand nodes at a time are planned on the same graph.
pub open spec fn are_steps<K: DistanceKernel>(
    data: Points<K>,
    steps: Seq<CsrView>,
    entry: u32,
    order: Seq<u32>,
    config: VamanaBuildConfig,
    alpha: F32,
) -> bool {
    &&& steps.len() == order.len() + 1
    &&& forall|i: int|
        0 <= i < order.len() ==> is_step(
            data,
            steps[i - i % 10_000],
            steps[i],
            steps[i + 1],
            entry,
            #[trigger] order[i],
            config,
            alpha,
        )
}

/// All distances between the first `n` nodes are numbers.
pub open spec fn gaps_are_numbers<K: DistanceKernel>(data: Points<K>, n: nat) -> bool {
    forall|a: u32, b: u32|
        a < n && b < n ==> !(#[trigger] neighbour_laws::gap(data, a, b)).nan()
}

/// What a search for a node visits in a proper graph are nodes, each once.
proof fn lemma_visited<K: DistanceKernel>(
    data: Points<K>,
    view: CsrView,
    entry: u32,
    node: u32,
    width: nat,
    n: nat,
)
    requires
        construction::proper(view, n),
        n <= 0x8000_0000,
        entry < n,
        node < n,
        width >= 1,
        gaps_are_numbers(data, n),
    ensures
        points::below(visited_for(data, view.lists, entry, node, width), n),
{
    let space = SearchSpace {
        rows: view.lists,
        score: data.score_to(data.vector(node as int)),
        limit: usize::MAX as nat,
    };
    construction::lemma_blocks_closed(view, n);
    assert forall|id: u32| id < space.rows.len() implies !(#[trigger] (space.score)(id)).nan() by {
        assert((space.score)(id) == neighbour_laws::gap(data, node, id));
    }
    search_laws::law_found_are_the_nearest_seen(space, width, entry);
}

/// What is chosen for a node are other nodes, each once.
proof fn lemma_planned<K: DistanceKernel>(
    data: Points<K>,
    choice: StrategyChoice<K>,
    view: CsrView,
    entry: u32,
    node: u32,
    alpha: F32,
    n: nat,
)
    requires
        *choice.data == data,
        construction::proper(view, n),
        n <= 0x8000_0000,
        entry < n,
        node < n,
        choice.config.l_build >= 1,
        gaps_are_numbers(data, n),
        !alpha.nan(),
        alpha.rank() < MAX_BITS,
    ensures
        construction::proper_neighbors(
            construction::planned(
                data,
                choice,
                view.lists,
                entry,
                node,
                choice.config.l_build as nat,
                alpha,
            ),
            node,
            n,
        ),
{
    let width = choice.config.l_build as nat;
    let seen = visited_for(data, view.lists, entry, node, width);
    lemma_visited(data, view, entry, node, width, n);
    law_planned_among_the_visited(data, choice, view.lists, entry, node, width, alpha);
    let list = construction::planned(data, choice, view.lists, entry, node, width, alpha);
    assert forall|i: int| 0 <= i < list.len() implies (#[trigger] list[i]) < n && list[i]
        != node by {
        assert(seen.contains(list[i]));
        let j = choose|j: int| 0 <= j < seen.len() && seen[j] == list[i];
        assert(seen[j] < n);
    }
}

/// The graphs of the first `j` steps of a batch.
proof fn lemma_batch_steps<K: DistanceKernel>(
    data: Points<K>,
    choice: StrategyChoice<K>,
    view: CsrView,
    entry: u32,
    batch: Seq<u32>,
    j: int,
    alpha: F32,
    n: nat,
) -> (steps: Seq<CsrView>)
    requires
        *choice.data == data,
        construction::proper(view, n),
        n <= 0x8000_0000,
        entry < n,
        points::below(batch, n),
        0 <= j <= batch.len(),
        choice.config.l_build >= 1,
        gaps_are_numbers(data, n),
        !alpha.nan(),
        alpha.rank() < MAX_BITS,
    ensures
        steps.len() == j + 1,
        steps[0] == view,
        steps.last() == construction::carried_out(
            data,
            choice,
            view,
            entry,
            batch,
            j,
            *choice.config,
            alpha,
        ),
        construction::proper(steps.last(), n),
        forall|i: int|
            0 <= i < j ==> is_step(
                data,
                view,
                steps[i],
                steps[i + 1],
                entry,
                #[trigger] batch[i],
                *choice.config,
                alpha,
            ),
    decreases j,
{
    if j == 0 {
        seq![view]
    } else {
        let config = *choice.config;
        let short = lemma_batch_steps(data, choice, view, entry, batch, j - 1, alpha, n);
        let before = short.last();
        let node = batch[j - 1];
        assert(node < n);
        let width = config.l_build as nat;
        let list = construction::planned(data, choice, view.lists, entry, node, width, alpha);
        lemma_planned(data, choice, view, entry, node, alpha, n);
        law_planned_among_the_visited(data, choice, view.lists, entry, node, width, alpha);
        law_nodes_are_connected_both_ways(data, before, node, list, config, alpha, n);
        let after = construction::connected(data, before, node, list, config, alpha);
        let steps = short.push(after);
        assert(is_step(data, view, before, after, entry, node, config, alpha));
        assert forall|i: int| 0 <= i < j implies is_step(
            data,
            view,
            steps[i],
            steps[i + 1],
            entry,
            #[trigger] batch[i],
            config,
            alpha,
        ) by {
            if i < j - 1 {
                assert(steps[i] == short[i] && steps[i + 1] == short[i + 1]);
            }
        }
        steps
    }
}

/// From each graph to the next, the relation holds, with the graph at the start of ten thousand.
spec fn steps_hold(
    step: spec_fn(CsrView, CsrView, CsrView, int) -> bool,
    steps: Seq<CsrView>,
    from: int,
    i: int,
) -> bool {
    step(steps[i - i % 10_000], steps[i], steps[i + 1], from + i)
}

/// The steps of a batch of ten thousand, or of a last one, followed by the steps after it.
proof fn lemma_join_steps(
    step: spec_fn(CsrView, CsrView, CsrView, int) -> bool,
    head: Seq<CsrView>,
    tail: Seq<CsrView>,
    from: int,
) -> (steps: Seq<CsrView>)
    requires
        head.len() >= 1,
        tail.len() >= 1,
        tail.len() == 1 || head.len() == 10_001,
        head.len() <= 10_001,
        head.last() == tail[0],
        forall|i: int| 0 <= i < head.len() - 1 ==> #[trigger] steps_hold(step, head, from, i),
        forall|i: int|
            0 <= i < tail.len() - 1 ==> #[trigger] steps_hold(
                step,
                tail,
                from + head.len() - 1,
                i,
            ),
    ensures
        steps.len() == head.len() + tail.len() - 1,
        steps[0] == head[0],
        steps.last() == tail.last(),
        forall|i: int| 0 <= i < steps.len() - 1 ==> #[trigger] steps_hold(step, steps, from, i),
{
    let size = head.len() - 1;
    let steps = head.drop_last() + tail;
    assert(steps[size] == tail[0]);
    assert(steps.last() == tail.last());
    assert forall|i: int| 0 <= i < steps.len() - 1 implies #[trigger] steps_hold(
        step,
        steps,
        from,
        i,
    ) by {
        if i < size {
            assert(i % 10_000 == i);
            assert(steps_hold(step, head, from, i));
            assert(steps[0] == head[0] && steps[i] == head[i] && steps[i + 1] == head[i + 1]);
        } else {
            let k = i - size;
            assert(size == 10_000);
            assert(k % 10_000 == i % 10_000);
            assert(steps_hold(step, tail, from + head.len() - 1, k));
            assert(steps[i] == tail[k] && steps[i + 1] == tail[k + 1]);
            assert(steps[i - i % 10_000] == tail[k - k % 10_000]);
        }
    }
    steps
}

/// The steps of a round as a relation.
spec fn round_step<K: DistanceKernel>(
    data: Points<K>,
    entry: u32,
    order: Seq<u32>,
    config: VamanaBuildConfig,
    alpha: F32,
) -> spec_fn(CsrView, CsrView, CsrView, int) -> bool {
    |g: CsrView, a: CsrView, b: CsrView, at: int|
        is_step(data, g, a, b, entry, order[at], config, alpha)
}

/// The graphs of a round from place `from` on.
proof fn lemma_round_steps<K: DistanceKernel>(
    data: Points<K>,
    choice: StrategyChoice<K>,
    view: CsrView,
    entry: u32,
    order: Seq<u32>,
    from: int,
    alpha: F32,
    n: nat,
) -> (steps: Seq<CsrView>)
    requires
        *choice.data == data,
        construction::proper(view, n),
        n <= 0x8000_0000,
        entry < n,
        points::below(order, n),
        0 <= from <= order.len(),
        from < order.len() ==> from % 10_000 == 0,
        choice.config.l_build >= 1,
        gaps_are_numbers(data, n),
        !alpha.nan(),
        alpha.rank() < MAX_BITS,
    ensures
        steps.len() == order.len() - from + 1,
        steps[0] == view,
        steps.last() == construction::round_from(
            data,
            choice,
            view,
            entry,
            order,
            from,
            *choice.config,
            alpha,
        ),
        construction::proper(steps.last(), n),
        forall|i: int|
            0 <= i < order.len() - from ==> #[trigger] steps_hold(
                round_step(data, entry, order, *choice.config, alpha),
                steps,
                from,
                i,
            ),
    decreases order.len() - from,
{
    if from >= order.len() {
        seq![view]
    } else {
        let config = *choice.config;
        let end = if order.len() - from <= BUILD_BATCH_SIZE {
            order.len() as int
        } else {
            from + BUILD_BATCH_SIZE
        };
        let batch = order.subrange(from, end);
        let size = batch.len() as int;
        assert forall|i: int| 0 <= i < batch.len() implies (#[trigger] batch[i]) < n by {
            assert(order[from + i] < n);
        }
        let head = lemma_batch_steps(data, choice, view, entry, batch, size, alpha, n);
        let mid = head.last();
        let tail = lemma_round_steps(data, choice, mid, entry, order, end, alpha, n);
        let step = round_step(data, entry, order, config, alpha);
        assert forall|i: int| 0 <= i < head.len() - 1 implies #[trigger] steps_hold(
            step,
            head,
            from,
            i,
        ) by {
            assert(i % 10_000 == i);
            assert(batch[i] == order[from + i]);
        }
        assert(end == from + head.len() - 1);
        lemma_join_steps(step, head, tail, from)
    }
}

/// A round gives every node in the order neighbours among those that a search for it visits, pruned at
/// the round's threshold, and connects them both ways.
pub proof fn law_rounds_go_over_every_node<K: DistanceKernel>(
    data: Points<K>,
    choice: StrategyChoice<K>,
    view: CsrView,
    entry: u32,
    order: Seq<u32>,
    alpha: F32,
    n: nat,
) -> (steps: Seq<CsrView>)
    requires
        *choice.data == data,
        construction::proper(view, n),
        n <= 0x8000_0000,
        entry < n,
        points::below(order, n),
        choice.config.l_build >= 1,
        gaps_are_numbers(data, n),
        !alpha.nan(),
        alpha.rank() < MAX_BITS,
    ensures
        are_steps(data, steps, entry, order, *choice.config, alpha),
        steps[0] == view,
        steps.last() == construction::round_from(
            data,
            choice,
            view,
            entry,
            order,
            0,
            *choice.config,
            alpha,
        ),
        construction::proper(steps.last(), n),
{
    let steps = lemma_round_steps(data, choice, view, entry, order, 0, alpha, n);
    let step = round_step(data, entry, order, *choice.config, alpha);
    assert forall|i: int| 0 <= i < order.len() implies is_step(
        data,
        steps[i - i % 10_000],
        steps[i],
        steps[i + 1],
        entry,
        #[trigger] order[i],
        *choice.config,
        alpha,
    ) by {
        assert(steps_hold(step, steps, 0, i));
    }
    steps
}

/// The first round of a build has the threshold one, every later one that of the settings; each goes
/// over the nodes in an order that is drawn anew, from the graph that the one before it has left.
pub proof fn law_later_rounds_have_the_threshold_of_the_settings<K: DistanceKernel>(
    data: Points<K>,
    choice: StrategyChoice<K>,
    start: (CsrView, RngView),
    entry: u32,
    n: nat,
    count: nat,
) -> (steps: Seq<CsrView>)
    requires
        *choice.data == data,
        count >= 1,
        ({
            let before = construction::rounds(
                data,
                choice,
                start,
                entry,
                n,
                *choice.config,
                (count - 1) as nat,
            );
            &&& construction::proper(before.0, n)
            &&& points::below(
                rng::chacha8_shuffle(before.1.seed, before.1.draws, centroid::all_ids(n)),
                n,
            )
        }),
        n <= 0x8000_0000,
        entry < n,
        choice.config.l_build >= 1,
        gaps_are_numbers(data, n),
        !choice.config.alpha.nan(),
        choice.config.alpha.rank() < MAX_BITS,
    ensures
        ({
            let config = *choice.config;
            let before = construction::rounds(
                data,
                choice,
                start,
                entry,
                n,
                config,
                (count - 1) as nat,
            );
            let after = construction::rounds(data, choice, start, entry, n, config, count);
            let order = rng::chacha8_shuffle(
                before.1.seed,
                before.1.draws,
                centroid::all_ids(n),
            );
            &&& steps[0] == before.0
            &&& steps.last() == after.0
            &&& construction::proper(after.0, n)
            &&& count == 1 ==> are_steps(data, steps, entry, order, config, F32(ONE_BITS))
            &&& count > 1 ==> are_steps(data, steps, entry, order, config, config.alpha)
        }),
{
    let config = *choice.config;
    let before = construction::rounds(data, choice, start, entry, n, config, (count - 1) as nat);
    let order = rng::chacha8_shuffle(before.1.seed, before.1.draws, centroid::all_ids(n));
    law_rounds_go_over_every_node(
        data,
        choice,
        before.0,
        entry,
        order,
        if count == 1 {
            F32(ONE_BITS)
        } else {
            config.alpha
        },
        n,
    )
}

/// A node's neighbours after the graph was cut down to the limit.
pub open spec fn cut_down<K: DistanceKernel>(
    data: Points<K>,
    strategy: PruneStrategy,
    node: u32,
    before: Seq<u32>,
    alpha: F32,
    r_max: nat,
    saturate: bool,
    after: Seq<u32>,
) -> bool {
    if before.len() <= r_max {
        after == before
    } else {
        neighbour_laws::well_pruned(data, strategy, node, before, alpha, r_max, saturate, after)
    }
}

/// Cutting a graph down leaves nodes within the limit as they are and prunes the others at the
/// threshold.
pub proof fn law_only_crowded_nodes_are_cut_down<K: DistanceKernel>(
    data: Points<K>,
    view: CsrView,
    i: int,
    alpha: F32,
    r_max: usize,
    saturate: bool,
    strategy: PruneStrategy,
)
    requires
        view.overflow.len() == view.lists.len(),
        view.lists.len() <= u32::MAX,
        0 <= i <= view.lists.len(),
        !alpha.nan(),
        alpha.rank() < MAX_BITS,
    ensures
        ({
            let after = construction::trimmed(data, view, i, alpha, r_max, saturate, strategy);
            &&& after.lists.len() == view.lists.len()
            &&& after.overflow.len() == view.lists.len()
            &&& forall|k: int|
                0 <= k < i ==> cut_down(
                    data,
                    strategy,
                    k as u32,
                    view.all(k),
                    alpha,
                    r_max as nat,
                    saturate,
                    #[trigger] after.all(k),
                ) && after.all(k).len() <= r_max
            &&& forall|k: int|
                i <= k < view.lists.len() ==> #[trigger] after.all(k) == view.all(k)
        }),
    decreases i,
{
    if i > 0 {
        law_only_crowded_nodes_are_cut_down(data, view, i - 1, alpha, r_max, saturate, strategy);
        let before = construction::trimmed(data, view, i - 1, alpha, r_max, saturate, strategy);
        let after = construction::trimmed(data, view, i, alpha, r_max, saturate, strategy);
        let list = before.all(i - 1);
        assert(list == view.all(i - 1));
        if list.len() > r_max {
            let kept = data.pruned(strategy, (i - 1) as u32, list, alpha, r_max, saturate);
            neighbour_laws::law_prunings_leave_out_with_reason(
                data,
                strategy,
                (i - 1) as u32,
                list,
                alpha,
                r_max,
                saturate,
            );
            assert forall|k: int| 0 <= k < view.lists.len() implies #[trigger] after.all(k) == (
            if k == i - 1 {
                kept
            } else {
                before.all(k)
            }) by {
                graph::law_replaced_neighbours_are_read_back(before, i - 1, kept, k);
            }
        }
    }
}

/// A build ends by cutting the graph of its rounds down to the degree limit, at the threshold of the
/// settings and with their filling.
pub proof fn law_builds_end_within_the_limit<K: DistanceKernel, C: NeighborChoice>(
    data: Points<K>,
    choice: C,
    rng: RngView,
    entry: u32,
    n: nat,
    config: VamanaBuildConfig,
)
    requires
        n <= u32::MAX,
        !config.alpha.nan(),
        config.alpha.rank() < MAX_BITS,
        ({
            let after = construction::rounds(
                data,
                choice,
                construction::random_graph(rng, n, config.r_max as nat),
                entry,
                n,
                config,
                config.max_iterations as nat,
            ).0;
            after.lists.len() == n && after.overflow.len() == n
        }),
    ensures
        ({
            let after = construction::rounds(
                data,
                choice,
                construction::random_graph(rng, n, config.r_max as nat),
                entry,
                n,
                config,
                config.max_iterations as nat,
            ).0;
            let built = construction::built(data, choice, rng, entry, n, config).0;
            forall|k: int|
                0 <= k < n ==> cut_down(
                    data,
                    config.prune_strategy,
                    k as u32,
                    after.all(k),
                    config.alpha,
                    config.r_max as nat,
                    config.saturate,
                    #[trigger] built.all(k),
                ) && built.all(k).len() <= config.r_max
        }),
{
    let after = construction::rounds(
        data,
        choice,
        construction::random_graph(rng, n, config.r_max as nat),
        entry,
        n,
        config,
        config.max_iterations as nat,
    ).0;
    law_only_crowded_nodes_are_cut_down(
        data,
        after,
        n as int,
        config.alpha,
        config.r_max,
        config.saturate,
        config.prune_strategy,
    );
}

/// The variant of a graph for a threshold: while there is room, a neighbour that the graph has and the
/// variant lacks is hidden at that threshold by one that was kept, and no kept one hides a farther one
/// kept after it. The variant has no other neighbours, and none outside of the blocks.
pub proof fn law_variants_are_pruned_at_their_threshold<K: DistanceKernel>(
    data: Points<K>,
    rows: Seq<Seq<u32>>,
    alpha: F32,
    r_max: usize,
    node: int,
)
    requires
        !alpha.nan(),
        alpha.rank() < MAX_BITS,
        0 <= node < rows.len() <= u32::MAX,
    ensures
        ({
            let variant = rp_tuning::variant_view(data, rows, alpha, r_max);
            &&& variant.lists.len() == rows.len()
            &&& variant.all(node) == variant.lists[node]
            &&& neighbour_laws::robustly_pruned(
                data,
                node as u32,
                rows[node],
                alpha,
                r_max as nat,
                false,
                variant.lists[node],
            )
        }),
{
    neighbour_laws::law_robust_prune(data, node as u32, rows[node], alpha, r_max, false);
    let variant = rp_tuning::variant_view(data, rows, alpha, r_max);
    assert(variant.all(node) =~= variant.lists[node]);
}

} // verus!
