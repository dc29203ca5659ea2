//! What the layers guarantee.
use vstd::prelude::*;
use crate::distance::DistanceKernel;
use crate::distance::single::{F32, ONE_BITS};
use crate::graph::answer_laws;
use crate::graph::connection_laws;
use crate::graph::layered;
use crate::graph::layered::{LayeredView, BRUTE_FORCE_THRESHOLD};
use crate::graph::neighbour_laws;
use crate::graph::points;
use crate::graph::points::Points;
use crate::graph::robust_prune::PruneStrategy;
use crate::graph::search;
use crate::graph::search::SearchSpace;
use crate::graph::search_laws;

verus! {

proof fn lemma_stepped<K: DistanceKernel>(
    data: Points<K>,
    query: Seq<F32>,
    part: Seq<u32>,
    from: (u32, F32),
    j: int,
)
    requires
        from.1 == data.score_to(query)(from.0),
        0 <= j <= part.len(),
    ensures
        ({
            let to = layered::stepped(data, query, part, from, j);
            &&& to.1 == data.score_to(query)(to.0)
            &&& to == from || to.1.below(from.1)
            &&& forall|m: int|
                0 <= m < j && part[m] != from.0 && !from.1.nan() ==> !data.score_to(query)(
                    #[trigger] part[m],
                ).below(to.1)
        }),
    decreases j,
{
    if j > 0 {
        lemma_stepped(data, query, part, from, j - 1);
        let before = layered::stepped(data, query, part, from, j - 1);
        let to = layered::stepped(data, query, part, from, j);
        let v = part[j - 1];
        let d = data.score_to(query)(v);
        assert forall|m: int|
            0 <= m < j && part[m] != from.0 && !from.1.nan() implies !data.score_to(query)(
            #[trigger] part[m],
        ).below(to.1) by {
            if m == j - 1 {
                if v == before.0 {
                    assert(d == before.1);
                }
            }
        }
    }
}

proof fn lemma_walked<K: DistanceKernel>(
    data: Points<K>,
    nav: LayeredView,
    query: Seq<F32>,
    level: u8,
    from: (u32, F32),
)
    requires
        from.1 == data.score_to(query)(from.0),
    ensures
        ({
            let to = layered::walked(data, nav, query, level, from);
            &&& to.1 == data.score_to(query)(to.0)
            &&& to == from || to.1.below(from.1)
            &&& !from.1.nan() ==> forall|m: int|
                0 <= m < layered::layer_part(nav, to.0, level).len() ==> !data.score_to(query)(
                    #[trigger] layered::layer_part(nav, to.0, level)[m],
                ).below(to.1)
        }),
    decreases from.1.rank() + 0x8000_0000,
{
    let part = layered::layer_part(nav, from.0, level);
    lemma_stepped(data, query, part, from, part.len() as int);
    let next = layered::stepped(data, query, part, from, part.len() as int);
    if next.1.below(from.1) {
        lemma_walked(data, nav, query, level, next);
    } else {
        assert(next == from);
        if !from.1.nan() {
            assert forall|m: int| 0 <= m < part.len() implies !data.score_to(query)(
                #[trigger] part[m],
            ).below(from.1) by {
                if part[m] == from.0 {
                    assert(data.score_to(query)(part[m]) == from.1);
                }
            }
        }
    }
}

/// Where the walk through a layer ends, no neighbour in that layer is nearer to the query.
pub proof fn law_walk_ends_at_a_local_optimum<K: DistanceKernel>(
    data: Points<K>,
    nav: LayeredView,
    query: Seq<F32>,
    level: u8,
    from: u32,
    m: int,
)
    requires
        !data.score_to(query)(from).nan(),
        ({
            let to = layered::walked(data, nav, query, level, (from, data.score_to(query)(from)));
            0 <= m < layered::layer_part(nav, to.0, level).len()
        }),
    ensures
        ({
            let to = layered::walked(data, nav, query, level, (from, data.score_to(query)(from)));
            !data.score_to(query)(layered::layer_part(nav, to.0, level)[m]).below(to.1)
        }),
{
    lemma_walked(data, nav, query, level, (from, data.score_to(query)(from)));
}

proof fn lemma_descend<K: DistanceKernel>(
    data: Points<K>,
    nav: LayeredView,
    query: Seq<F32>,
    from: (u32, F32),
    level: nat,
)
    requires
        from.1 == data.score_to(query)(from.0),
    ensures
        ({
            let to = layered::descend(data, nav, query, from, level);
            &&& to.1 == data.score_to(query)(to.0)
            &&& to == from || to.1.below(from.1)
        }),
    decreases level,
{
    if level > 0 {
        lemma_walked(data, nav, query, level as u8, from);
        let next = layered::walked(data, nav, query, level as u8, from);
        lemma_descend(data, nav, query, next, (level - 1) as nat);
    }
}

/// The walk down returns a node with its own distance to the query, and either it is the entry
/// point or it is nearer than the entry point.
pub proof fn law_descent_gets_nearer<K: DistanceKernel>(
    data: Points<K>,
    nav: LayeredView,
    query: Seq<F32>,
)
    ensures
        ({
            let to = layered::descent(data, nav, query, nav.max_level as nat);
            &&& to.1 == data.score_to(query)(to.0)
            &&& to.0 == nav.entry_point || to.1.below(data.score_to(query)(nav.entry_point))
        }),
{
    lemma_descend(
        data,
        nav,
        query,
        (nav.entry_point, data.score_to(query)(nav.entry_point)),
        nav.max_level as nat,
    );
}

/// No list is longer than `k`, and there is one for each of `n` nodes, with ids of nodes.
pub open spec fn rows_bounded(rows: Seq<Seq<u32>>, n: nat, k: usize) -> bool {
    &&& layered::rows_valid(rows, n)
    &&& forall|i: int| 0 <= i < rows.len() ==> (#[trigger] rows[i]).len() <= k
}

proof fn lemma_layer_pruned<K: DistanceKernel>(
    data: Points<K>,
    node: u32,
    list: Seq<u32>,
    k: usize,
    n: nat,
)
    requires
        points::below(list, n),
    ensures
        layered::layer_pruned(data, node, list, k).len() <= k,
        points::below(layered::layer_pruned(data, node, list, k), n),
{
    data.lemma_pruned(PruneStrategy::RobustPrune, node, list, F32(ONE_BITS), k, false, n);
}

proof fn lemma_add_back<K: DistanceKernel>(
    data: Points<K>,
    rows: Seq<Seq<u32>>,
    node: u32,
    new: u32,
    k: usize,
    n: nat,
)
    requires
        rows_bounded(rows, n, k),
        node < n,
        new < n,
    ensures
        rows_bounded(layered::add_back(data, rows, node, new, k), n, k),
{
    let list = rows[node as int];
    let after = layered::add_back(data, rows, node, new, k);
    assert(points::below(list, n));
    assert(points::below(list.push(new), n));
    lemma_layer_pruned(data, node, list.push(new), k, n);
    assert forall|i: int| 0 <= i < n implies points::below(#[trigger] after[i], n) by {
        if i != node {
            assert(after[i] == rows[i]);
        }
    }
    assert forall|i: int| 0 <= i < after.len() implies (#[trigger] after[i]).len() <= k by {
        if i != node {
            assert(after[i] == rows[i]);
        }
    }
}

proof fn lemma_add_back_all<K: DistanceKernel>(
    data: Points<K>,
    rows: Seq<Seq<u32>>,
    nodes: Seq<u32>,
    j: int,
    new: u32,
    k: usize,
    n: nat,
)
    requires
        rows_bounded(rows, n, k),
        points::below(nodes, n),
        0 <= j <= nodes.len(),
        new < n,
    ensures
        rows_bounded(layered::add_back_all(data, rows, nodes, j, new, k), n, k),
    decreases j,
{
    if j > 0 {
        lemma_add_back_all(data, rows, nodes, j - 1, new, k, n);
        assert(nodes[j - 1] < n);
        lemma_add_back(
            data,
            layered::add_back_all(data, rows, nodes, j - 1, new, k),
            nodes[j - 1],
            new,
            k,
            n,
        );
    }
}

proof fn lemma_linked<K: DistanceKernel>(
    data: Points<K>,
    rows: Seq<Seq<u32>>,
    node: u32,
    neighbors: Seq<u32>,
    k: usize,
    n: nat,
)
    requires
        rows_bounded(rows, n, k),
        node < n,
        points::below(neighbors, n),
        neighbors.len() <= k,
    ensures
        rows_bounded(layered::linked(data, rows, node, neighbors, k), n, k),
{
    let first = rows.update(node as int, neighbors);
    assert forall|i: int| 0 <= i < n implies points::below(#[trigger] first[i], n) by {
        if i != node {
            assert(first[i] == rows[i]);
        }
    }
    assert forall|i: int| 0 <= i < first.len() implies (#[trigger] first[i]).len() <= k by {
        if i != node {
            assert(first[i] == rows[i]);
        }
    }
    lemma_add_back_all(data, first, neighbors, neighbors.len() as int, node, k, n);
}

proof fn lemma_from_all_pairs<K: DistanceKernel>(
    data: Points<K>,
    rows: Seq<Seq<u32>>,
    nodes: Seq<u32>,
    i: int,
    k: usize,
    n: nat,
)
    requires
        rows_bounded(rows, n, k),
        points::below(nodes, n),
        0 <= i <= nodes.len(),
    ensures
        rows_bounded(layered::from_all_pairs(data, rows, nodes, i, k), n, k),
    decreases i,
{
    if i > 0 {
        lemma_from_all_pairs(data, rows, nodes, i - 1, k, n);
        let rest = nodes.remove(i - 1);
        assert forall|j: int| 0 <= j < rest.len() implies (#[trigger] rest[j]) < n by {
            let m = if j < i - 1 {
                j
            } else {
                j + 1
            };
            assert(rest[j] == nodes[m]);
        }
        assert(nodes[i - 1] < n);
        lemma_layer_pruned(data, nodes[i - 1], rest, k, n);
        lemma_linked(
            data,
            layered::from_all_pairs(data, rows, nodes, i - 1, k),
            nodes[i - 1],
            layered::layer_pruned(data, nodes[i - 1], rest, k),
            k,
            n,
        );
    }
}

/// In a layer that is built from all pairs no node has more than `k` neighbours.
pub proof fn law_layer_degrees_are_bounded<K: DistanceKernel>(
    data: Points<K>,
    n: nat,
    nodes: Seq<u32>,
    k: usize,
)
    requires
        points::below(nodes, n),
        nodes.len() <= BRUTE_FORCE_THRESHOLD,
    ensures
        rows_bounded(layered::layer_graph(data, n, nodes, k), n, k),
{
    let rows = Seq::new(n, |i: int| Seq::<u32>::empty());
    lemma_from_all_pairs(data, rows, nodes, nodes.len() as int, k, n);
}

/// After filling up, a node of a layer has exactly `k` edges in it.
pub proof fn law_padded_lists_have_k_edges(list: Seq<u32>, k: usize, node: u32)
    requires
        list.len() <= k,
    ensures
        layered::padded(list, k, node).len() == k,
        layered::padded(list, k, node).take(list.len() as int) == list,
        forall|i: int|
            list.len() <= i < k ==> (#[trigger] layered::padded(list, k, node)[i]) == node,
{
    assert(layered::padded(list, k, node).take(list.len() as int) =~= list);
}

/// The members of a layer are the nodes of at least its level, each once and by id.
pub proof fn law_members_have_the_level(levels: Seq<u8>, level: u8)
    requires
        levels.len() <= u32::MAX,
    ensures
        ({
            let m = layered::members(levels, level);
            &&& forall|x: u32| #[trigger]
                m.contains(x) <==> x < levels.len() && levels[x as int] >= level
            &&& forall|a: int, b: int|
                #![trigger m[a], m[b]]
                0 <= a < b < m.len() ==> m[a] < m[b]
        }),
{
    layered::lemma_members(levels, level, levels.len() as int);
    let m = layered::members(levels, level);
    assert forall|x: u32| #[trigger] m.contains(x) implies x < levels.len() && levels[x as int]
        >= level by {
        let a = choose|a: int| 0 <= a < m.len() && m[a] == x;
        assert(m[a] < levels.len());
    }
}

/// What an edge back does to the neighbours of a node in a layer: it is added at the end. Where there
/// are then more than `k`, all are pruned again at the threshold one.
pub open spec fn layer_linked_back<K: DistanceKernel>(
    data: Points<K>,
    nb: u32,
    node: u32,
    before: Seq<u32>,
    k: usize,
    after: Seq<u32>,
) -> bool {
    if before.contains(node) {
        after == before
    } else if before.len() < k {
        after == before.push(node)
    } else {
        neighbour_laws::robustly_pruned(
            data,
            nb,
            before.push(node),
            F32(ONE_BITS),
            k as nat,
            false,
            after,
        )
    }
}

/// One step in building a layer: a node gets what a pruning at the threshold one keeps of its
/// candidates, each of those gets an edge back, and nothing else changes.
pub open spec fn is_layer_step<K: DistanceKernel>(
    data: Points<K>,
    candidates: Seq<u32>,
    before: Seq<Seq<u32>>,
    after: Seq<Seq<u32>>,
    node: u32,
    k: usize,
) -> bool {
    let list = after[node as int];
    &&& after.len() == before.len()
    &&& neighbour_laws::robustly_pruned(
        data,
        node,
        candidates,
        F32(ONE_BITS),
        k as nat,
        false,
        list,
    )
    &&& forall|x: u32|
        x < before.len() && x != node ==> if list.contains(x) {
            layer_linked_back(data, x, node, before[x as int], k, #[trigger] after[x as int])
        } else {
            after[x as int] == before[x as int]
        }
}

proof fn lemma_layer_back<K: DistanceKernel>(
    data: Points<K>,
    rows: Seq<Seq<u32>>,
    nodes: Seq<u32>,
    j: int,
    new: u32,
    k: usize,
    n: nat,
)
    requires
        layered::rows_valid(rows, n),
        points::below(nodes, n),
        nodes.no_duplicates(),
        0 <= j <= nodes.len(),
        new < n,
    ensures
        ({
            let after = layered::add_back_all(data, rows, nodes, j, new, k);
            &&& layered::rows_valid(after, n)
            &&& forall|m: int|
                0 <= m < j ==> layer_linked_back(
                    data,
                    #[trigger] nodes[m],
                    new,
                    rows[nodes[m] as int],
                    k,
                    after[nodes[m] as int],
                )
            &&& forall|i: int|
                0 <= i < n && (forall|m: int| 0 <= m < j ==> #[trigger] nodes[m] != i)
                    ==> #[trigger] after[i] == rows[i]
        }),
    decreases j,
{
    if j > 0 {
        lemma_layer_back(data, rows, nodes, j - 1, new, k, n);
        let before = layered::add_back_all(data, rows, nodes, j - 1, new, k);
        let after = layered::add_back_all(data, rows, nodes, j, new, k);
        let nb = nodes[j - 1];
        assert(nb < n);
        let list = before[nb as int];
        assert(points::below(list, n));
        assert(points::below(list.push(new), n));
        neighbour_laws::law_robust_prune(data, nb, list.push(new), F32(ONE_BITS), k, false);
        data.lemma_pruned(
            PruneStrategy::RobustPrune,
            nb,
            list.push(new),
            F32(ONE_BITS),
            k,
            false,
            n,
        );
        assert(list == rows[nb as int]) by {
            assert forall|m: int| 0 <= m < j - 1 implies #[trigger] nodes[m] != nb by {
                assert(nodes[m] != nodes[j - 1]);
            }
        }
        assert forall|i: int| 0 <= i < n implies points::below(#[trigger] after[i], n) by {
            if i != nb {
                assert(after[i] == before[i]);
            }
        }
        assert forall|m: int| 0 <= m < j implies layer_linked_back(
            data,
            #[trigger] nodes[m],
            new,
            rows[nodes[m] as int],
            k,
            after[nodes[m] as int],
        ) by {
            if m < j - 1 {
                assert(nodes[m] != nodes[j - 1]);
                assert(after[nodes[m] as int] == before[nodes[m] as int]);
            }
        }
        assert forall|i: int|
            0 <= i < n && (forall|m: int| 0 <= m < j ==> #[trigger] nodes[m] != i)
                implies #[trigger] after[i] == rows[i] by {
            assert(nodes[j - 1] != i);
            assert(before[i] == rows[i]);
        }
    }
}

proof fn lemma_layer_step<K: DistanceKernel>(
    data: Points<K>,
    rows: Seq<Seq<u32>>,
    node: u32,
    candidates: Seq<u32>,
    k: usize,
    n: nat,
)
    requires
        layered::rows_valid(rows, n),
        points::below(candidates, n),
        node < n,
    ensures
        ({
            let after = layered::linked(
                data,
                rows,
                node,
                layered::layer_pruned(data, node, candidates, k),
                k,
            );
            layered::rows_valid(after, n) && is_layer_step(data, candidates, rows, after, node, k)
        }),
{
    let list = layered::layer_pruned(data, node, candidates, k);
    neighbour_laws::law_robust_prune(data, node, candidates, F32(ONE_BITS), k, false);
    data.lemma_pruned(PruneStrategy::RobustPrune, node, candidates, F32(ONE_BITS), k, false, n);
    let first = rows.update(node as int, list);
    assert forall|i: int| 0 <= i < n implies points::below(#[trigger] first[i], n) by {
        if i != node {
            assert(first[i] == rows[i]);
        }
    }
    lemma_layer_back(data, first, list, list.len() as int, node, k, n);
    let after = layered::linked(data, rows, node, list, k);
    assert(after[node as int] == list) by {
        assert forall|m: int| 0 <= m < list.len() implies #[trigger] list[m] != node by {
            assert(list.contains(list[m]));
        }
    }
    assert forall|x: u32| x < rows.len() && x != node implies if list.contains(x) {
        layer_linked_back(data, x, node, rows[x as int], k, #[trigger] after[x as int])
    } else {
        after[x as int] == rows[x as int]
    } by {
        assert(first[x as int] == rows[x as int]);
        if list.contains(x) {
            let m = choose|m: int| 0 <= m < list.len() && list[m] == x;
            assert(list[m] == x);
        } else {
            assert forall|m: int| 0 <= m < list.len() implies #[trigger] list[m] != x by {
                assert(list.contains(list[m]));
            }
        }
    }
}

/// The candidates of the node at place `i` of a layer. Among the first two thousand nodes they are all
/// the others of these; later on, what a search of four times the width, from the first node of the
/// layer and in the layer so far, finds for the node.
pub open spec fn layer_candidates<K: DistanceKernel>(
    data: Points<K>,
    so_far: Seq<Seq<u32>>,
    nodes: Seq<u32>,
    i: int,
    k: usize,
) -> Seq<u32> {
    if i < 2000 {
        nodes.take(
            if nodes.len() <= 2000 {
                nodes.len() as int
            } else {
                2000
            },
        ).remove(i)
    } else {
        layered::ids_of(
            search::found(
                SearchSpace {
                    rows: so_far,
                    score: data.score_to(data.vector(nodes[i] as int)),
                    limit: usize::MAX as nat,
                },
                (4 * k) as nat,
                nodes[0],
            ),
        )
    }
}

proof fn lemma_pair_steps<K: DistanceKernel>(
    data: Points<K>,
    rows: Seq<Seq<u32>>,
    nodes: Seq<u32>,
    i: int,
    k: usize,
    n: nat,
) -> (steps: Seq<Seq<Seq<u32>>>)
    requires
        layered::rows_valid(rows, n),
        points::below(nodes, n),
        0 <= i <= nodes.len(),
    ensures
        steps.len() == i + 1,
        steps[0] == rows,
        steps.last() == layered::from_all_pairs(data, rows, nodes, i, k),
        layered::rows_valid(steps.last(), n),
        forall|m: int|
            0 <= m < i ==> is_layer_step(
                data,
                nodes.remove(m),
                steps[m],
                steps[m + 1],
                #[trigger] nodes[m],
                k,
            ),
    decreases i,
{
    if i == 0 {
        seq![rows]
    } else {
        let short = lemma_pair_steps(data, rows, nodes, i - 1, k, n);
        let rest = nodes.remove(i - 1);
        assert forall|j: int| 0 <= j < rest.len() implies (#[trigger] rest[j]) < n by {
            let m = if j < i - 1 {
                j
            } else {
                j + 1
            };
            assert(rest[j] == nodes[m]);
        }
        assert(nodes[i - 1] < n);
        lemma_layer_step(data, short.last(), nodes[i - 1], rest, k, n);
        let steps = short.push(layered::from_all_pairs(data, rows, nodes, i, k));
        assert forall|m: int| 0 <= m < i implies is_layer_step(
            data,
            nodes.remove(m),
            steps[m],
            steps[m + 1],
            #[trigger] nodes[m],
            k,
        ) by {
            if m < i - 1 {
                assert(steps[m] == short[m] && steps[m + 1] == short[m + 1]);
            }
        }
        steps
    }
}

/// What a search in a layer finds are nodes.
proof fn lemma_layer_found<K: DistanceKernel>(
    data: Points<K>,
    rows: Seq<Seq<u32>>,
    from: u32,
    node: u32,
    width: nat,
    n: nat,
)
    requires
        layered::rows_valid(rows, n),
        n <= 0x8000_0000,
        from < n,
        node < n,
        width >= 1,
        connection_laws::gaps_are_numbers(data, n),
    ensures
        points::below(
            layered::ids_of(
                search::found(
                    layered::layer_space(data, rows, data.vector(node as int)),
                    width,
                    from,
                ),
            ),
            n,
        ),
{
    let space = layered::layer_space(data, rows, data.vector(node as int));
    assert forall|i: int, j: int|
        0 <= i < space.rows.len() && 0 <= j < space.rows[i].len() implies (
    #[trigger] space.rows[i][j]) < 0x8000_0000 && space.rows[i][j] < space.rows.len() by {
        assert(points::below(rows[i], n));
    }
    assert forall|id: u32| id < space.rows.len() implies !(#[trigger] (space.score)(id)).nan() by {
        assert((space.score)(id) == neighbour_laws::gap(data, node, id));
    }
    answer_laws::law_searches_find_the_nearest(space, width, from);
    search_laws::law_found_are_the_nearest_seen(space, width, from);
    let found = search::found(space, width, from);
    let seen = search::seen(space, width, from);
    let ids = layered::ids_of(found);
    assert forall|i: int| 0 <= i < ids.len() implies (#[trigger] ids[i]) < n by {
        assert(seen.contains(found[i].0));
        let j = choose|j: int| 0 <= j < seen.len() && seen[j] == found[i].0;
        assert(seen[j] < n);
    }
}

proof fn lemma_search_steps<K: DistanceKernel>(
    data: Points<K>,
    rows: Seq<Seq<u32>>,
    nodes: Seq<u32>,
    i: int,
    k: usize,
    n: nat,
) -> (steps: Seq<Seq<Seq<u32>>>)
    requires
        layered::rows_valid(rows, n),
        n <= 0x8000_0000,
        points::below(nodes, n),
        2000 <= i <= nodes.len(),
        k >= 1,
        connection_laws::gaps_are_numbers(data, n),
    ensures
        steps.len() == i + 1,
        steps[0] == rows,
        steps.last() == layered::from_searches(data, rows, nodes, i, k),
        layered::rows_valid(steps.last(), n),
        forall|m: int|
            0 <= m < i ==> is_layer_step(
                data,
                layer_candidates(data, steps[m], nodes, m, k),
                steps[m],
                steps[m + 1],
                #[trigger] nodes[m],
                k,
            ),
    decreases i,
{
    if i == 2000 {
        let seeds = nodes.take(i);
        assert forall|j: int| 0 <= j < seeds.len() implies (#[trigger] seeds[j]) < n by {
            assert(nodes[j] < n);
        }
        let steps = lemma_pair_steps(data, rows, seeds, i, k, n);
        assert forall|m: int| 0 <= m < i implies is_layer_step(
            data,
            layer_candidates(data, steps[m], nodes, m, k),
            steps[m],
            steps[m + 1],
            #[trigger] nodes[m],
            k,
        ) by {
            assert(seeds[m] == nodes[m]);
            assert(nodes.take(2000) == seeds);
        }
        steps
    } else {
        let short = lemma_search_steps(data, rows, nodes, i - 1, k, n);
        let before = short.last();
        let u = nodes[i - 1];
        assert(u < n && nodes[0] < n);
        lemma_layer_found(data, before, nodes[0], u, (4 * k) as nat, n);
        let candidates = layer_candidates(data, before, nodes, i - 1, k);
        lemma_layer_step(data, before, u, candidates, k, n);
        let steps = short.push(layered::from_searches(data, rows, nodes, i, k));
        assert forall|m: int| 0 <= m < i implies is_layer_step(
            data,
            layer_candidates(data, steps[m], nodes, m, k),
            steps[m],
            steps[m + 1],
            #[trigger] nodes[m],
            k,
        ) by {
            if m < i - 1 {
                assert(steps[m] == short[m] && steps[m + 1] == short[m + 1]);
            }
        }
        steps
    }
}

/// How a layer is built: one node after the other gets what a pruning at the threshold one keeps of its
/// candidates, and each of those gets an edge back. In a layer of up to two thousand nodes the
/// candidates are all others; in a larger one that holds of the first two thousand, and the candidates
/// of every later node are what a search in the layer so far finds.
pub proof fn law_layers_are_built_step_by_step<K: DistanceKernel>(
    data: Points<K>,
    n: nat,
    nodes: Seq<u32>,
    k: usize,
) -> (steps: Seq<Seq<Seq<u32>>>)
    requires
        n <= 0x8000_0000,
        points::below(nodes, n),
        k >= 1,
        connection_laws::gaps_are_numbers(data, n),
    ensures
        steps.len() == nodes.len() + 1,
        steps[0] == Seq::new(n, |i: int| Seq::<u32>::empty()),
        steps.last() == layered::layer_graph(data, n, nodes, k),
        forall|m: int|
            0 <= m < nodes.len() ==> is_layer_step(
                data,
                layer_candidates(data, steps[m], nodes, m, k),
                steps[m],
                steps[m + 1],
                #[trigger] nodes[m],
                k,
            ),
{
    let rows = Seq::new(n, |i: int| Seq::<u32>::empty());
    if nodes.len() <= 2000 {
        let steps = lemma_pair_steps(data, rows, nodes, nodes.len() as int, k, n);
        assert(nodes.take(nodes.len() as int) =~= nodes);
        steps
    } else {
        lemma_search_steps(data, rows, nodes, nodes.len() as int, k, n)
    }
}

/// Where the walk down through the layers ends, no neighbour in the lowest layer is nearer to the
/// query; and it ends no farther from the query than the walk through the top layer alone.
pub proof fn law_descent_ends_at_a_local_optimum<K: DistanceKernel>(
    data: Points<K>,
    nav: LayeredView,
    query: Seq<F32>,
    m: int,
)
    requires
        nav.max_level >= 1,
        !data.kernel.dist(query, data.vector(nav.entry_point as int)).nan(),
    ensures
        ({
            let to = layered::descent(data, nav, query, nav.max_level as nat);
            let entry = (
                nav.entry_point,
                data.kernel.dist(query, data.vector(nav.entry_point as int)),
            );
            &&& 0 <= m < layered::layer_part(nav, to.0, 1).len() ==> !data.kernel.dist(
                query,
                data.vector(layered::layer_part(nav, to.0, 1)[m] as int),
            ).below(data.kernel.dist(query, data.vector(to.0 as int)))
            &&& data.kernel.dist(query, data.vector(to.0 as int)).at_most(
                layered::walked(data, nav, query, nav.max_level, entry).1,
            )
        }),
{
    let entry = (nav.entry_point, data.score_to(query)(nav.entry_point));
    let top = layered::walked(data, nav, query, nav.max_level, entry);
    lemma_walked(data, nav, query, nav.max_level, entry);
    lemma_descend(data, nav, query, top, (nav.max_level - 1) as nat);
    lemma_descend_end(data, nav, query, entry, nav.max_level as nat, m);
}

proof fn lemma_descend_end<K: DistanceKernel>(
    data: Points<K>,
    nav: LayeredView,
    query: Seq<F32>,
    from: (u32, F32),
    level: nat,
    m: int,
)
    requires
        1 <= level <= u8::MAX,
        from.1 == data.score_to(query)(from.0),
        !from.1.nan(),
    ensures
        ({
            let to = layered::descend(data, nav, query, from, level);
            &&& to.1 == data.score_to(query)(to.0)
            &&& 0 <= m < layered::layer_part(nav, to.0, 1).len() ==> !data.score_to(query)(
                layered::layer_part(nav, to.0, 1)[m],
            ).below(to.1)
        }),
    decreases level,
{
    lemma_walked(data, nav, query, level as u8, from);
    let next = layered::walked(data, nav, query, level as u8, from);
    if level == 1 {
        assert(layered::descend(data, nav, query, next, 0) == next);
    } else {
        lemma_descend_end(data, nav, query, next, (level - 1) as nat, m);
    }
}

/// In every layer no node has more than `k` neighbours, and all of them are nodes.
pub proof fn law_all_layer_degrees_are_bounded<K: DistanceKernel>(
    data: Points<K>,
    n: nat,
    nodes: Seq<u32>,
    k: usize,
)
    requires
        n <= 0x8000_0000,
        points::below(nodes, n),
        k >= 1,
        connection_laws::gaps_are_numbers(data, n),
    ensures
        layered::layer_graph(data, n, nodes, k).len() == n,
        forall|x: int|
            0 <= x < n ==> (#[trigger] layered::layer_graph(data, n, nodes, k)[x]).len() <= k,
{
    let steps = law_layers_are_built_step_by_step(data, n, nodes, k);
    lemma_steps_bounded(data, steps, nodes, nodes.len() as int, k, n);
}

proof fn lemma_steps_bounded<K: DistanceKernel>(
    data: Points<K>,
    steps: Seq<Seq<Seq<u32>>>,
    nodes: Seq<u32>,
    i: int,
    k: usize,
    n: nat,
)
    requires
        steps.len() == nodes.len() + 1,
        n <= 0x8000_0000,
        steps[0] == Seq::new(n, |i: int| Seq::<u32>::empty()),
        points::below(nodes, n),
        0 <= i <= nodes.len(),
        forall|m: int|
            0 <= m < nodes.len() ==> is_layer_step(
                data,
                layer_candidates(data, steps[m], nodes, m, k),
                steps[m],
                steps[m + 1],
                #[trigger] nodes[m],
                k,
            ),
    ensures
        steps[i].len() == n,
        forall|x: int| 0 <= x < n ==> (#[trigger] steps[i][x]).len() <= k,
    decreases i,
{
    if i > 0 {
        lemma_steps_bounded(data, steps, nodes, i - 1, k, n);
        let before = steps[i - 1];
        let after = steps[i];
        let node = nodes[i - 1];
        assert(node < n);
        assert(is_layer_step(
            data,
            layer_candidates(data, before, nodes, i - 1, k),
            before,
            after,
            node,
            k,
        ));
        assert forall|x: int| 0 <= x < n implies (#[trigger] after[x]).len() <= k by {
            let y = x as u32;
            assert(before[x].len() <= k);
            if y != node {
                assert(after[y as int] == after[x]);
            }
        }
    }
}

/// The node of the entry point is in every layer; all others have the levels that were drawn for them.
pub proof fn law_the_entry_point_is_lifted<K: DistanceKernel>(
    data: Points<K>,
    entry: u32,
    drawn: Seq<u8>,
    k: usize,
)
    requires
        entry < drawn.len(),
        k >= 1,
    ensures
        ({
            let nav = layered::layers_of(data, entry, drawn, k);
            &&& nav.entry_point == entry
            &&& nav.k == k
            &&& nav.levels.len() == drawn.len()
            &&& nav.levels[entry as int] == nav.max_level
            &&& forall|i: int|
                0 <= i < drawn.len() && i != entry ==> #[trigger] nav.levels[i] == drawn[i]
            &&& forall|i: int| 0 <= i < drawn.len() ==> #[trigger] drawn[i] <= nav.max_level
            &&& drawn.contains(nav.max_level)
        }),
{
    lemma_top(drawn);
}

proof fn lemma_top(levels: Seq<u8>)
    ensures
        forall|i: int| 0 <= i < levels.len() ==> #[trigger] levels[i] <= layered::top_level(levels),
        levels.len() > 0 ==> levels.contains(layered::top_level(levels)),
    decreases levels.len(),
{
    if levels.len() > 0 {
        let short = levels.drop_last();
        lemma_top(short);
        assert forall|i: int| 0 <= i < levels.len() implies #[trigger] levels[i]
            <= layered::top_level(levels) by {
            if i < short.len() {
                assert(short[i] == levels[i]);
            }
        }
        let top = layered::top_level(levels);
        if top == levels.last() {
            assert(levels[levels.len() - 1] == top);
        } else {
            if short.len() > 0 {
                let i = choose|i: int| 0 <= i < short.len() && short[i] == top;
                assert(levels[i] == top);
            }
        }
    }
}

proof fn lemma_fewer_members(levels: Seq<u8>, low: u8, high: u8, i: int)
    requires
        low <= high,
        0 <= i <= levels.len(),
    ensures
        layered::members_upto(levels, high, i).len() <= layered::members_upto(
            levels,
            low,
            i,
        ).len(),
    decreases i,
{
    if i > 0 {
        lemma_fewer_members(levels, low, high, i - 1);
    }
}

/// The part of a node's edges that belongs to a layer.
proof fn lemma_layer_rows<K: DistanceKernel>(
    data: Points<K>,
    levels: Seq<u8>,
    level: nat,
    k: usize,
    x: int,
    l: nat,
)
    requires
        levels.len() <= 0x8000_0000,
        k >= 1,
        connection_laws::gaps_are_numbers(data, levels.len()),
        level <= u8::MAX,
        1 <= l <= level,
        0 <= x < levels.len(),
        l <= levels[x],
        layered::members(levels, l as u8).len() > 1,
    ensures
        ({
            let row = layered::upper_lists_upto(data, levels, level, k)[x];
            let graph = layered::layer_graph(
                data,
                levels.len(),
                layered::members(levels, l as u8),
                k,
            );
            &&& layered::upper_lists_upto(data, levels, level, k).len() == levels.len()
            &&& l * k <= row.len()
            &&& (l - 1) * k >= 0
            &&& row.subrange((l - 1) * k, (l * k) as int) == layered::padded(
                graph[x],
                k,
                x as u32,
            )
            &&& level == l ==> row.len() == l * k
        }),
    decreases level,
{
    let n = levels.len();
    let row = layered::upper_lists_upto(data, levels, level, k)[x];
    let nodes = layered::members(levels, level as u8);
    let before = layered::upper_lists_upto(data, levels, (level - 1) as nat, k);
    assert((l - 1) * k >= 0 && (l - 1) * k + k == l * k) by (nonlinear_arith)
        requires
            l >= 1,
    ;
    lemma_fewer_members(levels, l as u8, level as u8, n as int);
    if l < level {
        lemma_layer_rows(data, levels, (level - 1) as nat, k, x, l);
        let old = before[x];
        assert(row.subrange((l - 1) * k, (l * k) as int) =~= old.subrange(
            (l - 1) * k,
            (l * k) as int,
        ));
    } else {
        let graph = layered::layer_graph(data, n, nodes, k);
        law_members_have_the_level(levels, level as u8);
        assert forall|i: int| 0 <= i < nodes.len() implies (#[trigger] nodes[i]) < n by {
            assert(nodes.contains(nodes[i]));
        }
        law_all_layer_degrees_are_bounded(data, n, nodes, k);
        assert(graph[x].len() <= k);
        let part = layered::padded(graph[x], k, x as u32);
        assert(part.len() == k);
        if l > 1 {
            lemma_fewer_members(levels, (l - 1) as u8, l as u8, n as int);
            lemma_layer_rows(data, levels, (level - 1) as nat, k, x, (l - 1) as nat);
        } else {
            assert(before[x].len() == 0);
        }
        assert(before[x].len() == (l - 1) * k);
        assert(row == before[x] + part);
        assert(row.subrange((l - 1) * k, (l * k) as int) =~= part);
    }
}

/// The edges that a walk through a layer looks at are those of the layer's own graph over the nodes of
/// at least its level, filled up with the node itself to `k`.
pub proof fn law_layers_hold_their_own_edges<K: DistanceKernel>(
    data: Points<K>,
    entry: u32,
    drawn: Seq<u8>,
    k: usize,
    x: u32,
    l: u8,
)
    requires
        entry < drawn.len() <= 0x8000_0000,
        k >= 1,
        connection_laws::gaps_are_numbers(data, drawn.len()),
        x < drawn.len(),
        ({
            let nav = layered::layers_of(data, entry, drawn, k);
            1 <= l <= nav.levels[x as int] && layered::members(nav.levels, l).len() > 1
        }),
    ensures
        ({
            let nav = layered::layers_of(data, entry, drawn, k);
            let graph = layered::layer_graph(
                data,
                drawn.len(),
                layered::members(nav.levels, l),
                k,
            );
            let part = layered::layer_part(nav, x, l);
            &&& part.len() == k
            &&& part.take(graph[x as int].len() as int) == graph[x as int]
            &&& forall|i: int| graph[x as int].len() <= i < k ==> #[trigger] part[i] == x
        }),
{
    let nav = layered::layers_of(data, entry, drawn, k);
    law_the_entry_point_is_lifted(data, entry, drawn, k);
    lemma_top(drawn);
    let nodes = layered::members(nav.levels, l);
    law_members_have_the_level(nav.levels, l);
    assert forall|i: int| 0 <= i < nodes.len() implies (#[trigger] nodes[i]) < drawn.len() by {
        assert(nodes.contains(nodes[i]));
    }
    law_all_layer_degrees_are_bounded(data, drawn.len(), nodes, k);
    let graph = layered::layer_graph(data, drawn.len(), nodes, k);
    assert(graph[x as int].len() <= k);
    if x != entry {
        assert(nav.levels[x as int] == drawn[x as int]);
    }
    lemma_layer_rows(data, nav.levels, nav.max_level as nat, k, x as int, l as nat);
    assert((l - 1) * k + k == l * k) by (nonlinear_arith);
    let part = layered::layer_part(nav, x, l);
    assert(part == layered::padded(graph[x as int], k, x));
    assert(part.take(graph[x as int].len() as int) =~= graph[x as int]);
}

} // verus!
