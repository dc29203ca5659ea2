//! What a build starts from, and which nodes a descent through the layers can start at.
use vstd::prelude::*;
use crate::build::rng;
use crate::build::rng::{Draw, RngView};
use crate::distance::DistanceKernel;
use crate::distance::single::F32;
use crate::graph::construction;
use crate::graph::layered;
use crate::graph::neighbour_laws;
use crate::graph::points;
use crate::graph::points::Points;
use crate::memory::graph;
use crate::memory::graph::CsrView;

verus! {

/// A node gets as many random neighbours as the limit allows, or all other nodes where they are fewer.
pub proof fn law_random_degrees(n: nat, r_max: nat)
    requires
        n > 0,
    ensures
        construction::random_degree(n, r_max) <= r_max,
        construction::random_degree(n, r_max) <= n - 1,
        construction::random_degree(n, r_max) == r_max || construction::random_degree(n, r_max)
            == n - 1,
{
}

/// The random neighbours of a node are apart from one another and from the node, and no more than asked
/// for; fewer only where the draws ran out.
pub proof fn law_random_neighbours_are_apart(
    source: RngView,
    node: u32,
    n: u32,
    count: nat,
    got: Seq<u32>,
    fuel: nat,
)
    requires
        got.no_duplicates(),
        !got.contains(node),
        got.len() <= count,
    ensures
        ({
            let list = construction::random_neighbors(source, node, n, count, got, fuel).0;
            &&& list.no_duplicates()
            &&& !list.contains(node)
            &&& list.len() <= count
            &&& got.is_prefix_of(list)
            &&& got.len() == count ==> list == got
        }),
    decreases fuel,
{
    if got.len() < count && fuel > 0 {
        let j = rng::chacha8_below(source.seed, source.draws, n);
        let next = source.after(Draw::Below { bound: n });
        let more = if j == node || got.contains(j) {
            got
        } else {
            got.push(j)
        };
        assert(more.no_duplicates());
        assert(!more.contains(node)) by {
            if more.contains(node) {
                let k = choose|k: int| 0 <= k < more.len() && more[k] == node;
                assert(got[k] == node || k == got.len());
            }
        }
        law_random_neighbours_are_apart(next, node, n, count, more, (fuel - 1) as nat);
        let list = construction::random_neighbors(next, node, n, count, more, (fuel - 1) as nat).0;
        assert(got =~= list.subrange(0, got.len() as int)) by {
            assert(more == list.subrange(0, more.len() as int));
            assert forall|i: int| 0 <= i < got.len() implies got[i] == list[i] by {
                assert(more[i] == list.subrange(0, more.len() as int)[i]);
            }
        }
    } else {
        assert(got =~= got.subrange(0, got.len() as int));
    }
}

/// There is an edge between a node and one of the first `j` of a list, in one direction or the other.
pub open spec fn joins(node: u32, list: Seq<u32>, j: int, from: int, to: u32) -> bool {
    ||| from == node && list.take(j).contains(to)
    ||| to == node && list.take(j).contains(from as u32)
}

/// Joining a node with a list adds an edge to each of the list and one back, and no other edge; every
/// edge that was there stays.
pub proof fn law_joined_nodes_have_edges_both_ways(
    view: CsrView,
    node: u32,
    list: Seq<u32>,
    j: int,
    from: int,
    to: u32,
)
    requires
        view.overflow.len() == view.lists.len() <= u32::MAX,
        node < view.lists.len(),
        points::below(list, view.lists.len()),
        0 <= j <= list.len(),
        0 <= from < view.lists.len(),
    ensures
        ({
            let after = construction::joined(view, node, list, j);
            &&& after.lists.len() == view.lists.len()
            &&& after.overflow.len() == view.lists.len()
            &&& after.all(from).contains(to) <==> view.all(from).contains(to) || joins(
                node,
                list,
                j,
                from,
                to,
            )
        }),
    decreases j,
{
    if j > 0 {
        law_joined_nodes_have_edges_both_ways(view, node, list, j - 1, from, to);
        let before = construction::joined(view, node, list, j - 1);
        let x = list[j - 1];
        assert(x < view.lists.len());
        let once = before.add_edge(node as int, x);
        graph::law_added_edges_are_there(before, node as int, x, from, to);
        graph::law_added_edges_are_there(once, x as int, node, from, to);
        let short = list.take(j - 1);
        let all = list.take(j);
        assert(all =~= short.push(x));
        lemma_push(short, x, to);
        lemma_push(short, x, from as u32);
    } else {
        assert(list.take(j) =~= Seq::<u32>::empty());
    }
}

proof fn lemma_push(s: Seq<u32>, x: u32, v: u32)
    ensures
        s.push(x).contains(v) <==> s.contains(v) || v == x,
{
    let t = s.push(x);
    if t.contains(v) {
        let k = choose|k: int| 0 <= k < t.len() && t[k] == v;
        if k < s.len() {
            assert(s[k] == v);
        }
    }
    if s.contains(v) {
        let k = choose|k: int| 0 <= k < s.len() && s[k] == v;
        assert(t[k] == v);
    }
    if v == x {
        assert(t[s.len() as int] == v);
    }
}

/// The distances are those of each node to the nearest of the chosen ones.
pub open spec fn are_least_gaps<K: DistanceKernel>(
    data: Points<K>,
    nodes: Seq<u32>,
    chosen: Seq<u32>,
    dists: Seq<F32>,
) -> bool {
    &&& dists.len() == nodes.len()
    &&& forall|i: int, e: int|
        #![trigger nodes[i], chosen[e]]
        0 <= i < nodes.len() && 0 <= e < chosen.len() ==> dists[i].at_most(
            neighbour_laws::gap(data, chosen[e], nodes[i]),
        )
    &&& forall|i: int|
        0 <= i < nodes.len() ==> is_gap_to_one(data, chosen, #[trigger] nodes[i], dists[i])
}

/// The distance is that of the node to one of the chosen ones.
pub open spec fn is_gap_to_one<K: DistanceKernel>(
    data: Points<K>,
    chosen: Seq<u32>,
    node: u32,
    d: F32,
) -> bool {
    exists|e: int|
        0 <= e < chosen.len() && d == neighbour_laws::gap(data, #[trigger] chosen[e], node)
}

/// No node is farther from those chosen before place `p` than the one that is chosen there.
pub open spec fn is_farthest<K: DistanceKernel>(
    data: Points<K>,
    nodes: Seq<u32>,
    chosen: Seq<u32>,
    p: int,
) -> bool {
    &&& nodes.contains(chosen[p])
    &&& forall|i: int| 0 <= i < nodes.len() ==> is_nearer(data, chosen, p, #[trigger] nodes[i])
}

/// The node is no farther from those chosen before place `p` than the one at the place.
pub open spec fn is_nearer<K: DistanceKernel>(
    data: Points<K>,
    chosen: Seq<u32>,
    p: int,
    node: u32,
) -> bool {
    exists|e: int| 0 <= e < p && #[trigger] nearer_than_all(data, chosen, p, e, node)
}

/// The node is no farther from one chosen node than the node at place `p` is from any chosen before.
pub open spec fn nearer_than_all<K: DistanceKernel>(
    data: Points<K>,
    chosen: Seq<u32>,
    p: int,
    e: int,
    node: u32,
) -> bool {
    forall|f: int|
        0 <= f < p ==> neighbour_laws::gap(data, chosen[e], node).at_most(
            neighbour_laws::gap(data, #[trigger] chosen[f], chosen[p]),
        )
}

proof fn lemma_farthest(dists: Seq<F32>, i: int)
    requires
        0 < i <= dists.len(),
        forall|k: int| 0 <= k < dists.len() ==> !(#[trigger] dists[k]).nan(),
    ensures
        0 <= layered::farthest(dists, i) < i,
        forall|k: int| 0 <= k < i ==> (#[trigger] dists[k]).at_most(
            dists[layered::farthest(dists, i)],
        ),
    decreases i,
{
    if i > 1 {
        lemma_farthest(dists, i - 1);
        let before = layered::farthest(dists, i - 1);
        assert(!dists[i - 1].nan() && !dists[before].nan());
    }
}

/// The entry candidates of a crowded top layer are spread out: each further one is a node of the layer
/// that no other is farther from those chosen before it.
pub proof fn law_entry_candidates_are_spread_out<K: DistanceKernel>(
    data: Points<K>,
    nodes: Seq<u32>,
    chosen: Seq<u32>,
    dists: Seq<F32>,
    more: nat,
)
    requires
        nodes.len() > 0,
        chosen.len() > 0,
        are_least_gaps(data, nodes, chosen, dists),
        forall|a: int, b: int|
            0 <= a < nodes.len() && 0 <= b < nodes.len() ==> !(#[trigger] neighbour_laws::gap(
                data,
                nodes[a],
                nodes[b],
            )).nan(),
    ensures
        ({
            let all = layered::spread_out(data, nodes, chosen, dists, more);
            &&& all.len() == chosen.len() + more
            &&& chosen.is_prefix_of(all)
            &&& forall|p: int|
                chosen.len() <= p < all.len() ==> #[trigger] is_farthest(data, nodes, all, p)
        }),
    decreases more,
{
    let all = layered::spread_out(data, nodes, chosen, dists, more);
    if more == 0 {
        assert(chosen =~= all.subrange(0, chosen.len() as int));
    } else {
        let n = nodes.len() as int;
        assert forall|k: int| 0 <= k < dists.len() implies !(#[trigger] dists[k]).nan() by {
            assert(dists[k].at_most(neighbour_laws::gap(data, chosen[0], nodes[k])));
        }
        lemma_farthest(dists, n);
        let at = layered::farthest(dists, n);
        let next = nodes[at];
        let grown = chosen.push(next);
        let to_next = layered::spread_from(data, next, nodes);
        let least = layered::place_wise_min(dists, to_next);
        assert forall|i: int| 0 <= i < n implies #[trigger] to_next[i] == neighbour_laws::gap(
            data,
            next,
            nodes[i],
        ) by {}
        assert(are_least_gaps(data, nodes, grown, least)) by {
            assert forall|i: int, e: int|
                #![trigger nodes[i], grown[e]]
                0 <= i < nodes.len() && 0 <= e < grown.len() implies least[i].at_most(
                neighbour_laws::gap(data, grown[e], nodes[i]),
            ) by {
                assert(to_next[i] == neighbour_laws::gap(data, next, nodes[i]));
                assert(!dists[i].nan() && !to_next[i].nan());
                if e < chosen.len() {
                    assert(chosen[e] == grown[e]);
                    assert(dists[i].at_most(neighbour_laws::gap(data, chosen[e], nodes[i])));
                }
            }
            assert forall|i: int| 0 <= i < nodes.len() implies is_gap_to_one(
                data,
                grown,
                #[trigger] nodes[i],
                least[i],
            ) by {
                assert(is_gap_to_one(data, chosen, nodes[i], dists[i]));
                assert(to_next[i] == neighbour_laws::gap(data, next, nodes[i]));
                let e = choose|e: int|
                    0 <= e < chosen.len() && dists[i] == neighbour_laws::gap(
                        data,
                        #[trigger] chosen[e],
                        nodes[i],
                    );
                assert(grown[e] == chosen[e]);
                assert(grown[chosen.len() as int] == next);
            }
        }
        law_entry_candidates_are_spread_out(data, nodes, grown, least, (more - 1) as nat);
        assert(grown == all.subrange(0, grown.len() as int));
        assert forall|k: int| 0 <= k < grown.len() implies all[k] == grown[k] by {
            assert(grown[k] == all.subrange(0, grown.len() as int)[k]);
        }
        assert(chosen =~= all.subrange(0, chosen.len() as int)) by {
            assert forall|k: int| 0 <= k < chosen.len() implies chosen[k] == all[k] by {
                assert(grown[k] == chosen[k]);
            }
        }
        let p = chosen.len() as int;
        assert(is_farthest(data, nodes, all, p)) by {
            assert(all[p] == next);
            assert forall|i: int| 0 <= i < nodes.len() implies is_nearer(
                data,
                all,
                p,
                #[trigger] nodes[i],
            ) by {
                assert(is_gap_to_one(data, chosen, nodes[i], dists[i]));
                let e = choose|e: int|
                    0 <= e < chosen.len() && dists[i] == neighbour_laws::gap(
                        data,
                        #[trigger] chosen[e],
                        nodes[i],
                    );
                assert(all[e] == grown[e] && grown[e] == chosen[e]);
                assert forall|f: int| 0 <= f < p implies neighbour_laws::gap(
                    data,
                    all[e],
                    nodes[i],
                ).at_most(neighbour_laws::gap(data, #[trigger] all[f], all[p])) by {
                    assert(all[f] == grown[f] && grown[f] == chosen[f]);
                    assert(dists[at].at_most(neighbour_laws::gap(data, chosen[f], nodes[at])));
                    assert(dists[i].at_most(dists[at]));
                }
                assert(nearer_than_all(data, all, p, e, nodes[i]));
            }
        }
    }
}

/// Of a top layer with no more than fifty nodes every node is an entry candidate; of one with more,
/// fifty are, and the entry point is the first.
pub proof fn law_fifty_entry_candidates<K: DistanceKernel>(
    data: Points<K>,
    levels: Seq<u8>,
    max_level: u8,
    entry: u32,
)
    requires
        ({
            let nodes = layered::members(levels, max_level);
            &&& forall|a: int, b: int|
                0 <= a < nodes.len() && 0 <= b < nodes.len() ==> !(#[trigger] neighbour_laws::gap(
                    data,
                    nodes[a],
                    nodes[b],
                )).nan()
            &&& forall|b: int|
                0 <= b < nodes.len() ==> !(#[trigger] neighbour_laws::gap(
                    data,
                    entry,
                    nodes[b],
                )).nan()
        }),
    ensures
        ({
            let nodes = layered::members(levels, max_level);
            let candidates = layered::entry_candidates_of(data, levels, max_level, entry);
            &&& nodes.len() <= 50 ==> candidates == nodes
            &&& nodes.len() > 50 ==> {
                &&& candidates.len() == 50
                &&& candidates[0] == entry
                &&& forall|p: int|
                    1 <= p < 50 ==> #[trigger] is_farthest(data, nodes, candidates, p)
            }
        }),
{
    let nodes = layered::members(levels, max_level);
    if nodes.len() > 50 {
        let first = seq![entry];
        let dists = layered::spread_from(data, entry, nodes);
        assert forall|i: int| 0 <= i < nodes.len() implies #[trigger] dists[i]
            == neighbour_laws::gap(data, first[0], nodes[i]) by {}
        assert(are_least_gaps(data, nodes, first, dists)) by {
            assert forall|i: int, e: int|
                #![trigger nodes[i], first[e]]
                0 <= i < nodes.len() && 0 <= e < first.len() implies dists[i].at_most(
                neighbour_laws::gap(data, first[e], nodes[i]),
            ) by {
                assert(dists[i] == neighbour_laws::gap(data, first[0], nodes[i]));
            }
            assert forall|i: int| 0 <= i < nodes.len() implies is_gap_to_one(
                data,
                first,
                #[trigger] nodes[i],
                dists[i],
            ) by {
                assert(dists[i] == neighbour_laws::gap(data, first[0], nodes[i]));
            }
        }
        law_entry_candidates_are_spread_out(data, nodes, first, dists, 49);
        let all = layered::spread_out(data, nodes, first, dists, 49);
        assert(first == all.subrange(0, 1));
        assert(all[0] == first[0]) by {
            assert(all.subrange(0, 1)[0] == first[0]);
        }
    }
}

/// Every edge of the graph goes both ways.
pub open spec fn goes_both_ways(view: CsrView) -> bool {
    forall|a: int, b: int|
        #![trigger view.all(a), view.all(b)]
        0 <= a < view.lists.len() && 0 <= b < view.lists.len() ==> (view.all(a).contains(b as u32)
            <==> view.all(b).contains(a as u32))
}

proof fn lemma_drawn_below(
    source: RngView,
    node: u32,
    n: u32,
    count: nat,
    got: Seq<u32>,
    fuel: nat,
)
    requires
        forall|seed: u64, draws: Seq<Draw>| #[trigger] rng::chacha8_below(seed, draws, n) < n,
        points::below(got, n as nat),
    ensures
        points::below(
            construction::random_neighbors(source, node, n, count, got, fuel).0,
            n as nat,
        ),
    decreases fuel,
{
    if got.len() < count && fuel > 0 {
        let j = rng::chacha8_below(source.seed, source.draws, n);
        let next = source.after(Draw::Below { bound: n });
        let more = if j == node || got.contains(j) {
            got
        } else {
            got.push(j)
        };
        lemma_drawn_below(next, node, n, count, more, (fuel - 1) as nat);
    }
}

/// In the random graph that a build starts from every edge goes both ways, where numbers below a bound
/// are below it.
pub proof fn law_random_graphs_go_both_ways(
    view: CsrView,
    source: RngView,
    n: u32,
    count: nat,
    i: int,
)
    requires
        forall|seed: u64, draws: Seq<Draw>| #[trigger] rng::chacha8_below(seed, draws, n) < n,
        view.overflow.len() == view.lists.len() == n,
        goes_both_ways(view),
        0 <= i <= n,
    ensures
        ({
            let after = construction::randomized(view, source, n, count, i).0;
            &&& after.lists.len() == n
            &&& after.overflow.len() == n
            &&& goes_both_ways(after)
        }),
    decreases i,
{
    if i > 0 {
        law_random_graphs_go_both_ways(view, source, n, count, i - 1);
        let before = construction::randomized(view, source, n, count, i - 1);
        let node = (i - 1) as u32;
        let list = construction::random_neighbors(
            before.1,
            node,
            n,
            count,
            Seq::empty(),
            u64::MAX as nat,
        ).0;
        lemma_drawn_below(before.1, node, n, count, Seq::empty(), u64::MAX as nat);
        let l = list.len() as int;
        let after = construction::joined(before.0, node, list, l);
        law_joined_nodes_have_edges_both_ways(before.0, node, list, l, 0, 0);
        assert forall|a: int, b: int|
            #![trigger after.all(a), after.all(b)]
            0 <= a < after.lists.len() && 0 <= b < after.lists.len() implies (after.all(
            a,
        ).contains(b as u32) <==> after.all(b).contains(a as u32)) by {
            law_joined_nodes_have_edges_both_ways(before.0, node, list, l, a, b as u32);
            law_joined_nodes_have_edges_both_ways(before.0, node, list, l, b, a as u32);
            assert(before.0.all(a).contains(b as u32) <==> before.0.all(b).contains(a as u32));
        }
    }
}

/// The levels of nodes come from a generator with the seed 42, the level of each node from the 64-bit
/// number after those of the nodes before it.
pub proof fn law_levels_are_drawn_in_turn(i: nat)
    ensures
        layered::level_source(i).seed == 42,
        layered::level_source(i).draws == Seq::new(i, |k: int| Draw::U64),
        layered::level_draw(i) < 0x20_0000_0000_0000,
    decreases i,
{
    if i > 0 {
        law_levels_are_drawn_in_turn((i - 1) as nat);
    }
    assert(layered::level_source(i).draws =~= Seq::new(i, |k: int| Draw::U64));
}

} // verus!
