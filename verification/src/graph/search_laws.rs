//! What the outcome of a greedy search is worth.
use vstd::prelude::*;
use crate::distance::single::F32;
use crate::graph::linear_pool;
use crate::graph::linear_pool::{Entry, PoolView, CHECKED_MASK};
use crate::graph::search;
use crate::graph::search::{SearchSpace, SearchState};
use crate::memory::visited;

verus! {

/// Nodes with their scores.
pub open spec fn with_scores(ids: Seq<u32>, score: spec_fn(u32) -> F32) -> Seq<Entry> {
    Seq::new(ids.len(), |i: int| (ids[i], score(ids[i])))
}

/// No id of the graph reaches into the bit that marks an expanded entry.
pub open spec fn ids_fit(space: SearchSpace, entry: u32) -> bool {
    &&& entry < CHECKED_MASK
    &&& forall|i: int, j: int|
        0 <= i < space.rows.len() && 0 <= j < space.rows[i].len() ==> (#[trigger] space.rows[i][j])
            < CHECKED_MASK && space.rows[i][j] < space.rows.len()
    &&& entry < space.rows.len()
}

/// The score of every node is a number.
pub open spec fn scores_are_numbers(space: SearchSpace) -> bool {
    forall|id: u32| id < space.rows.len() ==> !(#[trigger] (space.score)(id)).nan()
}

/// The `ef` nearest of the nodes, nearest first, and of equally near ones those that come first.
pub open spec fn nearest(ids: Seq<u32>, score: spec_fn(u32) -> F32, ef: nat) -> Seq<Entry> {
    let all = linear_pool::in_order(with_scores(ids, score));
    if all.len() <= ef {
        all
    } else {
        all.take(ef as int)
    }
}

/// What holds between the steps of a search.
spec fn sound(space: SearchSpace, ef: nat, state: SearchState) -> bool {
    &&& state.pool.bounded()
    &&& state.pool.ef == ef
    &&& linear_pool::sorted(state.pool.items)
    &&& state.pool.tracked_marks()
    &&& state.visited.no_duplicates()
    &&& forall|i: int|
        0 <= i < state.visited.len() ==> (#[trigger] state.visited[i]) < CHECKED_MASK
            && state.visited[i] < space.rows.len()
    &&& linear_pool::unmarked(state.pool.items) == linear_pool::pool_after(
        ef,
        with_scores(state.visited, space.score),
    ).items
    &&& expanded_once(space, state)
}

/// Every node that is marked in the pool has had its neighbours visited.
spec fn expanded_once(space: SearchSpace, state: SearchState) -> bool {
    forall|i: int, j: int|
        0 <= i < state.pool.items.len() && linear_pool::marked(state.pool.items[i].0) && 0 <= j
            < space.rows[linear_pool::raw(state.pool.items[i].0) as int].len()
            && space.rows[linear_pool::raw(state.pool.items[i].0) as int].len() <= space.limit
            ==> state.visited.contains(
            #[trigger] space.rows[linear_pool::raw(state.pool.items[i].0) as int][j],
        )
}

/// A search looks at the distances of entries only to place a new one.
proof fn lemma_search_pos_same(a: Seq<Entry>, b: Seq<Entry>, dist: F32, lo: int, hi: int)
    requires
        a.len() == b.len(),
        0 <= lo,
        hi <= a.len(),
        forall|i: int| 0 <= i < a.len() ==> (#[trigger] a[i]).1 == b[i].1,
    ensures
        linear_pool::search_pos(a, dist, lo, hi) == linear_pool::search_pos(b, dist, lo, hi),
    decreases hi - lo,
{
    if lo < hi {
        let mid = lo + (hi - lo) / 2;
        assert(a[mid].1 == b[mid].1);
        if dist.below(a[mid].1) {
            lemma_search_pos_same(a, b, dist, lo, mid);
        } else {
            lemma_search_pos_same(a, b, dist, mid + 1, hi);
        }
    }
}

/// An offer to a pool with marks and to the same pool without them has the same effect.
proof fn lemma_insert_unmarked(pool: PoolView, plain: PoolView, node: u32, dist: F32)
    requires
        pool.bounded(),
        plain.bounded(),
        pool.ef == plain.ef,
        pool.ef >= 1,
        linear_pool::sorted(pool.items),
        !dist.nan(),
        node < CHECKED_MASK,
        linear_pool::unmarked(pool.items) == plain.items,
    ensures
        linear_pool::unmarked(pool.insert(node, dist).items) == plain.insert(node, dist).items,
{
    assert forall|i: int| 0 <= i < pool.items.len() implies (#[trigger] pool.items[i]).1
        == plain.items[i].1 by {
        assert(linear_pool::unmarked(pool.items)[i] == plain.items[i]);
    }
    lemma_search_pos_same(pool.items, plain.items, dist, 0, pool.items.len() as int);
    linear_pool::lemma_insert_pos(pool.items, dist);
    if pool.items.len() > 0 {
        assert(pool.items.last() == pool.items[pool.items.len() - 1]);
        assert(plain.items.last() == plain.items[pool.items.len() - 1]);
    }
    let a = linear_pool::unmarked(pool.insert(node, dist).items);
    let b = plain.insert(node, dist).items;
    assert(pool.refuses(dist) == plain.refuses(dist));
    let pos = linear_pool::insert_pos(pool.items, dist);
    assert forall|i: int| 0 <= i < a.len() implies a[i] == b[i] by {
        if pool.refuses(dist) {
        } else if i < pos {
            assert(linear_pool::unmarked(pool.items)[i] == plain.items[i]);
        } else if i > pos {
            assert(linear_pool::unmarked(pool.items)[i - 1] == plain.items[i - 1]);
        }
    }
    assert(a =~= b);
}

/// What offers of new nodes do to a pool.
proof fn lemma_offered(
    space: SearchSpace,
    ef: nat,
    pool: PoolView,
    visited: Seq<u32>,
    ids: Seq<u32>,
)
    requires
        ef >= 1,
        scores_are_numbers(space),
        pool.bounded(),
        pool.ef == ef,
        linear_pool::sorted(pool.items),
        pool.tracked_marks(),
        linear_pool::unmarked(pool.items) == linear_pool::pool_after(
            ef,
            with_scores(visited, space.score),
        ).items,
        forall|i: int|
            0 <= i < ids.len() ==> (#[trigger] ids[i]) < CHECKED_MASK && ids[i] < space.rows.len(),
        forall|i: int| 0 <= i < visited.len() ==> (#[trigger] visited[i]) < space.rows.len(),
    ensures
        ({
            let after = search::offered(pool, ids, space.score);
            &&& after.bounded()
            &&& after.ef == ef
            &&& linear_pool::sorted(after.items)
            &&& after.tracked_marks()
            &&& linear_pool::unmarked(after.items) == linear_pool::pool_after(
                ef,
                with_scores(visited + ids, space.score),
            ).items
            &&& forall|i: int|
                0 <= i < after.items.len() && linear_pool::marked(after.items[i].0) ==> (exists|
                    j: int,
                |
                    0 <= j < pool.items.len() && pool.items[j] == #[trigger] after.items[i])
        }),
    decreases ids.len(),
{
    let after = search::offered(pool, ids, space.score);
    if ids.len() == 0 {
        assert(visited + ids =~= visited);
        assert forall|i: int|
            0 <= i < after.items.len() && linear_pool::marked(after.items[i].0) implies (exists|
            j: int,
        |
            0 <= j < pool.items.len() && pool.items[j] == #[trigger] after.items[i]) by {
            assert(pool.items[i] == after.items[i]);
        }
    } else {
        let rest = ids.drop_last();
        let v = ids.last();
        let d = (space.score)(v);
        lemma_offered(space, ef, pool, visited, rest);
        let before = search::offered(pool, rest, space.score);
        let offers = with_scores(visited + rest, space.score);
        let all = with_scores(visited + ids, space.score);
        assert(all.drop_last() =~= offers);
        assert(all.last() == (v, d));
        assert(ids[ids.len() - 1] == v);
        assert forall|i: int| 0 <= i < offers.len() implies !(#[trigger] offers[i]).1.nan() by {
            let id = (visited + rest)[i];
            assert(id < space.rows.len());
            assert(!(space.score)(id).nan());
        }
        linear_pool::law_pool_keeps_the_nearest(ef, offers);
        let plain = linear_pool::pool_after(ef, offers);
        lemma_insert_unmarked(before, plain, v, d);
        linear_pool::law_insert_keeps_order(before, v, d);
        linear_pool::law_insert_keeps_marks(before, v, d);
        linear_pool::lemma_insert_pos(before.items, d);
        let pos = linear_pool::insert_pos(before.items, d);
        assert forall|i: int|
            0 <= i < after.items.len() && linear_pool::marked(after.items[i].0) implies (exists|
            j: int,
        |
            0 <= j < pool.items.len() && pool.items[j] == #[trigger] after.items[i]) by {
            let p = if before.refuses(d) || i < pos {
                i
            } else {
                i - 1
            };
            assert(before.refuses(d) || i != pos);
            assert(after.items[i] == before.items[p]);
            let j = choose|j: int|
                0 <= j < pool.items.len() && pool.items[j] == #[trigger] before.items[p];
            assert(pool.items[j] == after.items[i]);
        }
    }
}

/// New neighbours are neighbours, they are new, and none occurs twice. Where the limit leaves room,
/// no neighbour is left out.
pub proof fn lemma_fresh(visited: Seq<u32>, list: Seq<u32>, k: int, limit: nat)
    requires
        0 <= k <= list.len(),
        visited.no_duplicates(),
    ensures
        ({
            let f = search::fresh_upto(visited, list, k, limit);
            &&& f.len() <= k
            &&& f.len() <= limit
            &&& (visited + f).no_duplicates()
            &&& forall|i: int| 0 <= i < f.len() ==> list.contains(#[trigger] f[i])
            &&& list.len() <= limit ==> forall|i: int|
                0 <= i < k ==> (visited + f).contains(#[trigger] list[i])
        }),
    decreases k,
{
    let f = search::fresh_upto(visited, list, k, limit);
    if k == 0 {
        assert(visited + f =~= visited);
    } else {
        lemma_fresh(visited, list, k - 1, limit);
        let before = search::fresh_upto(visited, list, k - 1, limit);
        let v = list[k - 1];
        if f == before {
            if list.len() <= limit {
                assert forall|i: int| 0 <= i < k implies (visited + f).contains(
                    #[trigger] list[i],
                ) by {
                    if i == k - 1 {
                        if visited.contains(v) {
                            let j = choose|j: int| 0 <= j < visited.len() && visited[j] == v;
                            assert((visited + f)[j] == v);
                        } else {
                            let j = choose|j: int| 0 <= j < before.len() && before[j] == v;
                            assert((visited + f)[visited.len() + j] == v);
                        }
                    }
                }
            }
        } else {
            assert(f == before.push(v));
            let old_all = visited + before;
            assert(visited + f =~= old_all.push(v));
            assert(!old_all.contains(v)) by {
                if old_all.contains(v) {
                    let j = choose|j: int| 0 <= j < old_all.len() && old_all[j] == v;
                    if j < visited.len() {
                        assert(visited[j] == v);
                    } else {
                        assert(before[j - visited.len()] == v);
                    }
                }
            }
            assert forall|i: int| 0 <= i < f.len() implies list.contains(#[trigger] f[i]) by {
                if i == f.len() - 1 {
                    assert(list[k - 1] == f[i]);
                } else {
                    assert(f[i] == before[i]);
                }
            }
            if list.len() <= limit {
                assert forall|i: int| 0 <= i < k implies (visited + f).contains(
                    #[trigger] list[i],
                ) by {
                    if i == k - 1 {
                        assert((visited + f)[old_all.len() as int] == v);
                    } else {
                        let j = choose|j: int| 0 <= j < old_all.len() && old_all[j] == list[i];
                        assert((visited + f)[j] == list[i]);
                    }
                }
            }
        }
    }
}

proof fn lemma_start_sound(space: SearchSpace, ef: nat, entry: u32)
    requires
        ef >= 1,
        scores_are_numbers(space),
        ids_fit(space, entry),
    ensures
        sound(space, ef, space.start(ef, entry)),
{
    let d = (space.score)(entry);
    let state = space.start(ef, entry);
    search::lemma_only_entry(ef, entry, d);
    let offers = with_scores(state.visited, space.score);
    assert(offers.drop_last() =~= Seq::<Entry>::empty());
    assert(offers.last() == (entry, d));
    reveal_with_fuel(linear_pool::pool_after, 2);
    assert(linear_pool::pool_after(ef, offers) == PoolView::empty(ef).insert(entry, d));
    assert(linear_pool::unmarked(state.pool.items) =~= state.pool.items);
}

proof fn lemma_step_sound(space: SearchSpace, ef: nat, entry: u32, state: SearchState)
    requires
        ef >= 1,
        scores_are_numbers(space),
        ids_fit(space, entry),
        sound(space, ef, state),
    ensures
        sound(space, ef, space.step(state)),
{
    if state.pool.has_next() {
        let at = state.pool.cursor as int;
        let node = state.pool.next().0;
        let popped = state.pool.pop();
        linear_pool::law_pop_keeps_order_and_marks(state.pool);
        lemma_pool_ids(space, ef, state);
        assert(linear_pool::unmarked(state.pool.items)[at].0 == node);
        let list = space.rows[node as int];
        let found = search::fresh(state.visited, list, space.limit);
        lemma_fresh(state.visited, list, list.len() as int, space.limit);
        assert forall|i: int| 0 <= i < found.len() implies (#[trigger] found[i]) < CHECKED_MASK
            && found[i] < space.rows.len() by {
            assert(list.contains(found[i]));
            let j = choose|j: int| 0 <= j < list.len() && list[j] == found[i];
            assert(space.rows[node as int][j] < CHECKED_MASK);
        }
        lemma_offered(space, ef, popped, state.visited, found);
        let after = space.step(state);
        assert forall|i: int| 0 <= i < after.visited.len() implies (#[trigger] after.visited[i])
            < CHECKED_MASK && after.visited[i] < space.rows.len() by {
            if i < state.visited.len() {
                assert(after.visited[i] == state.visited[i]);
            } else {
                assert(after.visited[i] == found[i - state.visited.len()]);
            }
        }
        assert forall|i: int, j: int|
            0 <= i < after.pool.items.len() && linear_pool::marked(after.pool.items[i].0) && 0 <= j
                < space.rows[linear_pool::raw(after.pool.items[i].0) as int].len()
                && space.rows[linear_pool::raw(after.pool.items[i].0) as int].len()
                <= space.limit implies after.visited.contains(
            #[trigger] space.rows[linear_pool::raw(after.pool.items[i].0) as int][j],
        ) by {
            let id = linear_pool::raw(after.pool.items[i].0);
            let p = choose|p: int|
                0 <= p < popped.items.len() && popped.items[p] == #[trigger] after.pool.items[i];
            if p == at {
                assert(id == node);
                assert((state.visited + found).contains(list[j]));
            } else {
                assert(state.pool.items[p] == popped.items[p]);
                let w = space.rows[linear_pool::raw(state.pool.items[p].0) as int][j];
                assert(state.visited.contains(w));
                let q = choose|q: int| 0 <= q < state.visited.len() && state.visited[q] == w;
                assert(after.visited[q] == w);
            }
        }
    }
}

/// What the pool holds has been visited.
proof fn lemma_pool_ids(space: SearchSpace, ef: nat, state: SearchState)
    requires
        ef >= 1,
        scores_are_numbers(space),
        sound(space, ef, state),
    ensures
        forall|i: int|
            0 <= i < state.pool.items.len() ==> state.visited.contains(
                linear_pool::raw((#[trigger] state.pool.items[i]).0),
            ) && linear_pool::raw(state.pool.items[i].0) < space.rows.len(),
{
    broadcast use vstd::seq_lib::group_to_multiset_ensures;

    let offers = with_scores(state.visited, space.score);
    linear_pool::law_pool_keeps_the_nearest(ef, offers);
    linear_pool::lemma_in_order(offers);
    let all = linear_pool::in_order(offers);
    assert forall|i: int| 0 <= i < state.pool.items.len() implies state.visited.contains(
        linear_pool::raw((#[trigger] state.pool.items[i]).0),
    ) && linear_pool::raw(state.pool.items[i].0) < space.rows.len() by {
        let e = linear_pool::unmarked(state.pool.items)[i];
        assert(e == all[i]);
        assert(all.contains(e));
        assert(all.to_multiset().count(e) > 0);
        assert(offers.contains(e));
        let j = choose|j: int| 0 <= j < offers.len() && offers[j] == e;
        assert(state.visited[j] == e.0);
    }
}

proof fn lemma_sound(space: SearchSpace, ef: nat, entry: u32, k: nat)
    requires
        ef >= 1,
        scores_are_numbers(space),
        ids_fit(space, entry),
    ensures
        sound(space, ef, space.after(space.start(ef, entry), k)),
    decreases k,
{
    if k == 0 {
        lemma_start_sound(space, ef, entry);
    } else {
        lemma_sound(space, ef, entry, (k - 1) as nat);
        lemma_step_sound(
            space,
            ef,
            entry,
            space.after(space.start(ef, entry), (k - 1) as nat),
        );
    }
}

/// A search returns the `ef` nearest of all nodes that it visited, nearest first, each with its own
/// score. It visits no node twice, and only nodes of the graph.
pub proof fn law_search_returns_the_nearest(
    space: SearchSpace,
    ef: nat,
    entry: u32,
    end: SearchState,
)
    requires
        ef >= 1,
        scores_are_numbers(space),
        ids_fit(space, entry),
        space.ends(space.start(ef, entry), end),
    ensures
        linear_pool::unmarked(end.pool.items) == nearest(end.visited, space.score, ef),
        end.visited.no_duplicates(),
        forall|i: int|
            0 <= i < end.visited.len() ==> (#[trigger] end.visited[i]) < space.rows.len(),
{
    let k = choose|k: nat| #[trigger] space.after(space.start(ef, entry), k) == end;
    lemma_sound(space, ef, entry, k);
    let offers = with_scores(end.visited, space.score);
    linear_pool::law_pool_keeps_the_nearest(ef, offers);
    linear_pool::lemma_in_order(offers);
}

/// Where a search ends it cannot go on: every neighbour of every node that it returns has been
/// visited, as long as no node has more neighbours than one expansion takes. So no neighbour of a
/// result is nearer than the results, unless it is one of them.
pub proof fn law_search_ends_at_a_local_optimum(
    space: SearchSpace,
    ef: nat,
    entry: u32,
    end: SearchState,
    i: int,
    j: int,
)
    requires
        ef >= 1,
        scores_are_numbers(space),
        ids_fit(space, entry),
        space.ends(space.start(ef, entry), end),
        0 <= i < end.pool.items.len(),
        0 <= j < space.rows[linear_pool::raw(end.pool.items[i].0) as int].len(),
        space.rows[linear_pool::raw(end.pool.items[i].0) as int].len() <= space.limit,
    ensures
        end.visited.contains(space.rows[linear_pool::raw(end.pool.items[i].0) as int][j]),
{
    let k = choose|k: nat| #[trigger] space.after(space.start(ef, entry), k) == end;
    lemma_sound(space, ef, entry, k);
    assert(linear_pool::marked(end.pool.items[i].0));
}

/// Every search comes to an end.
pub proof fn law_searches_end(space: SearchSpace, ef: nat, entry: u32)
    requires
        ef >= 1,
        scores_are_numbers(space),
        ids_fit(space, entry),
    ensures
        space.ends(
            space.start(ef, entry),
            search::outcome(space, space.start(ef, entry)),
        ),
{
    let start = space.start(ef, entry);
    let k = lemma_ends_from(space, ef, entry, 0);
    assert(space.ends(start, space.after(start, k)));
}

/// From every step on a search comes to an end: a step visits a new node, or the cursor moves on.
proof fn lemma_ends_from(space: SearchSpace, ef: nat, entry: u32, k: nat) -> (end: nat)
    requires
        ef >= 1,
        scores_are_numbers(space),
        ids_fit(space, entry),
    ensures
        !space.after(space.start(ef, entry), end).pool.has_next(),
    decreases
            space.rows.len() - space.after(space.start(ef, entry), k).visited.len(),
            space.after(space.start(ef, entry), k).pool.items.len() - space.after(
                space.start(ef, entry),
                k,
            ).pool.cursor,
{
    let state = space.after(space.start(ef, entry), k);
    lemma_sound(space, ef, entry, k);
    if !state.pool.has_next() {
        k
    } else {
        let next = space.after(space.start(ef, entry), k + 1);
        assert(next == space.step(state));
        lemma_sound(space, ef, entry, k + 1);
        assert forall|v: u32| #[trigger] next.visited.contains(v) implies v < space.rows.len() by {
            let i = choose|i: int| 0 <= i < next.visited.len() && next.visited[i] == v;
            assert(next.visited[i] < space.rows.len());
        }
        visited::lemma_distinct_below(next.visited, space.rows.len());
        let at = state.pool.cursor as int;
        linear_pool::lemma_next_unmarked(
            state.pool.items.update(
                at,
                (linear_pool::mark(state.pool.items[at].0), state.pool.items[at].1),
            ),
            at + 1,
        );
        let found = search::fresh(state.visited, space.rows[state.pool.next().0 as int], space.limit);
        if found.len() == 0 {
            assert(found =~= Seq::<u32>::empty());
            assert(next.visited =~= state.visited);
            assert(next.pool == state.pool.pop());
        }
        lemma_ends_from(space, ef, entry, k + 1)
    }
}

/// What a search returns are the `ef` nearest of the nodes that it visits.
pub proof fn law_found_are_the_nearest_seen(space: SearchSpace, ef: nat, entry: u32)
    requires
        ef >= 1,
        scores_are_numbers(space),
        ids_fit(space, entry),
    ensures
        search::found(space, ef, entry) == nearest(search::seen(space, ef, entry), space.score, ef),
        search::seen(space, ef, entry).no_duplicates(),
        search::seen(space, ef, entry).contains(entry),
        forall|i: int|
            0 <= i < search::seen(space, ef, entry).len() ==> (#[trigger] search::seen(
                space,
                ef,
                entry,
            )[i]) < space.rows.len(),
{
    law_searches_end(space, ef, entry);
    let end = search::outcome(space, space.start(ef, entry));
    law_search_returns_the_nearest(space, ef, entry, end);
    let k = choose|k: nat| #[trigger] space.after(space.start(ef, entry), k) == end;
    lemma_entry_stays(space, ef, entry, k);
    assert(end.visited[0] == entry);
}

/// A search starts with the entry point.
proof fn lemma_entry_stays(space: SearchSpace, ef: nat, entry: u32, k: nat)
    ensures
        space.after(space.start(ef, entry), k).visited.len() >= 1,
        space.after(space.start(ef, entry), k).visited[0] == entry,
    decreases k,
{
    if k > 0 {
        lemma_entry_stays(space, ef, entry, (k - 1) as nat);
    }
}

/// The nearest of some nodes are in order, as many as there are or as were asked for, each one of
/// the nodes with its own score, and no other node is nearer than they are.
pub proof fn law_nearest(ids: Seq<u32>, score: spec_fn(u32) -> F32, ef: nat)
    requires
        ids.no_duplicates(),
        forall|i: int| 0 <= i < ids.len() ==> !(#[trigger] score(ids[i])).nan(),
    ensures
        linear_pool::sorted(nearest(ids, score, ef)),
        nearest(ids, score, ef).len() == (if ids.len() <= ef {
            ids.len()
        } else {
            ef
        }),
        forall|i: int|
            0 <= i < nearest(ids, score, ef).len() ==> {
                let e = #[trigger] nearest(ids, score, ef)[i];
                ids.contains(e.0) && e.1 == score(e.0)
            },
        forall|i: int, j: int|
            0 <= i < nearest(ids, score, ef).len() && 0 <= j < ids.len() ==> (exists|k: int|
                0 <= k < nearest(ids, score, ef).len() && (#[trigger] nearest(ids, score, ef)[k]).0
                    == ids[j]) || (#[trigger] nearest(ids, score, ef)[i]).1.at_most(
                #[trigger] score(ids[j]),
            ),
{
    broadcast use vstd::seq_lib::group_to_multiset_ensures;

    let offers = with_scores(ids, score);
    assert forall|i: int| 0 <= i < offers.len() implies !(#[trigger] offers[i]).1.nan() by {
        assert(!score(ids[i]).nan());
    }
    linear_pool::lemma_in_order(offers);
    let all = linear_pool::in_order(offers);
    let kept = nearest(ids, score, ef);
    assert forall|i: int| 0 <= i < kept.len() implies {
        let e = #[trigger] kept[i];
        ids.contains(e.0) && e.1 == score(e.0)
    } by {
        let e = kept[i];
        assert(e == all[i]);
        assert(all.contains(e));
        assert(all.to_multiset().count(e) > 0);
        assert(offers.contains(e));
        let j = choose|j: int| 0 <= j < offers.len() && offers[j] == e;
        assert(ids[j] == e.0);
    }
    assert forall|i: int, j: int| 0 <= i < kept.len() && 0 <= j < ids.len() implies (exists|k: int|
        0 <= k < kept.len() && (#[trigger] kept[k]).0 == ids[j]) || (
    #[trigger] kept[i]).1.at_most(#[trigger] score(ids[j])) by {
        let e = offers[j];
        assert(offers.contains(e));
        assert(offers.to_multiset().count(e) > 0);
        assert(all.contains(e));
        let k = choose|k: int| 0 <= k < all.len() && all[k] == e;
        if k < kept.len() {
            assert(kept[k].0 == ids[j]);
        } else {
            assert(all[i].1.at_most(all[k].1));
        }
    }
}

/// A node is reached from another along at most so many edges.
pub open spec fn reached(rows: Seq<Seq<u32>>, from: u32, to: u32, edges: nat) -> bool
    decreases edges,
{
    from == to || edges > 0 && exists|j: int|
        0 <= j < rows[from as int].len() && reached(
            rows,
            #[trigger] rows[from as int][j],
            to,
            (edges - 1) as nat,
        )
}

/// A search as wide as the graph visits every neighbour of every node that it visits.
proof fn lemma_wide_search_is_closed(space: SearchSpace, ef: nat, entry: u32, v: u32, j: int)
    requires
        ef >= 1,
        ef >= space.rows.len(),
        scores_are_numbers(space),
        ids_fit(space, entry),
        search::seen(space, ef, entry).contains(v),
        0 <= j < space.rows[v as int].len(),
        space.rows[v as int].len() <= space.limit,
    ensures
        search::seen(space, ef, entry).contains(space.rows[v as int][j]),
{
    broadcast use vstd::seq_lib::group_to_multiset_ensures;

    law_searches_end(space, ef, entry);
    let end = search::outcome(space, space.start(ef, entry));
    law_search_returns_the_nearest(space, ef, entry, end);
    let seen = end.visited;
    assert forall|x: u32| #[trigger] seen.contains(x) implies x < space.rows.len() by {
        let i = choose|i: int| 0 <= i < seen.len() && seen[i] == x;
        assert(seen[i] < space.rows.len());
    }
    visited::lemma_distinct_below(seen, space.rows.len());
    let offers = with_scores(seen, space.score);
    linear_pool::lemma_in_order(offers);
    let all = linear_pool::in_order(offers);
    assert(all == linear_pool::unmarked(end.pool.items));
    let at = choose|i: int| 0 <= i < seen.len() && seen[i] == v;
    let e = offers[at];
    assert(offers.contains(e));
    assert(offers.to_multiset().count(e) > 0);
    assert(all.contains(e));
    let i = choose|i: int| 0 <= i < all.len() && all[i] == e;
    assert(linear_pool::raw(end.pool.items[i].0) == v);
    law_search_ends_at_a_local_optimum(space, ef, entry, end, i, j);
}

proof fn lemma_reached_is_seen(
    space: SearchSpace,
    ef: nat,
    entry: u32,
    from: u32,
    to: u32,
    edges: nat,
)
    requires
        ef >= 1,
        ef >= space.rows.len(),
        scores_are_numbers(space),
        ids_fit(space, entry),
        forall|i: int|
            0 <= i < space.rows.len() ==> (#[trigger] space.rows[i]).len() <= space.limit,
        search::seen(space, ef, entry).contains(from),
        reached(space.rows, from, to, edges),
    ensures
        search::seen(space, ef, entry).contains(to),
    decreases edges,
{
    if from != to {
        let j = choose|j: int|
            0 <= j < space.rows[from as int].len() && reached(
                space.rows,
                #[trigger] space.rows[from as int][j],
                to,
                (edges - 1) as nat,
            );
        let seen = search::seen(space, ef, entry);
        let i = choose|i: int| 0 <= i < seen.len() && seen[i] == from;
        law_found_are_the_nearest_seen(space, ef, entry);
        assert(seen[i] < space.rows.len());
        lemma_wide_search_is_closed(space, ef, entry, from, j);
        lemma_reached_is_seen(
            space,
            ef,
            entry,
            space.rows[from as int][j],
            to,
            (edges - 1) as nat,
        );
    }
}

/// A search as wide as the graph, where no node has more neighbours than one expansion takes,
/// visits every node that can be reached from where it starts, so its results are the nearest of
/// them all.
pub proof fn law_wide_searches_miss_nothing(
    space: SearchSpace,
    ef: nat,
    entry: u32,
    to: u32,
    edges: nat,
)
    requires
        ef >= 1,
        ef >= space.rows.len(),
        scores_are_numbers(space),
        ids_fit(space, entry),
        forall|i: int|
            0 <= i < space.rows.len() ==> (#[trigger] space.rows[i]).len() <= space.limit,
        reached(space.rows, entry, to, edges),
    ensures
        search::seen(space, ef, entry).contains(to),
        search::found(space, ef, entry) == nearest(search::seen(space, ef, entry), space.score, ef),
{
    law_found_are_the_nearest_seen(space, ef, entry);
    lemma_reached_is_seen(space, ef, entry, entry, to, edges);
}

} // verus!
