//! The candidates of a pruning: without the node itself, each once, nearest first.
use vstd::prelude::*;
use crate::distance::DistanceKernel;
use crate::distance::single::F32;
use crate::graph::search;
use crate::graph::search::vector_slice;
use crate::sorting;
use crate::sorting::stable_order;

verus! {

/// A distance and a node.
pub type Scored = (F32, u32);

/// The order of candidates: by distance, equal distances by id.
pub open spec fn nearer(a: Scored, b: Scored) -> bool {
    a.0.rank() < b.0.rank() || a.0.rank() == b.0.rank() && a.1 < b.1
}

/// Where a candidate goes in a list in that order.
pub open spec fn place_of(list: Seq<Scored>, e: Scored) -> int
    decreases list.len(),
{
    if list.len() == 0 {
        0
    } else if nearer(e, list.last()) {
        place_of(list.drop_last(), e)
    } else {
        list.len() as int
    }
}

/// The list has the node.
pub open spec fn lists(list: Seq<Scored>, id: u32) -> bool {
    exists|i: int| 0 <= i < list.len() && (#[trigger] list[i]).1 == id
}

/// The candidates other than `node`, each once, with their distances, nearest first and equal
/// distances by id.
pub open spec fn prepared(candidates: Seq<u32>, node: u32, dist: spec_fn(u32) -> F32) -> Seq<Scored>
    decreases candidates.len(),
{
    if candidates.len() == 0 {
        Seq::empty()
    } else {
        let before = prepared(candidates.drop_last(), node, dist);
        let c = candidates.last();
        if c == node || lists(before, c) {
            before
        } else {
            before.insert(place_of(before, (dist(c), c)), (dist(c), c))
        }
    }
}

/// The list is in order and holds exactly the candidates other than `node`, with their distances.
pub open spec fn is_prepared(
    list: Seq<Scored>,
    candidates: Seq<u32>,
    node: u32,
    dist: spec_fn(u32) -> F32,
) -> bool {
    &&& forall|i: int, j: int|
        #![trigger list[i], list[j]]
        0 <= i < j < list.len() ==> nearer(list[i], list[j])
    &&& forall|i: int|
        0 <= i < list.len() ==> candidates.contains((#[trigger] list[i]).1) && list[i].1 != node
            && list[i].0 == dist(list[i].1)
    &&& forall|c: u32| #[trigger] candidates.contains(c) && c != node ==> lists(list, c)
}

proof fn lemma_place_of(list: Seq<Scored>, e: Scored)
    requires
        forall|i: int, j: int|
            #![trigger list[i], list[j]]
            0 <= i < j < list.len() ==> nearer(list[i], list[j]),
        forall|i: int| 0 <= i < list.len() ==> (#[trigger] list[i]).1 != e.1,
    ensures
        0 <= place_of(list, e) <= list.len(),
        forall|i: int| 0 <= i < place_of(list, e) ==> nearer(#[trigger] list[i], e),
        forall|i: int| place_of(list, e) <= i < list.len() ==> nearer(e, #[trigger] list[i]),
    decreases list.len(),
{
    if list.len() > 0 {
        if nearer(e, list.last()) {
            let short = list.drop_last();
            assert forall|i: int, j: int|
                #![trigger short[i], short[j]]
                0 <= i < j < short.len() implies nearer(short[i], short[j]) by {
                assert(nearer(list[i], list[j]));
            }
            lemma_place_of(short, e);
            assert forall|i: int| 0 <= i < place_of(list, e) implies nearer(
                #[trigger] list[i],
                e,
            ) by {
                assert(short[i] == list[i]);
            }
            assert forall|i: int| place_of(list, e) <= i < list.len() implies nearer(
                e,
                #[trigger] list[i],
            ) by {
                if i < short.len() {
                    assert(short[i] == list[i]);
                }
            }
        } else {
            let l = list.len() - 1;
            assert(list[l].1 != e.1);
            assert(nearer(list[l], e));
            assert forall|i: int| 0 <= i < list.len() implies nearer(#[trigger] list[i], e) by {
                if i < l {
                    assert(nearer(list[i], list[l]));
                }
            }
        }
    }
}

/// `prepared` is in order and complete.
pub proof fn lemma_prepared(candidates: Seq<u32>, node: u32, dist: spec_fn(u32) -> F32)
    ensures
        is_prepared(prepared(candidates, node, dist), candidates, node, dist),
    decreases candidates.len(),
{
    if candidates.len() > 0 {
        let short = candidates.drop_last();
        lemma_prepared(short, node, dist);
        let before = prepared(short, node, dist);
        let c = candidates.last();
        let list = prepared(candidates, node, dist);
        assert forall|x: u32| short.contains(x) implies #[trigger] candidates.contains(x) by {
            let i = choose|i: int| 0 <= i < short.len() && short[i] == x;
            assert(candidates[i] == x);
        }
        assert forall|x: u32| #[trigger] candidates.contains(x) implies short.contains(x) || x == c by {
            let i = choose|i: int| 0 <= i < candidates.len() && candidates[i] == x;
            if i < short.len() {
                assert(short[i] == x);
            }
        }
        assert(candidates.contains(c)) by {
            assert(candidates[candidates.len() - 1] == c);
        }
        if c == node || lists(before, c) {
            assert forall|x: u32| #[trigger] candidates.contains(x) && x != node implies lists(
                list,
                x,
            ) by {
                assert(short.contains(x) || x == c);
            }
        } else {
            let e = (dist(c), c);
            lemma_place_of(before, e);
            let p = place_of(before, e);
            assert forall|i: int, j: int|
                #![trigger list[i], list[j]]
                0 <= i < j < list.len() implies nearer(list[i], list[j]) by {
                let a = if i < p {
                    i
                } else {
                    i - 1
                };
                let b = if j < p {
                    j
                } else {
                    j - 1
                };
                if i != p && j != p {
                    assert(nearer(before[a], before[b]));
                }
            }
            assert forall|i: int| 0 <= i < list.len() implies candidates.contains(
                (#[trigger] list[i]).1,
            ) && list[i].1 != node && list[i].0 == dist(list[i].1) by {
                if i < p {
                    assert(list[i] == before[i]);
                    assert(short.contains(before[i].1));
                } else if i > p {
                    assert(list[i] == before[i - 1]);
                    assert(short.contains(before[i - 1].1));
                }
            }
            assert forall|x: u32| #[trigger] candidates.contains(x) && x != node implies lists(
                list,
                x,
            ) by {
                if x == c {
                    assert(list[p].1 == x);
                } else {
                    assert(short.contains(x));
                    let i = choose|i: int| 0 <= i < before.len() && (#[trigger] before[i]).1 == x;
                    if i < p {
                        assert(list[i].1 == x);
                    } else {
                        assert(list[i + 1].1 == x);
                    }
                }
            }
        }
    }
}

/// There is one such list.
pub proof fn lemma_prepared_unique(
    a: Seq<Scored>,
    b: Seq<Scored>,
    candidates: Seq<u32>,
    node: u32,
    dist: spec_fn(u32) -> F32,
)
    requires
        is_prepared(a, candidates, node, dist),
        is_prepared(b, candidates, node, dist),
    ensures
        a == b,
{
    lemma_prepared_prefix(a, b, candidates, node, dist, a.len() as int);
    lemma_prepared_prefix(b, a, candidates, node, dist, b.len() as int);
    assert(a =~= b);
}

proof fn lemma_prepared_prefix(
    a: Seq<Scored>,
    b: Seq<Scored>,
    candidates: Seq<u32>,
    node: u32,
    dist: spec_fn(u32) -> F32,
    k: int,
)
    requires
        is_prepared(a, candidates, node, dist),
        is_prepared(b, candidates, node, dist),
        0 <= k <= a.len(),
    ensures
        k <= b.len(),
        forall|i: int| 0 <= i < k ==> a[i] == b[i],
    decreases k,
{
    if k > 0 {
        let i = k - 1;
        lemma_prepared_prefix(a, b, candidates, node, dist, i);
        assert(candidates.contains(a[i].1));
        let j = choose|j: int| 0 <= j < b.len() && (#[trigger] b[j]).1 == a[i].1;
        assert(b[j] == a[i]);
        if j < i {
            assert(a[j] == b[j]);
            assert(nearer(a[j], a[i]));
        }
        if j > i {
            assert(candidates.contains(b[i].1));
            let m = choose|m: int| 0 <= m < a.len() && (#[trigger] a[m]).1 == b[i].1;
            assert(a[m] == b[i]);
            if m < i {
                assert(a[m] == b[m]);
                assert(nearer(b[m], b[i]));
            } else if m == i {
                assert(nearer(b[i], b[j]));
            } else {
                assert(nearer(a[i], a[m]));
                assert(nearer(b[i], b[j]));
            }
        }
    }
}

/// The distance of each node to a given one.
pub open spec fn distances_to<K: DistanceKernel>(
    kernel: &K,
    vectors: Seq<F32>,
    dim: int,
    node: u32,
) -> spec_fn(u32) -> F32 {
    |c: u32|
        search::node_distance(
            kernel,
            vectors,
            dim,
            search::vector_of(vectors, dim, node as int),
            c as int,
        )
}

/// The node and all candidates have vectors.
pub open spec fn candidates_valid(
    vectors: Seq<F32>,
    dim: int,
    node: u32,
    candidates: Seq<u32>,
) -> bool {
    &&& node <= usize::MAX
    &&& search::has_vector(vectors, dim, node as int)
    &&& forall|i: int|
        0 <= i < candidates.len() ==> search::has_vector(
            vectors,
            dim,
            (#[trigger] candidates[i]) as int,
        ) && candidates[i] <= usize::MAX
}

/// The candidates of a pruning.
pub(crate) fn prepare_candidates<K: DistanceKernel>(
    kernel: &K,
    candidates: &[u32],
    node: u32,
    vectors: &[F32],
    dim: usize,
) -> (scored: Vec<(F32, u32)>)
    requires
        candidates_valid(vectors@, dim as int, node, candidates@),
    ensures
        scored@ == prepared(
            candidates@,
            node,
            distances_to(kernel, vectors@, dim as int, node),
        ),
{
    let ghost dist = distances_to(kernel, vectors@, dim as int, node);
    let query = vector_slice(vectors, dim, node);
    let mut all: Vec<(F32, u32)> = Vec::new();
    let mut keys: Vec<i128> = Vec::new();
    let mut i: usize = 0;
    while i < candidates.len()
        invariant
            i <= candidates@.len(),
            candidates_valid(vectors@, dim as int, node, candidates@),
            dist == distances_to(kernel, vectors@, dim as int, node),
            query@ == search::vector_of(vectors@, dim as int, node as int),
            query@.len() == dim,
            keys@.len() == all@.len(),
            forall|k: int|
                0 <= k < all@.len() ==> candidates@.contains((#[trigger] all@[k]).1) && all@[k].1
                    != node && all@[k].0 == dist(all@[k].1),
            forall|k: int|
                0 <= k < all@.len() ==> #[trigger] keys@[k] == all@[k].0.rank() * 0x1_0000_0000
                    + all@[k].1,
            forall|k: int|
                0 <= k < i && candidates@[k] != node ==> lists(all@, #[trigger] candidates@[k]),
        decreases candidates@.len() - i,
    {
        let c: u32 = candidates[i];
        if c != node {
            let d = kernel.distance(query, vector_slice(vectors, dim, c));
            let ghost before = all@;
            all.push((d, c));
            keys.push(d.rank_of() as i128 * 0x1_0000_0000 + c as i128);
            proof {
                assert(candidates@[i as int] == c);
                assert(all@[before.len() as int].1 == c);
                assert forall|k: int| 0 <= k < i + 1 && candidates@[k] != node implies lists(
                    all@,
                    #[trigger] candidates@[k],
                ) by {
                    if k < i {
                        let m = choose|m: int|
                            0 <= m < before.len() && (#[trigger] before[m]).1 == candidates@[k];
                        assert(all@[m].1 == candidates@[k]);
                    }
                }
            }
        }
        i += 1;
    }
    let order = stable_order(keys.as_slice());
    proof {
        sorting::lemma_stable_order_is_permutation(keys@, order@);
    }
    let mut out: Vec<(F32, u32)> = Vec::with_capacity(all.len());
    let mut k: usize = 0;
    while k < order.len()
        invariant
            k <= order@.len(),
            order@.len() == all@.len(),
            keys@.len() == all@.len(),
            sorting::is_stable_order(keys@, order@),
            forall|m: int|
                0 <= m < all@.len() ==> #[trigger] keys@[m] == all@[m].0.rank() * 0x1_0000_0000
                    + all@[m].1,
            forall|m: int|
                0 <= m < all@.len() ==> candidates@.contains((#[trigger] all@[m]).1) && all@[m].1
                    != node && all@[m].0 == dist(all@[m].1),
            forall|m: int, j: int|
                #![trigger out@[m], out@[j]]
                0 <= m < j < out@.len() ==> nearer(out@[m], out@[j]),
            forall|m: int|
                0 <= m < out@.len() ==> candidates@.contains((#[trigger] out@[m]).1) && out@[m].1
                    != node && out@[m].0 == dist(out@[m].1),
            forall|m: int|
                0 <= m < k ==> lists(out@, all@[(#[trigger] order@[m]) as int].1),
            k > 0 ==> out@.len() > 0 && out@.last() == all@[order@[k - 1] as int],
            k == 0 ==> out@.len() == 0,
        decreases order@.len() - k,
    {
        let e: (F32, u32) = all[order[k]];
        let fresh: bool = out.len() == 0 || out[out.len() - 1].1 != e.1;
        let ghost before = out@;
        proof {
            if k > 0 {
                assert(sorting::goes_before(
                    keys@,
                    order@[k - 1] as int,
                    order@[k as int] as int,
                ));
                let prev = all@[order@[k - 1] as int];
                assert(prev.1 == e.1 ==> prev == e);
                assert(keys@[order@[k - 1] as int] <= keys@[order@[k as int] as int]);
            }
        }
        if fresh {
            out.push(e);
            proof {
                assert forall|m: int, j: int|
                    #![trigger out@[m], out@[j]]
                    0 <= m < j < out@.len() implies nearer(out@[m], out@[j]) by {
                    if j == before.len() {
                        let l = before.len() - 1;
                        assert(nearer(before[l], e)) by {
                            assert(before[l] == before.last());
                        }
                        if m < l {
                            assert(nearer(before[m], before[l]));
                        }
                    } else {
                        assert(nearer(before[m], before[j]));
                    }
                }
            }
        }
        proof {
            assert forall|m: int| 0 <= m < k + 1 implies lists(
                out@,
                all@[(#[trigger] order@[m]) as int].1,
            ) by {
                if m < k {
                    let x = choose|x: int|
                        0 <= x < before.len() && (#[trigger] before[x]).1 == all@[order@[m] as int].1;
                    assert(out@[x].1 == all@[order@[m] as int].1);
                } else {
                    assert(out@[out@.len() - 1].1 == e.1);
                }
            }
        }
        k += 1;
    }
    proof {
        assert forall|c: u32| #[trigger] candidates@.contains(c) && c != node implies lists(
            out@,
            c,
        ) by {
            let x = choose|x: int| 0 <= x < candidates@.len() && candidates@[x] == c;
            assert(lists(all@, candidates@[x]));
            let m = choose|m: int| 0 <= m < all@.len() && (#[trigger] all@[m]).1 == c;
            sorting::lemma_permutation_is_onto(order@, all@.len(), m as usize);
            let y = choose|y: int| 0 <= y < order@.len() && order@[y] == m as usize;
            assert(lists(out@, all@[order@[y] as int].1));
        }
        lemma_prepared(candidates@, node, dist);
        lemma_prepared_unique(out@, prepared(candidates@, node, dist), candidates@, node, dist);
    }
    out
}

} // verus!
