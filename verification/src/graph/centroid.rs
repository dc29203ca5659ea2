//! Centroids, and the node nearest to one.
use vstd::prelude::*;
use crate::build::rng;
use crate::build::rng::ChaCha8Rng;
use crate::distance::DistanceKernel;
use crate::distance::single::{F32, MAX_BITS};
use crate::graph::search;
use crate::graph::search::vector_slice;

verus! {

/// Above this many nodes the medoid is looked for in a sample.
pub const SAMPLE_THRESHOLD: usize = 10_000;

/// The size of that sample.
pub const SAMPLE_COUNT: usize = 1_000;

/// The place of the smallest number, the first where there are several, and the number. The place
/// is -1 where no number is smaller than the greatest finite one.
pub open spec fn least(scores: Seq<F32>) -> (int, F32)
    decreases scores.len(),
{
    if scores.len() == 0 {
        (-1, F32(MAX_BITS))
    } else {
        let before = least(scores.drop_last());
        if scores.last().below(before.1) {
            (scores.len() - 1, scores.last())
        } else {
            before
        }
    }
}

/// No number is smaller than the one found, and those before it are greater.
pub proof fn lemma_least(scores: Seq<F32>)
    ensures
        -1 <= least(scores).0 < scores.len(),
        least(scores).0 < 0 ==> least(scores).1 == F32(MAX_BITS),
        least(scores).0 >= 0 ==> least(scores).1 == scores[least(scores).0],
        forall|k: int| 0 <= k < scores.len() ==> !(#[trigger] scores[k]).below(least(scores).1),
        !least(scores).1.nan(),
        forall|k: int|
            0 <= k < least(scores).0 ==> (#[trigger] scores[k]).nan() || least(scores).1.below(
                scores[k],
            ),
    decreases scores.len(),
{
    if scores.len() > 0 {
        let short = scores.drop_last();
        lemma_least(short);
        assert forall|k: int| 0 <= k < scores.len() implies !(#[trigger] scores[k]).below(
            least(scores).1,
        ) by {
            if k < short.len() {
                assert(scores[k] == short[k]);
            }
        }
        assert forall|k: int| 0 <= k < least(scores).0 implies (#[trigger] scores[k]).nan()
            || least(scores).1.below(scores[k]) by {
            assert(scores[k] == short[k]);
        }
    }
}

/// The sum of component `d` of the vectors of some nodes, added first to last.
pub open spec fn component_sum(vectors: Seq<F32>, dim: int, ids: Seq<u32>, d: int) -> F32
    decreases ids.len(),
{
    if ids.len() == 0 {
        F32(0)
    } else {
        component_sum(vectors, dim, ids.drop_last(), d).plus(
            search::vector_of(vectors, dim, ids.last() as int)[d],
        )
    }
}

/// The mean of the vectors of some nodes.
pub open spec fn centroid_of(vectors: Seq<F32>, dim: nat, ids: Seq<u32>) -> Seq<F32> {
    Seq::new(
        dim,
        |d: int|
            component_sum(vectors, dim as int, ids, d).over(F32::of_int(ids.len())),
    )
}

/// The distances of some nodes to a point, the point as the first argument.
pub open spec fn distances_from<K: DistanceKernel>(
    kernel: &K,
    vectors: Seq<F32>,
    dim: int,
    point: Seq<F32>,
    ids: Seq<u32>,
) -> Seq<F32> {
    Seq::new(
        ids.len(),
        |i: int| search::node_distance(kernel, vectors, dim, point, ids[i] as int),
    )
}

/// The node nearest to a point, the first where several are, or `default` where none is nearer
/// than the greatest finite number.
pub open spec fn nearest_node<K: DistanceKernel>(
    kernel: &K,
    vectors: Seq<F32>,
    dim: int,
    point: Seq<F32>,
    ids: Seq<u32>,
    default: u32,
) -> u32 {
    let found = least(distances_from(kernel, vectors, dim, point, ids)).0;
    if found < 0 {
        default
    } else {
        ids[found]
    }
}

/// All nodes have vectors.
pub open spec fn all_have_vectors(vectors: Seq<F32>, dim: int, ids: Seq<u32>) -> bool {
    forall|i: int|
        0 <= i < ids.len() ==> search::has_vector(vectors, dim, (#[trigger] ids[i]) as int)
            && ids[i] <= usize::MAX
}

/// The ids `0..n`.
pub open spec fn all_ids(n: nat) -> Seq<u32> {
    Seq::new(n, |i: int| i as u32)
}

/// The node nearest to a point.
pub fn find_nearest<K: DistanceKernel>(
    kernel: &K,
    vectors: &[F32],
    dim: usize,
    point: &[F32],
    ids: &[u32],
    default: u32,
) -> (id: u32)
    requires
        point@.len() == dim,
        all_have_vectors(vectors@, dim as int, ids@),
    ensures
        id == nearest_node(kernel, vectors@, dim as int, point@, ids@, default),
        id == default || ids@.contains(id),
{
    let ghost all = distances_from(kernel, vectors@, dim as int, point@, ids@);
    let mut best: u32 = default;
    let mut best_dist: F32 = F32(MAX_BITS);
    let mut i: usize = 0;
    while i < ids.len()
        invariant
            i <= ids@.len(),
            point@.len() == dim,
            all_have_vectors(vectors@, dim as int, ids@),
            all == distances_from(kernel, vectors@, dim as int, point@, ids@),
            best_dist == least(all.take(i as int)).1,
            best == (if least(all.take(i as int)).0 < 0 {
                default
            } else {
                ids@[least(all.take(i as int)).0]
            }),
            best == default || ids@.contains(best),
        decreases ids@.len() - i,
    {
        assert(search::has_vector(vectors@, dim as int, ids@[i as int] as int));
        let d = kernel.distance(point, vector_slice(vectors, dim, ids[i]));
        assert(all.take(i + 1).drop_last() =~= all.take(i as int));
        assert(all.take(i + 1).last() == d);
        if d.lt(best_dist) {
            best_dist = d;
            best = ids[i];
        }
        i += 1;
    }
    assert(all.take(i as int) =~= all);
    best
}

/// The mean of the vectors of some nodes.
pub fn centroid(vectors: &[F32], dim: usize, ids: &[u32]) -> (c: Vec<F32>)
    requires
        all_have_vectors(vectors@, dim as int, ids@),
    ensures
        c@ == centroid_of(vectors@, dim as nat, ids@),
        c@.len() == dim,
{
    let mut sums: Vec<F32> = vec![F32(0);dim];
    let mut i: usize = 0;
    while i < ids.len()
        invariant
            i <= ids@.len(),
            all_have_vectors(vectors@, dim as int, ids@),
            sums@.len() == dim,
            forall|d: int|
                0 <= d < dim ==> #[trigger] sums@[d] == component_sum(
                    vectors@,
                    dim as int,
                    ids@.take(i as int),
                    d,
                ),
        decreases ids@.len() - i,
    {
        assert(search::has_vector(vectors@, dim as int, ids@[i as int] as int));
        let v = vector_slice(vectors, dim, ids[i]);
        let ghost before = sums@;
        assert(ids@.take(i + 1).drop_last() =~= ids@.take(i as int));
        let mut d: usize = 0;
        while d < dim
            invariant
                d <= dim,
                dim == v@.len(),
                dim == sums@.len(),
                dim == before.len(),
                forall|e: int|
                    0 <= e < dim ==> #[trigger] sums@[e] == (if e < d {
                        before[e].plus(v@[e])
                    } else {
                        before[e]
                    }),
            decreases dim - d,
        {
            let s = sums[d].add(v[d]);
            sums[d] = s;
            d += 1;
        }
        assert forall|e: int| 0 <= e < dim implies #[trigger] sums@[e] == component_sum(
            vectors@,
            dim as int,
            ids@.take(i + 1),
            e,
        ) by {
            assert(before[e] == component_sum(vectors@, dim as int, ids@.take(i as int), e));
        }
        i += 1;
    }
    assert(ids@.take(i as int) =~= ids@);
    let count = F32::from_usize(ids.len());
    let ghost totals = sums@;
    let mut d: usize = 0;
    while d < dim
        invariant
            d <= dim,
            dim == sums@.len(),
            dim == totals.len(),
            count == F32::of_int(ids@.len()),
            forall|e: int|
                0 <= e < dim ==> #[trigger] sums@[e] == (if e < d {
                    totals[e].over(count)
                } else {
                    totals[e]
                }),
        decreases dim - d,
    {
        let c = sums[d].div(count);
        sums[d] = c;
        d += 1;
    }
    assert(sums@ =~= centroid_of(vectors@, dim as nat, ids@));
    sums
}

/// The nodes in which the medoid is looked for: all, or a sample where there are many. The sample is
/// the end of the list, where the shuffled items are.
pub open spec fn medoid_candidates(n: nat) -> Seq<u32> {
    if n <= SAMPLE_THRESHOLD {
        all_ids(n)
    } else {
        rng::chacha8_partial_shuffle(
            42,
            Seq::empty(),
            all_ids(n),
            SAMPLE_COUNT as nat,
        ).skip(n - SAMPLE_COUNT)
    }
}

/// The node nearest to the centroid of the candidates; the first candidate where none is nearer
/// than the greatest finite number, and 0 where there is no node.
pub open spec fn medoid<K: DistanceKernel>(
    kernel: &K,
    vectors: Seq<F32>,
    dim: nat,
    n: nat,
) -> u32 {
    if n == 0 {
        0
    } else {
        let ids = medoid_candidates(n);
        nearest_node(
            kernel,
            vectors,
            dim as int,
            centroid_of(vectors, dim, ids),
            ids,
            ids[0],
        )
    }
}

/// The ids `0..n`.
pub fn list_ids(n: usize) -> (ids: Vec<u32>)
    requires
        n <= u32::MAX,
    ensures
        ids@ == all_ids(n as nat),
{
    let mut ids: Vec<u32> = Vec::with_capacity(n);
    let mut i: usize = 0;
    while i < n
        invariant
            i <= n,
            n <= u32::MAX,
            ids@ == all_ids(n as nat).take(i as int),
        decreases n - i,
    {
        ids.push(i as u32);
        i += 1;
        assert(ids@ =~= all_ids(n as nat).take(i as int));
    }
    assert(ids@ =~= all_ids(n as nat));
    ids
}

/// A reordering of `0..n` holds ids below `n`.
pub proof fn lemma_reordered(ids: Seq<u32>, n: nat)
    requires
        n <= u32::MAX,
        ids.to_multiset() == all_ids(n).to_multiset(),
    ensures
        ids.len() == n,
        forall|i: int| 0 <= i < ids.len() ==> (#[trigger] ids[i]) < n,
        ids.no_duplicates(),
{
    broadcast use vstd::seq_lib::group_to_multiset_ensures;

    assert(ids.len() == ids.to_multiset().len());
    assert(all_ids(n).len() == all_ids(n).to_multiset().len());
    assert forall|i: int| 0 <= i < ids.len() implies (#[trigger] ids[i]) < n by {
        assert(ids.contains(ids[i]));
        assert(ids.to_multiset().count(ids[i]) > 0);
        assert(all_ids(n).contains(ids[i]));
        let j = choose|j: int| 0 <= j < n && all_ids(n)[j] == ids[i];
    }
    assert(all_ids(n).no_duplicates());
    all_ids(n).lemma_multiset_has_no_duplicates();
    ids.lemma_multiset_has_no_duplicates_conv();
}

/// The medoid of `n` nodes.
pub fn compute_medoid<K: DistanceKernel>(
    kernel: &K,
    vectors: &[F32],
    dim: usize,
    n: usize,
) -> (id: u32)
    requires
        n <= u32::MAX,
        n * dim <= vectors@.len(),
    ensures
        id == medoid(kernel, vectors@, dim as nat, n as nat),
        n > 0 ==> id < n,
{
    if n == 0 {
        return 0;
    }
    let mut ids = list_ids(n);
    if n > SAMPLE_THRESHOLD {
        let mut rng = ChaCha8Rng::seed_from(42);
        rng.partial_shuffle(&mut ids, SAMPLE_COUNT);
        proof {
            lemma_reordered(ids@, n as nat);
        }
        let sample = ids.split_off(n - SAMPLE_COUNT);
        ids = sample;
        assert(ids@ =~= medoid_candidates(n as nat));
    }
    proof {
        assert(ids@ == medoid_candidates(n as nat));
        assert(vectors@.len() == vectors.len());
        assert forall|i: int| 0 <= i < ids@.len() implies search::has_vector(
            vectors@,
            dim as int,
            (#[trigger] ids@[i]) as int,
        ) && ids@[i] <= usize::MAX by {
            let x = ids@[i] as int;
            assert(x < n);
            assert(0 <= x * dim && x * dim + dim <= n * dim) by (nonlinear_arith)
                requires
                    0 <= x < n,
            ;
        }
    }
    let c = centroid(vectors, dim, ids.as_slice());
    find_nearest(kernel, vectors, dim, c.as_slice(), ids.as_slice(), ids[0])
}

} // verus!
