//! Reranking: the candidates of a coarse search, ordered again by distances that are more exact.
use vstd::prelude::*;
use crate::distance::DistanceKernel;
use crate::distance::cpu::CpuFeatures;
use crate::distance::half;
use crate::distance::half::{l2_f16_mixed_simd, F16};
use crate::distance::ordering;
use crate::distance::ordering::places_by_total_rank;
use crate::distance::single::F32;
use crate::graph::linear_pool::Entry;
use crate::graph::search;
use crate::graph::search::vector_slice;
use crate::sorting;

verus! {

/// How many candidates are reranked: `rerank_factor` times the number of answers, but at least
/// that number, and no more than there are.
pub open spec fn rerank_count(k: usize, rerank_factor: usize, candidates: nat) -> int {
    let want = if k * rerank_factor >= k {
        k * rerank_factor
    } else {
        k as int
    };
    if want <= candidates {
        want
    } else {
        candidates as int
    }
}

/// The first candidates with the given distances.
pub open spec fn measured(
    candidates: Seq<Entry>,
    count: int,
    dist: spec_fn(u32) -> F32,
) -> Seq<Entry> {
    Seq::new(count as nat, |i: int| (candidates[i].0, dist(candidates[i].0)))
}

/// The distances of entries.
pub open spec fn distances(list: Seq<Entry>) -> Seq<F32> {
    Seq::new(list.len(), |i: int| list[i].1)
}

/// The first `k` of a list in order of distance, equal ones as they stood.
pub open spec fn first_in_order(list: Seq<Entry>, k: usize) -> Seq<Entry> {
    let sorted = sorting::gathered(
        list,
        sorting::the_order(ordering::total_rank_keys(distances(list))),
    );
    if sorted.len() <= k {
        sorted
    } else {
        sorted.take(k as int)
    }
}

/// The candidates reranked by the given distances.
pub open spec fn reranked(
    candidates: Seq<Entry>,
    k: usize,
    rerank_factor: usize,
    dist: spec_fn(u32) -> F32,
) -> Seq<Entry> {
    first_in_order(
        measured(candidates, rerank_count(k, rerank_factor, candidates.len()), dist),
        k,
    )
}

/// What can rerank candidates.
pub trait Refiner {
    /// The query can be compared with a node.
    spec fn comparable(&self, query: Seq<F32>, id: u32) -> bool;

    /// The distance of a node to a query.
    spec fn exact(&self, query: Seq<F32>, id: u32) -> F32;

    /// The first `k` of the candidates by exact distance. Of the candidates, which are in order of
    /// their coarse distances, the first `k * rerank_factor` are considered.
    fn rerank(
        &self,
        query: &[F32],
        candidates: Vec<(u32, F32)>,
        k: usize,
        rerank_factor: usize,
    ) -> (results: Vec<(u32, F32)>)
        requires
            k * rerank_factor <= usize::MAX,
            forall|i: int|
                0 <= i < rerank_count(k, rerank_factor, candidates@.len()) ==> self.comparable(
                    query@,
                    (#[trigger] candidates@[i]).0,
                ),
        ensures
            results@ == reranked(
                candidates@,
                k,
                rerank_factor,
                |id: u32| self.exact(query@, id),
            ),
    ;
}

/// Reranks by the vectors themselves.
pub struct F32Refiner<'a, K: DistanceKernel> {
    kernel: &'a K,
    vectors: &'a [F32],
    dim: usize,
}

impl<'a, K: DistanceKernel> F32Refiner<'a, K> {
    /// The parts.
    pub closed spec fn parts(self) -> (&'a K, Seq<F32>, usize) {
        (self.kernel, self.vectors@, self.dim)
    }

    /// A refiner for these vectors.
    pub fn new(kernel: &'a K, vectors: &'a [F32], dim: usize) -> (r: Self)
        ensures
            r.parts() == (kernel, vectors@, dim),
    {
        F32Refiner { kernel, vectors, dim }
    }
}

impl<'a, K: DistanceKernel> Refiner for F32Refiner<'a, K> {
    open spec fn comparable(&self, query: Seq<F32>, id: u32) -> bool {
        let (kernel, vectors, dim) = self.parts();
        &&& query.len() == dim
        &&& id <= usize::MAX
        &&& search::has_vector(vectors, dim as int, id as int)
    }

    open spec fn exact(&self, query: Seq<F32>, id: u32) -> F32 {
        let (kernel, vectors, dim) = self.parts();
        search::node_distance(kernel, vectors, dim as int, query, id as int)
    }

    fn rerank(
        &self,
        query: &[F32],
        candidates: Vec<(u32, F32)>,
        k: usize,
        rerank_factor: usize,
    ) -> (results: Vec<(u32, F32)>) {
        let count: usize = considered(k, rerank_factor, candidates.len());
        let ghost dist = |id: u32| self.exact(query@, id);
        let ghost all = measured(candidates@, count as int, dist);
        let mut list: Vec<(u32, F32)> = Vec::with_capacity(count);
        let mut i: usize = 0;
        while i < count
            invariant
                i <= count <= candidates@.len(),
                count == rerank_count(k, rerank_factor, candidates@.len()),
                forall|j: int|
                    0 <= j < rerank_count(k, rerank_factor, candidates@.len())
                        ==> self.comparable(query@, (#[trigger] candidates@[j]).0),
                dist == (|id: u32| self.exact(query@, id)),
                all == measured(candidates@, count as int, dist),
                list@ == all.take(i as int),
            decreases count - i,
        {
            let id: u32 = candidates[i].0;
            assert(self.comparable(query@, candidates@[i as int].0));
            let d = self.kernel.distance(query, vector_slice(self.vectors, self.dim, id));
            list.push((id, d));
            i += 1;
            assert(list@ =~= all.take(i as int));
        }
        assert(list@ =~= all);
        take_first(&list, k)
    }
}

/// Reranks by vectors of halves.
pub struct F16Refiner<'a> {
    cpu: CpuFeatures,
    vectors: &'a [F16],
    dim: usize,
}

impl<'a> F16Refiner<'a> {
    /// The parts.
    pub closed spec fn parts(self) -> (CpuFeatures, Seq<F16>, usize) {
        (self.cpu, self.vectors@, self.dim)
    }

    /// A refiner for these vectors.
    pub fn new(cpu: CpuFeatures, vectors: &'a [F16], dim: usize) -> (r: Self)
        ensures
            r.parts() == (cpu, vectors@, dim),
    {
        F16Refiner { cpu, vectors, dim }
    }
}

impl<'a> Refiner for F16Refiner<'a> {
    open spec fn comparable(&self, query: Seq<F32>, id: u32) -> bool {
        let (cpu, vectors, dim) = self.parts();
        &&& query.len() == dim
        &&& id <= usize::MAX
        &&& 0 <= id * dim
        &&& id * dim + dim <= vectors.len()
    }

    open spec fn exact(&self, query: Seq<F32>, id: u32) -> F32 {
        let (cpu, vectors, dim) = self.parts();
        half::mixed_widest(cpu, query, half::singles(vectors.subrange(id * dim, id * dim + dim)))
    }

    fn rerank(
        &self,
        query: &[F32],
        candidates: Vec<(u32, F32)>,
        k: usize,
        rerank_factor: usize,
    ) -> (results: Vec<(u32, F32)>) {
        let count: usize = considered(k, rerank_factor, candidates.len());
        let ghost dist = |id: u32| self.exact(query@, id);
        let ghost all = measured(candidates@, count as int, dist);
        assert(self.vectors@.len() == self.vectors.len());
        let mut list: Vec<(u32, F32)> = Vec::with_capacity(count);
        let mut i: usize = 0;
        while i < count
            invariant
                i <= count <= candidates@.len(),
                self.vectors@.len() == self.vectors.len(),
                count == rerank_count(k, rerank_factor, candidates@.len()),
                forall|j: int|
                    0 <= j < rerank_count(k, rerank_factor, candidates@.len())
                        ==> self.comparable(query@, (#[trigger] candidates@[j]).0),
                dist == (|id: u32| self.exact(query@, id)),
                all == measured(candidates@, count as int, dist),
                list@ == all.take(i as int),
            decreases count - i,
        {
            let id: u32 = candidates[i].0;
            assert(self.comparable(query@, candidates@[i as int].0));
            let start: usize = id as usize * self.dim;
            let vector = vstd::slice::slice_subrange(self.vectors, start, start + self.dim);
            list.push((id, l2_f16_mixed_simd(&self.cpu, query, vector)));
            i += 1;
            assert(list@ =~= all.take(i as int));
        }
        assert(list@ =~= all);
        take_first(&list, k)
    }
}

/// How many candidates are reranked.
fn considered(k: usize, rerank_factor: usize, candidates: usize) -> (count: usize)
    requires
        k * rerank_factor <= usize::MAX,
    ensures
        count == rerank_count(k, rerank_factor, candidates as nat),
        count <= candidates,
{
    let product: usize = k * rerank_factor;
    let want: usize = if product >= k {
        product
    } else {
        k
    };
    if want <= candidates {
        want
    } else {
        candidates
    }
}

/// The first `k` of a list in order of distance.
fn take_first(list: &Vec<(u32, F32)>, k: usize) -> (results: Vec<(u32, F32)>)
    ensures
        results@ == first_in_order(list@, k),
{
    let mut values: Vec<F32> = Vec::with_capacity(list.len());
    let mut i: usize = 0;
    while i < list.len()
        invariant
            i <= list@.len(),
            values@ == distances(list@).take(i as int),
        decreases list@.len() - i,
    {
        values.push(list[i].1);
        i += 1;
        assert(values@ =~= distances(list@).take(i as int));
    }
    assert(values@ =~= distances(list@));
    let order = places_by_total_rank(values.as_slice());
    let ghost sorted = sorting::gathered(list@, order@);
    let mut results: Vec<(u32, F32)> = Vec::new();
    let mut j: usize = 0;
    while j < order.len() && j < k
        invariant
            j <= order@.len(),
            j <= k,
            sorting::is_permutation(order@, list@.len()),
            sorted == sorting::gathered(list@, order@),
            results@ == sorted.take(j as int),
        decreases order@.len() - j,
    {
        assert(order@[j as int] < list@.len());
        results.push(list[order[j]]);
        j += 1;
        assert(results@ =~= sorted.take(j as int));
    }
    assert(results@ =~= first_in_order(list@, k));
    results
}

/// The candidates reranked by the vectors themselves.
pub fn rerank_f32<K: DistanceKernel>(
    kernel: &K,
    vectors: &[F32],
    dim: usize,
    query: &[F32],
    candidates: Vec<(u32, F32)>,
    k: usize,
    rerank_factor: usize,
) -> (results: Vec<(u32, F32)>)
    requires
        k * rerank_factor <= usize::MAX,
        query@.len() == dim,
        forall|i: int|
            0 <= i < rerank_count(k, rerank_factor, candidates@.len()) ==> search::has_vector(
                vectors@,
                dim as int,
                (#[trigger] candidates@[i]).0 as int,
            ) && candidates@[i].0 <= usize::MAX,
    ensures
        results@ == reranked(
            candidates@,
            k,
            rerank_factor,
            |id: u32| search::node_distance(kernel, vectors@, dim as int, query@, id as int),
        ),
{
    let refiner = F32Refiner::new(kernel, vectors, dim);
    let results = refiner.rerank(query, candidates, k, rerank_factor);
    assert((|id: u32| refiner.exact(query@, id)) =~= (|id: u32|
        search::node_distance(kernel, vectors@, dim as int, query@, id as int)));
    results
}

/// The candidates reranked by vectors of halves.
pub fn rerank_f16(
    cpu: CpuFeatures,
    f16_vectors: &[F16],
    dim: usize,
    query: &[F32],
    candidates: Vec<(u32, F32)>,
    k: usize,
    rerank_factor: usize,
) -> (results: Vec<(u32, F32)>)
    requires
        k * rerank_factor <= usize::MAX,
        query@.len() == dim,
        forall|i: int|
            0 <= i < rerank_count(k, rerank_factor, candidates@.len()) ==> 0 <= (
            #[trigger] candidates@[i]).0 * dim && candidates@[i].0 * dim + dim
                <= f16_vectors@.len() && candidates@[i].0 <= usize::MAX,
    ensures
        results@ == reranked(
            candidates@,
            k,
            rerank_factor,
            |id: u32|
                half::mixed_widest(
                    cpu,
                    query@,
                    half::singles(f16_vectors@.subrange(id * dim, id * dim + dim)),
                ),
        ),
{
    let refiner = F16Refiner::new(cpu, f16_vectors, dim);
    let results = refiner.rerank(query, candidates, k, rerank_factor);
    assert((|id: u32| refiner.exact(query@, id)) =~= (|id: u32|
        half::mixed_widest(
            cpu,
            query@,
            half::singles(f16_vectors@.subrange(id * dim, id * dim + dim)),
        )));
    results
}

} // verus!
