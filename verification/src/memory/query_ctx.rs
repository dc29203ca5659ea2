//! What one query works with, and distances of many queries to many candidates at once.
use vstd::prelude::*;
use crate::distance::DistanceKernel;
use crate::distance::aligned::{aligned_vec_f32, overwrite, AlignedVec};
use crate::distance::single::F32;
use crate::graph::search;
use crate::graph::search::vector_slice;
use crate::memory::VisitedTracker;

verus! {

/// Candidates are packed first where there are more of them than this.
pub const GEMM_THRESHOLD: usize = 8;

/// What one query works with. Every query has its own marks: shared ones would change what it
/// finds.
pub struct QueryContext {
    /// The marks.
    pub visited: VisitedTracker,
    /// Candidates.
    pub candidate_buf: Vec<u32>,
    /// Packed vectors.
    pub vector_pack_buf: AlignedVec,
    /// Which part of the memory is preferred. It is kept and not acted on.
    pub numa_node: Option<usize>,
}

impl QueryContext {
    /// What a query among `n` nodes works with.
    pub fn new(n: usize, ef_search: usize, dim: usize) -> (c: Self)
        requires
            3 * ef_search <= usize::MAX,
            ef_search * dim <= usize::MAX,
        ensures
            c.visited.wf(),
            c.visited@.n == n,
            c.visited@.nodes == Seq::<u32>::empty(),
            c.candidate_buf@ == Seq::<u32>::empty(),
            c.vector_pack_buf@ == Seq::new((ef_search * dim) as nat, |i: int| F32(0)),
            c.numa_node is None,
    {
        QueryContext {
            visited: VisitedTracker::new(n, ef_search),
            candidate_buf: Vec::with_capacity(ef_search * 3),
            vector_pack_buf: aligned_vec_f32(ef_search * dim),
            numa_node: None,
        }
    }

    /// Clears the marks and the candidates; packed vectors stay until they are written over.
    pub fn reset(&mut self)
        requires
            old(self).visited.wf(),
        ensures
            final(self).visited.wf(),
            final(self).visited@.n == old(self).visited@.n,
            final(self).visited@.nodes == Seq::<u32>::empty(),
            final(self).candidate_buf@ == Seq::<u32>::empty(),
            final(self).vector_pack_buf@ == old(self).vector_pack_buf@,
            final(self).numa_node == old(self).numa_node,
    {
        self.visited.reset();
        self.candidate_buf.clear();
    }

    /// Sets which part of the memory is preferred.
    pub fn set_numa_node(&mut self, node: usize)
        ensures
            final(self).numa_node == Some(node),
            final(self).visited == old(self).visited,
            final(self).candidate_buf == old(self).candidate_buf,
            final(self).vector_pack_buf == old(self).vector_pack_buf,
    {
        self.numa_node = Some(node);
    }
}

/// The distances of a query to some candidates.
pub open spec fn distances_to<K: DistanceKernel>(
    kernel: &K,
    vectors: Seq<F32>,
    dim: int,
    query: Seq<F32>,
    candidates: Seq<u32>,
) -> Seq<F32> {
    Seq::new(
        candidates.len(),
        |i: int| search::node_distance(kernel, vectors, dim, query, candidates[i] as int),
    )
}

/// The vectors of some candidates, one after the other.
pub open spec fn packed(vectors: Seq<F32>, dim: int, candidates: Seq<u32>, i: int) -> Seq<F32>
    decreases i,
{
    if i <= 0 {
        Seq::empty()
    } else {
        packed(vectors, dim, candidates, i - 1) + search::vector_of(
            vectors,
            dim,
            candidates[i - 1] as int,
        )
    }
}

/// The buffer after the candidates were packed: what it held stays behind them, unless it was too
/// short.
pub open spec fn packed_buffer(
    buffer: Seq<F32>,
    vectors: Seq<F32>,
    dim: int,
    candidates: Seq<u32>,
) -> Seq<F32> {
    let front = packed(vectors, dim, candidates, candidates.len() as int);
    if buffer.len() < candidates.len() * dim {
        front
    } else {
        front + buffer.skip(candidates.len() * dim)
    }
}

/// The distances of a query to every vector of a buffer.
pub open spec fn distances_in<K: DistanceKernel>(
    kernel: &K,
    buffer: Seq<F32>,
    dim: nat,
    query: Seq<F32>,
) -> Seq<F32> {
    Seq::new(
        buffer.len() / dim,
        |i: int| search::node_distance(kernel, buffer, dim as int, query, i),
    )
}

/// The distances of all queries to all candidates, one list for each query. Up to eight candidates
/// are compared where they stand. More are packed at the front of the buffer first, and the queries
/// are compared with that front.
pub fn batch_distance<K: DistanceKernel>(
    kernel: &K,
    ctx: &mut QueryContext,
    queries: &[&[F32]],
    candidates: &[u32],
    vectors: &[F32],
    dim: usize,
) -> (all: Vec<Vec<F32>>)
    requires
        candidates@.len() > GEMM_THRESHOLD ==> dim > 0 && candidates@.len() * dim <= usize::MAX,
        forall|i: int| 0 <= i < queries@.len() ==> (#[trigger] queries@[i])@.len() == dim,
        forall|i: int|
            0 <= i < candidates@.len() ==> search::has_vector(
                vectors@,
                dim as int,
                (#[trigger] candidates@[i]) as int,
            ) && candidates@[i] <= usize::MAX,
    ensures
        all@.len() == queries@.len(),
        final(ctx).visited == old(ctx).visited,
        final(ctx).candidate_buf == old(ctx).candidate_buf,
        final(ctx).numa_node == old(ctx).numa_node,
        final(ctx).vector_pack_buf@ == (if candidates@.len() <= GEMM_THRESHOLD {
            old(ctx).vector_pack_buf@
        } else {
            packed_buffer(old(ctx).vector_pack_buf@, vectors@, dim as int, candidates@)
        }),
        forall|i: int|
            0 <= i < queries@.len() ==> (#[trigger] all@[i])@ == distances_to(
                kernel,
                vectors@,
                dim as int,
                queries@[i]@,
                candidates@,
            ),
{
    assert(candidates@.len() == candidates.len());
    if candidates.len() <= GEMM_THRESHOLD {
        scalar_simd_path(kernel, queries, candidates, vectors, dim)
    } else {
        pack_vectors_aligned(candidates, &mut ctx.vector_pack_buf, vectors, dim);
        let buffer: &[F32] = ctx.vector_pack_buf.as_slice();
        let front: &[F32] = &buffer[0..candidates.len() * dim];
        proof {
            lemma_packed_len(vectors@, dim as nat, candidates@, candidates@.len() as int);
            assert(front@ =~= packed(vectors@, dim as int, candidates@, candidates@.len() as int));
        }
        let all = gemm_path(kernel, queries, front, dim);
        assert forall|i: int| 0 <= i < queries@.len() implies (#[trigger] all@[i])@ == distances_to(
            kernel,
            vectors@,
            dim as int,
            queries@[i]@,
            candidates@,
        ) by {
            law_packing_changes_no_distance(
                kernel,
                vectors@,
                dim as nat,
                queries@[i]@,
                candidates@,
            );
        }
        all
    }
}

fn scalar_simd_path<K: DistanceKernel>(
    kernel: &K,
    queries: &[&[F32]],
    candidates: &[u32],
    vectors: &[F32],
    dim: usize,
) -> (all: Vec<Vec<F32>>)
    requires
        forall|i: int| 0 <= i < queries@.len() ==> (#[trigger] queries@[i])@.len() == dim,
        forall|i: int|
            0 <= i < candidates@.len() ==> search::has_vector(
                vectors@,
                dim as int,
                (#[trigger] candidates@[i]) as int,
            ) && candidates@[i] <= usize::MAX,
    ensures
        all@.len() == queries@.len(),
        forall|i: int|
            0 <= i < queries@.len() ==> (#[trigger] all@[i])@ == distances_to(
                kernel,
                vectors@,
                dim as int,
                queries@[i]@,
                candidates@,
            ),
{
    let mut all: Vec<Vec<F32>> = Vec::with_capacity(queries.len());
    let mut q: usize = 0;
    while q < queries.len()
        invariant
            q <= queries@.len(),
            forall|i: int| 0 <= i < queries@.len() ==> (#[trigger] queries@[i])@.len() == dim,
            forall|i: int|
                0 <= i < candidates@.len() ==> search::has_vector(
                    vectors@,
                    dim as int,
                    (#[trigger] candidates@[i]) as int,
                ) && candidates@[i] <= usize::MAX,
            all@.len() == q,
            forall|i: int|
                0 <= i < q ==> (#[trigger] all@[i])@ == distances_to(
                    kernel,
                    vectors@,
                    dim as int,
                    queries@[i]@,
                    candidates@,
                ),
        decreases queries@.len() - q,
    {
        let query: &[F32] = queries[q];
        assert(queries@[q as int]@.len() == dim);
        let ghost want = distances_to(kernel, vectors@, dim as int, query@, candidates@);
        let mut row: Vec<F32> = Vec::with_capacity(candidates.len());
        let mut i: usize = 0;
        while i < candidates.len()
            invariant
                i <= candidates@.len(),
                query@.len() == dim,
                forall|i: int|
                    0 <= i < candidates@.len() ==> search::has_vector(
                        vectors@,
                        dim as int,
                        (#[trigger] candidates@[i]) as int,
                    ) && candidates@[i] <= usize::MAX,
                want == distances_to(kernel, vectors@, dim as int, query@, candidates@),
                row@ == want.take(i as int),
            decreases candidates@.len() - i,
        {
            assert(search::has_vector(vectors@, dim as int, candidates@[i as int] as int));
            row.push(kernel.distance(query, vector_slice(vectors, dim, candidates[i])));
            i += 1;
            assert(row@ =~= want.take(i as int));
        }
        assert(row@ =~= want);
        all.push(row);
        q += 1;
    }
    all
}

proof fn lemma_packed_len(vectors: Seq<F32>, dim: nat, candidates: Seq<u32>, i: int)
    requires
        0 <= i <= candidates.len(),
        forall|k: int|
            0 <= k < candidates.len() ==> search::has_vector(
                vectors,
                dim as int,
                (#[trigger] candidates[k]) as int,
            ),
    ensures
        packed(vectors, dim as int, candidates, i).len() == i * dim,
    decreases i,
{
    if i > 0 {
        lemma_packed_len(vectors, dim, candidates, i - 1);
        assert(search::has_vector(vectors, dim as int, candidates[i - 1] as int));
        assert((i - 1) * dim + dim == i * dim) by (nonlinear_arith);
    } else {
        assert(0 * dim == 0) by (nonlinear_arith);
    }
}

/// Packs the vectors of the candidates at the front of the buffer.
fn pack_vectors_aligned(candidates: &[u32], buf: &mut AlignedVec, vectors: &[F32], dim: usize)
    requires
        candidates@.len() * dim <= usize::MAX,
        forall|i: int|
            0 <= i < candidates@.len() ==> search::has_vector(
                vectors@,
                dim as int,
                (#[trigger] candidates@[i]) as int,
            ) && candidates@[i] <= usize::MAX,
    ensures
        final(buf)@ == packed_buffer(old(buf)@, vectors@, dim as int, candidates@),
        final(buf)@.len() >= candidates@.len() * dim,
{
    assert(candidates@.len() == candidates.len());
    let needed: usize = candidates.len() * dim;
    if buf.len() < needed {
        *buf = aligned_vec_f32(needed);
    }
    let ghost start = buf@;
    let mut i: usize = 0;
    assert(0 * dim == 0) by (nonlinear_arith);
    assert(buf@ =~= packed(vectors@, dim as int, candidates@, 0) + start.skip(0));
    while i < candidates.len()
        invariant
            i <= candidates@.len(),
            candidates@.len() == candidates.len(),
            needed == candidates@.len() * dim,
            needed <= start.len(),
            forall|i: int|
                0 <= i < candidates@.len() ==> search::has_vector(
                    vectors@,
                    dim as int,
                    (#[trigger] candidates@[i]) as int,
                ) && candidates@[i] <= usize::MAX,
            buf@ == packed(vectors@, dim as int, candidates@, i as int) + start.skip(i * dim),
        decreases candidates@.len() - i,
    {
        let ghost done = packed(vectors@, dim as int, candidates@, i as int);
        proof {
            lemma_packed_len(vectors@, dim as nat, candidates@, i as int);
            assert(search::has_vector(vectors@, dim as int, candidates@[i as int] as int));
            assert(i * dim + dim == (i + 1) * dim) by (nonlinear_arith);
            assert((i + 1) * dim <= candidates@.len() * dim) by (nonlinear_arith)
                requires
                    i + 1 <= candidates@.len(),
            ;
            assert(0 <= i * dim) by (nonlinear_arith);
        }
        let v = vector_slice(vectors, dim, candidates[i]);
        overwrite(buf, i * dim, v);
        i += 1;
        assert(buf@ =~= packed(vectors@, dim as int, candidates@, i as int) + start.skip(i * dim));
    }
    proof {
        lemma_packed_len(vectors@, dim as nat, candidates@, i as int);
        assert(buf@ =~= packed_buffer(old(buf)@, vectors@, dim as int, candidates@));
    }
}

/// The distances of all queries to every vector of a buffer.
fn gemm_path<K: DistanceKernel>(
    kernel: &K,
    queries: &[&[F32]],
    buffer: &[F32],
    dim: usize,
) -> (all: Vec<Vec<F32>>)
    requires
        dim > 0,
        forall|i: int| 0 <= i < queries@.len() ==> (#[trigger] queries@[i])@.len() == dim,
    ensures
        all@.len() == queries@.len(),
        forall|i: int|
            0 <= i < queries@.len() ==> (#[trigger] all@[i])@ == distances_in(
                kernel,
                buffer@,
                dim as nat,
                queries@[i]@,
            ),
{
    assert(buffer@.len() == buffer.len());
    let n: usize = buffer.len() / dim;
    let mut all: Vec<Vec<F32>> = Vec::with_capacity(queries.len());
    let mut q: usize = 0;
    while q < queries.len()
        invariant
            q <= queries@.len(),
            dim > 0,
            n == buffer@.len() / dim as nat,
            forall|i: int| 0 <= i < queries@.len() ==> (#[trigger] queries@[i])@.len() == dim,
            all@.len() == q,
            forall|i: int|
                0 <= i < q ==> (#[trigger] all@[i])@ == distances_in(
                    kernel,
                    buffer@,
                    dim as nat,
                    queries@[i]@,
                ),
        decreases queries@.len() - q,
    {
        let query: &[F32] = queries[q];
        assert(queries@[q as int]@.len() == dim);
        let ghost want = distances_in(kernel, buffer@, dim as nat, query@);
        let mut row: Vec<F32> = Vec::with_capacity(n);
        let mut i: usize = 0;
        while i < n
            invariant
                i <= n,
                dim > 0,
                n == buffer@.len() / dim as nat,
                query@.len() == dim,
                want == distances_in(kernel, buffer@, dim as nat, query@),
                row@ == want.take(i as int),
            decreases n - i,
        {
            proof {
                crate::graph::searcher::lemma_count_covers(buffer@, dim as nat);
                search::lemma_covered(buffer@, dim as nat, n as nat, i as int);
                assert(buffer@.len() == buffer.len());
            }
            let start: usize = i * dim;
            row.push(kernel.distance(query, &buffer[start..start + dim]));
            i += 1;
            assert(row@ =~= want.take(i as int));
        }
        assert(row@ =~= want);
        all.push(row);
        q += 1;
    }
    all
}

/// What stands in the buffer for a candidate is its vector.
proof fn lemma_packed_vector(
    vectors: Seq<F32>,
    dim: nat,
    candidates: Seq<u32>,
    count: int,
    rest: Seq<F32>,
    i: int,
)
    requires
        0 <= i < count <= candidates.len(),
        forall|k: int|
            0 <= k < candidates.len() ==> search::has_vector(
                vectors,
                dim as int,
                (#[trigger] candidates[k]) as int,
            ),
    ensures
        search::vector_of(packed(vectors, dim as int, candidates, count) + rest, dim as int, i)
            == search::vector_of(vectors, dim as int, candidates[i] as int),
    decreases count,
{
    let last = search::vector_of(vectors, dim as int, candidates[count - 1] as int);
    let front = packed(vectors, dim as int, candidates, count - 1);
    assert(search::has_vector(vectors, dim as int, candidates[count - 1] as int));
    lemma_packed_len(vectors, dim, candidates, count - 1);
    lemma_packed_len(vectors, dim, candidates, count);
    assert((count - 1) * dim + dim == count * dim) by (nonlinear_arith);
    let all = packed(vectors, dim as int, candidates, count) + rest;
    if i == count - 1 {
        assert(search::vector_of(all, dim as int, i) =~= last);
    } else {
        lemma_packed_vector(vectors, dim, candidates, count - 1, last + rest, i);
        assert(all =~= front + (last + rest));
    }
}

/// Packing changes no distance: the distances of a query to the vectors packed for some candidates
/// are its distances to the candidates.
pub proof fn law_packing_changes_no_distance<K: DistanceKernel>(
    kernel: &K,
    vectors: Seq<F32>,
    dim: nat,
    query: Seq<F32>,
    candidates: Seq<u32>,
)
    requires
        dim > 0,
        forall|i: int|
            0 <= i < candidates.len() ==> search::has_vector(
                vectors,
                dim as int,
                (#[trigger] candidates[i]) as int,
            ),
    ensures
        distances_in(
            kernel,
            packed(vectors, dim as int, candidates, candidates.len() as int),
            dim,
            query,
        ) == distances_to(kernel, vectors, dim as int, query, candidates),
{
    let count = candidates.len();
    let front = packed(vectors, dim as int, candidates, count as int);
    lemma_packed_len(vectors, dim, candidates, count as int);
    assert(front.len() / dim == count) by (nonlinear_arith)
        requires
            front.len() == count * dim,
            dim > 0,
    ;
    let all = distances_in(kernel, front, dim, query);
    let want = distances_to(kernel, vectors, dim as int, query, candidates);
    assert forall|i: int| 0 <= i < count implies all[i] == want[i] by {
        lemma_packed_vector(vectors, dim, candidates, count as int, Seq::empty(), i);
        assert(front =~= front + Seq::<F32>::empty());
    }
    assert(all =~= want);
}

} // verus!
