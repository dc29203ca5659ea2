//! What a score of a node and a measure of an edge are of.
use vstd::prelude::*;
use crate::distance::DistanceKernel;
use crate::distance::exact_laws;
use crate::distance::half;
use crate::distance::single::F32;
use crate::graph::ablation::{EdgeMeasure, ErrorMeasure, LengthMeasure};
use crate::graph::layered::AdjacencyLists;
use crate::graph::quant_aware_prune::NodeErrors;
use crate::graph::refiner::{F16Refiner, F32Refiner, Refiner};
use crate::graph::search::{NodeScore, ScoreTable, VectorScore};
use crate::graph::weighing_laws;
use crate::memory::graph::{GraphStorage, HybridBlockedCsr};

verus! {

/// The score of a node in a table is the one at its place.
pub proof fn law_tables_hold_the_scores(table: ScoreTable, id: u32)
    requires
        table.known(id),
    ensures
        id < table.scores@.len(),
        table.score_of(id) == table.scores@[id as int],
{
}

/// The score of a node by vectors is the distance from the query to the vector that stands at its place.
/// A node whose vector is there, for a query of the dimension, has one.
pub proof fn law_vectors_score_by_distance<K: DistanceKernel>(score: VectorScore<K>, id: u32)
    ensures
        score.score_of(id) == score.kernel.dist(
            score.query@,
            score.vectors@.subrange(id * score.dim, id * score.dim + score.dim),
        ),
        score.query@.len() == score.dim && id * score.dim + score.dim <= score.vectors@.len() && id
            <= usize::MAX ==> score.known(id),
{
    assert(0 <= id * score.dim) by (nonlinear_arith)
        requires
            id >= 0,
            score.dim >= 0,
    ;
}

/// Reranking by vectors goes by the distance from the query to the vector that stands at the node's place.
pub proof fn law_vectors_rerank_by_distance<K: DistanceKernel>(
    r: F32Refiner<K>,
    query: Seq<F32>,
    id: u32,
)
    ensures
        ({
            let (kernel, vectors, dim) = r.parts();
            r.exact(query, id) == kernel.dist(query, vectors.subrange(id * dim, id * dim + dim))
        }),
{
}

/// Reranking by halves goes by the squared distance from the query to the vector that stands at the node's
/// place: exactly, on whole numbers.
pub proof fn law_halves_rerank_by_distance(
    r: F16Refiner,
    query: Seq<F32>,
    id: u32,
    q: Seq<int>,
    v: Seq<int>,
)
    requires
        r.comparable(query, id),
        exact_laws::are_whole(query, q),
        ({
            let (cpu, vectors, dim) = r.parts();
            v.len() == dim && forall|j: int|
                0 <= j < dim ==> exact_laws::is_whole(
                    vectors[id * dim + j].single(),
                    #[trigger] v[j],
                )
        }),
        exact_laws::sum_of(exact_laws::squared_differences(q, v)) <= 0x100_0000,
    ensures
        exact_laws::is_whole(
            r.exact(query, id),
            exact_laws::sum_of(exact_laws::squared_differences(q, v)),
        ),
{
    let (cpu, vectors, dim) = r.parts();
    let own = half::singles(vectors.subrange(id * dim, id * dim + dim));
    assert(exact_laws::are_whole(own, v)) by {
        assert forall|j: int| 0 <= j < own.len() implies exact_laws::is_whole(
            #[trigger] own[j],
            v[j],
        ) by {
            assert(own[j] == vectors[id * dim + j].single());
        }
    }
    exact_laws::law_distances_of_whole_halves_are_exact(query, own, q, v, cpu);
}

/// The length of an edge is the distance from its node to the neighbour.
pub proof fn law_lengths_are_distances<K: DistanceKernel>(m: LengthMeasure<K>, u: u32, v: u32)
    ensures
        ({
            let all = m.data.vectors@;
            let dim = m.data.dim as int;
            m.measured(u, v) == m.data.kernel.dist(
                all.subrange(u * dim, u * dim + dim),
                all.subrange(v * dim, v * dim + dim),
            )
        }),
{
}

/// The error of an edge is the mean of the errors of its ends: exactly, where these are whole and their
/// sum is even.
pub proof fn law_errors_are_of_both_ends(
    m: ErrorMeasure<NodeErrors>,
    u: u32,
    v: u32,
    a: int,
    b: int,
    mean: int,
)
    requires
        m.measurable(u, v),
        exact_laws::is_whole(m.errors.errors@[u as int], a),
        exact_laws::is_whole(m.errors.errors@[v as int], b),
        a + b == 2 * mean,
        -0x100_0000 <= a + b <= 0x100_0000,
    ensures
        exact_laws::is_whole(m.measured(u, v), mean),
{
    weighing_laws::law_edge_errors_are_means(*m.errors, u, v, a, b, mean);
}

/// The neighbours that a search in lists sees of a node are its list; in a graph, what its block holds.
pub proof fn law_searches_see_the_neighbours(
    lists: AdjacencyLists,
    graph: HybridBlockedCsr,
    node: int,
)
    requires
        0 <= node < lists.lists@.len(),
    ensures
        lists.rows().len() == lists.lists@.len(),
        lists.rows()[node] == lists.lists@[node]@,
        graph.rows() == graph@.lists,
{
}

} // verus!
