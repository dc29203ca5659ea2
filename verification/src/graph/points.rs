//! The vectors of an index together with the way to compare them.
use vstd::prelude::*;
use crate::distance::DistanceKernel;
use crate::distance::single::F32;
use crate::graph::candidates;
use crate::graph::prune_laws;
use crate::graph::robust_prune;
use crate::graph::robust_prune::{prune_dispatch, PruneStrategy};
use crate::graph::search;
use crate::graph::search::vector_slice;

verus! {

/// Vectors, one after the other in a flat array, and a distance.
pub struct Points<'a, K: DistanceKernel> {
    /// How distances are computed.
    pub kernel: &'a K,
    /// All vectors.
    pub vectors: &'a [F32],
    /// The dimension.
    pub dim: usize,
}

impl<'a, K: DistanceKernel> Points<'a, K> {
    /// There are vectors for the first `n` nodes.
    pub open spec fn has(self, n: nat) -> bool {
        &&& search::covers(self.vectors@, self.dim as int, n)
        &&& n <= u32::MAX
        &&& n <= usize::MAX
    }

    /// The vector of a node.
    pub open spec fn vector(self, id: int) -> Seq<F32> {
        search::vector_of(self.vectors@, self.dim as int, id)
    }

    /// The distance of every node to a query.
    pub open spec fn score_to(self, query: Seq<F32>) -> spec_fn(u32) -> F32 {
        |id: u32| search::node_distance(
            self.kernel,
            self.vectors@,
            self.dim as int,
            query,
            id as int,
        )
    }

    /// What a pruning keeps of a node's candidates.
    pub open spec fn pruned(
        self,
        strategy: PruneStrategy,
        node: u32,
        list: Seq<u32>,
        alpha: F32,
        r_max: usize,
        saturate: bool,
    ) -> Seq<u32> {
        robust_prune::kept_by(
            strategy,
            robust_prune::prune_space(self.kernel, self.vectors@, self.dim as int, node, list),
            alpha,
            r_max,
            saturate,
        )
    }

    /// What a pruning keeps of a node's candidates.
    pub(crate) fn prune(
        &self,
        strategy: PruneStrategy,
        node: u32,
        list: &[u32],
        alpha: F32,
        r_max: usize,
        saturate: bool,
        Ghost(n): Ghost<nat>,
    ) -> (kept: Vec<u32>)
        requires
            self.has(n),
            node < n,
            below(list@, n),
            !alpha.nan(),
        ensures
            kept@ == self.pruned(strategy, node, list@, alpha, r_max, saturate),
            below(kept@, n),
            kept@.no_duplicates(),
            !kept@.contains(node),
            forall|i: int| 0 <= i < kept@.len() ==> list@.contains(#[trigger] kept@[i]),
            kept@.len() <= r_max,
    {
        proof {
            search::lemma_covered(self.vectors@, self.dim as nat, n, node as int);
            assert forall|i: int| 0 <= i < list@.len() implies search::has_vector(
                self.vectors@,
                self.dim as int,
                (#[trigger] list@[i]) as int,
            ) && list@[i] <= usize::MAX by {
                search::lemma_covered(self.vectors@, self.dim as nat, n, list@[i] as int);
            }
            self.lemma_pruned(strategy, node, list@, alpha, r_max, saturate, n);
        }
        prune_dispatch(
            self.kernel,
            strategy,
            list,
            node,
            self.vectors,
            self.dim,
            alpha,
            r_max,
            saturate,
        )
    }

    /// What a pruning keeps are candidates.
    pub proof fn lemma_pruned(
        self,
        strategy: PruneStrategy,
        node: u32,
        list: Seq<u32>,
        alpha: F32,
        r_max: usize,
        saturate: bool,
        n: nat,
    )
        requires
            below(list, n),
            !alpha.nan(),
        ensures
            ({
                let kept = self.pruned(strategy, node, list, alpha, r_max, saturate);
                &&& below(kept, n)
                &&& kept.no_duplicates()
                &&& !kept.contains(node)
                &&& forall|i: int| 0 <= i < kept.len() ==> list.contains(#[trigger] kept[i])
                &&& kept.len() <= r_max
            }),
    {
        let dist = candidates::distances_to(self.kernel, self.vectors@, self.dim as int, node);
        let pair = robust_prune::pair_distances(self.kernel, self.vectors@, self.dim as int);
        prune_laws::law_prune_keeps_candidates(
            strategy,
            list,
            node,
            dist,
            pair,
            alpha,
            r_max,
            saturate,
        );
        let kept = self.pruned(strategy, node, list, alpha, r_max, saturate);
        assert forall|i: int| 0 <= i < kept.len() implies (#[trigger] kept[i]) < n by {
            assert(list.contains(kept[i]));
            let j = choose|j: int| 0 <= j < list.len() && list[j] == kept[i];
            assert(list[j] < n);
        }
    }

    /// The vector of a node.
    pub(crate) fn slice(&self, id: u32, Ghost(n): Ghost<nat>) -> (v: &[F32])
        requires
            self.has(n),
            id < n,
        ensures
            v@ == self.vector(id as int),
            v@.len() == self.dim,
    {
        proof {
            search::lemma_covered(self.vectors@, self.dim as nat, n, id as int);
        }
        vector_slice(self.vectors, self.dim, id)
    }
}

/// Every id of the list is below `n`.
pub open spec fn below(list: Seq<u32>, n: nat) -> bool {
    forall|i: int| 0 <= i < list.len() ==> (#[trigger] list[i]) < n
}

} // verus!
