//! Pruning that waits: during a build a node may grow past the degree limit, up to one and a half
//! times of it; at the end every node is cut down to the limit.
use vstd::prelude::*;
use vstd::slice::slice_to_vec;
use crate::memory::HybridBlockedCsr;
use crate::memory::graph::CsrView;

verus! {

/// One and a half times the limit, rounded down.
pub open spec fn soft_limit(r_max: usize) -> int {
    if r_max + r_max / 2 <= usize::MAX {
        r_max + r_max / 2
    } else {
        usize::MAX as int
    }
}

/// The limits, and how often there was a pruning.
pub struct DelayedPruneController {
    /// The degree limit.
    pub r_max: usize,
    /// The degree above which a node is pruned during the build.
    pub r_soft: usize,
    /// How often a single node was pruned.
    pub single_prune_count: usize,
    /// How often all nodes were pruned.
    pub final_prune_count: usize,
}

/// The graph after each of the first `i` nodes has kept no more than its first `r_max` neighbours.
pub open spec fn truncated(view: CsrView, r_max: usize, i: int) -> CsrView
    decreases i,
{
    if i <= 0 {
        view
    } else {
        let before = truncated(view, r_max, i - 1);
        if before.all(i - 1).len() <= r_max {
            before
        } else {
            before.set_neighbors(i - 1, before.all(i - 1).take(r_max as int))
        }
    }
}

/// How many of the first `i` nodes have more than `bound` neighbours.
pub open spec fn nodes_above(view: CsrView, bound: usize, i: int) -> nat
    decreases i,
{
    if i <= 0 {
        0
    } else if view.all(i - 1).len() > bound {
        nodes_above(view, bound, i - 1) + 1
    } else {
        nodes_above(view, bound, i - 1)
    }
}

/// Cutting nodes down changes only those nodes: each of the first `i` has the first `r_max` of its
/// neighbours, the others have what they had.
pub proof fn law_final_prune_truncates(view: CsrView, r_max: usize, i: int)
    requires
        0 <= i <= view.lists.len(),
        view.overflow.len() == view.lists.len(),
    ensures
        truncated(view, r_max, i).r_max == view.r_max,
        truncated(view, r_max, i).lists.len() == view.lists.len(),
        truncated(view, r_max, i).overflow.len() == view.lists.len(),
        forall|k: int|
            0 <= k < view.lists.len() ==> #[trigger] truncated(view, r_max, i).all(k) == (if k < i
                && view.all(k).len() > r_max {
                view.all(k).take(r_max as int)
            } else {
                view.all(k)
            }),
    decreases i,
{
    if i > 0 {
        law_final_prune_truncates(view, r_max, i - 1);
        let before = truncated(view, r_max, i - 1);
        let after = truncated(view, r_max, i);
        assert forall|k: int| 0 <= k < view.lists.len() implies #[trigger] after.all(k) == (if k < i
            && view.all(k).len() > r_max {
            view.all(k).take(r_max as int)
        } else {
            view.all(k)
        }) by {
            assert(before.all(k).len() >= 0);
            if k == i - 1 {
                assert(before.all(k) == view.all(k));
                if view.all(k).len() > r_max {
                    assert(after.all(k) =~= view.all(k).take(r_max as int));
                }
            } else {
                assert(after.all(k) == before.all(k));
            }
        }
    }
}

/// The soft limit is half as much again as the limit, but for what rounding down takes off.
pub proof fn law_soft_limit_is_half_as_much_again(r_max: usize)
    requires
        3 * r_max <= 2 * usize::MAX,
    ensures
        2 * soft_limit(r_max) <= 3 * r_max < 2 * (soft_limit(r_max) + 1),
{
}

/// No node counts as grown past a bound where, and only where, each has no more neighbours than that;
/// every node counts where, and only where, each has more.
pub proof fn law_counts_of_nodes_above(view: CsrView, bound: usize, n: int)
    requires
        0 <= n <= view.lists.len(),
    ensures
        nodes_above(view, bound, n) <= n,
        nodes_above(view, bound, n) == 0 <==> forall|i: int|
            0 <= i < n ==> (#[trigger] view.all(i)).len() <= bound,
        nodes_above(view, bound, n) == n <==> forall|i: int|
            0 <= i < n ==> (#[trigger] view.all(i)).len() > bound,
    decreases n,
{
    if n > 0 {
        law_counts_of_nodes_above(view, bound, n - 1);
        let last = view.all(n - 1).len();
        if nodes_above(view, bound, n) == 0 {
            assert forall|i: int| 0 <= i < n implies (#[trigger] view.all(i)).len() <= bound by {}
        }
        if nodes_above(view, bound, n) == n {
            assert forall|i: int| 0 <= i < n implies (#[trigger] view.all(i)).len() > bound by {}
        }
    }
}

impl DelayedPruneController {
    /// A controller for a limit.
    pub fn new(r_max: usize) -> (c: Self)
        ensures
            c.r_max == r_max,
            c.r_soft == soft_limit(r_max),
            c.single_prune_count == 0,
            c.final_prune_count == 0,
    {
        let half: usize = r_max / 2;
        let r_soft: usize = if half <= usize::MAX - r_max {
            r_max + half
        } else {
            usize::MAX
        };
        DelayedPruneController { r_max, r_soft, single_prune_count: 0, final_prune_count: 0 }
    }

    /// Whether a node has grown past the soft limit.
    pub fn should_prune(&self, storage: &HybridBlockedCsr, node: u32) -> (b: bool)
        requires
            storage.wf(),
            node < storage@.lists.len(),
        ensures
            b == (storage@.all(node as int).len() > self.r_soft),
    {
        storage.degree(node) > self.r_soft
    }

    /// Counts the pruning of a single node.
    pub fn record_single_prune(&mut self)
        requires
            old(self).single_prune_count < usize::MAX,
        ensures
            *final(self) == (DelayedPruneController {
                single_prune_count: (old(self).single_prune_count + 1) as usize,
                ..*old(self)
            }),
    {
        self.single_prune_count = self.single_prune_count + 1;
    }

    /// Cuts every node down to its first `r_max` neighbours.
    pub fn final_prune(&mut self, storage: &mut HybridBlockedCsr)
        requires
            old(self).final_prune_count < usize::MAX,
            old(storage).wf(),
        ensures
            *final(self) == (DelayedPruneController {
                final_prune_count: (old(self).final_prune_count + 1) as usize,
                ..*old(self)
            }),
            final(storage).wf(),
            final(storage)@ == truncated(
                old(storage)@,
                old(self).r_max,
                old(storage)@.lists.len() as int,
            ),
            old(storage).free_slots_marked() ==> final(storage).free_slots_marked(),
    {
        self.final_prune_count = self.final_prune_count + 1;
        let ghost first = storage@;
        let ghost marked = storage.free_slots_marked();
        let n: usize = storage.len();
        let r_max: usize = self.r_max;
        proof {
            storage.lemma_shape();
        }
        let mut node: u32 = 0;
        while (node as usize) < n
            invariant
                node <= n,
                n <= u32::MAX,
                n == first.lists.len(),
                first.overflow.len() == n,
                storage.wf(),
                storage@ == truncated(first, r_max, node as int),
                marked ==> storage.free_slots_marked(),
            decreases n - node,
        {
            proof {
                law_final_prune_truncates(first, r_max, node as int);
            }
            if storage.degree(node) > r_max {
                let (main, overflow) = storage.neighbors_full(node);
                let mut all = slice_to_vec(main);
                all.extend_from_slice(overflow);
                assert(all@ =~= storage@.all(node as int));
                all.truncate(r_max);
                assert(all@ =~= storage@.all(node as int).take(r_max as int));
                storage.set_neighbors(node, all.as_slice());
            }
            node += 1;
        }
    }

    /// How many nodes have grown past the soft limit.
    pub fn count_over_soft(&self, storage: &HybridBlockedCsr) -> (count: usize)
        requires
            storage.wf(),
        ensures
            count == nodes_above(storage@, self.r_soft, storage@.lists.len() as int),
    {
        let n: usize = storage.len();
        proof {
            storage.lemma_shape();
        }
        let mut count: usize = 0;
        let mut node: u32 = 0;
        while (node as usize) < n
            invariant
                node <= n,
                n <= u32::MAX,
                n == storage@.lists.len(),
                storage.wf(),
                count <= node,
                count == nodes_above(storage@, self.r_soft, node as int),
            decreases n - node,
        {
            if storage.degree(node) > self.r_soft {
                count += 1;
            }
            node += 1;
        }
        count
    }
}

} // verus!
