//! Hybrid blocked-CSR graph storage.
//!
//! Every node owns a block of `r_max` consecutive slots, so its neighbours start at
//! `node * r_max` and no offset table is needed. Free slots hold the sentinel. The few nodes with
//! more than `r_max` neighbours keep the others in an overflow list.
use vstd::prelude::*;
use vstd::slice::slice_to_vec;
use crate::sorting::sort_usizes;
use crate::SENTINEL;

verus! {

/// A directed graph: for each node a block of at most `r_max` neighbours and an overflow list.
#[derive(Debug, Clone)]
pub struct HybridBlockedCsr {
    n: usize,
    r_max: usize,
    main_block: Vec<u32>,
    overflow: Vec<Vec<u32>>,
    degrees: Vec<u16>,
}

/// A graph as two lists of neighbours for each node.
#[verifier::ext_equal]
pub struct CsrView {
    /// How many neighbours a block can hold.
    pub r_max: nat,
    /// The neighbours in each node's block.
    pub lists: Seq<Seq<u32>>,
    /// The neighbours in each node's overflow list.
    pub overflow: Seq<Seq<u32>>,
}

impl CsrView {
    /// All neighbours of a node: those of its block, then those of its overflow list.
    pub open spec fn all(self, node: int) -> Seq<u32> {
        self.lists[node] + self.overflow[node]
    }

    /// How many neighbours each node has.
    pub open spec fn degrees(self) -> Seq<int> {
        Seq::new(self.lists.len(), |i: int| self.all(i).len() as int)
    }

    /// What the degrees come to.
    pub open spec fn summed_up(self, s: DegreeStats) -> bool {
        &&& s.nodes == self.lists.len()
        &&& s.overflow_count == count_above(self.degrees(), self.r_max as int)
        &&& s.isolated_nodes == self.lists.len() - count_above(self.degrees(), 0)
        &&& s.total_degree == sum_of(self.degrees())
        &&& s.max_degree == max_of(self.degrees())
        &&& s.p95_degree == percentile_of(self.degrees(), 95)
        &&& s.p99_degree == percentile_of(self.degrees(), 99)
    }

    /// The graph with no edge.
    pub open spec fn empty(n: nat, r_max: nat) -> CsrView {
        CsrView {
            r_max,
            lists: Seq::new(n, |i: int| Seq::<u32>::empty()),
            overflow: Seq::new(n, |i: int| Seq::<u32>::empty()),
        }
    }

    /// The graph after an edge is added: nothing changes where it is there already; a block with a
    /// free slot takes it; else the overflow list takes it.
    pub open spec fn add_edge(self, from: int, to: u32) -> CsrView {
        if self.lists[from].contains(to) || self.overflow[from].contains(to) {
            self
        } else if self.lists[from].len() < self.r_max {
            CsrView { lists: self.lists.update(from, self.lists[from].push(to)), ..self }
        } else {
            CsrView { overflow: self.overflow.update(from, self.overflow[from].push(to)), ..self }
        }
    }

    /// The graph after a node's neighbours are replaced: the first `r_max` go to its block, the
    /// others to its overflow list.
    pub open spec fn set_neighbors(self, node: int, neighbors: Seq<u32>) -> CsrView {
        let cut = if neighbors.len() <= self.r_max {
            neighbors.len() as int
        } else {
            self.r_max as int
        };
        CsrView {
            lists: self.lists.update(node, neighbors.take(cut)),
            overflow: self.overflow.update(node, neighbors.skip(cut)),
            ..self
        }
    }
}

/// What the degrees of a graph's nodes come to. The share of nodes with overflow is
/// `overflow_count / max(nodes, 1)`, the mean degree `total_degree / max(nodes, 1)`.
#[derive(Debug, Clone)]
pub struct DegreeStats {
    /// How many nodes there are.
    pub nodes: usize,
    /// How many nodes have more neighbours than a block holds.
    pub overflow_count: usize,
    /// The 95th percentile.
    pub p95_degree: usize,
    /// The 99th percentile.
    pub p99_degree: usize,
    /// The sum of the degrees.
    pub total_degree: u128,
    /// The greatest degree.
    pub max_degree: usize,
    /// How many nodes have no neighbour.
    pub isolated_nodes: usize,
}

/// How many numbers of a list are above a bound.
pub open spec fn count_above(s: Seq<int>, bound: int) -> nat
    decreases s.len(),
{
    if s.len() == 0 {
        0
    } else {
        count_above(s.drop_last(), bound) + (if s.last() > bound {
            1nat
        } else {
            0nat
        })
    }
}

/// The sum of a list.
pub open spec fn sum_of(s: Seq<int>) -> int
    decreases s.len(),
{
    if s.len() == 0 {
        0
    } else {
        sum_of(s.drop_last()) + s.last()
    }
}

/// The greatest number of a list of non-negative numbers, zero where the list is empty.
pub open spec fn max_of(s: Seq<int>) -> int
    decreases s.len(),
{
    if s.len() == 0 {
        0
    } else if s.last() > max_of(s.drop_last()) {
        s.last()
    } else {
        max_of(s.drop_last())
    }
}

/// The number of entries in all lists together.
pub open spec fn total_len(lists: Seq<Seq<u32>>) -> nat
    decreases lists.len(),
{
    if lists.len() == 0 {
        0
    } else {
        total_len(lists.drop_last()) + lists.last().len()
    }
}

/// A prefix holds no more entries than the whole.
pub proof fn lemma_total_len_prefix(lists: Seq<Seq<u32>>, k: int)
    requires
        0 <= k <= lists.len(),
    ensures
        total_len(lists.take(k)) <= total_len(lists),
    decreases lists.len() - k,
{
    if k < lists.len() {
        lemma_total_len_prefix(lists, k + 1);
        assert(lists.take(k + 1).drop_last() =~= lists.take(k));
    } else {
        assert(lists.take(k) =~= lists);
    }
}

/// The index of the `pct`-th percentile in a sorted list of `len` numbers: `(len - 1) * pct / 100`,
/// rounded to the nearest index, halves up.
pub open spec fn percentile_index(len: int, pct: int) -> int {
    ((len - 1) * pct + 50) / 100
}

/// The `pct`-th percentile of a list: the number that stands at `percentile_index` once the list
/// is sorted; zero where the list is empty.
pub open spec fn percentile_of(s: Seq<int>, pct: int) -> int {
    if s.len() == 0 {
        0
    } else {
        s.sort_by(|a: int, b: int| a <= b)[percentile_index(s.len() as int, pct)]
    }
}

/// The entries before the first sentinel.
pub open spec fn before_sentinel(row: Seq<u32>) -> Seq<u32>
    decreases row.len(),
{
    if row.len() == 0 || row[0] == SENTINEL {
        Seq::empty()
    } else {
        seq![row[0]] + before_sentinel(row.skip(1))
    }
}

/// The slots of block `i` in an array of blocks of `r` slots.
pub open spec fn block_of(block: Seq<u32>, r: int, i: int) -> Seq<u32> {
    block.subrange(i * r, i * r + r)
}

/// Block `i` of `n` blocks lies inside the array, and no other block shares a slot with it.
pub proof fn lemma_block_bounds(n: int, r: int, i: int)
    requires
        0 <= i < n,
        0 <= r,
    ensures
        0 <= i * r,
        i * r + r <= n * r,
        forall|j: int| 0 <= j < i ==> #[trigger] (j * r) + r <= i * r,
        forall|j: int| i < j ==> i * r + r <= #[trigger] (j * r),
{
    assert(0 <= i * r && i * r + r <= n * r) by (nonlinear_arith)
        requires
            0 <= i < n,
            0 <= r,
    ;
    assert forall|j: int| 0 <= j < i implies #[trigger] (j * r) + r <= i * r by {
        assert(j * r + r <= i * r) by (nonlinear_arith)
            requires
                0 <= j < i,
                0 <= r,
        ;
    }
    assert forall|j: int| i < j implies i * r + r <= #[trigger] (j * r) by {
        assert(i * r + r <= j * r) by (nonlinear_arith)
            requires
                i < j,
                0 <= r,
        ;
    }
}

impl View for HybridBlockedCsr {
    type V = CsrView;

    closed spec fn view(&self) -> CsrView {
        CsrView {
            r_max: self.r_max as nat,
            lists: Seq::new(
                self.n as nat,
                |i: int|
                    self.main_block@.subrange(
                        i * self.r_max,
                        i * self.r_max + self.degrees@[i],
                    ),
            ),
            overflow: Seq::new(self.n as nat, |i: int| self.overflow@[i]@),
        }
    }
}

/// The neighbours in every block are those before its first sentinel, so they can be read off the
/// slots alone.
pub open spec fn read_off_slots(view: CsrView, slots: Seq<u32>) -> bool {
    forall|i: int|
        0 <= i < view.lists.len() ==> #[trigger] view.lists[i] == before_sentinel(
            block_of(slots, view.r_max as int, i),
        )
}

impl HybridBlockedCsr {
    /// The arrays have the sizes that the node count and the block size ask for.
    pub closed spec fn wf(self) -> bool {
        &&& self.n <= SENTINEL
        &&& self.r_max <= u16::MAX
        &&& self.main_block@.len() == self.n * self.r_max
        &&& self.n * self.r_max <= usize::MAX
        &&& self.overflow@.len() == self.n
        &&& self.degrees@.len() == self.n
        &&& forall|i: int| 0 <= i < self.n ==> #[trigger] self.degrees@[i] <= self.r_max
        &&& forall|i: int|
            0 <= i < self.n ==> #[trigger] self.degrees@[i] + self.overflow@[i]@.len() <= usize::MAX
    }

    /// The slots of all blocks, one block after the other.
    pub closed spec fn slots(self) -> Seq<u32> {
        self.main_block@
    }

    /// Every free slot holds the sentinel.
    pub open spec fn free_slots_marked(self) -> bool {
        forall|i: int, k: int|
            #![trigger self.slots()[i * self@.r_max + k]]
            0 <= i < self@.lists.len() && self@.lists[i].len() <= k < self@.r_max ==> self.slots()[i
                * self@.r_max + k] == SENTINEL
    }

    /// The sizes that a valid storage has.
    pub proof fn lemma_shape(self)
        requires
            self.wf(),
        ensures
            self@.lists.len() == self@.overflow.len(),
            self@.lists.len() <= SENTINEL,
            self@.r_max <= u16::MAX,
            self.slots().len() == self@.lists.len() * self@.r_max,
            forall|i: int|
                0 <= i < self@.lists.len() ==> (#[trigger] self@.lists[i]).len() <= self@.r_max,
            forall|i: int|
                0 <= i < self@.lists.len() ==> (#[trigger] self@.lists[i]).len()
                    + self@.overflow[i].len() <= usize::MAX,
            forall|i: int|
                #![trigger self@.lists[i]]
                0 <= i < self@.lists.len() ==> self@.lists[i] == self.slots().subrange(
                    i * self@.r_max,
                    i * self@.r_max + self@.lists[i].len(),
                ),
    {
        assert forall|i: int| 0 <= i < self@.lists.len() implies (#[trigger] self@.lists[i]).len()
            == self.degrees@[i] by {
            lemma_block_bounds(self.n as int, self.r_max as int, i);
        }
    }

    /// The number of slots is a size.
    pub proof fn lemma_slots_fit(self)
        requires
            self.wf(),
        ensures
            self.slots().len() <= usize::MAX,
    {
    }

    /// A graph of `n` nodes with no edge, with blocks of `r_max` slots.
    pub fn new(n: usize, r_max: usize) -> (g: Self)
        requires
            n <= SENTINEL,
            r_max <= u16::MAX,
            n * r_max <= usize::MAX,
        ensures
            g.wf(),
            g@ == CsrView::empty(n as nat, r_max as nat),
            g.free_slots_marked(),
    {
        let overflow: Vec<Vec<u32>> = vec![Vec::new();n];
        let g = HybridBlockedCsr {
            n,
            r_max,
            main_block: vec![SENTINEL;n * r_max],
            overflow,
            degrees: vec![0u16;n],
        };
        proof {
            assert forall|i: int| 0 <= i < n implies g@.lists[i] == Seq::<u32>::empty() by {
                lemma_block_bounds(n as int, r_max as int, i);
                assert(g@.lists[i] =~= Seq::<u32>::empty());
            }
            assert forall|i: int| 0 <= i < n implies g@.overflow[i] == Seq::<u32>::empty() by {
                assert(g.overflow@[i]@ =~= Seq::<u32>::empty());
            }
            assert(g@ =~= CsrView::empty(n as nat, r_max as nat));
            assert forall|i: int, k: int|
                #![trigger g.slots()[i * g@.r_max + k]]
                0 <= i < g@.lists.len() && g@.lists[i].len() <= k < g@.r_max implies g.slots()[i
                * g@.r_max + k] == SENTINEL by {
                lemma_block_bounds(n as int, r_max as int, i);
            }
        }
        g
    }

    /// The number of nodes.
    pub fn len(&self) -> (n: usize)
        ensures
            n == self@.lists.len(),
    {
        self.n
    }

    /// Whether there are no nodes.
    pub fn is_empty(&self) -> (b: bool)
        ensures
            b == (self@.lists.len() == 0),
    {
        self.n == 0
    }

    /// How many neighbours a block can hold.
    pub fn r_max(&self) -> (r: usize)
        ensures
            r == self@.r_max,
    {
        self.r_max
    }

    /// The neighbours in a node's block.
    pub fn neighbors(&self, node_id: u32) -> (s: &[u32])
        requires
            self.wf(),
            node_id < self@.lists.len(),
        ensures
            s@ == self@.lists[node_id as int],
    {
        proof {
            lemma_block_bounds(self.n as int, self.r_max as int, node_id as int);
        }
        let start: usize = node_id as usize * self.r_max;
        let len: usize = self.degrees[node_id as usize] as usize;
        &self.main_block[start..start + len]
    }

    /// The neighbours in a node's block, and those in its overflow list.
    pub fn neighbors_full(&self, node_id: u32) -> (s: (&[u32], &[u32]))
        requires
            self.wf(),
            node_id < self@.lists.len(),
        ensures
            s.0@ == self@.lists[node_id as int],
            s.1@ == self@.overflow[node_id as int],
    {
        (self.neighbors(node_id), self.overflow[node_id as usize].as_slice())
    }

    /// Adds the edge `from -> to` unless it is there.
    pub fn add_edge(&mut self, from: u32, to: u32)
        requires
            old(self).wf(),
            from < old(self)@.lists.len(),
            to != SENTINEL,
            old(self)@.all(from as int).len() < usize::MAX,
        ensures
            final(self).wf(),
            final(self)@ == old(self)@.add_edge(from as int, to),
            old(self).free_slots_marked() ==> final(self).free_slots_marked(),
    {
        proof {
            lemma_block_bounds(self.n as int, self.r_max as int, from as int);
            self.lemma_shape();
        }
        let start: usize = from as usize * self.r_max;
        let deg: usize = self.degrees[from as usize] as usize;
        let ghost list = self@.lists[from as int];
        let mut i: usize = 0;
        while i < deg
            invariant
                *self == *old(self),
                self.wf(),
                from < self.n,
                from * self.r_max + self.r_max <= self.n * self.r_max,
                deg <= self.r_max,
                start == from * self.r_max,
                start + deg <= self.main_block@.len(),
                i <= deg,
                list.len() == deg,
                forall|j: int| 0 <= j < deg ==> list[j] == self.main_block@[start + j],
                list == self@.lists[from as int],
                forall|j: int| 0 <= j < i ==> list[j] != to,
            decreases deg - i,
        {
            if self.main_block[start + i] == to {
                assert(list[i as int] == to);
                return;
            }
            i += 1;
        }
        assert(!list.contains(to));
        if contains(self.overflow[from as usize].as_slice(), to) {
            return;
        }
        if deg < self.r_max {
            self.main_block[start + deg] = to;
            self.degrees[from as usize] = deg as u16 + 1;
            proof {
                self.lemma_shape();
                let want = old(self)@.add_edge(from as int, to);
                assert forall|j: int| 0 <= j < self.n implies self@.lists[j] == want.lists[j] by {
                    lemma_block_bounds(self.n as int, self.r_max as int, j);
                    assert(self@.lists[j] =~= want.lists[j]);
                }
                assert(self@ =~= want);
                if old(self).free_slots_marked() {
                    self.lemma_frame_marked(*old(self), from as int);
                }
            }
            return;
        }
        self.overflow[from as usize].push(to);
        proof {
            let want = old(self)@.add_edge(from as int, to);
            assert(self@.lists =~= old(self)@.lists);
            assert(self@.overflow =~= want.overflow);
        }
    }

    /// Replaces a node's neighbours.
    pub fn set_neighbors(&mut self, node_id: u32, neighbors: &[u32])
        requires
            old(self).wf(),
            node_id < old(self)@.lists.len(),
        ensures
            final(self).wf(),
            final(self)@ == old(self)@.set_neighbors(node_id as int, neighbors@),
            old(self).free_slots_marked() ==> final(self).free_slots_marked(),
    {
        proof {
            lemma_block_bounds(self.n as int, self.r_max as int, node_id as int);
            self.lemma_shape();
        }
        let node: usize = node_id as usize;
        let start: usize = node * self.r_max;
        let old_deg: usize = self.degrees[node] as usize;
        let mut i: usize = 0;
        while i < old_deg
            invariant
                self.wf(),
                self.n == old(self).n,
                self.r_max == old(self).r_max,
                self.degrees@ == old(self).degrees@,
                self.overflow@ == old(self).overflow@,
                node < self.n,
                start == node * self.r_max,
                start + self.r_max <= self.n * self.r_max,
                old_deg <= self.r_max,
                i <= old_deg,
                forall|p: int|
                    0 <= p < self.main_block@.len() ==> #[trigger] self.main_block@[p] == (if start
                        <= p < start + i {
                        SENTINEL
                    } else {
                        old(self).main_block@[p]
                    }),
            decreases old_deg - i,
        {
            self.main_block[start + i] = SENTINEL;
            i += 1;
        }
        let r_max: usize = self.r_max;
        let main_count: usize = if neighbors.len() <= r_max {
            neighbors.len()
        } else {
            r_max
        };
        let mut j: usize = 0;
        while j < main_count
            invariant
                self.wf(),
                self.n == old(self).n,
                self.r_max == old(self).r_max,
                self.degrees@ == old(self).degrees@,
                self.overflow@ == old(self).overflow@,
                node < self.n,
                start == node * self.r_max,
                start + self.r_max <= self.n * self.r_max,
                old_deg <= self.r_max,
                j <= main_count <= self.r_max,
                main_count <= neighbors@.len(),
                forall|p: int|
                    0 <= p < self.main_block@.len() ==> #[trigger] self.main_block@[p] == (if start
                        <= p < start + j {
                        neighbors@[p - start]
                    } else if start <= p < start + old_deg {
                        SENTINEL
                    } else {
                        old(self).main_block@[p]
                    }),
            decreases main_count - j,
        {
            self.main_block[start + j] = neighbors[j];
            j += 1;
        }
        let rest: Vec<u32> = slice_to_vec(&neighbors[main_count..neighbors.len()]);
        self.overflow[node] = rest;
        self.degrees[node] = main_count as u16;
        proof {
            self.lemma_shape();
            let want = old(self)@.set_neighbors(node_id as int, neighbors@);
            assert forall|k: int| 0 <= k < self.n implies self@.lists[k] == want.lists[k] by {
                lemma_block_bounds(self.n as int, self.r_max as int, k);
                assert(self@.lists[k] =~= want.lists[k]);
            }
            assert(self@.overflow =~= want.overflow);
            assert(self@ =~= want);
            if old(self).free_slots_marked() {
                assert forall|k: int| self.degrees@[node as int] <= k < self.r_max implies
                    self.main_block@[#[trigger] (node * self.r_max + k)] == SENTINEL
                    || self.main_block@[node * self.r_max + k] == old(self).main_block@[node
                    * self.r_max + k] && old(self).degrees@[node as int] <= k by {
                    let p = node * self.r_max + k;
                    assert(0 <= p < self.main_block@.len());
                }
                self.lemma_frame_marked(*old(self), node as int);
            }
        }
    }

    /// How many neighbours a node has, in its block and in its overflow list.
    pub fn degree(&self, node_id: u32) -> (d: usize)
        requires
            self.wf(),
            node_id < self@.lists.len(),
        ensures
            d == self@.all(node_id as int).len(),
    {
        proof {
            self.lemma_shape();
            lemma_block_bounds(self.n as int, self.r_max as int, node_id as int);
        }
        self.degrees[node_id as usize] as usize + self.overflow[node_id as usize].len()
    }

    /// The degrees of all nodes, summed up: how many nodes there are, how many of them have more
    /// neighbours than a block holds, the 95th and the 99th percentile, the sum and the greatest
    /// degree, and how many nodes have no neighbour.
    pub fn log_degree_distribution(&self) -> (s: DegreeStats)
        requires
            self.wf(),
        ensures
            self@.summed_up(s),
    {
        proof {
            self.lemma_shape();
        }
        let ghost degrees = self@.degrees();
        let mut list: Vec<usize> = Vec::with_capacity(self.n);
        let mut overflow_count: usize = 0;
        let mut connected: usize = 0;
        let mut total: u128 = 0;
        let mut max_degree: usize = 0;
        let mut i: usize = 0;
        while i < self.n
            invariant
                self.wf(),
                i <= self.n,
                degrees == self@.degrees(),
                degrees.len() == self.n,
                list@.len() == i,
                forall|j: int| 0 <= j < i ==> list@[j] == degrees[j],
                overflow_count == count_above(degrees.take(i as int), self@.r_max as int),
                connected == count_above(degrees.take(i as int), 0),
                overflow_count <= i,
                connected <= i,
                total == sum_of(degrees.take(i as int)),
                total <= i * usize::MAX,
                max_degree == max_of(degrees.take(i as int)),
            decreases self.n - i,
        {
            let d: usize = self.degree(i as u32);
            proof {
                let part = degrees.take(i + 1);
                assert(part.drop_last() =~= degrees.take(i as int));
                assert(part.last() == d);
                assert(total + d <= (i + 1) * usize::MAX) by (nonlinear_arith)
                    requires
                        total <= i * usize::MAX,
                        d <= usize::MAX,
                ;
                assert((i + 1) * usize::MAX <= 0xFFFF_FFFF * 0xFFFF_FFFF_FFFF_FFFF)
                    by (nonlinear_arith)
                    requires
                        i + 1 <= 0xFFFF_FFFF,
                        usize::MAX <= 0xFFFF_FFFF_FFFF_FFFF,
                ;
            }
            if d > self.r_max {
                overflow_count += 1;
            }
            if d > 0 {
                connected += 1;
            }
            total = total + d as u128;
            if d > max_degree {
                max_degree = d;
            }
            list.push(d);
            i += 1;
        }
        assert(degrees.take(i as int) =~= degrees);
        let p95: usize = percentile(&list, 95);
        let p99: usize = percentile(&list, 99);
        assert(list@.map_values(|d: usize| d as int) =~= degrees);
        DegreeStats {
            nodes: self.n,
            overflow_count,
            p95_degree: p95,
            p99_degree: p99,
            total_degree: total,
            max_degree,
            isolated_nodes: self.n - connected,
        }
    }

    /// How many bytes the slots take.
    pub fn main_block_bytes(&self) -> (b: usize)
        requires
            self.slots().len() * 4 <= usize::MAX,
        ensures
            b == self.slots().len() * 4,
    {
        self.main_block.len() * 4
    }

    /// How many bytes the overflow lists take.
    pub fn overflow_bytes(&self) -> (b: usize)
        requires
            self.wf(),
            total_len(self@.overflow) * 4 <= usize::MAX,
        ensures
            b == total_len(self@.overflow) * 4,
    {
        let mut sum: usize = 0;
        let mut i: usize = 0;
        let ghost lists = self@.overflow;
        while i < self.overflow.len()
            invariant
                self.wf(),
                i <= self.overflow@.len(),
                lists == self@.overflow,
                lists.len() == self.overflow@.len(),
                total_len(lists) * 4 <= usize::MAX,
                sum == total_len(lists.take(i as int)) * 4,
            decreases self.overflow@.len() - i,
        {
            proof {
                assert(lists.take(i + 1).drop_last() =~= lists.take(i as int));
                lemma_total_len_prefix(lists, i + 1);
            }
            sum += self.overflow[i].len() * 4;
            i += 1;
        }
        assert(lists.take(i as int) =~= lists);
        sum
    }

    /// A graph from its slots and overflow lists. A block's neighbours end at its first sentinel.
    pub fn from_parts(
        n: usize,
        r_max: usize,
        main_block: Vec<u32>,
        overflow: Vec<Vec<u32>>,
    ) -> (g: Self)
        requires
            n <= SENTINEL,
            r_max <= u16::MAX,
            main_block@.len() == n * r_max,
            overflow@.len() == n,
            forall|i: int| 0 <= i < n ==> (#[trigger] overflow@[i])@.len() + r_max <= usize::MAX,
        ensures
            g.wf(),
            g.slots() == main_block@,
            g@.r_max == r_max,
            g@.lists == Seq::new(
                n as nat,
                |i: int| before_sentinel(block_of(main_block@, r_max as int, i)),
            ),
            g@.overflow == Seq::new(n as nat, |i: int| overflow@[i]@),
    {
        assert(main_block@.len() == main_block.len());
        let mut degrees: Vec<u16> = Vec::with_capacity(n);
        let mut i: usize = 0;
        while i < n
            invariant
                i <= n,
                r_max <= u16::MAX,
                main_block@.len() == n * r_max,
                main_block@.len() <= usize::MAX,
                degrees@.len() == i,
                forall|j: int| 0 <= j < i ==> #[trigger] degrees@[j] <= r_max,
                forall|j: int|
                    0 <= j < i ==> before_sentinel(block_of(main_block@, r_max as int, j))
                        == main_block@.subrange(j * r_max, j * r_max + #[trigger] degrees@[j]),
            decreases n - i,
        {
            proof {
                lemma_block_bounds(n as int, r_max as int, i as int);
            }
            let start: usize = i * r_max;
            let row = &main_block[start..start + r_max];
            let len: usize = first_sentinel(row);
            assert(row@ == block_of(main_block@, r_max as int, i as int));
            assert(row@.take(len as int) =~= main_block@.subrange(i * r_max, i * r_max + len));
            degrees.push(len as u16);
            i += 1;
        }
        let g = HybridBlockedCsr { n, r_max, main_block, overflow, degrees };
        assert(g@.lists =~= Seq::new(
            n as nat,
            |i: int| before_sentinel(block_of(main_block@, r_max as int, i)),
        ));
        assert(g@.overflow =~= Seq::new(n as nat, |i: int| overflow@[i]@));
        g
    }

    /// The slots of all blocks, one block after the other.
    pub fn main_block(&self) -> (s: &[u32])
        ensures
            s@ == self.slots(),
    {
        self.main_block.as_slice()
    }

    /// The overflow lists.
    pub fn overflow(&self) -> (s: &[Vec<u32>])
        requires
            self.wf(),
        ensures
            s@.len() == self@.overflow.len(),
            forall|i: int| 0 <= i < s@.len() ==> (#[trigger] s@[i])@ == self@.overflow[i],
    {
        self.overflow.as_slice()
    }

    proof fn lemma_frame_marked(self, before: Self, node: int)
        requires
            self.wf(),
            before.wf(),
            before.free_slots_marked(),
            self.n == before.n,
            self.r_max == before.r_max,
            0 <= node < self.n,
            forall|j: int|
                0 <= j < self.n && j != node ==> #[trigger] self.degrees@[j] == before.degrees@[j],
            forall|p: int|
                0 <= p < self.main_block@.len() && !(node * self.r_max <= p < node * self.r_max
                    + self.r_max) ==> #[trigger] self.main_block@[p] == before.main_block@[p],
            forall|k: int|
                self.degrees@[node] <= k < self.r_max ==> self.main_block@[#[trigger] (node
                    * self.r_max + k)] == SENTINEL || self.main_block@[node * self.r_max + k]
                    == before.main_block@[node * self.r_max + k] && before.degrees@[node] <= k,
        ensures
            self.free_slots_marked(),
    {
        self.lemma_shape();
        before.lemma_shape();
        assert forall|i: int, k: int|
            #![trigger self.slots()[i * self@.r_max + k]]
            0 <= i < self@.lists.len() && self@.lists[i].len() <= k < self@.r_max implies self.slots()[i
            * self@.r_max + k] == SENTINEL by {
            lemma_block_bounds(self.n as int, self.r_max as int, i);
            lemma_block_bounds(self.n as int, self.r_max as int, node);
            assert(self@.lists[i].len() == self.degrees@[i]);
            assert(before@.lists[i].len() == before.degrees@[i]);
            let p = i * self.r_max + k;
            if i == node {
                assert(self.main_block@[node * self.r_max + k] == SENTINEL || before.slots()[i
                    * before@.r_max + k] == self.main_block@[node * self.r_max + k]);
            } else {
                assert(before.slots()[i * before@.r_max + k] == SENTINEL);
            }
        }
    }
}

/// What a search reads of a graph.
pub trait GraphStorage: Send + Sync {
    /// The neighbours of each node.
    spec fn rows(&self) -> Seq<Seq<u32>>;

    /// Whether the storage is one that the library's functions make.
    spec fn storage_valid(&self) -> bool;

    /// The number of nodes.
    fn len(&self) -> (n: usize)
        ensures
            n == self.rows().len(),
    ;

    /// Whether there are no nodes.
    fn is_empty(&self) -> (b: bool)
        ensures
            b == (self.rows().len() == 0),
    {
        self.len() == 0
    }

    /// The neighbours of a node.
    fn neighbors(&self, node_id: u32) -> (s: &[u32])
        requires
            self.storage_valid(),
            node_id < self.rows().len(),
        ensures
            s@ == self.rows()[node_id as int],
    ;

    /// The number of neighbours of a node.
    fn degree(&self, node_id: u32) -> (d: usize)
        requires
            self.storage_valid(),
            node_id < self.rows().len(),
        ensures
            d == self.rows()[node_id as int].len(),
    {
        self.neighbors(node_id).len()
    }
}

/// The storage interface shows the blocks only, without the overflow lists.
impl GraphStorage for HybridBlockedCsr {
    open spec fn rows(&self) -> Seq<Seq<u32>> {
        self@.lists
    }

    open spec fn storage_valid(&self) -> bool {
        self.wf()
    }

    fn len(&self) -> (n: usize) {
        self.n
    }

    fn neighbors(&self, node_id: u32) -> (s: &[u32]) {
        HybridBlockedCsr::neighbors(self, node_id)
    }
}

/// The `pct`-th percentile of a list.
fn percentile(list: &Vec<usize>, pct: usize) -> (p: usize)
    requires
        pct <= 100,
        list@.len() <= SENTINEL,
    ensures
        p == percentile_of(list@.map_values(|d: usize| d as int), pct as int),
{
    if list.len() == 0 {
        return 0;
    }
    let sorted = sort_usizes(list);
    proof {
        let m = list@.len() - 1;
        assert(m * pct <= m * 100) by (nonlinear_arith)
            requires
                0 <= m,
                pct <= 100,
        ;
        assert(0 <= m * pct) by (nonlinear_arith)
            requires
                0 <= m,
        ;
    }
    let idx: u64 = ((list.len() as u64 - 1) * pct as u64 + 50) / 100;
    let p: usize = sorted[idx as usize];
    assert(sorted@.map_values(|d: usize| d as int)[idx as int] == p);
    p
}

/// The index of the first sentinel, or the length where there is none.
fn first_sentinel(row: &[u32]) -> (len: usize)
    ensures
        len <= row@.len(),
        before_sentinel(row@) == row@.take(len as int),
{
    let mut len: usize = 0;
    while len < row.len() && row[len] != SENTINEL
        invariant
            len <= row@.len(),
            forall|j: int| 0 <= j < len ==> row@[j] != SENTINEL,
        decreases row@.len() - len,
    {
        len += 1;
    }
    proof {
        lemma_before_sentinel(row@, len as int);
    }
    len
}

/// Where the first `len` entries are no sentinel and the next one is, or there is none, these
/// entries are the ones before the sentinel.
pub proof fn lemma_before_sentinel(row: Seq<u32>, len: int)
    requires
        0 <= len <= row.len(),
        forall|j: int| 0 <= j < len ==> row[j] != SENTINEL,
        len < row.len() ==> row[len] == SENTINEL,
    ensures
        before_sentinel(row) == row.take(len),
    decreases row.len(),
{
    if len == 0 {
        assert(before_sentinel(row) =~= row.take(len));
    } else {
        lemma_before_sentinel(row.skip(1), len - 1);
        assert(before_sentinel(row) =~= row.take(len));
    }
}

/// Whether a list holds `x`.
pub fn contains(list: &[u32], x: u32) -> (b: bool)
    ensures
        b == list@.contains(x),
{
    let mut i: usize = 0;
    while i < list.len()
        invariant
            i <= list@.len(),
            forall|j: int| 0 <= j < i ==> list@[j] != x,
        decreases list@.len() - i,
    {
        if list[i] == x {
            return true;
        }
        i += 1;
    }
    false
}

/// After a node's neighbours are replaced it has the new ones, in their order, and every other node
/// has those that it had.
pub proof fn law_replaced_neighbours_are_read_back(
    view: CsrView,
    node: int,
    neighbors: Seq<u32>,
    other: int,
)
    requires
        view.overflow.len() == view.lists.len(),
        0 <= node < view.lists.len(),
        0 <= other < view.lists.len(),
    ensures
        view.set_neighbors(node, neighbors).all(node) == neighbors,
        other != node ==> view.set_neighbors(node, neighbors).all(other) == view.all(other),
{
    assert(view.set_neighbors(node, neighbors).all(node) =~= neighbors);
    if other != node {
        assert(view.set_neighbors(node, neighbors).all(other) =~= view.all(other));
    }
}

/// After an edge is added the node has it; it keeps every edge that it had and gets no other. Every
/// other node has the edges that it had.
pub proof fn law_added_edges_are_there(view: CsrView, from: int, to: u32, other: int, v: u32)
    requires
        view.overflow.len() == view.lists.len(),
        0 <= from < view.lists.len(),
        0 <= other < view.lists.len(),
    ensures
        view.add_edge(from, to).all(from).contains(to),
        view.add_edge(from, to).all(from).contains(v) == (view.all(from).contains(v) || v == to),
        other != from ==> view.add_edge(from, to).all(other) == view.all(other),
{
    let after = view.add_edge(from, to);
    lemma_all_contains(view, from, v);
    lemma_all_contains(view, from, to);
    lemma_all_contains(after, from, v);
    lemma_all_contains(after, from, to);
    lemma_push_contains(view.lists[from], to, v);
    lemma_push_contains(view.lists[from], to, to);
    lemma_push_contains(view.overflow[from], to, v);
    lemma_push_contains(view.overflow[from], to, to);
}

/// The graph of `n` nodes after edges are added, first to last.
pub open spec fn with_edges(n: nat, r_max: nat, edges: Seq<(u32, u32)>) -> CsrView
    decreases edges.len(),
{
    if edges.len() == 0 {
        CsrView::empty(n, r_max)
    } else {
        with_edges(n, r_max, edges.drop_last()).add_edge(edges.last().0 as int, edges.last().1)
    }
}

/// Where the edges of a node lead, each place once, in the order in which they were first added.
pub open spec fn first_targets(edges: Seq<(u32, u32)>, node: u32) -> Seq<u32>
    decreases edges.len(),
{
    if edges.len() == 0 {
        Seq::empty()
    } else {
        let before = first_targets(edges.drop_last(), node);
        if edges.last().0 != node || before.contains(edges.last().1) {
            before
        } else {
            before.push(edges.last().1)
        }
    }
}

/// The neighbours of a node are where its edges lead, each once, in the order in which they were
/// first added. Only a full block has an overflow list behind it.
pub proof fn law_neighbours_stand_in_order_of_addition(
    n: nat,
    r_max: nat,
    edges: Seq<(u32, u32)>,
    node: u32,
)
    requires
        node < n,
        forall|i: int| 0 <= i < edges.len() ==> (#[trigger] edges[i]).0 < n,
    ensures
        ({
            let view = with_edges(n, r_max, edges);
            &&& view.r_max == r_max
            &&& view.lists.len() == n
            &&& view.overflow.len() == n
            &&& view.all(node as int) == first_targets(edges, node)
            &&& view.lists[node as int].len() <= r_max
            &&& view.overflow[node as int].len() > 0 ==> view.lists[node as int].len() == r_max
        }),
    decreases edges.len(),
{
    let view = with_edges(n, r_max, edges);
    if edges.len() == 0 {
        assert(view.all(node as int) =~= Seq::<u32>::empty());
    } else {
        let short = edges.drop_last();
        assert forall|i: int| 0 <= i < short.len() implies (#[trigger] short[i]).0 < n by {
            assert(edges[i].0 < n);
        }
        let from = edges.last().0;
        let to = edges.last().1;
        law_neighbours_stand_in_order_of_addition(n, r_max, short, node);
        law_neighbours_stand_in_order_of_addition(n, r_max, short, from);
        let before = with_edges(n, r_max, short);
        assert(edges[edges.len() - 1].0 < n);
        if from != node {
            assert(view.all(node as int) =~= before.all(node as int));
        } else {
            let at = node as int;
            lemma_all_contains(before, at, to);
            if before.all(at).contains(to) {
                assert(view == before);
            } else {
                assert(view.all(at) =~= before.all(at).push(to));
            }
        }
    }
}

/// How many neighbours the overflow lists of all nodes hold together is the sum over the nodes.
pub proof fn law_overflow_adds_up(overflow: Seq<Seq<u32>>)
    ensures
        total_len(overflow) == sum_of(
            Seq::new(overflow.len(), |i: int| overflow[i].len() as int),
        ),
    decreases overflow.len(),
{
    if overflow.len() > 0 {
        let short = overflow.drop_last();
        law_overflow_adds_up(short);
        assert(Seq::new(overflow.len(), |i: int| overflow[i].len() as int).drop_last() =~= Seq::new(
            short.len(),
            |i: int| short[i].len() as int,
        ));
    }
}

proof fn lemma_all_contains(view: CsrView, i: int, v: u32)
    ensures
        view.all(i).contains(v) == (view.lists[i].contains(v) || view.overflow[i].contains(v)),
{
    let a = view.lists[i];
    let b = view.overflow[i];
    if a.contains(v) {
        let k = choose|k: int| 0 <= k < a.len() && a[k] == v;
        assert(view.all(i)[k] == v);
    }
    if b.contains(v) {
        let k = choose|k: int| 0 <= k < b.len() && b[k] == v;
        assert(view.all(i)[a.len() + k] == v);
    }
    if view.all(i).contains(v) {
        let k = choose|k: int| 0 <= k < view.all(i).len() && view.all(i)[k] == v;
        if k < a.len() {
            assert(a[k] == v);
        } else {
            assert(b[k - a.len()] == v);
        }
    }
}

proof fn lemma_push_contains(list: Seq<u32>, to: u32, v: u32)
    ensures
        list.push(to).contains(v) == (list.contains(v) || v == to),
{
    if list.contains(v) {
        let k = choose|k: int| 0 <= k < list.len() && list[k] == v;
        assert(list.push(to)[k] == v);
    }
    if v == to {
        assert(list.push(to)[list.len() as int] == v);
    }
}

} // verus!
