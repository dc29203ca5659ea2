//! Visited marks that are cleared in time proportional to what was visited.
use vstd::prelude::*;

verus! {

/// Marks on the nodes `0..n`, with the list of the marked nodes in the order in which they were
/// marked. Clearing walks that list, not all of the nodes. The list stands at the front of a vector
/// that is made with room for the marks of a search and never gets shorter.
pub struct VisitedTracker {
    visited: Vec<u8>,
    history: Vec<u32>,
    count: usize,
}

/// What a tracker says: the number of nodes, the marked ones in the order of their marking, and the
/// room for marks.
pub struct VisitedView {
    /// The number of nodes.
    pub n: nat,
    /// The marked nodes.
    pub nodes: Seq<u32>,
    /// How many marks fit before the list has to grow.
    pub capacity: nat,
}

impl View for VisitedTracker {
    type V = VisitedView;

    closed spec fn view(&self) -> VisitedView {
        VisitedView {
            n: self.visited@.len(),
            nodes: self.history@.take(self.count as int),
            capacity: self.history@.len(),
        }
    }
}

/// Visiting `v` adds it to the marked nodes where it is not yet one of them.
pub open spec fn visit_spec(nodes: Seq<u32>, v: u32) -> Seq<u32> {
    if nodes.contains(v) {
        nodes
    } else {
        nodes.push(v)
    }
}

impl VisitedTracker {
    /// The list holds exactly the marked nodes, each once.
    pub closed spec fn wf(self) -> bool {
        &&& self.count <= self.history@.len()
        &&& forall|i: int|
            0 <= i < self.count ==> (#[trigger] self.history@[i]) < self.visited@.len()
        &&& forall|i: int|
            0 <= i < self.count ==> self.visited@[#[trigger] self.history@[i] as int] != 0
        &&& forall|v: int|
            0 <= v < self.visited@.len() && #[trigger] self.visited@[v] != 0 ==> v <= u32::MAX
                && self.history@.take(self.count as int).contains(v as u32)
        &&& self.history@.take(self.count as int).no_duplicates()
    }

    /// What a valid tracker says: its marked nodes are nodes, none of them twice.
    pub proof fn lemma_view(self)
        requires
            self.wf(),
        ensures
            self@.nodes.no_duplicates(),
            forall|v: u32| #[trigger] self@.nodes.contains(v) ==> v < self@.n,
            self@.nodes.len() <= self@.n,
            self@.nodes.len() <= self@.capacity,
    {
        let nodes = self@.nodes;
        assert forall|v: u32| #[trigger] nodes.contains(v) implies v < self@.n by {
            let i = choose|i: int| 0 <= i < nodes.len() && nodes[i] == v;
            assert(nodes[i] < self.visited@.len());
        }
        lemma_distinct_below(nodes, self@.n);
    }

    /// A tracker for `n` nodes with room for `3 * ef_search` marks before the list has to grow.
    pub fn new(n: usize, ef_search: usize) -> (t: Self)
        requires
            3 * ef_search <= usize::MAX,
        ensures
            t.wf(),
            t@.n == n,
            t@.nodes == Seq::<u32>::empty(),
            t@.capacity == 3 * ef_search,
    {
        VisitedTracker { visited: vec![0u8;n], history: vec![0u32;ef_search * 3], count: 0 }
    }

    /// Marks `idx`, and says whether it was not marked before. The list grows where the mark has no
    /// room.
    pub fn visit(&mut self, idx: u32) -> (first: bool)
        requires
            old(self).wf(),
            idx < old(self)@.n,
        ensures
            final(self).wf(),
            first == !old(self)@.nodes.contains(idx),
            final(self)@.n == old(self)@.n,
            final(self)@.nodes == visit_spec(old(self)@.nodes, idx),
            final(self)@.capacity == (if final(self)@.nodes.len() <= old(self)@.capacity {
                old(self)@.capacity
            } else {
                final(self)@.nodes.len()
            }),
    {
        let i: usize = idx as usize;
        let ghost h0 = self.history@.take(self.count as int);
        if self.visited[i] != 0 {
            return false;
        }
        proof {
            if h0.contains(idx) {
                let j = choose|j: int| 0 <= j < h0.len() && h0[j] == idx;
                assert(self.visited@[self.history@[j] as int] != 0);
            }
            self.lemma_view();
            assert(self@.nodes.len() <= self.visited@.len());
            assert(self.visited@.len() == self.visited.len());
        }
        self.visited[i] = 1;
        if self.count < self.history.len() {
            self.history[self.count] = idx;
        } else {
            self.history.push(idx);
        }
        assert(self.count < self.history@.len());
        assert(self.history@.len() == self.history.len());
        self.count = self.count + 1;
        proof {
            let h = self.history@.take(self.count as int);
            assert(h =~= h0.push(idx));
            assert(h[h.len() - 1] == idx);
            assert forall|k: int| 0 <= k < self.count implies (#[trigger] self.history@[k])
                < self.visited@.len() by {
                assert(self.history@[k] == h[k]);
                if k < h0.len() {
                    assert(h0[k] == old(self).history@[k]);
                }
            }
            assert forall|k: int| 0 <= k < self.count implies self.visited@[
                #[trigger] self.history@[k] as int
            ] != 0 by {
                assert(self.history@[k] == h[k]);
                if k < h0.len() {
                    assert(h0[k] == old(self).history@[k]);
                }
            }
            assert forall|v: int|
                0 <= v < self.visited@.len() && #[trigger] self.visited@[v] != 0 implies v
                <= u32::MAX && h.contains(v as u32) by {
                if v != i {
                    assert(old(self).visited@[v] != 0);
                    let j = choose|j: int| 0 <= j < h0.len() && h0[j] == v as u32;
                    assert(h[j] == v as u32);
                }
            }
            assert forall|a: int, b: int| 0 <= a < b < h.len() implies h[a] != h[b] by {
                if b == h0.len() {
                    assert(h0.contains(h0[a]));
                } else {
                    assert(h0[a] != h0[b]);
                }
            }
        }
        true
    }

    /// Whether `idx` is marked.
    pub fn is_visited(&self, idx: u32) -> (b: bool)
        requires
            self.wf(),
            idx < self@.n,
        ensures
            b == self@.nodes.contains(idx),
    {
        proof {
            let h = self.history@.take(self.count as int);
            if h.contains(idx) {
                let i = choose|i: int| 0 <= i < h.len() && h[i] == idx;
                assert(self.visited@[self.history@[i] as int] != 0);
            }
        }
        self.visited[idx as usize] != 0
    }

    /// Clears every mark. The list keeps its room.
    pub fn reset(&mut self)
        requires
            old(self).wf(),
        ensures
            final(self).wf(),
            final(self)@.n == old(self)@.n,
            final(self)@.nodes == Seq::<u32>::empty(),
            final(self)@.capacity == old(self)@.capacity,
    {
        let ghost h = self.history@.take(self.count as int);
        let mut i: usize = 0;
        assert(h.skip(0) =~= h);
        while i < self.count
            invariant
                self.history == old(self).history,
                self.count == old(self).count,
                i <= self.count <= self.history@.len(),
                h == self.history@.take(self.count as int),
                self.visited@.len() == old(self).visited@.len(),
                forall|j: int|
                    0 <= j < self.count ==> (#[trigger] self.history@[j]) < self.visited@.len(),
                forall|v: int|
                    0 <= v < self.visited@.len() && #[trigger] self.visited@[v] != 0 ==> v
                        <= u32::MAX && h.skip(i as int).contains(v as u32),
            decreases self.count - i,
        {
            let idx: usize = self.history[i] as usize;
            let ghost before = self.visited@;
            self.visited[idx] = 0;
            proof {
                assert forall|v: int|
                    0 <= v < self.visited@.len() && #[trigger] self.visited@[v] != 0 implies v
                    <= u32::MAX && h.skip(i + 1).contains(v as u32) by {
                    assert(v != idx && before[v] != 0);
                    let t = h.skip(i as int);
                    let j = choose|j: int| 0 <= j < t.len() && t[j] == v as u32;
                    assert(j != 0);
                    assert(h.skip(i + 1)[j - 1] == v as u32);
                }
            }
            i += 1;
        }
        assert(h.skip(i as int) =~= Seq::<u32>::empty());
        self.count = 0;
        proof {
            assert forall|v: int| 0 <= v < self.visited@.len() implies #[trigger] self.visited@[v]
                == 0 by {
                if self.visited@[v] != 0 {
                    assert(h.skip(i as int).contains(v as u32));
                }
            }
        }
    }

    /// How many nodes are marked.
    pub fn visited_count(&self) -> (c: usize)
        requires
            self.wf(),
        ensures
            c == self@.nodes.len(),
    {
        self.count
    }

    /// The marked nodes, in the order in which they were marked.
    pub fn visited_nodes(&self) -> (s: &[u32])
        requires
            self.wf(),
        ensures
            s@ == self@.nodes,
    {
        let s: &[u32] = &self.history.as_slice()[0..self.count];
        assert(s@ =~= self@.nodes);
        s
    }

    /// The number of nodes.
    pub fn len(&self) -> (n: usize)
        ensures
            n == self@.n,
    {
        self.visited.len()
    }

    /// Whether there are no nodes.
    pub fn is_empty(&self) -> (b: bool)
        ensures
            b == (self@.n == 0),
    {
        self.visited.len() == 0
    }

    /// How many marks fit before the list has to grow.
    pub fn history_capacity(&self) -> (c: usize)
        ensures
            c == self@.capacity,
    {
        self.history.len()
    }
}

impl Default for VisitedTracker {
    fn default() -> (t: Self)
        ensures
            t.wf(),
            t@.n == 0,
            t@.nodes == Seq::<u32>::empty(),
            t@.capacity == 192,
    {
        VisitedTracker::new(0, 64)
    }
}

/// A list of distinct numbers below `n` has at most `n` of them.
pub proof fn lemma_distinct_below(s: Seq<u32>, n: nat)
    requires
        s.no_duplicates(),
        forall|v: u32| #[trigger] s.contains(v) ==> v < n,
    ensures
        s.len() <= n,
    decreases n,
{
    if n == 0 {
        if s.len() > 0 {
            assert(s.contains(s[0]));
        }
    } else {
        let top = (n - 1) as u32;
        if n - 1 <= u32::MAX && s.contains(top) {
            let k = choose|k: int| 0 <= k < s.len() && s[k] == top;
            let t = s.remove(k);
            assert forall|v: u32| #[trigger] t.contains(v) implies v < n - 1 by {
                let j = choose|j: int| 0 <= j < t.len() && t[j] == v;
                let jj = if j < k { j } else { j + 1 };
                assert(s[jj] == v);
                assert(s.contains(v));
            }
            assert(t.no_duplicates()) by {
                assert forall|a: int, b: int| 0 <= a < t.len() && 0 <= b < t.len() && a != b implies t[a]
                    != t[b] by {
                    let aa = if a < k { a } else { a + 1 };
                    let bb = if b < k { b } else { b + 1 };
                    assert(s[aa] != s[bb]);
                }
            }
            lemma_distinct_below(t, (n - 1) as nat);
        } else {
            assert forall|v: u32| #[trigger] s.contains(v) implies v < n - 1 by {
                if v == n - 1 {
                    assert(v == top);
                }
            }
            lemma_distinct_below(s, (n - 1) as nat);
        }
    }
}

} // verus!
