//! A sorted pool of neighbours with a fixed capacity.
//!
//! One array is both the candidate list and the result list of a search. It is sorted by distance,
//! holds at most `ef` entries, and once it is full it takes a candidate only if it is nearer than
//! the worst entry, which then drops out. A cursor marks the nearest entry that has not been
//! expanded. An expanded entry carries the highest bit of its id as a mark.
use vstd::prelude::*;
use crate::distance::single::{F32, MAX_BITS};

verus! {

/// The bit of an id that marks an expanded entry.
pub const CHECKED_MASK: u32 = 0x8000_0000;

/// An id without the mark.
pub open spec fn raw(id: u32) -> u32 {
    (id % CHECKED_MASK) as u32
}

/// Whether an id carries the mark.
pub open spec fn marked(id: u32) -> bool {
    id >= CHECKED_MASK
}

/// An id with the mark.
pub open spec fn mark(id: u32) -> u32 {
    (id % CHECKED_MASK + CHECKED_MASK) as u32
}

/// A node id, which may carry the mark, and its distance.
pub type Entry = (u32, F32);

/// A pool as its entries, nearest first.
#[verifier::ext_equal]
pub struct PoolView {
    /// The entries.
    pub items: Seq<Entry>,
    /// The place of the next entry to expand.
    pub cursor: nat,
    /// How many entries the pool can hold.
    pub ef: nat,
}

/// Where a binary search between `lo` and `hi` puts a distance: before a first entry that is
/// farther.
pub open spec fn search_pos(items: Seq<Entry>, dist: F32, lo: int, hi: int) -> int
    decreases hi - lo,
{
    if lo >= hi {
        lo
    } else {
        let mid = lo + (hi - lo) / 2;
        if dist.below(items[mid].1) {
            search_pos(items, dist, lo, mid)
        } else {
            search_pos(items, dist, mid + 1, hi)
        }
    }
}

/// Where a new entry goes.
pub open spec fn insert_pos(items: Seq<Entry>, dist: F32) -> int {
    search_pos(items, dist, 0, items.len() as int)
}

/// The entries have numbers for distances, and they stand in ascending order.
pub open spec fn sorted(items: Seq<Entry>) -> bool {
    &&& forall|i: int| 0 <= i < items.len() ==> !(#[trigger] items[i]).1.nan()
    &&& forall|i: int, j: int|
        #![trigger items[i], items[j]]
        0 <= i <= j < items.len() ==> items[i].1.at_most(items[j].1)
}

/// The place of the first entry from `from` on that carries no mark, or the end.
pub open spec fn next_unmarked(items: Seq<Entry>, from: int) -> int
    decreases items.len() - from,
{
    if from >= items.len() || !marked(items[from].0) {
        from
    } else {
        next_unmarked(items, from + 1)
    }
}

/// The entries without marks.
pub open spec fn unmarked(items: Seq<Entry>) -> Seq<Entry> {
    Seq::new(items.len(), |i: int| (raw(items[i].0), items[i].1))
}

impl PoolView {
    /// The empty pool for `ef` entries.
    pub open spec fn empty(ef: nat) -> PoolView {
        PoolView { items: Seq::empty(), cursor: 0, ef }
    }

    /// The sizes fit together.
    pub open spec fn bounded(self) -> bool {
        self.items.len() <= self.ef && self.cursor <= self.items.len()
    }

    /// Whether the pool refuses a candidate at this distance: it is full and the candidate is no
    /// nearer than the worst entry.
    pub open spec fn refuses(self, dist: F32) -> bool {
        self.items.len() == self.ef && self.items.last().1.at_most(dist)
    }

    /// The pool after a candidate is offered.
    pub open spec fn insert(self, node: u32, dist: F32) -> PoolView {
        if self.refuses(dist) {
            self
        } else {
            let pos = insert_pos(self.items, dist);
            let grown = self.items.insert(pos, (node, dist));
            PoolView {
                items: if grown.len() > self.ef {
                    grown.take(self.ef as int)
                } else {
                    grown
                },
                cursor: if pos < self.cursor {
                    pos as nat
                } else {
                    self.cursor
                },
                ef: self.ef,
            }
        }
    }

    /// Whether an entry is left to expand.
    pub open spec fn has_next(self) -> bool {
        self.cursor < self.items.len() && self.cursor < self.ef
    }

    /// The next entry to expand.
    pub open spec fn next(self) -> Entry {
        (raw(self.items[self.cursor as int].0), self.items[self.cursor as int].1)
    }

    /// The pool after the next entry is taken: it is marked, and the cursor moves to the next
    /// entry without a mark.
    pub open spec fn pop(self) -> PoolView {
        let at = self.cursor as int;
        let items = self.items.update(at, (mark(self.items[at].0), self.items[at].1));
        PoolView { items, cursor: next_unmarked(items, at + 1) as nat, ef: self.ef }
    }

    /// The distance of the last entry, or the greatest finite number where there is none.
    pub open spec fn worst(self) -> F32 {
        if self.items.len() == 0 {
            F32(MAX_BITS)
        } else {
            self.items.last().1
        }
    }

    /// All entries before the cursor are marked, and the one at the cursor is not.
    pub open spec fn tracked_marks(self) -> bool {
        &&& forall|i: int| 0 <= i < self.cursor ==> marked((#[trigger] self.items[i]).0)
        &&& self.cursor < self.items.len() ==> !marked(self.items[self.cursor as int].0)
    }
}

/// The pool.
pub struct LinearPool {
    data: Vec<(u32, F32)>,
    cursor: usize,
    ef: usize,
}

impl View for LinearPool {
    type V = PoolView;

    closed spec fn view(&self) -> PoolView {
        PoolView { items: self.data@, cursor: self.cursor as nat, ef: self.ef as nat }
    }
}

impl LinearPool {
    /// The sizes fit together.
    pub open spec fn wf(self) -> bool {
        self@.bounded()
    }

    /// An empty pool for `ef` entries.
    pub fn new(ef: usize) -> (p: Self)
        requires
            ef < usize::MAX,
        ensures
            p.wf(),
            p@ == PoolView::empty(ef as nat),
    {
        let p = LinearPool { data: Vec::with_capacity(ef + 1), cursor: 0, ef };
        assert(p@ =~= PoolView::empty(ef as nat));
        p
    }

    /// Takes all entries out.
    pub fn clear(&mut self)
        ensures
            final(self).wf(),
            final(self)@ == PoolView::empty(old(self)@.ef),
    {
        self.data.clear();
        self.cursor = 0;
        assert(self@ =~= PoolView::empty(old(self)@.ef));
    }

    /// Takes all entries out and sets another capacity.
    pub fn reset_for(&mut self, ef: usize)
        requires
            ef < usize::MAX,
        ensures
            final(self).wf(),
            final(self)@ == PoolView::empty(ef as nat),
    {
        self.data.clear();
        self.ef = ef;
        self.cursor = 0;
        assert(self@ =~= PoolView::empty(ef as nat));
    }

    /// Offers a candidate. Returns whether the pool took it.
    pub fn insert(&mut self, node: u32, dist: F32) -> (taken: bool)
        requires
            old(self).wf(),
            old(self)@.ef >= 1,
        ensures
            final(self).wf(),
            final(self)@ == old(self)@.insert(node, dist),
            taken == !old(self)@.refuses(dist),
    {
        let size: usize = self.data.len();
        if size == self.ef {
            let worst: F32 = self.data[size - 1].1;
            if dist.ge(worst) {
                return false;
            }
        }
        let lo: usize = self.find_insert_pos(dist);
        self.data.insert(lo, (node, dist));
        if size == self.ef {
            self.data.truncate(self.ef);
        }
        if lo < self.cursor {
            self.cursor = lo;
        }
        assert(self@ =~= old(self)@.insert(node, dist));
        true
    }

    /// Takes the nearest entry that has not been expanded.
    pub fn pop(&mut self) -> (next: Option<(u32, F32)>)
        requires
            old(self).wf(),
        ensures
            final(self).wf(),
            match next {
                Some(e) => old(self)@.has_next() && e == old(self)@.next() && final(self)@ == old(
                    self,
                )@.pop(),
                None => !old(self)@.has_next() && final(self)@ == old(self)@,
            },
    {
        if !self.has_next() {
            return None;
        }
        let at: usize = self.cursor;
        let (id, dist) = self.data[at];
        let plain: u32 = id % CHECKED_MASK;
        self.data[at] = (plain + CHECKED_MASK, dist);
        let ghost items = self.data@;
        let mut next: usize = at + 1;
        while next < self.data.len() && self.data[next].0 >= CHECKED_MASK
            invariant
                items == self.data@,
                at + 1 <= next <= self.data@.len(),
                next_unmarked(items, at + 1) == next_unmarked(items, next as int),
            decreases self.data@.len() - next,
        {
            next += 1;
        }
        self.cursor = next;
        assert(self@ =~= old(self)@.pop());
        Some((plain, dist))
    }

    /// Whether an entry is left to expand.
    pub fn has_next(&self) -> (b: bool)
        ensures
            b == self@.has_next(),
    {
        self.cursor < self.data.len() && self.cursor < self.ef
    }

    /// The entry that `pop` would take.
    pub fn peek_unchecked(&self) -> (next: Option<(u32, F32)>)
        ensures
            next == (if self@.has_next() {
                Some(self@.next())
            } else {
                None
            }),
    {
        if !self.has_next() {
            return None;
        }
        let (id, dist) = self.data[self.cursor];
        Some((id % CHECKED_MASK, dist))
    }

    /// The distance of the last entry, or the greatest finite number where there is none.
    pub fn worst_distance(&self) -> (d: F32)
        ensures
            d == self@.worst(),
    {
        if self.data.len() == 0 {
            F32(MAX_BITS)
        } else {
            self.data[self.data.len() - 1].1
        }
    }

    /// The number of entries.
    pub fn len(&self) -> (n: usize)
        ensures
            n == self@.items.len(),
    {
        self.data.len()
    }

    /// Whether there are no entries.
    pub fn is_empty(&self) -> (b: bool)
        ensures
            b == (self@.items.len() == 0),
    {
        self.data.len() == 0
    }

    /// The place of the next entry to expand.
    pub fn cursor(&self) -> (c: usize)
        ensures
            c == self@.cursor,
    {
        self.cursor
    }

    /// The entries, nearest first, without marks.
    pub fn into_sorted_vec(self) -> (v: Vec<(u32, F32)>)
        ensures
            v@ == unmarked(self@.items),
    {
        self.to_sorted_vec()
    }

    /// The entries, nearest first, without marks.
    pub fn to_sorted_vec(&self) -> (v: Vec<(u32, F32)>)
        ensures
            v@ == unmarked(self@.items),
    {
        let mut result: Vec<(u32, F32)> = Vec::with_capacity(self.data.len());
        let mut i: usize = 0;
        while i < self.data.len()
            invariant
                i <= self.data@.len(),
                result@ == unmarked(self.data@).take(i as int),
            decreases self.data@.len() - i,
        {
            let (id, dist) = self.data[i];
            result.push((id % CHECKED_MASK, dist));
            i += 1;
            assert(result@ =~= unmarked(self.data@).take(i as int));
        }
        assert(result@ =~= unmarked(self.data@));
        result
    }

    fn find_insert_pos(&self, dist: F32) -> (pos: usize)
        ensures
            pos == insert_pos(self@.items, dist),
            pos <= self@.items.len(),
    {
        place_in(&self.data, dist)
    }
}

/// Where a distance goes among the entries `lo..hi` of a sorted list: behind those that are no
/// farther, before those that are farther.
pub proof fn lemma_search_pos(items: Seq<Entry>, dist: F32, lo: int, hi: int)
    requires
        sorted(items),
        !dist.nan(),
        0 <= lo <= hi <= items.len(),
        forall|i: int| 0 <= i < lo ==> (#[trigger] items[i]).1.at_most(dist),
        forall|i: int| hi <= i < items.len() ==> dist.below((#[trigger] items[i]).1),
    ensures
        lo <= search_pos(items, dist, lo, hi) <= hi,
        forall|i: int|
            0 <= i < search_pos(items, dist, lo, hi) ==> (#[trigger] items[i]).1.at_most(dist),
        forall|i: int|
            search_pos(items, dist, lo, hi) <= i < items.len() ==> dist.below(
                (#[trigger] items[i]).1,
            ),
    decreases hi - lo,
{
    if lo < hi {
        let mid = lo + (hi - lo) / 2;
        if dist.below(items[mid].1) {
            assert forall|i: int| mid <= i < items.len() implies dist.below(
                (#[trigger] items[i]).1,
            ) by {
                assert(items[mid].1.at_most(items[i].1));
            }
            lemma_search_pos(items, dist, lo, mid);
        } else {
            assert forall|i: int| 0 <= i < mid + 1 implies (#[trigger] items[i]).1.at_most(dist) by {
                assert(items[i].1.at_most(items[mid].1));
            }
            lemma_search_pos(items, dist, mid + 1, hi);
        }
    }
}

/// An entry goes behind all entries that are no farther and before all that are farther.
pub proof fn lemma_insert_pos(items: Seq<Entry>, dist: F32)
    requires
        sorted(items),
        !dist.nan(),
    ensures
        0 <= insert_pos(items, dist) <= items.len(),
        forall|i: int| 0 <= i < insert_pos(items, dist) ==> (#[trigger] items[i]).1.at_most(dist),
        forall|i: int|
            insert_pos(items, dist) <= i < items.len() ==> dist.below((#[trigger] items[i]).1),
{
    lemma_search_pos(items, dist, 0, items.len() as int);
}

/// A pool stays sorted whatever it is offered.
pub proof fn law_insert_keeps_order(pool: PoolView, node: u32, dist: F32)
    requires
        pool.bounded(),
        sorted(pool.items),
        !dist.nan(),
    ensures
        pool.insert(node, dist).bounded(),
        sorted(pool.insert(node, dist).items),
{
    lemma_insert_pos(pool.items, dist);
    let pos = insert_pos(pool.items, dist);
    let grown = pool.items.insert(pos, (node, dist));
    assert(sorted(grown)) by {
        assert forall|i: int, j: int|
            #![trigger grown[i], grown[j]]
            0 <= i <= j < grown.len() implies grown[i].1.at_most(grown[j].1) by {
            if i < pos && j > pos {
                assert(pool.items[i].1.at_most(pool.items[j - 1].1));
            }
        }
    }
}

/// What is offered is never skipped: all entries before the cursor have been expanded, and the
/// entry at the cursor has not, whatever is offered.
pub proof fn law_insert_keeps_marks(pool: PoolView, node: u32, dist: F32)
    requires
        pool.bounded(),
        pool.tracked_marks(),
        sorted(pool.items),
        !dist.nan(),
        node < CHECKED_MASK,
    ensures
        pool.insert(node, dist).tracked_marks(),
{
    lemma_insert_pos(pool.items, dist);
}

/// Taking an entry keeps the pool sorted, and the marks in front of the cursor.
pub proof fn law_pop_keeps_order_and_marks(pool: PoolView)
    requires
        pool.bounded(),
        pool.has_next(),
        sorted(pool.items),
        pool.tracked_marks(),
    ensures
        pool.pop().bounded(),
        sorted(pool.pop().items),
        pool.pop().tracked_marks(),
        unmarked(pool.pop().items) == unmarked(pool.items),
{
    let at = pool.cursor as int;
    let items = pool.items.update(at, (mark(pool.items[at].0), pool.items[at].1));
    lemma_next_unmarked(items, at + 1);
    assert(unmarked(items) =~= unmarked(pool.items));
}

/// All entries that `next_unmarked` passes over are marked, and the one where it stops is not.
pub proof fn lemma_next_unmarked(items: Seq<Entry>, from: int)
    requires
        0 <= from <= items.len(),
    ensures
        from <= next_unmarked(items, from) <= items.len(),
        forall|i: int| from <= i < next_unmarked(items, from) ==> marked((#[trigger] items[i]).0),
        next_unmarked(items, from) < items.len() ==> !marked(
            items[next_unmarked(items, from)].0,
        ),
    decreases items.len() - from,
{
    if from < items.len() && marked(items[from].0) {
        lemma_next_unmarked(items, from + 1);
    }
}

/// The pool for `ef` entries after all of `offers` were offered, first to last.
pub open spec fn pool_after(ef: nat, offers: Seq<Entry>) -> PoolView
    decreases offers.len(),
{
    if offers.len() == 0 {
        PoolView::empty(ef)
    } else {
        pool_after(ef, offers.drop_last()).insert(offers.last().0, offers.last().1)
    }
}

/// All of `offers`, by ascending distance, equal distances in the order in which they came.
pub open spec fn in_order(offers: Seq<Entry>) -> Seq<Entry>
    decreases offers.len(),
{
    if offers.len() == 0 {
        Seq::empty()
    } else {
        let before = in_order(offers.drop_last());
        before.insert(insert_pos(before, offers.last().1), offers.last())
    }
}

/// `in_order` sorts, and keeps exactly what was offered.
pub proof fn lemma_in_order(offers: Seq<Entry>)
    requires
        forall|i: int| 0 <= i < offers.len() ==> !(#[trigger] offers[i]).1.nan(),
    ensures
        sorted(in_order(offers)),
        in_order(offers).len() == offers.len(),
        in_order(offers).to_multiset() == offers.to_multiset(),
    decreases offers.len(),
{
    broadcast use vstd::seq_lib::group_to_multiset_ensures;

    if offers.len() == 0 {
        assert(in_order(offers) =~= offers);
    } else {
        lemma_in_order(offers.drop_last());
        let before = in_order(offers.drop_last());
        let e = offers.last();
        lemma_insert_pos(before, e.1);
        let roomy = PoolView { items: before, cursor: 0, ef: before.len() + 1 };
        law_insert_keeps_order(roomy, e.0, e.1);
        assert(offers.drop_last().push(e) =~= offers);
        assert(in_order(offers).to_multiset() =~= before.to_multiset().insert(e));
    }
}

/// A pool holds the `ef` nearest of everything that it was offered, nearest first, and of equally
/// near ones those that came first.
pub proof fn law_pool_keeps_the_nearest(ef: nat, offers: Seq<Entry>)
    requires
        ef >= 1,
        forall|i: int| 0 <= i < offers.len() ==> !(#[trigger] offers[i]).1.nan(),
    ensures
        pool_after(ef, offers).ef == ef,
        pool_after(ef, offers).bounded(),
        pool_after(ef, offers).items == (if offers.len() <= ef {
            in_order(offers)
        } else {
            in_order(offers).take(ef as int)
        }),
    decreases offers.len(),
{
    lemma_in_order(offers);
    if offers.len() == 0 {
        assert(pool_after(ef, offers).items =~= in_order(offers));
    } else {
        let e = offers.last();
        law_pool_keeps_the_nearest(ef, offers.drop_last());
        lemma_in_order(offers.drop_last());
        let pool = pool_after(ef, offers.drop_last());
        let all = in_order(offers.drop_last());
        assert(pool.items =~= all.take(pool.items.len() as int));
        assert(pool_after(ef, offers) == pool.insert(e.0, e.1));
        assert((e.0, e.1) == e);
        lemma_insert_pos(all, e.1);
        lemma_insert_pos(pool.items, e.1);
        let p_all = insert_pos(all, e.1);
        let p = insert_pos(pool.items, e.1);
        assert(p_all < pool.items.len() ==> p == p_all) by {
            if p_all < pool.items.len() {
                assert(pool.items[p_all] == all[p_all]);
                if p < p_all {
                    assert(pool.items[p] == all[p]);
                }
            }
        }
        assert(p_all >= pool.items.len() ==> p == pool.items.len()) by {
            if p_all >= pool.items.len() && p < pool.items.len() {
                assert(pool.items[p] == all[p]);
            }
        }
        if pool.refuses(e.1) {
            assert(pool.items.last() == pool.items[ef - 1]);
            assert(all[ef - 1] == pool.items[ef - 1]);
            assert(p_all >= ef);
            assert(pool_after(ef, offers).items =~= in_order(offers).take(ef as int));
        } else if pool.items.len() == ef {
            assert(pool.items.last() == pool.items[ef - 1]);
            assert(e.1.below(pool.items[ef - 1].1));
            assert(p < ef);
            assert(pool_after(ef, offers).items =~= in_order(offers).take(ef as int));
        } else {
            assert(pool_after(ef, offers).items =~= in_order(offers));
        }
    }
}

/// The place of a distance in a list.
fn place_in(list: &Vec<(u32, F32)>, dist: F32) -> (pos: usize)
    ensures
        pos == insert_pos(list@, dist),
        pos <= list@.len(),
{
    let mut lo: usize = 0;
    let mut hi: usize = list.len();
    while lo < hi
        invariant
            lo <= hi <= list@.len(),
            search_pos(list@, dist, lo as int, hi as int) == insert_pos(list@, dist),
        decreases hi - lo,
    {
        let mid: usize = lo + (hi - lo) / 2;
        if list[mid].1.gt(dist) {
            hi = mid;
        } else {
            lo = mid + 1;
        }
    }
    lo
}

/// A list in ascending order of distance, equal distances in the order in which they stand.
pub fn sort_by_distance(list: &[(u32, F32)]) -> (sorted: Vec<(u32, F32)>)
    ensures
        sorted@ == in_order(list@),
        sorted@.len() == list@.len(),
{
    let mut out: Vec<(u32, F32)> = Vec::with_capacity(list.len());
    let mut i: usize = 0;
    assert(in_order(list@.take(0)) =~= Seq::<Entry>::empty());
    while i < list.len()
        invariant
            i <= list@.len(),
            out@.len() == i,
            out@ == in_order(list@.take(i as int)),
        decreases list@.len() - i,
    {
        let e: (u32, F32) = list[i];
        assert(list@.take(i + 1).drop_last() =~= list@.take(i as int));
        let at: usize = place_in(&out, e.1);
        out.insert(at, e);
        i += 1;
    }
    assert(list@.take(i as int) =~= list@);
    out
}

/// A list that is in order stays as it is.
pub proof fn lemma_in_order_of_sorted(list: Seq<Entry>)
    requires
        sorted(list),
    ensures
        in_order(list) == list,
    decreases list.len(),
{
    if list.len() > 0 {
        let short = list.drop_last();
        let e = list.last();
        assert(sorted(short)) by {
            assert forall|i: int| 0 <= i < short.len() implies !(#[trigger] short[i]).1.nan() by {
                assert(!list[i].1.nan());
            }
            assert forall|i: int, j: int|
                #![trigger short[i], short[j]]
                0 <= i <= j < short.len() implies short[i].1.at_most(short[j].1) by {
                assert(list[i].1.at_most(list[j].1));
            }
        }
        lemma_in_order_of_sorted(short);
        let last = list.len() - 1;
        assert(!list[last].1.nan());
        lemma_insert_pos(short, e.1);
        let p = insert_pos(short, e.1);
        if p < short.len() {
            assert(list[p].1.at_most(list[last].1));
            assert(e.1.below(short[p].1));
        }
        assert(in_order(list) =~= list);
    } else {
        assert(in_order(list) =~= list);
    }
}

} // verus!
