//! The bytes of a graph.
//!
//! Little-endian: the node count, the block size and the number of slots (eight bytes each), the
//! slots (four bytes each), the number of nodes with an overflow list (eight bytes), and for each
//! of those its id (four bytes), the list's length (eight bytes) and the list (four bytes each).
use vstd::prelude::*;
use crate::memory::codec;
use crate::memory::codec::{put_u32, put_u64, put_words, read_u32, read_u64, read_words};
use crate::memory::graph;
use crate::memory::graph::{CsrView, HybridBlockedCsr};
use crate::memory::serialize::{IoFailure, Serializable, SerializeError};
use crate::SENTINEL;

verus! {

/// A node and its overflow list.
pub type OverflowEntry = (u32, Seq<u32>);

/// What the bytes of a graph spell.
pub struct CsrParts {
    /// The node count.
    pub n: nat,
    /// The block size.
    pub r_max: nat,
    /// The slots.
    pub slots: Seq<u32>,
    /// The nodes with an overflow list.
    pub entries: Seq<OverflowEntry>,
}

impl CsrParts {
    /// The counts are those of a graph.
    pub open spec fn fits(self) -> bool {
        &&& self.n <= SENTINEL
        &&& self.n <= usize::MAX
        &&& self.r_max <= u16::MAX
        &&& self.slots.len() == self.n * self.r_max
    }

    /// The graph.
    pub open spec fn graph(self) -> CsrView {
        CsrView {
            r_max: self.r_max,
            lists: Seq::new(
                self.n,
                |i: int| graph::before_sentinel(graph::block_of(self.slots, self.r_max as int, i)),
            ),
            overflow: placed(self.entries, self.n),
        }
    }
}

/// The overflow lists of `n` nodes: a later entry of a node replaces an earlier one, and an entry
/// of a node that is none of the `n` is dropped.
pub open spec fn placed(entries: Seq<OverflowEntry>, n: nat) -> Seq<Seq<u32>>
    decreases entries.len(),
{
    if entries.len() == 0 {
        Seq::new(n, |i: int| Seq::<u32>::empty())
    } else {
        let before = placed(entries.drop_last(), n);
        if entries.last().0 < n {
            before.update(entries.last().0 as int, entries.last().1)
        } else {
            before
        }
    }
}

/// The nodes with an overflow list, by ascending id.
pub open spec fn nonempty(overflow: Seq<Seq<u32>>) -> Seq<OverflowEntry>
    decreases overflow.len(),
{
    if overflow.len() == 0 {
        Seq::empty()
    } else if overflow.last().len() == 0 {
        nonempty(overflow.drop_last())
    } else {
        nonempty(overflow.drop_last()).push(((overflow.len() - 1) as u32, overflow.last()))
    }
}

/// The bytes of one overflow entry.
pub open spec fn entry_bytes(e: OverflowEntry) -> Seq<u8> {
    codec::le32(e.0) + codec::le64(e.1.len() as u64) + codec::le_words(e.1)
}

/// The bytes of overflow entries, one after the other.
pub open spec fn entries_bytes(entries: Seq<OverflowEntry>) -> Seq<u8>
    decreases entries.len(),
{
    if entries.len() == 0 {
        Seq::empty()
    } else {
        entries_bytes(entries.drop_last()) + entry_bytes(entries.last())
    }
}

/// The bytes of a graph with the given slots and overflow lists.
pub open spec fn csr_bytes(n: nat, r_max: nat, slots: Seq<u32>, overflow: Seq<Seq<u32>>) -> Seq<
    u8,
> {
    codec::le64(n as u64) + codec::le64(r_max as u64) + codec::le64(slots.len() as u64) + codec::le_words(slots) + codec::le64(
        nonempty(overflow).len() as u64,
    ) + entries_bytes(nonempty(overflow))
}

/// The `count` overflow entries whose bytes start at `off`.
pub open spec fn entries_at(bytes: Seq<u8>, off: int, count: nat) -> Result<
    Seq<OverflowEntry>,
    IoFailure,
>
    decreases count,
{
    if count == 0 {
        Ok(Seq::empty())
    } else if off + 12 > bytes.len() {
        Err(IoFailure::OverflowHeaderTruncated)
    } else if off + 12 + 4 * codec::get64(bytes, off + 4) > bytes.len() {
        Err(IoFailure::OverflowDataTruncated)
    } else {
        let len = codec::get64(bytes, off + 4);
        match entries_at(bytes, off + 12 + 4 * len, (count - 1) as nat) {
            Err(e) => Err(e),
            Ok(rest) => Ok(
                seq![(codec::get32(bytes, off) as u32, codec::get_words(bytes, off + 12, len as nat))] + rest,
            ),
        }
    }
}

/// What the bytes of a graph spell.
pub open spec fn csr_parse(bytes: Seq<u8>) -> Result<CsrParts, IoFailure> {
    if bytes.len() < 24 {
        Err(IoFailure::CsrTooShort)
    } else if bytes.len() < 24 + 4 * codec::get64(bytes, 16) + 8 {
        Err(IoFailure::MainBlockTruncated)
    } else {
        let mb_len = codec::get64(bytes, 16);
        let off = 24 + 4 * mb_len;
        match entries_at(bytes, off + 8, codec::get64(bytes, off) as nat) {
            Err(e) => Err(e),
            Ok(entries) => Ok(
                CsrParts {
                    n: codec::get64(bytes, 0) as nat,
                    r_max: codec::get64(bytes, 8) as nat,
                    slots: codec::get_words(bytes, 24, mb_len as nat),
                    entries,
                },
            ),
        }
    }
}

impl Serializable for HybridBlockedCsr {
    open spec fn valid(&self) -> bool {
        self.wf()
    }

    open spec fn encoding(&self) -> Seq<u8> {
        csr_bytes(self@.lists.len(), self@.r_max, self.slots(), self@.overflow)
    }

    open spec fn loadable(bytes: Seq<u8>) -> bool {
        csr_parse(bytes) matches Ok(parts) ==> parts.fits()
    }

    open spec fn decodes(bytes: Seq<u8>, result: Result<Self, SerializeError>) -> bool {
        match csr_parse(bytes) {
            Err(e) => result == Err::<Self, SerializeError>(SerializeError::Io(e)),
            Ok(parts) => result matches Ok(g) && g.wf() && g@ == parts.graph() && g.slots()
                == parts.slots,
        }
    }

    fn serialize(&self) -> (bytes: Vec<u8>) {
        proof {
            self.lemma_shape();
        }
        let mut buf: Vec<u8> = Vec::new();
        put_u64(&mut buf, self.len() as u64);
        put_u64(&mut buf, self.r_max() as u64);
        put_u64(&mut buf, self.main_block().len() as u64);
        put_words(&mut buf, self.main_block());
        let overflow = self.overflow();
        let ghost lists = self@.overflow;
        let mut count: usize = 0;
        let mut i: usize = 0;
        while i < overflow.len()
            invariant
                i <= overflow@.len(),
                lists.len() == overflow@.len(),
                lists.len() <= SENTINEL,
                forall|k: int| 0 <= k < overflow@.len() ==> (#[trigger] overflow@[k])@ == lists[k],
                count == nonempty(lists.take(i as int)).len(),
                count <= i,
            decreases overflow@.len() - i,
        {
            assert(lists.take(i + 1).drop_last() =~= lists.take(i as int));
            if overflow[i].len() > 0 {
                count += 1;
            }
            i += 1;
        }
        assert(lists.take(i as int) =~= lists);
        put_u64(&mut buf, count as u64);
        let ghost head = buf@;
        let mut i: usize = 0;
        assert(buf@ =~= head + entries_bytes(nonempty(lists.take(0))));
        while i < overflow.len()
            invariant
                i <= overflow@.len(),
                lists.len() == overflow@.len(),
                lists.len() <= SENTINEL,
                forall|k: int| 0 <= k < overflow@.len() ==> (#[trigger] overflow@[k])@ == lists[k],
                buf@ == head + entries_bytes(nonempty(lists.take(i as int))),
            decreases overflow@.len() - i,
        {
            assert(lists.take(i + 1).drop_last() =~= lists.take(i as int));
            if overflow[i].len() > 0 {
                put_u32(&mut buf, i as u32);
                put_u64(&mut buf, overflow[i].len() as u64);
                put_words(&mut buf, overflow[i].as_slice());
                proof {
                    let before = nonempty(lists.take(i as int));
                    let e = (i as u32, lists[i as int]);
                    assert(nonempty(lists.take(i + 1)) =~= before.push(e));
                    assert(before.push(e).drop_last() =~= before);
                    assert(buf@ =~= head + (entries_bytes(before) + entry_bytes(e)));
                }
            }
            i += 1;
        }
        assert(lists.take(i as int) =~= lists);
        buf
    }

    fn deserialize(bytes: &[u8]) -> (result: Result<Self, SerializeError>) {
        assert(bytes@.len() == bytes.len());
        if bytes.len() < 24 {
            return Err(SerializeError::Io(IoFailure::CsrTooShort));
        }
        let n: u64 = read_u64(bytes, 0);
        let r_max: u64 = read_u64(bytes, 8);
        let mb_len: u64 = read_u64(bytes, 16);
        if (bytes.len() as u128) < 24 + 4 * mb_len as u128 + 8 {
            return Err(SerializeError::Io(IoFailure::MainBlockTruncated));
        }
        let slots = read_words(bytes, 24, mb_len as usize);
        let off: usize = 24 + 4 * mb_len as usize;
        let count: u64 = read_u64(bytes, off);
        let entries = match read_entries(bytes, off + 8, count) {
            Err(e) => {
                return Err(SerializeError::Io(e));
            },
            Ok(entries) => entries,
        };
        let overflow = place(&entries, n as usize, Ghost(bytes@.len() / 4));
        let g = HybridBlockedCsr::from_parts(n as usize, r_max as usize, slots, overflow);
        proof {
            let parts = csr_parse(bytes@).unwrap();
            assert(Seq::new(n as nat, |i: int| overflow@[i]@) =~= parts.graph().overflow);
            assert(g@ =~= parts.graph());
        }
        Ok(g)
    }
}

/// The entries as a reader holds them.
pub open spec fn entries_view(entries: Seq<(u32, Vec<u32>)>) -> Seq<OverflowEntry> {
    Seq::new(entries.len(), |i: int| (entries[i].0, entries[i].1@))
}

fn read_entries(bytes: &[u8], start: usize, count: u64) -> (r: Result<
    Vec<(u32, Vec<u32>)>,
    IoFailure,
>)
    requires
        start <= bytes@.len(),
    ensures
        match r {
            Err(e) => entries_at(bytes@, start as int, count as nat)
                == Err::<Seq<OverflowEntry>, IoFailure>(e),
            Ok(entries) => entries_at(bytes@, start as int, count as nat)
                == Ok::<Seq<OverflowEntry>, IoFailure>(entries_view(entries@)) && forall|i: int|
                0 <= i < entries@.len() ==> (#[trigger] entries@[i]).1@.len() * 4 <= bytes@.len(),
        },
{
    assert(bytes@.len() == bytes.len());
    let mut entries: Vec<(u32, Vec<u32>)> = Vec::new();
    let mut off: usize = start;
    let mut left: u64 = count;
    let ghost whole = entries_at(bytes@, start as int, count as nat);
    proof {
        if let Ok(rest) = whole {
            assert(entries_view(entries@) + rest =~= rest);
        }
    }
    while left > 0
        invariant
            bytes@.len() == bytes.len(),
            off <= bytes@.len(),
            match entries_at(bytes@, off as int, left as nat) {
                Err(e) => whole == Err::<Seq<OverflowEntry>, IoFailure>(e),
                Ok(rest) => whole == Ok::<Seq<OverflowEntry>, IoFailure>(
                    entries_view(entries@) + rest,
                ),
            },
            forall|i: int|
                0 <= i < entries@.len() ==> (#[trigger] entries@[i]).1@.len() * 4 <= bytes@.len(),
            whole == entries_at(bytes@, start as int, count as nat),
        decreases left,
    {
        if bytes.len() - off < 12 {
            return Err(IoFailure::OverflowHeaderTruncated);
        }
        let id: u32 = read_u32(bytes, off);
        let len: u64 = read_u64(bytes, off + 4);
        if off as u128 + 12 + 4 * len as u128 > bytes.len() as u128 {
            return Err(IoFailure::OverflowDataTruncated);
        }
        let data = read_words(bytes, off + 12, len as usize);
        let ghost done = entries_view(entries@);
        let ghost e: OverflowEntry = (id, data@);
        entries.push((id, data));
        off = off + 12 + 4 * len as usize;
        left -= 1;
        proof {
            assert(entries_view(entries@) =~= done.push(e));
            if let Ok(rest) = entries_at(bytes@, off as int, left as nat) {
                assert(done + (seq![e] + rest) =~= done.push(e) + rest);
            }
        }
    }
    assert(entries_view(entries@) + Seq::<OverflowEntry>::empty() =~= entries_view(entries@));
    Ok(entries)
}

fn place(entries: &Vec<(u32, Vec<u32>)>, n: usize, Ghost(bound): Ghost<nat>) -> (overflow: Vec<
    Vec<u32>,
>)
    requires
        forall|i: int| 0 <= i < entries@.len() ==> (#[trigger] entries@[i]).1@.len() <= bound,
    ensures
        overflow@.len() == n,
        Seq::new(n as nat, |i: int| overflow@[i]@) == placed(entries_view(entries@), n as nat),
        forall|i: int| 0 <= i < n ==> (#[trigger] overflow@[i])@.len() <= bound,
{
    let mut overflow: Vec<Vec<u32>> = vec![Vec::new();n];
    let mut i: usize = 0;
    let ghost es = entries_view(entries@);
    assert(forall|k: int| 0 <= k < n ==> overflow@[k]@ =~= Seq::<u32>::empty());
    assert(Seq::new(n as nat, |k: int| overflow@[k]@) =~= placed(es.take(0), n as nat));
    while i < entries.len()
        invariant
            i <= entries@.len(),
            es == entries_view(entries@),
            overflow@.len() == n,
            Seq::new(n as nat, |k: int| overflow@[k]@) == placed(es.take(i as int), n as nat),
            forall|k: int| 0 <= k < entries@.len() ==> (#[trigger] entries@[k]).1@.len() <= bound,
            forall|k: int| 0 <= k < n ==> (#[trigger] overflow@[k])@.len() <= bound,
        decreases entries@.len() - i,
    {
        let ghost before = Seq::new(n as nat, |k: int| overflow@[k]@);
        assert(es.take(i + 1).drop_last() =~= es.take(i as int));
        let id: u32 = entries[i].0;
        if (id as usize) < n {
            let data = vstd::slice::slice_to_vec(entries[i].1.as_slice());
            overflow[id as usize] = data;
            assert(Seq::new(n as nat, |k: int| overflow@[k]@) =~= before.update(
                id as int,
                entries@[i as int].1@,
            ));
        }
        i += 1;
    }
    assert(es.take(i as int) =~= es);
    overflow
}

/// Whether the bytes, where they can be read at all, describe a graph.
pub fn csr_loadable(bytes: &[u8]) -> (b: bool)
    ensures
        b == HybridBlockedCsr::loadable(bytes@),
{
    assert(bytes@.len() == bytes.len());
    if bytes.len() < 24 {
        return true;
    }
    let n: u64 = read_u64(bytes, 0);
    let r_max: u64 = read_u64(bytes, 8);
    let mb_len: u64 = read_u64(bytes, 16);
    if (bytes.len() as u128) < 24 + 4 * mb_len as u128 + 8 {
        return true;
    }
    let off: usize = 24 + 4 * mb_len as usize;
    let count: u64 = read_u64(bytes, off);
    match read_entries(bytes, off + 8, count) {
        Err(_) => true,
        Ok(_) => {
            assert(n <= u64::MAX && r_max <= u16::MAX ==> n * r_max <= u64::MAX * u16::MAX)
                by (nonlinear_arith);
            n <= SENTINEL as u64 && n <= usize::MAX as u64 && r_max <= u16::MAX as u64 && n as u128
                * r_max as u128 == mb_len as u128
        },
    }
}

/// The entries of a list all fit the format.
spec fn entries_fit(entries: Seq<OverflowEntry>) -> bool {
    forall|i: int| 0 <= i < entries.len() ==> (#[trigger] entries[i]).1.len() <= u64::MAX
}

/// The bytes of entries start with those of the first.
proof fn lemma_entries_bytes_head(entries: Seq<OverflowEntry>)
    requires
        entries.len() > 0,
    ensures
        entries_bytes(entries) == entry_bytes(entries[0]) + entries_bytes(entries.skip(1)),
    decreases entries.len(),
{
    if entries.len() == 1 {
        assert(entries.drop_last() =~= Seq::<OverflowEntry>::empty());
        assert(entries.skip(1) =~= Seq::<OverflowEntry>::empty());
        assert(entries_bytes(entries) =~= entry_bytes(entries[0]) + entries_bytes(entries.skip(1)));
    } else {
        lemma_entries_bytes_head(entries.drop_last());
        assert(entries.drop_last().skip(1) =~= entries.skip(1).drop_last());
        assert(entries_bytes(entries) =~= entry_bytes(entries[0]) + entries_bytes(entries.skip(1)));
    }
}

/// Where four parts stand in a sequence that ends with them.
pub proof fn lemma_tail_parts(
    s: Seq<u8>,
    off: int,
    a: Seq<u8>,
    b: Seq<u8>,
    c: Seq<u8>,
    d: Seq<u8>,
)
    requires
        0 <= off <= s.len(),
        s.skip(off) == (a + b + c) + d,
    ensures
        s.len() == off + a.len() + b.len() + c.len() + d.len(),
        s.subrange(off, off + a.len()) == a,
        s.subrange(off + a.len(), off + a.len() + b.len()) == b,
        s.subrange(off + a.len() + b.len(), off + a.len() + b.len() + c.len()) == c,
        s.skip(off + a.len() + b.len() + c.len()) == d,
{
    let t = s.skip(off);
    assert(s.len() == off + t.len());
    assert(forall|i: int| 0 <= i < t.len() ==> t[i] == s[off + i]);
    let ab = a.len() + b.len();
    assert(s.subrange(off, off + a.len()) =~= a) by {
        assert(forall|i: int| 0 <= i < a.len() ==> s[off + i] == #[trigger] t[i] && t[i] == a[i]);
    }
    assert(s.subrange(off + a.len(), off + ab) =~= b) by {
        assert(forall|i: int| 0 <= i < b.len() ==> #[trigger] b[i] == t[a.len() + i]);
    }
    assert(s.subrange(off + ab, off + ab + c.len()) =~= c) by {
        assert(forall|i: int| 0 <= i < c.len() ==> #[trigger] c[i] == t[ab + i]);
    }
    assert(s.skip(off + ab + c.len()) =~= d) by {
        assert(forall|i: int| 0 <= i < d.len() ==> #[trigger] d[i] == t[ab + c.len() + i]);
    }
}

/// Reading the bytes of entries gives the entries back.
proof fn lemma_entries_round_trip(bytes: Seq<u8>, off: int, entries: Seq<OverflowEntry>)
    requires
        0 <= off <= bytes.len(),
        bytes.skip(off) == entries_bytes(entries),
        entries_fit(entries),
    ensures
        entries_at(bytes, off, entries.len()) == Ok::<Seq<OverflowEntry>, IoFailure>(entries),
    decreases entries.len(),
{
    if entries.len() > 0 {
        let e = entries[0];
        let rest = entries.skip(1);
        lemma_entries_bytes_head(entries);
        codec::lemma_le_words_len(e.1);
        codec::lemma_le64(e.1.len() as u64);
        codec::lemma_le32(e.0);
        lemma_tail_parts(
            bytes,
            off,
            codec::le32(e.0),
            codec::le64(e.1.len() as u64),
            codec::le_words(e.1),
            entries_bytes(rest),
        );
        codec::lemma_get32_at(bytes, off, e.0);
        codec::lemma_get64_at(bytes, off + 4, e.1.len() as u64);
        codec::lemma_get_words_at(bytes, off + 12, e.1);
        lemma_entries_round_trip(bytes, off + 12 + 4 * e.1.len(), rest);
        assert(seq![e] + rest =~= entries);
    } else {
        assert(entries =~= Seq::<OverflowEntry>::empty());
    }
}

/// To place the overflow lists of some nodes' prefix gives these lists.
pub proof fn lemma_placed_nonempty(overflow: Seq<Seq<u32>>, k: int)
    requires
        0 <= k <= overflow.len(),
        overflow.len() <= SENTINEL,
    ensures
        nonempty(overflow.take(k)).len() <= k,
        placed(nonempty(overflow.take(k)), overflow.len()) == Seq::new(
            overflow.len(),
            |i: int|
                if i < k {
                    overflow[i]
                } else {
                    Seq::<u32>::empty()
                },
        ),
    decreases k,
{
    let n = overflow.len();
    let want = Seq::new(
        n,
        |i: int|
            if i < k {
                overflow[i]
            } else {
                Seq::<u32>::empty()
            },
    );
    if k == 0 {
        assert(placed(nonempty(overflow.take(k)), n) =~= want);
    } else {
        lemma_placed_nonempty(overflow, k - 1);
        assert(overflow.take(k).drop_last() =~= overflow.take(k - 1));
        let before = nonempty(overflow.take(k - 1));
        if overflow[k - 1].len() == 0 {
            assert(overflow[k - 1] =~= Seq::<u32>::empty());
            assert(placed(nonempty(overflow.take(k)), n) =~= want);
        } else {
            let e: OverflowEntry = ((k - 1) as u32, overflow[k - 1]);
            assert(nonempty(overflow.take(k)) =~= before.push(e));
            assert(before.push(e).drop_last() =~= before);
            assert(placed(before.push(e), n) =~= want);
        }
    }
}

/// The lists of entries are overflow lists.
proof fn lemma_nonempty_fit(overflow: Seq<Seq<u32>>)
    requires
        forall|i: int| 0 <= i < overflow.len() ==> (#[trigger] overflow[i]).len() <= u64::MAX,
    ensures
        entries_fit(nonempty(overflow)),
    decreases overflow.len(),
{
    if overflow.len() > 0 {
        lemma_nonempty_fit(overflow.drop_last());
    }
}

/// Reading the bytes of a graph gives its counts, its slots and its overflow entries back.
proof fn lemma_csr_parse(n: nat, r_max: nat, slots: Seq<u32>, overflow: Seq<Seq<u32>>)
    requires
        n == overflow.len(),
        n <= SENTINEL,
        r_max <= u16::MAX,
        slots.len() <= u64::MAX,
        forall|i: int| 0 <= i < overflow.len() ==> (#[trigger] overflow[i]).len() <= u64::MAX,
    ensures
        csr_parse(csr_bytes(n, r_max, slots, overflow)) == Ok::<CsrParts, IoFailure>(
            CsrParts { n, r_max, slots, entries: nonempty(overflow) },
        ),
{
    let bytes = csr_bytes(n, r_max, slots, overflow);
    let entries = nonempty(overflow);
    let off = 24 + 4 * slots.len() as int;
    lemma_placed_nonempty(overflow, n as int);
    assert(overflow.take(n as int) =~= overflow);
    lemma_nonempty_fit(overflow);
    let a = codec::le64(n as u64);
    let b = codec::le64(r_max as u64);
    let c = codec::le64(slots.len() as u64);
    let d = codec::le_words(slots);
    let e = codec::le64(entries.len() as u64);
    let f = entries_bytes(entries);
    assert(a.len() == 8 && b.len() == 8 && c.len() == 8 && e.len() == 8 && d.len() == 4
        * slots.len()) by {
        codec::lemma_le64(n as u64);
        codec::lemma_le64(r_max as u64);
        codec::lemma_le64(slots.len() as u64);
        codec::lemma_le64(entries.len() as u64);
        codec::lemma_le_words_len(slots);
    }
    lemma_regroup(a, b, c, d, e, f);
    assert(bytes.skip(0) =~= bytes);
    lemma_tail_parts(bytes, 0, a, b, c, d + e + f);
    assert((d + e + f) =~= (d + e + f) + Seq::<u8>::empty());
    lemma_tail_parts(bytes, 24, d, e, f, Seq::empty());
    assert(bytes.skip(off + 8) =~= f);
    codec::lemma_get64_at(bytes, 0, n as u64);
    codec::lemma_get64_at(bytes, 8, r_max as u64);
    codec::lemma_get64_at(bytes, 16, slots.len() as u64);
    codec::lemma_get_words_at(bytes, 24, slots);
    codec::lemma_get64_at(bytes, off, entries.len() as u64);
    lemma_entries_round_trip(bytes, off + 8, entries);
}

proof fn lemma_regroup(
    a: Seq<u8>,
    b: Seq<u8>,
    c: Seq<u8>,
    d: Seq<u8>,
    e: Seq<u8>,
    f: Seq<u8>,
)
    ensures
        a + b + c + d + e + f == (a + b + c) + (d + e + f),
{
    assert(a + b + c + d + e + f =~= (a + b + c) + (d + e + f));
}

/// Where free slots hold the sentinel and neighbours do not, the neighbours can be read off the
/// slots.
pub proof fn lemma_marked_slots_are_read_off(g: HybridBlockedCsr)
    requires
        g.wf(),
        g.free_slots_marked(),
        forall|i: int, k: int|
            0 <= i < g@.lists.len() && 0 <= k < g@.lists[i].len() ==> #[trigger] g@.lists[i][k]
                != SENTINEL,
    ensures
        graph::read_off_slots(g@, g.slots()),
{
    assert forall|i: int| 0 <= i < g@.lists.len() implies #[trigger] g@.lists[i]
        == graph::before_sentinel(graph::block_of(g.slots(), g@.r_max as int, i)) by {
        lemma_row_read_back(g, i);
    }
}

/// The neighbours in a node's block are those before the first sentinel.
proof fn lemma_row_read_back(g: HybridBlockedCsr, i: int)
    requires
        g.wf(),
        g.free_slots_marked(),
        0 <= i < g@.lists.len(),
        forall|k: int| 0 <= k < g@.lists[i].len() ==> #[trigger] g@.lists[i][k] != SENTINEL,
    ensures
        graph::before_sentinel(graph::block_of(g.slots(), g@.r_max as int, i)) == g@.lists[i],
{
    g.lemma_shape();
    g.lemma_slots_fit();
    let n = g@.lists.len();
    graph::lemma_block_bounds(n as int, g@.r_max as int, i);
    let row = graph::block_of(g.slots(), g@.r_max as int, i);
    let len = g@.lists[i].len() as int;
    assert(row.take(len) =~= g@.lists[i]);
    assert forall|j: int| 0 <= j < len implies row[j] != SENTINEL by {
        assert(row[j] == g@.lists[i][j]);
    }
    if len < row.len() {
        assert(row[len] == g.slots()[i * g@.r_max + len]);
    }
    graph::lemma_before_sentinel(row, len);
}

/// Saving a graph and loading it again gives the same graph: the same neighbours of every node, in
/// the same order, in the block and in the overflow list. The graph is any whose neighbours can be
/// read off its slots, as those that the operations make and those that are put together from slots
/// can be.
pub proof fn law_csr_round_trip(g: HybridBlockedCsr)
    requires
        g.wf(),
        graph::read_off_slots(g@, g.slots()),
    ensures
        HybridBlockedCsr::loadable(g.encoding()),
        forall|result: Result<HybridBlockedCsr, SerializeError>| #[trigger]
            HybridBlockedCsr::decodes(g.encoding(), result) ==> (result matches Ok(back) && back@
                == g@ && back.slots() == g.slots()),
        csr_parse(g.encoding()) matches Ok(parts) && parts.graph() == g@ && parts.slots
            == g.slots(),
{
    let n = g@.lists.len();
    let slots = g.slots();
    let overflow = g@.overflow;
    lemma_encoding_parses(g);
    lemma_placed_nonempty(overflow, n as int);
    assert(overflow.take(n as int) =~= overflow);
    let parts = CsrParts { n, r_max: g@.r_max, slots, entries: nonempty(overflow) };
    assert(parts.graph().overflow =~= overflow);
    assert(parts.graph() =~= g@);
}

/// The bytes of a graph spell its counts, its slots and its overflow entries.
proof fn lemma_encoding_parses(g: HybridBlockedCsr)
    requires
        g.wf(),
    ensures
        g@.lists.len() == g@.overflow.len(),
        g@.lists.len() <= SENTINEL,
        g@.lists.len() <= usize::MAX,
        g@.r_max <= u16::MAX,
        g.slots().len() == g@.lists.len() * g@.r_max,
        g.slots().len() <= u64::MAX,
        forall|i: int|
            0 <= i < g@.overflow.len() ==> (#[trigger] g@.overflow[i]).len() <= u64::MAX,
        csr_parse(g.encoding()) == Ok::<CsrParts, IoFailure>(
            CsrParts {
                n: g@.lists.len(),
                r_max: g@.r_max,
                slots: g.slots(),
                entries: nonempty(g@.overflow),
            },
        ),
{
    g.lemma_shape();
    g.lemma_slots_fit();
    let overflow = g@.overflow;
    assert forall|i: int| 0 <= i < overflow.len() implies (#[trigger] overflow[i]).len()
        <= u64::MAX by {
        assert(g@.lists[i].len() + overflow[i].len() <= usize::MAX);
    }
    lemma_csr_parse(g@.lists.len(), g@.r_max, g.slots(), overflow);
}

/// What a first part of some bytes spells where the bytes spell it.
proof fn lemma_first_part(bytes: Seq<u8>, m: int, off: int)
    requires
        0 <= off,
        off + 8 <= m <= bytes.len(),
    ensures
        codec::get64(bytes.take(m), off) == codec::get64(bytes, off),
{
    let part = bytes.take(m);
    assert(forall|i: int| 0 <= i < m ==> #[trigger] part[i] == bytes[i]);
}

/// A first part of the bytes of entries that lacks some of them spells fewer entries.
proof fn lemma_cut_entries(bytes: Seq<u8>, m: int, off: int, entries: Seq<OverflowEntry>)
    requires
        0 <= off <= m < bytes.len(),
        bytes.skip(off) == entries_bytes(entries),
        entries_fit(entries),
    ensures
        entries_at(bytes.take(m), off, entries.len()) is Err,
    decreases entries.len(),
{
    let part = bytes.take(m);
    if entries.len() == 0 {
        assert(entries =~= Seq::<OverflowEntry>::empty());
        assert(bytes.skip(off).len() == 0);
    } else {
        let e = entries[0];
        let rest = entries.skip(1);
        lemma_entries_bytes_head(entries);
        codec::lemma_le_words_len(e.1);
        codec::lemma_le64(e.1.len() as u64);
        codec::lemma_le32(e.0);
        lemma_tail_parts(
            bytes,
            off,
            codec::le32(e.0),
            codec::le64(e.1.len() as u64),
            codec::le_words(e.1),
            entries_bytes(rest),
        );
        codec::lemma_get64_at(bytes, off + 4, e.1.len() as u64);
        if off + 12 <= m {
            lemma_first_part(bytes, m, off + 4);
            let next = off + 12 + 4 * e.1.len();
            if next <= m {
                lemma_cut_entries(bytes, m, next, rest);
            }
        }
    }
}

/// The bytes of a graph without their end are refused as truncated, wherever they are cut.
pub proof fn law_csr_prefixes_are_refused(g: HybridBlockedCsr, m: int)
    requires
        g.wf(),
        0 <= m < g.encoding().len(),
    ensures
        HybridBlockedCsr::loadable(g.encoding().take(m)),
        forall|result: Result<HybridBlockedCsr, SerializeError>| #[trigger]
            HybridBlockedCsr::decodes(g.encoding().take(m), result) ==> (result matches Err(e) && e
                is Io),
{
    let bytes = g.encoding();
    let part = bytes.take(m);
    let n = g@.lists.len();
    let slots = g.slots();
    let entries = nonempty(g@.overflow);
    lemma_encoding_parses(g);
    lemma_nonempty_fit(g@.overflow);
    let off = 24 + 4 * slots.len() as int;
    let a = codec::le64(n as u64);
    let b = codec::le64(g@.r_max as u64);
    let c = codec::le64(slots.len() as u64);
    let d = codec::le_words(slots);
    let e = codec::le64(entries.len() as u64);
    let f = entries_bytes(entries);
    lemma_placed_nonempty(g@.overflow, n as int);
    assert(g@.overflow.take(n as int) =~= g@.overflow);
    assert(a.len() == 8 && b.len() == 8 && c.len() == 8 && e.len() == 8 && d.len() == 4
        * slots.len()) by {
        codec::lemma_le64(n as u64);
        codec::lemma_le64(g@.r_max as u64);
        codec::lemma_le64(slots.len() as u64);
        codec::lemma_le64(entries.len() as u64);
        codec::lemma_le_words_len(slots);
    }
    lemma_regroup(a, b, c, d, e, f);
    assert(bytes.skip(0) =~= bytes);
    lemma_tail_parts(bytes, 0, a, b, c, d + e + f);
    assert((d + e + f) =~= (d + e + f) + Seq::<u8>::empty());
    lemma_tail_parts(bytes, 24, d, e, f, Seq::empty());
    assert(bytes.skip(off + 8) =~= f);
    codec::lemma_get64_at(bytes, 16, slots.len() as u64);
    codec::lemma_get64_at(bytes, off, entries.len() as u64);
    if m >= 24 {
        lemma_first_part(bytes, m, 16);
        if m >= off + 8 {
            lemma_first_part(bytes, m, off);
            lemma_cut_entries(bytes, m, off + 8, entries);
        }
    }
    assert(csr_parse(part) is Err);
}

} // verus!
