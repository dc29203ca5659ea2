//! The bytes of the layers above a graph.
//!
//! Little-endian: the entry point (four bytes), the number of the top layer (one byte), three zero
//! bytes, the neighbours per layer and the number of nodes (four bytes each), the levels (one byte
//! each), the number of nodes with neighbours (four bytes), for each of those its id, the number of
//! its neighbours and these (four bytes each), and at last the number of places to start from and
//! these (four bytes each). Older files end before that last list: there the entry point is the
//! only place to start from.
use vstd::prelude::*;
use vstd::slice::slice_to_vec;
use crate::graph::layered;
use crate::graph::layered::{LayeredNavigation, LayeredView};
use crate::memory::codec;
use crate::memory::codec::{put_bytes, put_u32, put_words, read_u32, read_words};
use crate::memory::csr_format;
use crate::memory::csr_format::OverflowEntry;

verus! {

/// The bytes of one node's neighbours.
pub open spec fn list_bytes(e: OverflowEntry) -> Seq<u8> {
    codec::le32(e.0) + codec::le32(e.1.len() as u32) + codec::le_words(e.1)
}

/// The bytes of some nodes' neighbours.
pub open spec fn lists_bytes(entries: Seq<OverflowEntry>) -> Seq<u8>
    decreases entries.len(),
{
    if entries.len() == 0 {
        Seq::empty()
    } else {
        lists_bytes(entries.drop_last()) + list_bytes(entries.last())
    }
}

/// The bytes before the places to start from.
pub open spec fn layers_head(v: LayeredView) -> Seq<u8> {
    codec::le32(v.entry_point) + seq![v.max_level, 0u8, 0u8, 0u8] + codec::le32(v.k as u32)
        + codec::le32(v.levels.len() as u32) + v.levels + codec::le32(
        csr_format::nonempty(v.lists).len() as u32,
    ) + lists_bytes(csr_format::nonempty(v.lists))
}

/// The bytes of the layers.
pub open spec fn layers_bytes(v: LayeredView) -> Seq<u8> {
    layers_head(v) + codec::le32(v.candidates.len() as u32) + codec::le_words(v.candidates)
}

/// The `count` nodes with neighbours whose bytes start at `off`, and where they end.
pub open spec fn lists_at(buf: Seq<u8>, off: int, count: nat, n: nat) -> Option<
    (Seq<OverflowEntry>, int),
>
    decreases count,
{
    if count == 0 {
        Some((Seq::empty(), off))
    } else if off + 8 > buf.len() {
        None
    } else {
        let id = codec::get32(buf, off);
        let len = codec::get32(buf, off + 4);
        if off + 8 + 4 * len > buf.len() || id >= n {
            None
        } else {
            match lists_at(buf, off + 8 + 4 * len, (count - 1) as nat, n) {
                None => None,
                Some((rest, end)) => Some(
                    (
                        seq![(id as u32, codec::get_words(buf, off + 8, len as nat))] + rest,
                        end,
                    ),
                ),
            }
        }
    }
}

/// The places to start from, whose bytes start at `off`, or the entry point alone where the bytes
/// end before.
pub open spec fn candidates_at(buf: Seq<u8>, off: int, entry: u32) -> Seq<u32> {
    if off + 4 <= buf.len() && off + 4 + 4 * codec::get32(buf, off) <= buf.len() {
        codec::get_words(buf, off + 4, codec::get32(buf, off) as nat)
    } else {
        seq![entry]
    }
}

/// What the bytes of layers spell.
pub open spec fn layers_parse(buf: Seq<u8>) -> Option<LayeredView> {
    if buf.len() < 16 {
        None
    } else {
        let entry = codec::get32(buf, 0) as u32;
        let n = codec::get32(buf, 12);
        let off = 16 + n;
        if off + 4 > buf.len() {
            None
        } else {
            match lists_at(buf, off + 4, codec::get32(buf, off) as nat, n as nat) {
                None => None,
                Some((entries, end)) => Some(
                    LayeredView {
                        entry_point: entry,
                        max_level: buf[4],
                        k: codec::get32(buf, 8) as nat,
                        levels: buf.subrange(16, off),
                        lists: csr_format::placed(entries, n as nat),
                        candidates: candidates_at(buf, end, entry),
                    },
                ),
            }
        }
    }
}

/// The numbers fit the format.
pub open spec fn layers_fit(v: LayeredView) -> bool {
    &&& v.k <= u32::MAX
    &&& v.levels.len() <= u32::MAX
    &&& v.lists.len() <= u32::MAX
    &&& v.candidates.len() <= u32::MAX
    &&& forall|i: int| 0 <= i < v.lists.len() ==> (#[trigger] v.lists[i]).len() <= u32::MAX
}

impl LayeredNavigation {
    /// The layers as bytes.
    pub fn serialize_binary(&self) -> (buf: Vec<u8>)
        requires
            layers_fit(self@),
        ensures
            buf@ == layers_bytes(self@),
    {
        let mut buf: Vec<u8> = Vec::new();
        put_u32(&mut buf, self.entry_point);
        buf.push(self.max_level);
        buf.push(0);
        buf.push(0);
        buf.push(0);
        assert(buf@ =~= codec::le32(self@.entry_point) + seq![self@.max_level, 0u8, 0u8, 0u8]);
        put_u32(&mut buf, self.k as u32);
        put_u32(&mut buf, self.node_levels.len() as u32);
        put_bytes(&mut buf, self.node_levels.as_slice());
        let ghost lists = self@.lists;
        let mut count: u32 = 0;
        let mut i: usize = 0;
        while i < self.upper_lists.len()
            invariant
                i <= self.upper_lists@.len(),
                lists == layered::rows_of(self.upper_lists@),
                lists.len() <= u32::MAX,
                count == csr_format::nonempty(lists.take(i as int)).len(),
                count <= i,
            decreases self.upper_lists@.len() - i,
        {
            assert(lists.take(i + 1).drop_last() =~= lists.take(i as int));
            assert(lists[i as int] == self.upper_lists@[i as int]@);
            if self.upper_lists[i].len() > 0 {
                count += 1;
            }
            i += 1;
        }
        assert(lists.take(i as int) =~= lists);
        put_u32(&mut buf, count);
        let ghost head = buf@;
        let mut i: usize = 0;
        assert(buf@ =~= head + lists_bytes(csr_format::nonempty(lists.take(0))));
        while i < self.upper_lists.len()
            invariant
                i <= self.upper_lists@.len(),
                lists == layered::rows_of(self.upper_lists@),
                lists.len() <= u32::MAX,
                forall|k: int| 0 <= k < lists.len() ==> (#[trigger] lists[k]).len() <= u32::MAX,
                buf@ == head + lists_bytes(csr_format::nonempty(lists.take(i as int))),
            decreases self.upper_lists@.len() - i,
        {
            assert(lists.take(i + 1).drop_last() =~= lists.take(i as int));
            assert(lists[i as int] == self.upper_lists@[i as int]@);
            if self.upper_lists[i].len() > 0 {
                put_u32(&mut buf, i as u32);
                put_u32(&mut buf, self.upper_lists[i].len() as u32);
                put_words(&mut buf, self.upper_lists[i].as_slice());
                proof {
                    let before = csr_format::nonempty(lists.take(i as int));
                    let e = (i as u32, lists[i as int]);
                    assert(csr_format::nonempty(lists.take(i + 1)) =~= before.push(e));
                    assert(before.push(e).drop_last() =~= before);
                    assert(buf@ =~= head + (lists_bytes(before) + list_bytes(e)));
                }
            }
            i += 1;
        }
        assert(lists.take(i as int) =~= lists);
        assert(buf@ == layers_head(self@));
        put_u32(&mut buf, self.entry_candidates.len() as u32);
        put_words(&mut buf, self.entry_candidates.as_slice());
        buf
    }

    /// The layers that the bytes spell, or none where the bytes end early or name a node that is
    /// none.
    pub fn deserialize_binary(buf: &[u8]) -> (nav: Option<Self>)
        ensures
            match nav {
                Some(v) => layers_parse(buf@) == Some(v@),
                None => layers_parse(buf@) is None,
            },
    {
        assert(buf@.len() == buf.len());
        if buf.len() < 16 {
            return None;
        }
        let entry_point: u32 = read_u32(buf, 0);
        let max_level: u8 = buf[4];
        let k: u32 = read_u32(buf, 8);
        let n: u32 = read_u32(buf, 12);
        if 16 + n as u64 + 4 > buf.len() as u64 {
            return None;
        }
        let off: usize = 16 + n as usize;
        let node_levels = slice_to_vec(&buf[16..off]);
        assert(node_levels@ == buf@.subrange(16, off as int));
        let count: u32 = read_u32(buf, off);
        let mut upper_lists: Vec<Vec<u32>> = vec![Vec::new();n as usize];
        let ghost whole = lists_at(buf@, off + 4, count as nat, n as nat);
        let ghost mut done: Seq<OverflowEntry> = Seq::empty();
        proof {
            assert forall|i: int| 0 <= i < n implies (#[trigger] upper_lists@[i])@ == Seq::<
                u32,
            >::empty() by {
                assert(upper_lists@[i]@ =~= Seq::<u32>::empty());
            }
            assert(layered::rows_of(upper_lists@) =~= csr_format::placed(done, n as nat));
            if let Some((rest, end)) = whole {
                assert(done + rest =~= rest);
            }
        }
        let mut at: usize = off + 4;
        let mut left: u32 = count;
        while left > 0
            invariant
                buf@.len() == buf.len(),
                at <= buf@.len(),
                off == 16 + n,
                off + 4 <= buf@.len(),
                n == codec::get32(buf@, 12),
                count == codec::get32(buf@, off as int),
                upper_lists@.len() == n,
                layered::rows_of(upper_lists@) == csr_format::placed(done, n as nat),
                whole == lists_at(buf@, off + 4, count as nat, n as nat),
                match lists_at(buf@, at as int, left as nat, n as nat) {
                    None => whole is None,
                    Some((rest, end)) => whole == Some((done + rest, end)),
                },
            decreases left,
        {
            if buf.len() - at < 8 {
                return None;
            }
            let id: u32 = read_u32(buf, at);
            let len: u32 = read_u32(buf, at + 4);
            if at as u128 + 8 + 4 * len as u128 > buf.len() as u128 || id >= n {
                return None;
            }
            let data = read_words(buf, at + 8, len as usize);
            let ghost before = layered::rows_of(upper_lists@);
            let ghost e: OverflowEntry = (id, data@);
            upper_lists[id as usize] = data;
            at = at + 8 + 4 * len as usize;
            left -= 1;
            proof {
                assert(layered::rows_of(upper_lists@) =~= before.update(id as int, e.1));
                assert(done.push(e).drop_last() =~= done);
                if let Some((rest, end)) = lists_at(buf@, at as int, left as nat, n as nat) {
                    assert(done + (seq![e] + rest) =~= done.push(e) + rest);
                }
                done = done.push(e);
            }
        }
        proof {
            assert(done + Seq::<OverflowEntry>::empty() =~= done);
        }
        let mut entry_candidates: Vec<u32> = Vec::new();
        let mut given: bool = false;
        if buf.len() - at >= 4 {
            let len: u32 = read_u32(buf, at);
            if at as u128 + 4 + 4 * len as u128 <= buf.len() as u128 {
                entry_candidates = read_words(buf, at + 4, len as usize);
                given = true;
            }
        }
        if !given {
            entry_candidates.push(entry_point);
        }
        assert(entry_candidates@ =~= candidates_at(buf@, at as int, entry_point));
        let nav = LayeredNavigation {
            entry_point,
            max_level,
            k: k as usize,
            node_levels,
            upper_lists,
            entry_candidates,
        };
        assert(nav@ =~= layers_parse(buf@)->0);
        Some(nav)
    }
}

/// The lists fit the format, and their nodes are below `n`.
spec fn lists_fit(entries: Seq<OverflowEntry>, n: nat) -> bool {
    forall|i: int|
        0 <= i < entries.len() ==> (#[trigger] entries[i]).1.len() <= u32::MAX && entries[i].0 < n
}

proof fn lemma_lists_bytes_head(entries: Seq<OverflowEntry>)
    requires
        entries.len() > 0,
    ensures
        lists_bytes(entries) == list_bytes(entries[0]) + lists_bytes(entries.skip(1)),
    decreases entries.len(),
{
    if entries.len() == 1 {
        assert(entries.drop_last() =~= Seq::<OverflowEntry>::empty());
        assert(entries.skip(1) =~= Seq::<OverflowEntry>::empty());
        assert(lists_bytes(entries) =~= list_bytes(entries[0]) + lists_bytes(entries.skip(1)));
    } else {
        lemma_lists_bytes_head(entries.drop_last());
        assert(entries.drop_last().skip(1) =~= entries.skip(1).drop_last());
        assert(lists_bytes(entries) =~= list_bytes(entries[0]) + lists_bytes(entries.skip(1)));
    }
}

/// Reading the bytes of lists, whatever follows them, gives the lists back.
proof fn lemma_lists_round_trip(
    buf: Seq<u8>,
    off: int,
    entries: Seq<OverflowEntry>,
    tail: Seq<u8>,
    n: nat,
)
    requires
        0 <= off <= buf.len(),
        buf.skip(off) == lists_bytes(entries) + tail,
        lists_fit(entries, n),
    ensures
        lists_at(buf, off, entries.len(), n) == Some((entries, buf.len() - tail.len())),
    decreases entries.len(),
{
    assert(buf.skip(off).len() == buf.len() - off);
    if entries.len() > 0 {
        let e = entries[0];
        let rest = entries.skip(1);
        lemma_lists_bytes_head(entries);
        codec::lemma_le_words_len(e.1);
        codec::lemma_le32(e.0);
        codec::lemma_le32(e.1.len() as u32);
        let a = codec::le32(e.0);
        let b = codec::le32(e.1.len() as u32);
        let c = codec::le_words(e.1);
        let d = lists_bytes(rest) + tail;
        assert(buf.skip(off) =~= (a + b + c) + d);
        csr_format::lemma_tail_parts(buf, off, a, b, c, d);
        codec::lemma_get32_at(buf, off, e.0);
        codec::lemma_get32_at(buf, off + 4, e.1.len() as u32);
        codec::lemma_get_words_at(buf, off + 8, e.1);
        assert forall|i: int| 0 <= i < rest.len() implies (#[trigger] rest[i]).1.len() <= u32::MAX
            && rest[i].0 < n by {
            assert(rest[i] == entries[i + 1]);
        }
        lemma_lists_round_trip(buf, off + 8 + 4 * e.1.len(), rest, tail, n);
        assert(seq![e] + rest =~= entries);
    } else {
        assert(entries =~= Seq::<OverflowEntry>::empty());
        assert(lists_bytes(entries) + tail =~= tail);
    }
}

/// The nonempty lists of `n` nodes fit where all lists do.
proof fn lemma_nonempty_lists(lists: Seq<Seq<u32>>, n: nat)
    requires
        lists.len() <= n <= u32::MAX,
        forall|i: int| 0 <= i < lists.len() ==> (#[trigger] lists[i]).len() <= u32::MAX,
    ensures
        lists_fit(csr_format::nonempty(lists), n),
    decreases lists.len(),
{
    if lists.len() > 0 {
        lemma_nonempty_lists(lists.drop_last(), n);
    }
}

/// Where the parts of the head stand.
proof fn lemma_head_parts(
    buf: Seq<u8>,
    a: Seq<u8>,
    b: Seq<u8>,
    c: Seq<u8>,
    d: Seq<u8>,
    e: Seq<u8>,
    f: Seq<u8>,
    g: Seq<u8>,
)
    requires
        buf == a + b + c + d + e + f + g,
        a.len() == 4,
        b.len() == 4,
        c.len() == 4,
        d.len() == 4,
        f.len() == 4,
    ensures
        buf.len() == 20 + e.len() + g.len(),
        buf.subrange(0, 4) == a,
        buf[4] == b[0],
        buf.subrange(8, 12) == c,
        buf.subrange(12, 16) == d,
        buf.subrange(16, 16 + e.len() as int) == e,
        buf.subrange(16 + e.len() as int, 20 + e.len() as int) == f,
        buf.skip(20 + e.len() as int) == g,
{
    assert(buf.subrange(0, 4) =~= a);
    assert(buf.subrange(8, 12) =~= c);
    assert(buf.subrange(12, 16) =~= d);
    assert(buf.subrange(16, 16 + e.len() as int) =~= e);
    assert(buf.subrange(16 + e.len() as int, 20 + e.len() as int) =~= f);
    assert(buf.skip(20 + e.len() as int) =~= g);
}

proof fn lemma_append(x: Seq<u8>, y: Seq<u8>, z: Seq<u8>)
    ensures
        x + y + z == x + (y + z),
{
    assert(x + y + z =~= x + (y + z));
}

proof fn lemma_tail_of(x: Seq<u8>, tail: Seq<u8>)
    ensures
        (x + tail).skip((x + tail).len() - tail.len()) == tail,
{
    assert((x + tail).skip((x + tail).len() - tail.len()) =~= tail);
}

/// What the head of the bytes spells, whatever follows it.
#[verifier::spinoff_prover]
#[verifier::rlimit(40)]
proof fn lemma_layers_head(v: LayeredView, tail: Seq<u8>)
    requires
        layers_fit(v),
        v.lists.len() == v.levels.len(),
    ensures
        ({
            let buf = layers_head(v) + tail;
            let end = buf.len() - tail.len();
            &&& layers_parse(buf) == Some(
                LayeredView { candidates: candidates_at(buf, end, v.entry_point), ..v },
            )
            &&& buf.skip(end) == tail
        }),
{
    let buf = layers_head(v) + tail;
    let entries = csr_format::nonempty(v.lists);
    let n = v.levels.len();
    csr_format::lemma_placed_nonempty(v.lists, n as int);
    assert(v.lists.take(n as int) =~= v.lists);
    lemma_nonempty_lists(v.lists, n);
    let a = codec::le32(v.entry_point);
    let b = seq![v.max_level, 0u8, 0u8, 0u8];
    let c = codec::le32(v.k as u32);
    let d = codec::le32(n as u32);
    let f = codec::le32(entries.len() as u32);
    let g = lists_bytes(entries) + tail;
    codec::lemma_le32(v.entry_point);
    codec::lemma_le32(v.k as u32);
    codec::lemma_le32(n as u32);
    codec::lemma_le32(entries.len() as u32);
    lemma_append(a + b + c + d + v.levels + f, lists_bytes(entries), tail);
    lemma_head_parts(buf, a, b, c, d, v.levels, f, g);
    codec::lemma_get32_at(buf, 0, v.entry_point);
    codec::lemma_get32_at(buf, 8, v.k as u32);
    codec::lemma_get32_at(buf, 12, n as u32);
    codec::lemma_get32_at(buf, 16 + n as int, entries.len() as u32);
    lemma_lists_round_trip(buf, 20 + n as int, entries, tail, n);
    assert(csr_format::placed(entries, n) =~= v.lists);
    lemma_tail_of(layers_head(v), tail);
}

/// Writing the layers and reading them again gives the same layers.
pub proof fn law_layers_round_trip(v: LayeredView)
    requires
        layers_fit(v),
        v.lists.len() == v.levels.len(),
    ensures
        layers_parse(layers_bytes(v)) == Some(v),
{
    let tail = codec::le32(v.candidates.len() as u32) + codec::le_words(v.candidates);
    let buf = layers_bytes(v);
    assert(buf =~= layers_head(v) + tail);
    lemma_layers_head(v, tail);
    let end = buf.len() - tail.len();
    codec::lemma_le32(v.candidates.len() as u32);
    codec::lemma_le_words_len(v.candidates);
    let a = codec::le32(v.candidates.len() as u32);
    let b = codec::le_words(v.candidates);
    assert(buf.skip(end) =~= (a + b + Seq::<u8>::empty()) + Seq::<u8>::empty());
    csr_format::lemma_tail_parts(buf, end, a, b, Seq::empty(), Seq::empty());
    codec::lemma_get32_at(buf, end, v.candidates.len() as u32);
    codec::lemma_get_words_at(buf, end + 4, v.candidates);
}

/// A file without the last list, as older versions wrote it, is read with the entry point as the
/// only place to start from.
pub proof fn law_older_layers_are_read(v: LayeredView)
    requires
        layers_fit(v),
        v.lists.len() == v.levels.len(),
    ensures
        layers_parse(layers_head(v)) == Some(
            LayeredView { candidates: seq![v.entry_point], ..v },
        ),
{
    assert(layers_head(v) + Seq::<u8>::empty() =~= layers_head(v));
    lemma_layers_head(v, Seq::empty());
}

} // verus!
