//! Where the numbers stand in the bytes of a header and of a graph.
use vstd::prelude::*;
use crate::memory::codec;
use crate::memory::csr_format;
use crate::memory::serialize::IndexHeader;

verus! {

/// The number that `width` bytes spell from `off` on, the least significant byte first.
pub open spec fn number_at(bytes: Seq<u8>, off: int, width: nat) -> nat
    decreases width,
{
    if width == 0 {
        0
    } else {
        bytes[off] as nat + 256 * number_at(bytes, off + 1, (width - 1) as nat)
    }
}

/// Four bytes are read as a number of four bytes.
pub proof fn lemma_four(bytes: Seq<u8>, off: int)
    ensures
        number_at(bytes, off, 4) == codec::get32(bytes, off),
{
    reveal_with_fuel(number_at, 5);
}

proof fn lemma_eight(bytes: Seq<u8>, off: int)
    ensures
        number_at(bytes, off, 8) == codec::get64(bytes, off),
{
    reveal_with_fuel(number_at, 9);
}

/// Four bytes that spell a number are found wherever they stand.
pub proof fn lemma_word_at(bytes: Seq<u8>, off: int, x: u32)
    requires
        0 <= off,
        off + 4 <= bytes.len(),
        bytes.subrange(off, off + 4) == codec::le32(x),
    ensures
        number_at(bytes, off, 4) == x,
{
    codec::lemma_le32(x);
    let s = bytes.subrange(off, off + 4);
    assert(s[0] == bytes[off] && s[1] == bytes[off + 1] && s[2] == bytes[off + 2] && s[3]
        == bytes[off + 3]);
    lemma_four(bytes, off);
}

/// Eight bytes that spell a number are found wherever they stand.
pub proof fn lemma_long_at(bytes: Seq<u8>, off: int, x: u64)
    requires
        0 <= off,
        off + 8 <= bytes.len(),
        bytes.subrange(off, off + 8) == codec::le64(x),
    ensures
        number_at(bytes, off, 8) == x,
{
    codec::lemma_le64(x);
    let s = bytes.subrange(off, off + 8);
    assert forall|i: int| 0 <= i < 8 implies s[i] == bytes[off + i] by {}
    assert(codec::get64(s, 0) == codec::get64(bytes, off)) by {
        assert(s[0] == bytes[off] && s[1] == bytes[off + 1] && s[2] == bytes[off + 2] && s[3]
            == bytes[off + 3]);
        assert(s[4] == bytes[off + 4] && s[5] == bytes[off + 4 + 1] && s[6] == bytes[off + 4 + 2]
            && s[7] == bytes[off + 4 + 3]);
    }
    lemma_eight(bytes, off);
}

/// A header is sixteen bytes: the magic number, the version, the flags and the checksum, four bytes
/// each, the least significant first.
pub proof fn law_header_layout(h: IndexHeader)
    ensures
        h.bytes().len() == 16,
        number_at(h.bytes(), 0, 4) == h.magic,
        number_at(h.bytes(), 4, 4) == h.version,
        number_at(h.bytes(), 8, 4) == h.flags,
        number_at(h.bytes(), 12, 4) == h.crc32,
{
    let s = h.bytes();
    codec::lemma_le32(h.magic);
    codec::lemma_le32(h.version);
    codec::lemma_le32(h.flags);
    codec::lemma_le32(h.crc32);
    assert(s.subrange(0, 4) =~= codec::le32(h.magic));
    assert(s.subrange(4, 8) =~= codec::le32(h.version));
    assert(s.subrange(8, 12) =~= codec::le32(h.flags));
    assert(s.subrange(12, 16) =~= codec::le32(h.crc32));
    lemma_word_at(s, 0, h.magic);
    lemma_word_at(s, 4, h.version);
    lemma_word_at(s, 8, h.flags);
    lemma_word_at(s, 12, h.crc32);
}

proof fn lemma_words(w: Seq<u32>, i: int)
    requires
        0 <= i < w.len(),
    ensures
        codec::le_words(w).len() == 4 * w.len(),
        codec::le_words(w).subrange(4 * i, 4 * i + 4) == codec::le32(w[i]),
    decreases w.len(),
{
    let short = w.drop_last();
    codec::lemma_le32(w.last());
    lemma_words_len(w);
    lemma_words_len(short);
    let all = codec::le_words(w);
    if i < short.len() {
        lemma_words(short, i);
        assert(all.subrange(4 * i, 4 * i + 4) =~= codec::le_words(short).subrange(
            4 * i,
            4 * i + 4,
        ));
    } else {
        assert(all.subrange(4 * i, 4 * i + 4) =~= codec::le32(w.last()));
    }
}

/// Words have four bytes each.
pub proof fn lemma_words_len(w: Seq<u32>)
    ensures
        codec::le_words(w).len() == 4 * w.len(),
    decreases w.len(),
{
    if w.len() > 0 {
        codec::lemma_le32(w.last());
        lemma_words_len(w.drop_last());
    }
}

/// The bytes of a graph start with the number of nodes, the limit and the number of slots, eight bytes
/// each; the slots follow, four bytes each, and then the number of nodes with an overflow list.
pub proof fn law_graph_layout(
    n: nat,
    r_max: nat,
    slots: Seq<u32>,
    overflow: Seq<Seq<u32>>,
    i: int,
)
    requires
        n <= u64::MAX,
        r_max <= u64::MAX,
        slots.len() <= u64::MAX,
        csr_format::nonempty(overflow).len() <= u64::MAX,
        0 <= i < slots.len(),
    ensures
        ({
            let bytes = csr_format::csr_bytes(n, r_max, slots, overflow);
            let end = 24 + 4 * slots.len() as int;
            &&& bytes.len() >= end + 8
            &&& number_at(bytes, 0, 8) == n
            &&& number_at(bytes, 8, 8) == r_max
            &&& number_at(bytes, 16, 8) == slots.len()
            &&& number_at(bytes, 24 + 4 * i, 4) == slots[i]
            &&& number_at(bytes, end, 8) == csr_format::nonempty(overflow).len()
        }),
{
    let bytes = csr_format::csr_bytes(n, r_max, slots, overflow);
    let entries = csr_format::nonempty(overflow);
    let end = 24 + 4 * slots.len() as int;
    let first = codec::le64(n as u64);
    let second = codec::le64(r_max as u64);
    let third = codec::le64(slots.len() as u64);
    let words = codec::le_words(slots);
    let count = codec::le64(entries.len() as u64);
    let rest = csr_format::entries_bytes(entries);
    codec::lemma_le64(n as u64);
    codec::lemma_le64(r_max as u64);
    codec::lemma_le64(slots.len() as u64);
    codec::lemma_le64(entries.len() as u64);
    lemma_words_len(slots);
    assert(bytes == first + second + third + words + count + rest);
    assert(bytes.len() == end + 8 + rest.len());
    assert(bytes.subrange(0, 8) =~= first);
    lemma_long_at(bytes, 0, n as u64);
    assert(bytes.subrange(8, 16) =~= second);
    lemma_long_at(bytes, 8, r_max as u64);
    assert(bytes.subrange(16, 24) =~= third);
    lemma_long_at(bytes, 16, slots.len() as u64);
    assert(bytes.subrange(end, end + 8) =~= count);
    lemma_long_at(bytes, end, entries.len() as u64);
    lemma_slot(first + second + third, slots, count + rest, i);
    assert(bytes =~= (first + second + third) + words + (count + rest));
}

/// A word of a list of words is found wherever the list stands.
pub proof fn lemma_slot(head: Seq<u8>, slots: Seq<u32>, tail: Seq<u8>, i: int)
    requires
        0 <= i < slots.len(),
    ensures
        number_at(head + codec::le_words(slots) + tail, head.len() + 4 * i, 4) == slots[i],
{
    let bytes = head + codec::le_words(slots) + tail;
    let at = head.len() + 4 * i;
    lemma_words_len(slots);
    lemma_words(slots, i);
    codec::lemma_le32(slots[i]);
    let words = codec::le_words(slots);
    assert(bytes.subrange(at, at + 4) =~= words.subrange(4 * i, 4 * i + 4));
    lemma_word_at(bytes, at, slots[i]);
}

/// The bytes of an overflow entry are the node, four bytes, the number of its neighbours, eight bytes,
/// and the neighbours, four bytes each.
pub proof fn law_overflow_entry_layout(entry: (u32, Seq<u32>), i: int)
    requires
        entry.1.len() <= u64::MAX,
        0 <= i < entry.1.len(),
    ensures
        ({
            let bytes = csr_format::entry_bytes(entry);
            &&& bytes.len() == 12 + 4 * entry.1.len()
            &&& number_at(bytes, 0, 4) == entry.0
            &&& number_at(bytes, 4, 8) == entry.1.len()
            &&& number_at(bytes, 12 + 4 * i, 4) == entry.1[i]
        }),
{
    let bytes = csr_format::entry_bytes(entry);
    codec::lemma_le32(entry.0);
    codec::lemma_le64(entry.1.len() as u64);
    lemma_words_len(entry.1);
    lemma_words(entry.1, i);
    let words = codec::le_words(entry.1);
    assert(bytes.subrange(0, 4) =~= codec::le32(entry.0));
    assert(bytes.subrange(4, 12) =~= codec::le64(entry.1.len() as u64));
    assert(bytes.subrange(12 + 4 * i, 12 + 4 * i + 4) =~= words.subrange(4 * i, 4 * i + 4));
    lemma_word_at(bytes, 0, entry.0);
    lemma_long_at(bytes, 4, entry.1.len() as u64);
    lemma_word_at(bytes, 12 + 4 * i, entry.1[i]);
}

} // verus!
