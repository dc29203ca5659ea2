//! Little-endian integers in byte sequences.
use vstd::prelude::*;

verus! {

/// The four bytes of `x`, least significant first.
pub open spec fn le32(x: u32) -> Seq<u8> {
    seq![
        (x % 256) as u8,
        ((x / 0x100) % 256) as u8,
        ((x / 0x1_0000) % 256) as u8,
        (x / 0x100_0000) as u8,
    ]
}

/// The number whose four bytes, least significant first, start at `off`.
pub open spec fn get32(s: Seq<u8>, off: int) -> int {
    s[off] + 0x100 * s[off + 1] + 0x1_0000 * s[off + 2] + 0x100_0000 * s[off + 3]
}

/// The eight bytes of `x`, least significant first.
pub open spec fn le64(x: u64) -> Seq<u8> {
    le32((x % 0x1_0000_0000) as u32) + le32((x / 0x1_0000_0000) as u32)
}

/// The number whose eight bytes, least significant first, start at `off`.
pub open spec fn get64(s: Seq<u8>, off: int) -> int {
    get32(s, off) + 0x1_0000_0000 * get32(s, off + 4)
}

/// The bytes of a list of 32-bit words, one word after the other.
pub open spec fn le_words(w: Seq<u32>) -> Seq<u8>
    decreases w.len(),
{
    if w.len() == 0 {
        Seq::empty()
    } else {
        le_words(w.drop_last()) + le32(w.last())
    }
}

/// The `count` words whose bytes start at `off`.
pub open spec fn get_words(s: Seq<u8>, off: int, count: nat) -> Seq<u32> {
    Seq::new(count, |i: int| get32(s, off + 4 * i) as u32)
}

/// Reading what `le32` wrote gives the number back.
pub proof fn lemma_le32(x: u32)
    ensures
        le32(x).len() == 4,
        get32(le32(x), 0) == x,
{
}

/// Reading what `le64` wrote gives the number back.
pub proof fn lemma_le64(x: u64)
    ensures
        le64(x).len() == 8,
        get64(le64(x), 0) == x,
{
    let lo = (x % 0x1_0000_0000) as u32;
    let hi = (x / 0x1_0000_0000) as u32;
    lemma_le32(lo);
    lemma_le32(hi);
    assert(get32(le64(x), 0) == get32(le32(lo), 0));
    assert(get32(le64(x), 4) == get32(le32(hi), 0));
}

/// A number read from the middle of a sequence is the number read from that part alone.
pub proof fn lemma_get32_at(s: Seq<u8>, off: int, x: u32)
    requires
        0 <= off,
        off + 4 <= s.len(),
        s.subrange(off, off + 4) == le32(x),
    ensures
        get32(s, off) == x,
{
    let t = s.subrange(off, off + 4);
    assert(t[0] == s[off] && t[1] == s[off + 1] && t[2] == s[off + 2] && t[3] == s[off + 3]);
    lemma_le32(x);
}

/// The same for eight bytes.
pub proof fn lemma_get64_at(s: Seq<u8>, off: int, x: u64)
    requires
        0 <= off,
        off + 8 <= s.len(),
        s.subrange(off, off + 8) == le64(x),
    ensures
        get64(s, off) == x,
{
    let t = s.subrange(off, off + 8);
    assert(forall|i: int| 0 <= i < 8 ==> t[i] == s[off + i]);
    assert(get64(t, 0) == get64(s, off)) by {
        assert(t[0] == s[off] && t[1] == s[off + 1] && t[2] == s[off + 2] && t[3] == s[off + 3]);
        assert(t[4] == s[off + 4] && t[5] == s[off + 5] && t[6] == s[off + 6] && t[7] == s[off + 7]);
    }
    lemma_le64(x);
}

/// A list of words takes four bytes for each.
pub proof fn lemma_le_words_len(w: Seq<u32>)
    ensures
        le_words(w).len() == 4 * w.len(),
    decreases w.len(),
{
    if w.len() > 0 {
        lemma_le_words_len(w.drop_last());
    }
}

/// The bytes of the `i`-th word stand at `4 * i`.
pub proof fn lemma_le_words_at(w: Seq<u32>, i: int)
    requires
        0 <= i < w.len(),
    ensures
        le_words(w).subrange(4 * i, 4 * i + 4) == le32(w[i]),
    decreases w.len(),
{
    lemma_le_words_len(w);
    lemma_le_words_len(w.drop_last());
    if i == w.len() - 1 {
        assert(le_words(w).subrange(4 * i, 4 * i + 4) =~= le32(w[i]));
    } else {
        lemma_le_words_at(w.drop_last(), i);
        assert(le_words(w).subrange(4 * i, 4 * i + 4) =~= le_words(w.drop_last()).subrange(
            4 * i,
            4 * i + 4,
        ));
    }
}

/// Reading back a list of words gives the list.
pub proof fn lemma_get_words_at(s: Seq<u8>, off: int, w: Seq<u32>)
    requires
        0 <= off,
        off + 4 * w.len() <= s.len(),
        s.subrange(off, off + 4 * w.len()) == le_words(w),
    ensures
        get_words(s, off, w.len()) == w,
{
    lemma_le_words_len(w);
    let t = s.subrange(off, off + 4 * w.len());
    assert forall|i: int| 0 <= i < w.len() implies get_words(s, off, w.len())[i] == w[i] by {
        lemma_le_words_at(w, i);
        assert(s.subrange(off + 4 * i, off + 4 * i + 4) =~= t.subrange(4 * i, 4 * i + 4));
        lemma_get32_at(s, off + 4 * i, w[i]);
    }
    assert(get_words(s, off, w.len()) =~= w);
}

/// Appends the bytes of `x`.
pub fn put_u32(buf: &mut Vec<u8>, x: u32)
    ensures
        final(buf)@ == old(buf)@ + le32(x),
{
    buf.push((x % 256) as u8);
    buf.push(((x / 0x100) % 256) as u8);
    buf.push(((x / 0x1_0000) % 256) as u8);
    buf.push((x / 0x100_0000) as u8);
    assert(buf@ =~= old(buf)@ + le32(x));
}

/// Appends the bytes of `x`.
pub fn put_u64(buf: &mut Vec<u8>, x: u64)
    ensures
        final(buf)@ == old(buf)@ + le64(x),
{
    put_u32(buf, (x % 0x1_0000_0000) as u32);
    put_u32(buf, (x / 0x1_0000_0000) as u32);
    assert(buf@ =~= old(buf)@ + le64(x));
}

/// Appends the bytes of a list of words.
pub fn put_words(buf: &mut Vec<u8>, words: &[u32])
    ensures
        final(buf)@ == old(buf)@ + le_words(words@),
{
    let mut i: usize = 0;
    assert(words@.take(0) =~= Seq::<u32>::empty());
    assert(buf@ =~= old(buf)@ + le_words(words@.take(0)));
    while i < words.len()
        invariant
            i <= words@.len(),
            buf@ == old(buf)@ + le_words(words@.take(i as int)),
        decreases words@.len() - i,
    {
        put_u32(buf, words[i]);
        assert(words@.take(i + 1).drop_last() =~= words@.take(i as int));
        assert(buf@ =~= old(buf)@ + le_words(words@.take(i + 1)));
        i += 1;
    }
    assert(words@.take(i as int) =~= words@);
}

/// Appends the bytes of a slice.
pub fn put_bytes(buf: &mut Vec<u8>, bytes: &[u8])
    ensures
        final(buf)@ == old(buf)@ + bytes@,
{
    buf.extend_from_slice(bytes);
    assert(buf@ =~= old(buf)@ + bytes@);
}

/// Reads the number at `off`.
pub fn read_u32(bytes: &[u8], off: usize) -> (x: u32)
    requires
        off + 4 <= bytes@.len(),
    ensures
        x == get32(bytes@, off as int),
{
    bytes[off] as u32 + 0x100 * bytes[off + 1] as u32 + 0x1_0000 * bytes[off + 2] as u32
        + 0x100_0000 * bytes[off + 3] as u32
}

/// Reads the number at `off`.
pub fn read_u64(bytes: &[u8], off: usize) -> (x: u64)
    requires
        off + 8 <= bytes@.len(),
    ensures
        x == get64(bytes@, off as int),
{
    assert(bytes@.len() == bytes.len());
    read_u32(bytes, off) as u64 + 0x1_0000_0000 * read_u32(bytes, off + 4) as u64
}

/// Reads `count` words from `off` on.
pub fn read_words(bytes: &[u8], off: usize, count: usize) -> (w: Vec<u32>)
    requires
        off + 4 * count <= bytes@.len(),
    ensures
        w@ == get_words(bytes@, off as int, count as nat),
{
    let mut w: Vec<u32> = Vec::with_capacity(count);
    let mut i: usize = 0;
    while i < count
        invariant
            i <= count,
            bytes@.len() == bytes.len(),
            off + 4 * count <= bytes@.len(),
            w@ == get_words(bytes@, off as int, i as nat),
        decreases count - i,
    {
        w.push(read_u32(bytes, off + 4 * i));
        assert(w@ =~= get_words(bytes@, off as int, (i + 1) as nat));
        i += 1;
    }
    w
}

} // verus!
