//! The files of vector benchmarks. A record is the dimension as four bytes, then four bytes for each
//! component, all little-endian; every record has the dimension of the first. Raw files hold
//! components alone, in the byte order of the machine.
use vstd::prelude::*;
use crate::distance::single::F32;
use crate::memory::codec;
use crate::memory::codec::{read_u32, read_words};

verus! {

/// The dimension of the first record.
pub open spec fn dim_of(bytes: Seq<u8>) -> int {
    codec::get32(bytes, 0)
}

/// The bytes of a record.
pub open spec fn record_len(bytes: Seq<u8>) -> int {
    4 + 4 * dim_of(bytes)
}

/// The number of whole records.
pub open spec fn records_of(bytes: Seq<u8>) -> nat {
    (bytes.len() as int / record_len(bytes)) as nat
}

/// The components of the first records, one after the other.
pub open spec fn components_of(bytes: Seq<u8>, records: nat) -> Seq<u32>
    decreases records,
{
    if records == 0 {
        Seq::empty()
    } else {
        components_of(bytes, (records - 1) as nat) + codec::get_words(
            bytes,
            (records - 1) * record_len(bytes) + 4,
            dim_of(bytes) as nat,
        )
    }
}

/// A file that can be read: it has a first record's dimension, which as a signed number is not
/// negative, and a record's length is a length.
pub open spec fn readable(bytes: Seq<u8>) -> bool {
    &&& bytes.len() >= 4
    &&& dim_of(bytes) <= i32::MAX
    &&& record_len(bytes) <= usize::MAX
}

/// Reads the components of all whole records. Returns them with the dimension and the number of
/// records.
fn read_records(bytes: &[u8]) -> (r: (Vec<u32>, usize, usize))
    requires
        readable(bytes@),
    ensures
        r.0@ == components_of(bytes@, records_of(bytes@)),
        r.1 == dim_of(bytes@),
        r.2 == records_of(bytes@),
{
    assert(bytes@.len() == bytes.len());
    let dim: usize = read_u32(bytes, 0) as usize;
    let record: usize = 4 + 4 * dim;
    let n: usize = bytes.len() / record;
    let mut components: Vec<u32> = Vec::new();
    let mut i: usize = 0;
    while i < n
        invariant
            i <= n,
            readable(bytes@),
            bytes@.len() == bytes.len(),
            dim == dim_of(bytes@),
            record == record_len(bytes@),
            record > 0,
            n == records_of(bytes@),
            n == bytes@.len() as int / record as int,
            components@ == components_of(bytes@, i as nat),
        decreases n - i,
    {
        proof {
            assert((i + 1) * record <= n * record) by (nonlinear_arith)
                requires
                    i + 1 <= n,
            ;
            assert(i * record + record == (i + 1) * record) by (nonlinear_arith);
            assert(n * record <= bytes@.len()) by (nonlinear_arith)
                requires
                    n == bytes@.len() as int / record as int,
                    record > 0,
            ;
            assert(0 <= i * record) by (nonlinear_arith);
        }
        let words = read_words(bytes, i * record + 4, dim);
        components.extend_from_slice(words.as_slice());
        assert(components@ =~= components_of(bytes@, (i + 1) as nat));
        i += 1;
    }
    (components, dim, n)
}

/// Reads vectors. Returns them one after the other, with the dimension and their number.
pub fn read_fvecs(bytes: &[u8]) -> (r: (Vec<F32>, usize, usize))
    requires
        readable(bytes@),
    ensures
        r.0@ == components_of(bytes@, records_of(bytes@)).map_values(|w: u32| F32(w)),
        r.1 == dim_of(bytes@),
        r.2 == records_of(bytes@),
{
    let (components, dim, n) = read_records(bytes);
    let ghost all = components@.map_values(|w: u32| F32(w));
    let mut vectors: Vec<F32> = Vec::with_capacity(components.len());
    let mut i: usize = 0;
    while i < components.len()
        invariant
            i <= components@.len(),
            all == components@.map_values(|w: u32| F32(w)),
            vectors@ == all.take(i as int),
        decreases components@.len() - i,
    {
        vectors.push(F32(components[i]));
        i += 1;
        assert(vectors@ =~= all.take(i as int));
    }
    assert(vectors@ =~= all);
    (vectors, dim, n)
}

/// Reads lists of true neighbours. Returns them one after the other, with the length of a list and
/// their number.
pub fn read_ivecs(bytes: &[u8]) -> (r: (Vec<i32>, usize, usize))
    requires
        readable(bytes@),
    ensures
        r.0@ == components_of(bytes@, records_of(bytes@)).map_values(|w: u32| w as i32),
        r.1 == dim_of(bytes@),
        r.2 == records_of(bytes@),
{
    let (components, dim, n) = read_records(bytes);
    let ghost all = components@.map_values(|w: u32| w as i32);
    let mut ids: Vec<i32> = Vec::with_capacity(components.len());
    let mut i: usize = 0;
    while i < components.len()
        invariant
            i <= components@.len(),
            all == components@.map_values(|w: u32| w as i32),
            ids@ == all.take(i as int),
        decreases components@.len() - i,
    {
        ids.push(components[i] as i32);
        i += 1;
        assert(ids@ =~= all.take(i as int));
    }
    assert(ids@ =~= all);
    (ids, dim, n)
}

/// There are as many components as records of that dimension have.
pub proof fn law_components_fill_the_records(bytes: Seq<u8>, records: nat)
    requires
        readable(bytes),
    ensures
        components_of(bytes, records).len() == records * dim_of(bytes),
    decreases records,
{
    if records > 0 {
        law_components_fill_the_records(bytes, (records - 1) as nat);
        assert((records - 1) * dim_of(bytes) + dim_of(bytes) == records * dim_of(bytes))
            by (nonlinear_arith);
    } else {
        assert(0 * dim_of(bytes) == 0) by (nonlinear_arith);
    }
}

/// The `count` numbers whose bytes, most significant first, start at the beginning.
pub open spec fn big_endian_words(bytes: Seq<u8>, count: nat) -> Seq<u32> {
    Seq::new(
        count,
        |i: int|
            (0x100_0000 * bytes[4 * i] + 0x1_0000 * bytes[4 * i + 1] + 0x100 * bytes[4 * i + 2]
                + bytes[4 * i + 3]) as u32,
    )
}

/// `bytemuck::try_cast_slice` from bytes to numbers of four bytes, copied. Bytes that are no whole
/// number of numbers are refused. Others are refused where they stand at an address that no number
/// of four bytes can have; which they do is not said. What is taken is read in the byte order of
/// the machine, one or the other.
#[verifier::external_body]
fn cast_words(bytes: &[u8]) -> (w: Option<Vec<u32>>)
    ensures
        bytes@.len() % 4 != 0 ==> w is None,
        w matches Some(v) ==> v@ == codec::get_words(bytes@, 0, bytes@.len() / 4) || v@
            == big_endian_words(bytes@, bytes@.len() / 4),
{
    match bytemuck::try_cast_slice::<u8, u32>(bytes) {
        Ok(words) => Some(words.to_vec()),
        Err(_) => None,
    }
}

/// Why a raw file is refused.
#[derive(Debug, Clone, Copy, PartialEq, Eq, Structural)]
pub enum RawFailure {
    /// It is not as long as it should be.
    SizeMismatch,
    /// It stands at an address that its numbers cannot have.
    Misaligned,
}

/// The numbers of a raw file that should hold `count` of them.
pub fn raw_words(bytes: &[u8], count: usize) -> (r: Result<Vec<u32>, RawFailure>)
    ensures
        r == Err::<Vec<u32>, RawFailure>(RawFailure::SizeMismatch) <==> bytes@.len() != 4 * count,
        r matches Ok(v) ==> v@ == codec::get_words(bytes@, 0, count as nat) || v@
            == big_endian_words(bytes@, count as nat),
{
    assert(bytes@.len() == bytes.len());
    if bytes.len() % 4 != 0 || bytes.len() / 4 != count {
        return Err(RawFailure::SizeMismatch);
    }
    match cast_words(bytes) {
        Some(v) => Ok(v),
        None => Err(RawFailure::Misaligned),
    }
}

} // verus!
