//! Vectors whose first component stands at an address that wide loads like.
use vstd::prelude::*;
use aligned_vec::{AVec, ConstAlign};
use crate::distance::single::F32;

verus! {

/// Numbers in memory that is aligned to 32 bytes.
#[verifier::external_body]
pub struct AlignedVec {
    inner: AVec<F32, ConstAlign<32>>,
}

/// The numbers that an aligned vector holds.
pub uninterp spec fn aligned_contents(v: AlignedVec) -> Seq<F32>;

impl View for AlignedVec {
    type V = Seq<F32>;

    open spec fn view(&self) -> Seq<F32> {
        aligned_contents(*self)
    }
}

impl AlignedVec {
    /// The numbers, from `AVec::as_slice`. Claimed: they are the contents.
    #[verifier::external_body]
    fn inner_slice(&self) -> (s: &[F32])
        ensures
            s@ == aligned_contents(*self),
    {
        self.inner.as_slice()
    }

    /// The numbers.
    pub fn as_slice(&self) -> (s: &[F32])
        ensures
            s@ == self@,
    {
        self.inner_slice()
    }

    /// Replaces one number, through `AVec::as_mut_slice`. Claimed: the number at that place is
    /// replaced and nothing else.
    #[verifier::external_body]
    fn set(&mut self, i: usize, x: F32)
        requires
            i < aligned_contents(*old(self)).len(),
        ensures
            aligned_contents(*final(self)) == aligned_contents(*old(self)).update(i as int, x),
    {
        self.inner.as_mut_slice()[i] = x;
    }

    /// How many numbers there are.
    pub fn len(&self) -> (n: usize)
        ensures
            n == self@.len(),
    {
        self.as_slice().len()
    }
}

/// The numbers of a slice in aligned memory, from `AVec::from_slice` with an alignment of 32.
/// Claimed: the contents are those of the slice.
#[verifier::external_body]
pub fn aligned_from_slice(slice: &[F32]) -> (v: AlignedVec)
    ensures
        aligned_contents(v) == slice@,
{
    AlignedVec { inner: AVec::from_slice(32, slice) }
}

/// Zeros in aligned memory.
pub fn aligned_vec_f32(len: usize) -> (v: AlignedVec)
    ensures
        v@ == Seq::new(len as nat, |i: int| F32(0)),
{
    let zeros: Vec<F32> = vec![F32(0);len];
    let v = aligned_from_slice(zeros.as_slice());
    assert(v@ =~= Seq::new(len as nat, |i: int| F32(0)));
    v
}

/// Writes numbers over those from `at` on.
pub fn overwrite(v: &mut AlignedVec, at: usize, values: &[F32])
    requires
        at + values@.len() <= old(v)@.len(),
    ensures
        final(v)@ == old(v)@.take(at as int) + values@ + old(v)@.skip(at + values@.len()),
{
    let ghost before = v@;
    let total: usize = v.len();
    assert(values@.len() == values.len());
    let mut i: usize = 0;
    assert(v@ =~= before.take(at as int) + values@.take(0) + before.skip(at + 0));
    while i < values.len()
        invariant
            i <= values@.len(),
            at + values@.len() <= before.len(),
            before.len() == total,
            v@ == before.take(at as int) + values@.take(i as int) + before.skip(at + i),
        decreases values@.len() - i,
    {
        v.set(at + i, values[i]);
        i += 1;
        assert(v@ =~= before.take(at as int) + values@.take(i as int) + before.skip(at + i));
    }
    assert(values@.take(i as int) =~= values@);
}

} // verus!
