//! Sums of lists of numbers.
use vstd::prelude::*;
use crate::distance::single::F32;

verus! {

/// The sum of a list, added first to last.
pub open spec fn total(values: Seq<F32>) -> F32
    decreases values.len(),
{
    if values.len() == 0 {
        F32(0)
    } else {
        total(values.drop_last()).plus(values.last())
    }
}

/// The sum of a list.
pub fn sum(values: &Vec<F32>) -> (t: F32)
    ensures
        t == total(values@),
{
    let mut t: F32 = F32(0);
    let mut i: usize = 0;
    while i < values.len()
        invariant
            i <= values@.len(),
            t == total(values@.take(i as int)),
        decreases values@.len() - i,
    {
        t = t.add(values[i]);
        assert(values@.take(i + 1).drop_last() =~= values@.take(i as int));
        i += 1;
    }
    assert(values@.take(i as int) =~= values@);
    t
}

} // verus!
