//! Distances for any dimension, computed eight components at a time, then the rest.
use vstd::prelude::*;
use crate::distance::scalar;
use crate::distance::scalar::l2_step;
use crate::distance::single::F32;

verus! {

/// The squared Euclidean distance.
pub fn l2_dynamic(a: &[F32], b: &[F32]) -> (d: F32)
    requires
        a@.len() == b@.len(),
    ensures
        d == scalar::l2_of(a@, b@),
{
    let mut sum: F32 = F32(0);
    let n: usize = a.len();
    let mut i: usize = 0;
    while n - i >= 8
        invariant
            n == a@.len(),
            a@.len() == b@.len(),
            i <= n,
            sum == scalar::l2_of(a@.take(i as int), b@.take(i as int)),
        decreases n - i,
    {
        let end: usize = i + 8;
        while i < end
            invariant
                n == a@.len(),
                a@.len() == b@.len(),
                i <= end <= n,
                sum == scalar::l2_of(a@.take(i as int), b@.take(i as int)),
            decreases end - i,
        {
            sum = l2_step(sum, a[i], b[i]);
            assert(a@.take(i + 1).drop_last() =~= a@.take(i as int));
            assert(b@.take(i + 1).drop_last() =~= b@.take(i as int));
            i += 1;
        }
    }
    while i < n
        invariant
            n == a@.len(),
            a@.len() == b@.len(),
            i <= n,
            sum == scalar::l2_of(a@.take(i as int), b@.take(i as int)),
        decreases n - i,
    {
        sum = l2_step(sum, a[i], b[i]);
        assert(a@.take(i + 1).drop_last() =~= a@.take(i as int));
        assert(b@.take(i + 1).drop_last() =~= b@.take(i as int));
        i += 1;
    }
    assert(a@.take(i as int) =~= a@);
    assert(b@.take(i as int) =~= b@);
    sum
}

/// The negated inner product.
pub fn ip_dynamic(a: &[F32], b: &[F32]) -> (d: F32)
    requires
        a@.len() == b@.len(),
    ensures
        d == scalar::ip_of(a@, b@),
{
    let mut sum: F32 = F32(0);
    let n: usize = a.len();
    let mut i: usize = 0;
    while n - i >= 8
        invariant
            n == a@.len(),
            a@.len() == b@.len(),
            i <= n,
            sum == scalar::dot_of(a@.take(i as int), b@.take(i as int)),
        decreases n - i,
    {
        let end: usize = i + 8;
        while i < end
            invariant
                n == a@.len(),
                a@.len() == b@.len(),
                i <= end <= n,
                sum == scalar::dot_of(a@.take(i as int), b@.take(i as int)),
            decreases end - i,
        {
            sum = sum.add(a[i].mul(b[i]));
            assert(a@.take(i + 1).drop_last() =~= a@.take(i as int));
            assert(b@.take(i + 1).drop_last() =~= b@.take(i as int));
            i += 1;
        }
    }
    while i < n
        invariant
            n == a@.len(),
            a@.len() == b@.len(),
            i <= n,
            sum == scalar::dot_of(a@.take(i as int), b@.take(i as int)),
        decreases n - i,
    {
        sum = sum.add(a[i].mul(b[i]));
        assert(a@.take(i + 1).drop_last() =~= a@.take(i as int));
        assert(b@.take(i + 1).drop_last() =~= b@.take(i as int));
        i += 1;
    }
    assert(a@.take(i as int) =~= a@);
    assert(b@.take(i as int) =~= b@);
    sum.neg()
}

} // verus!
