//! Distances computed one component at a time.
use vstd::prelude::*;
use crate::distance::{DistanceKernel, DistanceMetric};
use crate::distance::single::{Distance, F32};

verus! {

/// The sum of the squared differences, added first to last, each step rounded.
pub open spec fn l2_of(a: Seq<F32>, b: Seq<F32>) -> F32
    decreases a.len(),
{
    if a.len() == 0 {
        F32(0)
    } else {
        let d = a.last().less(b.last());
        l2_of(a.drop_last(), b.drop_last()).plus(d.times(d))
    }
}

/// The sum of the products, added first to last, each step rounded.
pub open spec fn dot_of(a: Seq<F32>, b: Seq<F32>) -> F32
    decreases a.len(),
{
    if a.len() == 0 {
        F32(0)
    } else {
        dot_of(a.drop_last(), b.drop_last()).plus(a.last().times(b.last()))
    }
}

/// The negated inner product, so that smaller means more alike.
pub open spec fn ip_of(a: Seq<F32>, b: Seq<F32>) -> F32 {
    dot_of(a, b).negated()
}

/// One more squared difference.
pub(crate) fn l2_step(sum: F32, x: F32, y: F32) -> (s: F32)
    ensures
        s == sum.plus(x.less(y).times(x.less(y))),
{
    let d = x.sub(y);
    sum.add(d.mul(d))
}

/// The squared Euclidean distance.
pub fn l2_scalar(a: &[F32], b: &[F32]) -> (d: Distance)
    requires
        a@.len() == b@.len(),
    ensures
        d == l2_of(a@, b@),
{
    let mut sum: F32 = F32(0);
    let mut i: usize = 0;
    while i < a.len()
        invariant
            i <= a@.len(),
            a@.len() == b@.len(),
            sum == l2_of(a@.take(i as int), b@.take(i as int)),
        decreases a@.len() - i,
    {
        sum = l2_step(sum, a[i], b[i]);
        assert(a@.take(i + 1).drop_last() =~= a@.take(i as int));
        assert(b@.take(i + 1).drop_last() =~= b@.take(i as int));
        i += 1;
    }
    assert(a@.take(i as int) =~= a@);
    assert(b@.take(i as int) =~= b@);
    sum
}

/// The negated inner product.
pub fn ip_scalar(a: &[F32], b: &[F32]) -> (d: Distance)
    requires
        a@.len() == b@.len(),
    ensures
        d == ip_of(a@, b@),
{
    let mut sum: F32 = F32(0);
    let mut i: usize = 0;
    while i < a.len()
        invariant
            i <= a@.len(),
            a@.len() == b@.len(),
            sum == dot_of(a@.take(i as int), b@.take(i as int)),
        decreases a@.len() - i,
    {
        sum = sum.add(a[i].mul(b[i]));
        assert(a@.take(i + 1).drop_last() =~= a@.take(i as int));
        assert(b@.take(i + 1).drop_last() =~= b@.take(i as int));
        i += 1;
    }
    assert(a@.take(i as int) =~= a@);
    assert(b@.take(i as int) =~= b@);
    sum.neg()
}

/// The kernel that computes one component at a time.
pub struct ScalarKernel {
    /// What the distance measures.
    pub metric: DistanceMetric,
}

impl ScalarKernel {
    /// The kernel for the squared Euclidean distance.
    pub fn l2() -> (k: Self)
        ensures
            k.metric == DistanceMetric::L2,
    {
        ScalarKernel { metric: DistanceMetric::L2 }
    }

    /// The kernel for the negated inner product.
    pub fn ip() -> (k: Self)
        ensures
            k.metric == DistanceMetric::InnerProduct,
    {
        ScalarKernel { metric: DistanceMetric::InnerProduct }
    }
}

impl DistanceKernel for ScalarKernel {
    open spec fn dist(&self, a: Seq<F32>, b: Seq<F32>) -> F32 {
        match self.metric {
            DistanceMetric::L2 => l2_of(a, b),
            DistanceMetric::InnerProduct => ip_of(a, b),
        }
    }

    fn distance(&self, a: &[F32], b: &[F32]) -> (d: Distance) {
        match self.metric {
            DistanceMetric::L2 => l2_scalar(a, b),
            DistanceMetric::InnerProduct => ip_scalar(a, b),
        }
    }

    fn metric(&self) -> (m: DistanceMetric)
        ensures
            m == self.metric,
    {
        self.metric
    }

    fn name(&self) -> (s: &'static str)
        ensures
            s@ == (match self.metric {
                DistanceMetric::L2 => "scalar_l2"@,
                DistanceMetric::InnerProduct => "scalar_ip"@,
            }),
    {
        match self.metric {
            DistanceMetric::L2 => "scalar_l2",
            DistanceMetric::InnerProduct => "scalar_ip",
        }
    }
}

} // verus!
