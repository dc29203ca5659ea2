//! Distances in eight lanes, as machines with registers of eight numbers and fused multiplication
//! compute them: the lanes are added up pairwise, and the components that fill no register follow
//! one by one.
use vstd::prelude::*;
use crate::distance::{DistanceKernel, DistanceMetric};
use crate::distance::cpu::{is_avx2_supported, CpuFeatures};
use crate::distance::dynamic::l2_dynamic;
use crate::distance::lanes;
use crate::distance::lanes::{add_dot_rest, add_l2_rest, dot_lanes, l2_lanes};
use crate::distance::scalar;
use crate::distance::single::{Distance, F32};

verus! {

/// The sum of eight lanes: the upper half is added to the lower, then neighbours are added, then
/// the two pairs.
pub open spec fn across(x: Seq<F32>) -> F32 {
    x[4].plus(x[0]).plus(x[5].plus(x[1])).plus(x[6].plus(x[2]).plus(x[7].plus(x[3])))
}

/// The squared Euclidean distance in eight lanes.
pub open spec fn l2_eight(a: Seq<F32>, b: Seq<F32>) -> F32 {
    lanes::l2_onto(
        across(lanes::l2_lanes_of(a, b, 8)),
        lanes::rest_of(a, 8),
        lanes::rest_of(b, 8),
    )
}

/// The negated inner product in eight lanes.
pub open spec fn ip_eight(a: Seq<F32>, b: Seq<F32>) -> F32 {
    lanes::dot_onto(
        across(lanes::dot_lanes_of(a, b, 8)),
        lanes::rest_of(a, 8),
        lanes::rest_of(b, 8),
    ).negated()
}

/// The sum of eight lanes.
fn horizontal_sum(x: &Vec<F32>) -> (s: F32)
    requires
        x@.len() == 8,
    ensures
        s == across(x@),
{
    let low = x[4].add(x[0]).add(x[5].add(x[1]));
    let high = x[6].add(x[2]).add(x[7].add(x[3]));
    low.add(high)
}

/// The squared Euclidean distance in eight lanes.
pub fn l2_avx2(a: &[F32], b: &[F32]) -> (d: Distance)
    requires
        a@.len() == b@.len(),
    ensures
        d == l2_eight(a@, b@),
{
    let sum = horizontal_sum(&l2_lanes(a, b, 8));
    add_l2_rest(sum, a, b, 8)
}

/// The negated inner product in eight lanes.
pub fn ip_avx2(a: &[F32], b: &[F32]) -> (d: Distance)
    requires
        a@.len() == b@.len(),
    ensures
        d == ip_eight(a@, b@),
{
    let sum = horizontal_sum(&dot_lanes(a, b, 8));
    add_dot_rest(sum, a, b, 8).neg()
}

/// The kernel that computes in eight lanes.
#[derive(Clone, Copy)]
pub struct Avx2Kernel {
    /// What the distance measures.
    pub metric: DistanceMetric,
}

impl Avx2Kernel {
    /// The kernel for the squared Euclidean distance.
    pub fn l2() -> (k: Self)
        ensures
            k.metric == DistanceMetric::L2,
    {
        Avx2Kernel { metric: DistanceMetric::L2 }
    }

    /// The kernel for the negated inner product.
    pub fn ip() -> (k: Self)
        ensures
            k.metric == DistanceMetric::InnerProduct,
    {
        Avx2Kernel { metric: DistanceMetric::InnerProduct }
    }
}

impl DistanceKernel for Avx2Kernel {
    open spec fn dist(&self, a: Seq<F32>, b: Seq<F32>) -> F32 {
        match self.metric {
            DistanceMetric::L2 => l2_eight(a, b),
            DistanceMetric::InnerProduct => ip_eight(a, b),
        }
    }

    fn distance(&self, a: &[F32], b: &[F32]) -> (d: Distance) {
        match self.metric {
            DistanceMetric::L2 => l2_avx2(a, b),
            DistanceMetric::InnerProduct => ip_avx2(a, b),
        }
    }

    fn metric(&self) -> (m: DistanceMetric)
        ensures
            m == self.metric,
    {
        self.metric
    }

    fn name(&self) -> (s: &'static str)
        ensures
            s@ == (match self.metric {
                DistanceMetric::L2 => "avx2_l2"@,
                DistanceMetric::InnerProduct => "avx2_ip"@,
            }),
    {
        match self.metric {
            DistanceMetric::L2 => "avx2_l2",
            DistanceMetric::InnerProduct => "avx2_ip",
        }
    }
}

/// The squared Euclidean distance, in eight lanes where the machine has them.
pub fn l2_dispatch(cpu: &CpuFeatures, a: &[F32], b: &[F32]) -> (d: Distance)
    requires
        a@.len() == b@.len(),
    ensures
        d == (if cpu.eight() {
            l2_eight(a@, b@)
        } else {
            scalar::l2_of(a@, b@)
        }),
{
    if is_avx2_supported(cpu) {
        l2_avx2(a, b)
    } else {
        l2_dynamic(a, b)
    }
}

} // verus!
