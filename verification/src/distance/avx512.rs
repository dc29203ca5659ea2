//! Distances in sixteen lanes, as machines with registers of sixteen numbers compute them. What
//! fills no register goes through one more, whose other lanes are zero. Lanes are added up by
//! halves.
use vstd::prelude::*;
use crate::distance::{DistanceKernel, DistanceMetric};
use crate::distance::lanes;
use crate::distance::lanes::{fold, l2_lanes};
use crate::distance::single::{Distance, F32};

verus! {

/// The squared differences of what fills no register, one lane each.
pub open spec fn l2_tail(a: Seq<F32>, b: Seq<F32>) -> Seq<F32> {
    Seq::new(
        16,
        |lane: int|
            if lane < a.len() {
                let d = a[lane].less(b[lane]);
                d.fused(d, F32(0))
            } else {
                F32(0)
            },
    )
}

/// The squared Euclidean distance in sixteen lanes.
pub open spec fn l2_sixteen(a: Seq<F32>, b: Seq<F32>) -> F32 {
    let tail = lanes::rest_of(a, 16);
    let start = if tail.len() == 0 {
        F32(0)
    } else {
        lanes::folded(l2_tail(tail, lanes::rest_of(b, 16)))
    };
    start.plus(lanes::folded(lanes::l2_lanes_of(a, b, 16)))
}

/// The squared Euclidean distance in sixteen lanes.
pub fn l2_avx512(a: &[F32], b: &[F32]) -> (d: Distance)
    requires
        a@.len() == b@.len(),
    ensures
        d == l2_sixteen(a@, b@),
{
    let n: usize = a.len();
    proof {
        lanes::lemma_registers(n as nat, 16);
    }
    let whole: usize = n / 16 * 16;
    let ghost x = lanes::rest_of(a@, 16);
    let ghost y = lanes::rest_of(b@, 16);
    let mut result: F32 = F32(0);
    if whole < n {
        let mut tail: Vec<F32> = Vec::with_capacity(16);
        let mut lane: usize = 0;
        while lane < 16
            invariant
                lane <= 16,
                n == a@.len() == b@.len(),
                whole <= n < whole + 16,
                x == a@.skip(whole as int),
                y == b@.skip(whole as int),
                tail@ == l2_tail(x, y).take(lane as int),
            decreases 16 - lane,
        {
            if lane < n - whole {
                let d = a[whole + lane].sub(b[whole + lane]);
                tail.push(d.mul_add(d, F32(0)));
            } else {
                tail.push(F32(0));
            }
            lane += 1;
            assert(tail@ =~= l2_tail(x, y).take(lane as int));
        }
        assert(tail@ =~= l2_tail(x, y));
        result = fold(&tail);
    }
    result.add(fold(&l2_lanes(a, b, 16)))
}

/// The kernel that computes in sixteen lanes. It computes the squared Euclidean distance, whatever
/// it is said to measure.
#[derive(Clone, Copy)]
pub struct Avx512Kernel {
    /// What the distance is said to measure.
    pub metric: DistanceMetric,
}

impl Avx512Kernel {
    /// The kernel for the squared Euclidean distance.
    pub fn l2() -> (k: Self)
        ensures
            k.metric == DistanceMetric::L2,
    {
        Avx512Kernel { metric: DistanceMetric::L2 }
    }
}

impl DistanceKernel for Avx512Kernel {
    open spec fn dist(&self, a: Seq<F32>, b: Seq<F32>) -> F32 {
        l2_sixteen(a, b)
    }

    fn distance(&self, a: &[F32], b: &[F32]) -> (d: Distance) {
        l2_avx512(a, b)
    }

    fn metric(&self) -> (m: DistanceMetric)
        ensures
            m == self.metric,
    {
        self.metric
    }

    fn name(&self) -> (s: &'static str)
        ensures
            s@ == (match self.metric {
                DistanceMetric::L2 => "avx512_l2"@,
                DistanceMetric::InnerProduct => "avx512_ip"@,
            }),
    {
        match self.metric {
            DistanceMetric::L2 => "avx512_l2",
            DistanceMetric::InnerProduct => "avx512_ip",
        }
    }
}

} // verus!
