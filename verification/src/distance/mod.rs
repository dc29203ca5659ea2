//! Distances between vectors.
use vstd::prelude::*;

pub mod aligned;
pub mod arith;
pub mod avx2;
pub mod avx512;
pub mod cpu;
pub mod dispatch;
pub mod double;
pub mod dynamic;
pub mod exact_laws;
pub mod fused;
pub mod half;
pub mod kernel;
pub mod kernel_laws;
pub mod lanes;
pub mod laws;
pub mod number_laws;
pub mod ordering;
pub mod root;
pub mod scalar;
pub mod single;
pub mod sums;

pub use aligned::AlignedVec;
pub use avx2::{l2_avx2, l2_dispatch, Avx2Kernel};
pub use avx512::{l2_avx512, Avx512Kernel};
pub use cpu::{
    is_avx2_and_f16c_supported, is_avx2_supported, is_avx512_and_f16c_supported,
    is_avx512_supported, is_f16c_supported, CpuFeatures,
};
pub use dynamic::l2_dynamic;
pub use half::{
    f16_to_f32_slice, f32_to_f16_slice, l2_f16, l2_f16_mixed, l2_f16_mixed_avx2,
    l2_f16_mixed_avx512, l2_f16_mixed_simd, l2_f16_packed, F16,
};
pub use kernel::{select_kernel, validate_kernel_stability, KernelVariant};
pub use scalar::{l2_scalar, ScalarKernel};
pub use single::{Distance, F32};

verus! {

/// What a distance measures.
#[derive(Debug, Clone, Copy, PartialEq, Eq, Hash, Structural)]
pub enum DistanceMetric {
    /// The squared Euclidean distance.
    L2,
    /// The negated inner product.
    InnerProduct,
}

/// A way to compute distances. Every search and every build takes one, so that the fastest one
/// that a machine has can be used. A kernel is a function of the two vectors.
pub trait DistanceKernel: Send + Sync {
    /// The distance of two vectors: the squared Euclidean distance, added up component after
    /// component, unless an implementation says otherwise.
    open spec fn dist(&self, a: Seq<F32>, b: Seq<F32>) -> F32 {
        scalar::l2_of(a, b)
    }

    /// The distance of two vectors of the same dimension.
    fn distance(&self, a: &[F32], b: &[F32]) -> (d: Distance)
        requires
            a@.len() == b@.len(),
        ensures
            d == self.dist(a@, b@),
    ;

    /// What the distance measures.
    fn metric(&self) -> (m: DistanceMetric);

    /// The name of the kernel, for logs and caches.
    fn name(&self) -> (s: &'static str);
}

/// The squared Euclidean distance in as many lanes as the machine has.
pub open spec fn l2_widest(cpu: CpuFeatures, a: Seq<F32>, b: Seq<F32>) -> F32 {
    if cpu.avx512f {
        avx512::l2_sixteen(a, b)
    } else if cpu.eight() {
        avx2::l2_eight(a, b)
    } else {
        scalar::l2_of(a, b)
    }
}

/// The squared Euclidean distance in as many lanes as the machine has.
pub fn l2_simd(cpu: &CpuFeatures, a: &[F32], b: &[F32]) -> (d: Distance)
    requires
        a@.len() == b@.len(),
    ensures
        d == l2_widest(*cpu, a@, b@),
{
    if is_avx512_supported(cpu) {
        l2_avx512(a, b)
    } else if is_avx2_supported(cpu) {
        l2_avx2(a, b)
    } else {
        l2_dynamic(a, b)
    }
}

} // verus!
