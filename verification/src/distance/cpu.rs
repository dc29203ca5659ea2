//! What the processor offers.
use vstd::prelude::*;

verus! {

/// The extensions of the instruction set that distances are computed with.
#[derive(Debug, Clone, Copy, PartialEq, Eq, Structural)]
pub struct CpuFeatures {
    /// Registers of eight numbers.
    pub avx2: bool,
    /// Fused multiplication and addition.
    pub fma: bool,
    /// Registers of sixteen numbers.
    pub avx512f: bool,
    /// Conversions of halves.
    pub f16c: bool,
}

impl CpuFeatures {
    /// No extensions.
    pub fn portable() -> (c: Self)
        ensures
            c == (CpuFeatures { avx2: false, fma: false, avx512f: false, f16c: false }),
    {
        CpuFeatures { avx2: false, fma: false, avx512f: false, f16c: false }
    }

    /// Eight lanes can be used.
    pub open spec fn eight(self) -> bool {
        self.avx2 && self.fma
    }

    /// Eight lanes can be used on halves.
    pub open spec fn eight_halves(self) -> bool {
        self.avx2 && self.f16c
    }

    /// Sixteen lanes can be used on halves.
    pub open spec fn sixteen_halves(self) -> bool {
        self.avx512f && self.f16c
    }
}

/// Eight lanes with fused multiplication can be used.
pub fn is_avx2_supported(cpu: &CpuFeatures) -> (b: bool)
    ensures
        b == cpu.eight(),
{
    cpu.avx2 && cpu.fma
}

/// Sixteen lanes can be used.
pub fn is_avx512_supported(cpu: &CpuFeatures) -> (b: bool)
    ensures
        b == cpu.avx512f,
{
    cpu.avx512f
}

/// Halves can be converted.
pub fn is_f16c_supported(cpu: &CpuFeatures) -> (b: bool)
    ensures
        b == cpu.f16c,
{
    cpu.f16c
}

/// Sixteen lanes can be used on halves.
pub fn is_avx512_and_f16c_supported(cpu: &CpuFeatures) -> (b: bool)
    ensures
        b == cpu.sixteen_halves(),
{
    cpu.avx512f && cpu.f16c
}

/// Eight lanes can be used on halves.
pub fn is_avx2_and_f16c_supported(cpu: &CpuFeatures) -> (b: bool)
    ensures
        b == cpu.eight_halves(),
{
    cpu.avx2 && cpu.f16c
}

} // verus!
