//! Which kernels a machine has, which are chosen, and that all of them measure alike.
use vstd::prelude::*;
use std::time::Duration;
use crate::config::setting_laws;
use crate::config::text;
use crate::distance;
use crate::distance::{DistanceKernel, DistanceMetric};
use crate::distance::avx2;
use crate::distance::avx2::Avx2Kernel;
use crate::distance::avx512;
use crate::distance::avx512::Avx512Kernel;
use crate::distance::cpu::CpuFeatures;
use crate::distance::exact_laws;
use crate::distance::kernel;
use crate::distance::kernel::{KernelTimer, KernelVariant, Kept};
use crate::distance::scalar;
use crate::distance::scalar::ScalarKernel;
use crate::distance::single::F32;

verus! {

/// A machine has the kernel that needs nothing, the one with eight lanes where it has AVX2 and FMA, and
/// the one with sixteen lanes where it has AVX-512. No other is offered, and none twice.
pub proof fn law_available_kernels(cpu: CpuFeatures)
    ensures
        ({
            let all = kernel::available(cpu);
            &&& all[0] == KernelVariant::Scalar
            &&& all.contains(KernelVariant::Scalar)
            &&& all.contains(KernelVariant::Avx2) <==> cpu.avx2 && cpu.fma
            &&& all.contains(KernelVariant::Avx512) <==> cpu.avx512f
            &&& !all.contains(KernelVariant::Neon)
            &&& all.no_duplicates()
        }),
{
    let all = kernel::available(cpu);
    assert(all[0] == KernelVariant::Scalar);
    if cpu.eight() {
        assert(all[1] == KernelVariant::Avx2);
    }
    if cpu.avx512f {
        assert(all[all.len() - 1] == KernelVariant::Avx512);
    }
}

/// Whatever kernel is asked for, what is built runs on the machine and has the metric. Squared distances
/// of whole numbers are the same with each, and exact; inner products are so in one lane and in eight.
pub proof fn law_built_kernels_measure_alike(
    variant: KernelVariant,
    metric: DistanceMetric,
    cpu: CpuFeatures,
    a: Seq<F32>,
    b: Seq<F32>,
    m: Seq<int>,
    n: Seq<int>,
)
    requires
        a.len() == b.len(),
        exact_laws::are_whole(a, m),
        exact_laws::are_whole(b, n),
    ensures
        ({
            let k = variant.built(metric, cpu);
            let squares = exact_laws::sum_of(exact_laws::squared_differences(m, n));
            let products = exact_laws::products(m, n);
            &&& k.measures() == metric
            &&& k is Avx2 ==> cpu.avx2 && cpu.fma
            &&& k is Avx512 ==> cpu.avx512f
            &&& variant is Avx2 && cpu.avx2 && cpu.fma ==> k is Avx2
            &&& variant is Avx512 && cpu.avx512f ==> k is Avx512
            &&& squares <= 0x100_0000 && (metric is L2 || k is Avx512) ==> exact_laws::is_whole(
                k.dist(a, b),
                squares,
            )
            &&& exact_laws::sum_of(exact_laws::sizes(products)) <= 0x100_0000
                && metric is InnerProduct && !(k is Avx512) ==> exact_laws::is_whole(
                k.dist(a, b),
                -exact_laws::sum_of(products),
            )
        }),
{
    exact_laws::law_distances_of_whole_vectors_are_exact(a, b, m, n);
    assert((Avx512Kernel { metric }).dist(a, b) == (Avx512Kernel {
        metric: DistanceMetric::L2,
    }).dist(a, b));
}

/// The kernels that are quick enough are those that take less than ten microseconds for a call.
pub proof fn law_quick_kernels(kernels: Seq<KernelVariant>, latencies: Seq<u64>, k: KernelVariant)
    requires
        kernels.len() == latencies.len(),
    ensures
        kernel::quick(kernels, latencies).contains(k) <==> exists|i: int|
            0 <= i < kernels.len() && #[trigger] kernels[i] == k && latencies[i] < 10_000,
        kernel::quick(kernels, latencies).len() <= kernels.len(),
    decreases kernels.len(),
{
    if kernels.len() > 0 {
        let l = kernels.len() - 1;
        let ks = kernels.drop_last();
        let ls = latencies.drop_last();
        law_quick_kernels(ks, ls, k);
        let front = kernel::quick(ks, ls);
        let all = kernel::quick(kernels, latencies);
        if all.contains(k) {
            let j = choose|j: int| 0 <= j < all.len() && all[j] == k;
            if j < front.len() {
                assert(front[j] == k);
                let i = choose|i: int|
                    0 <= i < ks.len() && #[trigger] ks[i] == k && ls[i] < 10_000;
                assert(kernels[i] == k && latencies[i] < 10_000);
            } else {
                assert(kernels[l] == k && latencies[l] < 10_000);
            }
        }
        if exists|i: int|
            0 <= i < kernels.len() && #[trigger] kernels[i] == k && latencies[i] < 10_000 {
            let i = choose|i: int|
                0 <= i < kernels.len() && #[trigger] kernels[i] == k && latencies[i] < 10_000;
            if i < l {
                assert(ks[i] == k && ls[i] < 10_000);
                let j = choose|j: int| 0 <= j < front.len() && front[j] == k;
                assert(all[j] == k);
            } else {
                assert(all[all.len() - 1] == k);
            }
        }
    }
}

/// The calls per second are the calls in a thousand million nanoseconds, rounded down, where that is a
/// number that can be held.
pub proof fn law_rates_are_per_second(calls: u64, nanos: u128)
    requires
        nanos > 0,
    ensures
        ({
            let r = kernel::rate(calls, nanos) as int;
            &&& r * nanos <= calls * 1_000_000_000
            &&& r < u64::MAX ==> calls * 1_000_000_000 < (r + 1) * nanos
        }),
{
    let r = kernel::rate(calls, nanos) as int;
    let total = calls * 1_000_000_000;
    let q = total / nanos as int;
    vstd::arithmetic::div_mod::lemma_fundamental_div_mod(total, nanos as int);
    assert(q * nanos <= total < (q + 1) * nanos) by (nonlinear_arith)
        requires
            total == nanos * q + total % nanos as int,
            0 <= total % nanos as int,
            total % (nanos as int) < nanos,
    ;
    if calls == 0 {
        assert(r * nanos == 0) by (nonlinear_arith)
            requires
                r == 0,
        ;
    } else {
        assert(r * nanos <= q * nanos) by (nonlinear_arith)
            requires
                r <= q,
                nanos > 0,
        ;
    }
}

/// The squared distance in as many lanes as the machine has is exact on whole numbers, whatever the
/// machine.
pub proof fn law_widest_distances_are_exact(
    cpu: CpuFeatures,
    a: Seq<F32>,
    b: Seq<F32>,
    m: Seq<int>,
    n: Seq<int>,
)
    requires
        a.len() == b.len(),
        exact_laws::are_whole(a, m),
        exact_laws::are_whole(b, n),
        exact_laws::sum_of(exact_laws::squared_differences(m, n)) <= 0x100_0000,
    ensures
        exact_laws::is_whole(
            distance::l2_widest(cpu, a, b),
            exact_laws::sum_of(exact_laws::squared_differences(m, n)),
        ),
{
    exact_laws::law_distances_of_whole_vectors_are_exact(a, b, m, n);
    assert((Avx512Kernel { metric: DistanceMetric::L2 }).dist(a, b) == avx512::l2_sixteen(a, b));
    assert((Avx2Kernel { metric: DistanceMetric::L2 }).dist(a, b) == avx2::l2_eight(a, b));
    assert((ScalarKernel { metric: DistanceMetric::L2 }).dist(a, b) == scalar::l2_of(a, b));
}

/// A choice that was kept counts where the machine has the kernel, and only there.
pub proof fn law_kept_choices_run_here(
    cpu: CpuFeatures,
    kept: Seq<Kept>,
    dim: usize,
    k: KernelVariant,
)
    ensures
        kernel::kept_choice(cpu, kept, dim) == Some(k) <==> kernel::kept_for(kept, dim) == Some(k)
            && (k is Scalar || k is Avx2 && cpu.avx2 && cpu.fma || k is Avx512 && cpu.avx512f),
{
    law_available_kernels(cpu);
}

/// A setting that names a kernel does so whatever white space stands around it; a kernel's own name
/// names it.
pub proof fn law_settings_name_kernels(s: Seq<char>, k: KernelVariant)
    ensures
        kernel::forced_by(text::trimmed(s)) == kernel::forced_by(s),
        KernelVariant::named(k.label()) == Some(k),
{
    let part = setting_laws::law_trimming_takes_off_white_space(s);
    let t = text::trimmed(s);
    if t.len() > 0 {
        assert(t[0] == s[part.0] && t.last() == s[part.1 - 1]);
    }
    assert(text::trimmed(t) == t);
    reveal_strlit("scalar");
    reveal_strlit("avx2");
    reveal_strlit("avx512");
    reveal_strlit("neon");
    assert("scalar"@.len() == 6);
    assert("avx2"@.len() == 4);
    assert("avx512"@.len() == 6);
    assert("neon"@.len() == 4);
    assert("scalar"@[0] != "avx512"@[0]);
    assert("avx2"@[0] != "neon"@[0]);
}

/// The kernel that three stages of timing leave is the one that every machine has, or a quick one that
/// held its speed and that no quick one is faster than.
pub proof fn law_the_fastest_quick_kernel_is_left<T: KernelTimer>(
    timer: &T,
    dim: usize,
    duration: Duration,
    kernels: Seq<KernelVariant>,
    latencies: Seq<u64>,
    rates: Seq<u64>,
    at: int,
    holds: bool,
    k: KernelVariant,
)
    requires
        kernel::staged(timer, dim, duration, kernels, latencies, rates, at, holds, k),
    ensures
        ({
            let quick = kernel::quick(kernels, latencies);
            &&& quick.len() == 0 || !holds ==> k == KernelVariant::Scalar
            &&& quick.len() > 0 && holds ==> {
                &&& 0 <= at < rates.len()
                &&& k == quick[at]
                &&& forall|i: int| 0 <= i < rates.len() ==> #[trigger] rates[i] <= rates[at]
                &&& call_ensures(T::holds, (timer, k, dim, duration), true)
            }
        }),
{
}

} // verus!
