//! Which kernel a machine uses: those that are too slow are dropped, the one that answers most
//! often stays, and it must hold its speed. What was chosen can be kept, and a kernel can be forced.
use std::hint::black_box;
use std::time::{Duration, Instant};
use vstd::prelude::*;
use vstd::string::*;
use crate::config::text;
use crate::config::text::{is_white, is_word, same_text};
use crate::distance::{DistanceKernel, DistanceMetric};
use crate::distance::avx2::Avx2Kernel;
use crate::distance::avx512::Avx512Kernel;
use crate::distance::cpu::{is_avx2_supported, is_avx512_supported, CpuFeatures};
use crate::distance::scalar::ScalarKernel;
use crate::distance::single::{Distance, F32, ONE_BITS, TWO_BITS};

verus! {

/// Kernels that take this many nanoseconds or more for one distance are dropped.
pub const LATENCY_THRESHOLD_NS: u64 = 10_000;

/// A kernel.
#[derive(Debug, Clone, Copy, PartialEq, Eq, Structural)]
pub enum KernelVariant {
    /// One component at a time.
    Scalar,
    /// Eight lanes.
    Avx2,
    /// Sixteen lanes.
    Avx512,
    /// The lanes of another architecture; there is no such kernel yet.
    Neon,
}

/// A kernel that was built.
pub enum BuiltKernel {
    /// One component at a time.
    Scalar(ScalarKernel),
    /// Eight lanes.
    Avx2(Avx2Kernel),
    /// Sixteen lanes.
    Avx512(Avx512Kernel),
}

impl BuiltKernel {
    /// What the distance measures.
    pub open spec fn measures(self) -> DistanceMetric {
        match self {
            BuiltKernel::Scalar(k) => k.metric,
            BuiltKernel::Avx2(k) => k.metric,
            BuiltKernel::Avx512(k) => k.metric,
        }
    }

    /// The name.
    pub open spec fn label(self) -> Seq<char> {
        match (self, self.measures()) {
            (BuiltKernel::Scalar(_), DistanceMetric::L2) => "scalar_l2"@,
            (BuiltKernel::Scalar(_), DistanceMetric::InnerProduct) => "scalar_ip"@,
            (BuiltKernel::Avx2(_), DistanceMetric::L2) => "avx2_l2"@,
            (BuiltKernel::Avx2(_), DistanceMetric::InnerProduct) => "avx2_ip"@,
            (BuiltKernel::Avx512(_), DistanceMetric::L2) => "avx512_l2"@,
            (BuiltKernel::Avx512(_), DistanceMetric::InnerProduct) => "avx512_ip"@,
        }
    }
}

impl DistanceKernel for BuiltKernel {
    open spec fn dist(&self, a: Seq<F32>, b: Seq<F32>) -> F32 {
        match self {
            BuiltKernel::Scalar(k) => k.dist(a, b),
            BuiltKernel::Avx2(k) => k.dist(a, b),
            BuiltKernel::Avx512(k) => k.dist(a, b),
        }
    }

    fn distance(&self, a: &[F32], b: &[F32]) -> (d: Distance) {
        match self {
            BuiltKernel::Scalar(k) => k.distance(a, b),
            BuiltKernel::Avx2(k) => k.distance(a, b),
            BuiltKernel::Avx512(k) => k.distance(a, b),
        }
    }

    fn metric(&self) -> (m: DistanceMetric)
        ensures
            m == self.measures(),
    {
        match self {
            BuiltKernel::Scalar(k) => k.metric(),
            BuiltKernel::Avx2(k) => k.metric(),
            BuiltKernel::Avx512(k) => k.metric(),
        }
    }

    fn name(&self) -> (s: &'static str)
        ensures
            s@ == self.label(),
    {
        match self {
            BuiltKernel::Scalar(k) => k.name(),
            BuiltKernel::Avx2(k) => k.name(),
            BuiltKernel::Avx512(k) => k.name(),
        }
    }
}

impl KernelVariant {
    /// The name.
    pub open spec fn label(self) -> Seq<char> {
        match self {
            KernelVariant::Scalar => "scalar"@,
            KernelVariant::Avx2 => "avx2"@,
            KernelVariant::Avx512 => "avx512"@,
            KernelVariant::Neon => "neon"@,
        }
    }

    /// The name.
    pub fn name(self) -> (s: &'static str)
        ensures
            s@ == self.label(),
    {
        match self {
            KernelVariant::Scalar => "scalar",
            KernelVariant::Avx2 => "avx2",
            KernelVariant::Avx512 => "avx512",
            KernelVariant::Neon => "neon",
        }
    }

    /// The kernel with this name.
    pub open spec fn named(text: Seq<char>) -> Option<KernelVariant> {
        if text == "scalar"@ {
            Some(KernelVariant::Scalar)
        } else if text == "avx2"@ {
            Some(KernelVariant::Avx2)
        } else if text == "avx512"@ {
            Some(KernelVariant::Avx512)
        } else if text == "neon"@ {
            Some(KernelVariant::Neon)
        } else {
            None
        }
    }

    /// The kernel with this name.
    pub fn from_name(text: &str) -> (v: Option<KernelVariant>)
        ensures
            v == KernelVariant::named(text@),
    {
        if same_text(text, "scalar") {
            Some(KernelVariant::Scalar)
        } else if same_text(text, "avx2") {
            Some(KernelVariant::Avx2)
        } else if same_text(text, "avx512") {
            Some(KernelVariant::Avx512)
        } else if same_text(text, "neon") {
            Some(KernelVariant::Neon)
        } else {
            None
        }
    }

    /// What is built: the kernel itself where the machine has what it needs, else the one that
    /// every machine has.
    pub open spec fn built(self, metric: DistanceMetric, cpu: CpuFeatures) -> BuiltKernel {
        match self {
            KernelVariant::Avx2 if cpu.eight() => BuiltKernel::Avx2(Avx2Kernel { metric }),
            KernelVariant::Avx512 if cpu.avx512f => BuiltKernel::Avx512(Avx512Kernel { metric }),
            _ => BuiltKernel::Scalar(ScalarKernel { metric }),
        }
    }

    /// Builds the kernel.
    pub fn build_kernel(self, metric: DistanceMetric, cpu: &CpuFeatures) -> (k: BuiltKernel)
        ensures
            k == self.built(metric, *cpu),
    {
        match self {
            KernelVariant::Scalar => BuiltKernel::Scalar(ScalarKernel { metric }),
            KernelVariant::Avx2 => if is_avx2_supported(cpu) {
                BuiltKernel::Avx2(Avx2Kernel { metric })
            } else {
                BuiltKernel::Scalar(ScalarKernel { metric })
            },
            KernelVariant::Avx512 => if is_avx512_supported(cpu) {
                BuiltKernel::Avx512(Avx512Kernel { metric })
            } else {
                BuiltKernel::Scalar(ScalarKernel { metric })
            },
            KernelVariant::Neon => BuiltKernel::Scalar(ScalarKernel { metric }),
        }
    }
}

/// The kernels that the machine has.
pub open spec fn available(cpu: CpuFeatures) -> Seq<KernelVariant> {
    let one = seq![KernelVariant::Scalar];
    let two = if cpu.eight() {
        one.push(KernelVariant::Avx2)
    } else {
        one
    };
    if cpu.avx512f {
        two.push(KernelVariant::Avx512)
    } else {
        two
    }
}

/// The kernels that the machine has.
pub fn available_kernels(cpu: &CpuFeatures) -> (kernels: Vec<KernelVariant>)
    ensures
        kernels@ == available(*cpu),
{
    let mut kernels: Vec<KernelVariant> = Vec::new();
    kernels.push(KernelVariant::Scalar);
    assert(kernels@ =~= seq![KernelVariant::Scalar]);
    if is_avx2_supported(cpu) {
        kernels.push(KernelVariant::Avx2);
    }
    if is_avx512_supported(cpu) {
        kernels.push(KernelVariant::Avx512);
    }
    kernels
}

/// Whether the machine has the kernel.
fn is_available(cpu: &CpuFeatures, variant: KernelVariant) -> (b: bool)
    ensures
        b == available(*cpu).contains(variant),
{
    let kernels = available_kernels(cpu);
    let mut i: usize = 0;
    while i < kernels.len()
        invariant
            i <= kernels@.len(),
            kernels@ == available(*cpu),
            forall|k: int| 0 <= k < i ==> kernels@[k] != variant,
        decreases kernels@.len() - i,
    {
        if kernels[i] == variant {
            return true;
        }
        i += 1;
    }
    false
}

/// `std::time::Instant`, a point in time.
#[verifier::external_type_specification]
#[verifier::external_body]
pub struct ExInstant(std::time::Instant);

/// `Instant::now`, the present. Nothing is claimed of it.
pub assume_specification[ std::time::Instant::now ]() -> std::time::Instant
;

/// `Instant::elapsed`, the time since a point in time. Nothing is claimed of it.
pub assume_specification[ std::time::Instant::elapsed ](
    instant: &std::time::Instant,
) -> std::time::Duration
;

/// A duration in nanoseconds.
pub uninterp spec fn duration_nanos(duration: std::time::Duration) -> u128;

/// `Duration::as_nanos`, a duration in nanoseconds. Claimed: it is a function of the duration alone.
pub assume_specification[ std::time::Duration::as_nanos ](
    duration: &std::time::Duration,
) -> (nanos: u128)
    ensures
        nanos == duration_nanos(*duration),
;

/// `std::hint::black_box`, which hands back what it is given and keeps the compiler from working out
/// ahead of time what comes of it.
pub assume_specification<T>[ std::hint::black_box::<T> ](dummy: T) -> (r: T)
    ensures
        r == dummy,
;

/// A kernel was asked for the distance of two vectors.
spec fn was_asked<K: DistanceKernel>(kernel: &K, a: Seq<F32>, b: Seq<F32>) -> bool {
    exists|x: &[F32], y: &[F32], d: F32|
        x@ == a && y@ == b && #[trigger] call_ensures(K::distance, (kernel, x, y), d)
}

/// Computes a distance some times over.
fn repeat<K: DistanceKernel>(kernel: &K, a: &Vec<F32>, b: &Vec<F32>, times: u64)
    requires
        a@.len() == b@.len(),
    ensures
        times > 0 ==> was_asked(kernel, a@, b@),
{
    let mut i: u64 = 0;
    while i < times
        invariant
            a@.len() == b@.len(),
            i > 0 ==> was_asked(kernel, a@, b@),
        decreases times - i,
    {
        let x = black_box(a.as_slice());
        let y = black_box(b.as_slice());
        let d = kernel.distance(x, y);
        black_box(d);
        i += 1;
        assert(call_ensures(K::distance, (kernel, x, y), d));
    }
}

/// A vector whose components are all the same.
fn constant_vector(value: F32, dim: usize) -> (v: Vec<F32>)
    ensures
        v@ == Seq::new(dim as nat, |i: int| value),
{
    let mut v: Vec<F32> = Vec::with_capacity(dim);
    let mut i: usize = 0;
    while i < dim
        invariant
            i <= dim,
            v@ == Seq::new(i as nat, |i: int| value),
        decreases dim - i,
    {
        v.push(value);
        i += 1;
        assert(v@ =~= Seq::new(i as nat, |i: int| value));
    }
    v
}

/// The nanoseconds of one call, for a total that is cut to 64 bits.
pub fn per_call(total_ns: u128, calls: u64) -> (ns: u64)
    requires
        calls > 0,
    ensures
        ns == (total_ns as u64) / calls,
{
    (total_ns as u64) / calls
}

/// The calls per second, rounded down and at most `u64::MAX`: none where nothing was called, and
/// the most where no time passed.
pub open spec fn rate(calls: u64, nanos: u128) -> nat {
    if calls == 0 {
        0
    } else if nanos == 0 || calls * 1_000_000_000 / nanos as int > u64::MAX {
        u64::MAX as nat
    } else {
        (calls * 1_000_000_000 / nanos as int) as nat
    }
}

/// The calls per second.
pub fn calls_per_second(calls: u64, nanos: u128) -> (r: u64)
    ensures
        r == rate(calls, nanos),
{
    if calls == 0 {
        0
    } else if nanos == 0 {
        u64::MAX
    } else {
        let scaled: u128 = calls as u128 * 1_000_000_000;
        let quotient: u128 = scaled / nanos;
        if quotient > u64::MAX as u128 {
            u64::MAX
        } else {
            quotient as u64
        }
    }
}

/// The kernel that the machine has for this one has computed the distance of a vector of ones to a
/// vector of twos, `times` over.
pub closed spec fn has_computed(
    cpu: CpuFeatures,
    variant: KernelVariant,
    dim: usize,
    times: u64,
) -> bool {
    exists|a: Vec<F32>, b: Vec<F32>|
        a@ == Seq::new(dim as nat, |i: int| F32(ONE_BITS)) && b@ == Seq::new(
            dim as nat,
            |i: int| F32(TWO_BITS),
        ) && #[trigger] call_ensures(
            repeat::<BuiltKernel>,
            (&variant.built(DistanceMetric::L2, cpu), &a, &b, times),
            (),
        )
}

/// A point in time that the clock gave as the present.
pub open spec fn is_present(start: Instant) -> bool {
    call_ensures(Instant::now, (), start)
}

/// The nanoseconds that the clock says have passed since a point in time.
pub open spec fn has_passed(start: Instant, nanos: u128) -> bool {
    exists|took: Duration| #[trigger]
        call_ensures(Instant::elapsed, (&start,), took) && nanos == duration_nanos(took)
}

/// The mean of 1024 calls, for a total that the clock gave since `start`, cut to 64 bits.
pub open spec fn is_mean_latency(ns: u64, start: Instant, total_ns: u128) -> bool {
    &&& is_present(start)
    &&& has_passed(start, total_ns)
    &&& ns == (total_ns as u64) / 1024
}

/// What the clock said before each block of 1024 calls and after the last: less than `nanos` before
/// each of them and no less in the end, unless no more calls can be counted.
pub open spec fn is_run(start: Instant, readings: Seq<u128>, nanos: u128) -> bool {
    &&& is_present(start)
    &&& readings.len() >= 1
    &&& 1024 * (readings.len() - 1) <= u64::MAX
    &&& forall|i: int| 0 <= i < readings.len() ==> has_passed(start, #[trigger] readings[i])
    &&& forall|i: int| 0 <= i < readings.len() - 1 ==> (#[trigger] readings[i]) < nanos
    &&& readings.last() >= nanos || 1024 * (readings.len() - 1) > u64::MAX - 1024
}

/// The rate of such a run, which took `total_ns` by the clock.
pub open spec fn is_rate_of_run(
    qps: u64,
    start: Instant,
    readings: Seq<u128>,
    total_ns: u128,
    nanos: u128,
) -> bool {
    &&& is_run(start, readings, nanos)
    &&& has_passed(start, total_ns)
    &&& qps == rate((1024 * (readings.len() - 1)) as u64, total_ns)
}

/// A rate of a kernel that was measured over `nanos`: after 256 calls to warm up, in blocks of 1024.
pub open spec fn is_measured_rate(
    cpu: CpuFeatures,
    variant: KernelVariant,
    dim: usize,
    qps: u64,
    nanos: u128,
) -> bool {
    &&& has_computed(cpu, variant, dim, 256)
    &&& qps > 0 ==> has_computed(cpu, variant, dim, 1024)
    &&& exists|start: Instant, readings: Seq<u128>, total_ns: u128| #[trigger]
        is_rate_of_run(qps, start, readings, total_ns, nanos)
}

/// Whether a kernel held its speed, for a rate measured over a tenth of a second and one measured
/// over `nanos`.
pub open spec fn is_stability(
    cpu: CpuFeatures,
    variant: KernelVariant,
    dim: usize,
    b: bool,
    baseline: u64,
    held: u64,
    nanos: u128,
) -> bool {
    &&& is_measured_rate(cpu, variant, dim, baseline, 100_000_000)
    &&& is_measured_rate(cpu, variant, dim, held, nanos)
    &&& b == (100 * held >= 95 * baseline)
}

/// The nanoseconds that one distance takes, by the clock of this machine: sixteen calls to warm up,
/// then the mean of 1024, whatever the clock says they took.
pub fn measure_latency_ns(cpu: &CpuFeatures, variant: KernelVariant, dim: usize) -> (ns: u64)
    ensures
        has_computed(*cpu, variant, dim, 16),
        has_computed(*cpu, variant, dim, 1024),
        exists|start: Instant, total_ns: u128| #[trigger] is_mean_latency(ns, start, total_ns),
{
    let kernel = variant.build_kernel(DistanceMetric::L2, cpu);
    let a = constant_vector(F32(ONE_BITS), dim);
    let b = constant_vector(F32(TWO_BITS), dim);
    repeat(&kernel, &a, &b, 16);
    let start = Instant::now();
    repeat(&kernel, &a, &b, 1024);
    let took = start.elapsed();
    let total_ns: u128 = took.as_nanos();
    let ns: u64 = per_call(total_ns, 1024);
    proof {
        assert(call_ensures(Instant::elapsed, (&start,), took));
        assert(is_mean_latency(ns, start, total_ns));
    }
    ns
}

/// The distances per second over a tenth of a second, by the clock of this machine: the rate of the
/// calls that it left time for.
pub fn measure_qps(cpu: &CpuFeatures, variant: KernelVariant, dim: usize) -> (qps: u64)
    ensures
        is_measured_rate(*cpu, variant, dim, qps, 100_000_000),
{
    sustained(cpu, variant, dim, 100_000_000)
}

/// The distances per second over some time, by the clock of this machine: the rate of the calls that
/// it left time for. No time is time for none.
pub fn measure_qps_sustained(
    cpu: &CpuFeatures,
    variant: KernelVariant,
    dim: usize,
    duration: Duration,
) -> (qps: u64)
    ensures
        is_measured_rate(*cpu, variant, dim, qps, duration_nanos(duration)),
        duration_nanos(duration) == 0 ==> qps == 0,
{
    sustained(cpu, variant, dim, duration.as_nanos())
}

/// The distances per second over some nanoseconds: 256 calls to warm up, then 1024 at a time.
fn sustained(cpu: &CpuFeatures, variant: KernelVariant, dim: usize, nanos: u128) -> (qps: u64)
    ensures
        is_measured_rate(*cpu, variant, dim, qps, nanos),
        nanos == 0 ==> qps == 0,
{
    let kernel = variant.build_kernel(DistanceMetric::L2, cpu);
    let a = constant_vector(F32(ONE_BITS), dim);
    let b = constant_vector(F32(TWO_BITS), dim);
    repeat(&kernel, &a, &b, 256);
    let start = Instant::now();
    let mut count: u64 = 0;
    let first = start.elapsed();
    let mut passed: u128 = first.as_nanos();
    let ghost mut readings = seq![passed];
    assert(call_ensures(Instant::elapsed, (&start,), first));
    while passed < nanos && count <= u64::MAX - 1024
        invariant
            a@ == Seq::new(dim as nat, |i: int| F32(ONE_BITS)),
            b@ == Seq::new(dim as nat, |i: int| F32(TWO_BITS)),
            kernel == variant.built(DistanceMetric::L2, *cpu),
            count > 0 ==> has_computed(*cpu, variant, dim, 1024),
            is_present(start),
            readings.len() >= 1,
            count == 1024 * (readings.len() - 1),
            passed == readings.last(),
            forall|i: int| 0 <= i < readings.len() ==> has_passed(start, #[trigger] readings[i]),
            forall|i: int| 0 <= i < readings.len() - 1 ==> (#[trigger] readings[i]) < nanos,
        decreases u64::MAX - count,
    {
        repeat(&kernel, &a, &b, 1024);
        count += 1024;
        let took = start.elapsed();
        passed = took.as_nanos();
        proof {
            assert(call_ensures(Instant::elapsed, (&start,), took));
            readings = readings.push(passed);
        }
    }
    let took = start.elapsed();
    let total_ns: u128 = took.as_nanos();
    let qps: u64 = calls_per_second(count, total_ns);
    proof {
        assert(call_ensures(Instant::elapsed, (&start,), took));
        assert(is_rate_of_run(qps, start, readings, total_ns, nanos));
        if nanos == 0 && readings.len() > 1 {
            assert(readings[0] < nanos);
        }
    }
    qps
}

/// Whether a sustained speed is at least 95 hundredths of the first one.
pub fn is_stable(baseline: u64, sustained: u64) -> (b: bool)
    ensures
        b == (100 * sustained >= 95 * baseline),
{
    100 * (sustained as u128) >= 95 * (baseline as u128)
}

/// Whether a kernel holds its speed, by the clock of this machine: whether its rate over some time is
/// at least 95 hundredths of its rate over a tenth of a second.
pub fn validate_kernel_stability(
    cpu: &CpuFeatures,
    variant: KernelVariant,
    dim: usize,
    test_duration: Duration,
) -> (b: bool)
    ensures
        exists|baseline: u64, held: u64| #[trigger]
            is_stability(*cpu, variant, dim, b, baseline, held, duration_nanos(test_duration)),
{
    let baseline: u64 = measure_qps(cpu, variant, dim);
    let held: u64 = measure_qps_sustained(cpu, variant, dim, test_duration);
    let b: bool = is_stable(baseline, held);
    assert(is_stability(*cpu, variant, dim, b, baseline, held, duration_nanos(test_duration)));
    b
}

/// Something that times kernels.
pub trait KernelTimer {
    /// The nanoseconds that one distance takes.
    fn latency_ns(&self, variant: KernelVariant, dim: usize) -> u64;

    /// The distances per second.
    fn qps(&self, variant: KernelVariant, dim: usize) -> u64;

    /// Whether the kernel holds its speed over some time.
    fn holds(&self, variant: KernelVariant, dim: usize, duration: Duration) -> bool;
}

/// Times the kernels of this library by the clock of this machine.
pub struct ClockTimer {
    /// What the machine has.
    pub cpu: CpuFeatures,
}

impl KernelTimer for ClockTimer {
    fn latency_ns(&self, variant: KernelVariant, dim: usize) -> (ns: u64)
        ensures
            has_computed(self.cpu, variant, dim, 16),
            has_computed(self.cpu, variant, dim, 1024),
            exists|start: Instant, total_ns: u128| #[trigger] is_mean_latency(ns, start, total_ns),
    {
        measure_latency_ns(&self.cpu, variant, dim)
    }

    fn qps(&self, variant: KernelVariant, dim: usize) -> (qps: u64)
        ensures
            is_measured_rate(self.cpu, variant, dim, qps, 100_000_000),
    {
        measure_qps(&self.cpu, variant, dim)
    }

    fn holds(&self, variant: KernelVariant, dim: usize, duration: Duration) -> (b: bool)
        ensures
            exists|baseline: u64, held: u64| #[trigger]
                is_stability(self.cpu, variant, dim, b, baseline, held, duration_nanos(duration)),
    {
        validate_kernel_stability(&self.cpu, variant, dim, duration)
    }
}

/// The kernels that are quick enough, in order.
pub open spec fn quick(kernels: Seq<KernelVariant>, latencies: Seq<u64>) -> Seq<KernelVariant>
    decreases kernels.len(),
{
    if kernels.len() == 0 {
        Seq::empty()
    } else {
        let front = quick(kernels.drop_last(), latencies.drop_last());
        if latencies.last() < LATENCY_THRESHOLD_NS {
            front.push(kernels.last())
        } else {
            front
        }
    }
}

/// A quick kernel is one of the kernels.
pub proof fn lemma_quick_are_kernels(kernels: Seq<KernelVariant>, latencies: Seq<u64>, k: KernelVariant)
    requires
        kernels.len() == latencies.len(),
        quick(kernels, latencies).contains(k),
    ensures
        kernels.contains(k),
    decreases kernels.len(),
{
    if kernels.len() > 0 {
        let front = quick(kernels.drop_last(), latencies.drop_last());
        let i = choose|i: int|
            0 <= i < quick(kernels, latencies).len() && quick(kernels, latencies)[i] == k;
        if i < front.len() {
            assert(front[i] == k);
            lemma_quick_are_kernels(kernels.drop_last(), latencies.drop_last(), k);
            let j = choose|j: int|
                0 <= j < kernels.drop_last().len() && kernels.drop_last()[j] == k;
            assert(kernels[j] == k);
        } else {
            assert(kernels[kernels.len() - 1] == k);
        }
    }
}

/// The kernels that are quick enough.
pub fn quick_kernels(kernels: &Vec<KernelVariant>, latencies: &Vec<u64>) -> (q: Vec<KernelVariant>)
    requires
        kernels@.len() == latencies@.len(),
    ensures
        q@ == quick(kernels@, latencies@),
{
    let mut q: Vec<KernelVariant> = Vec::new();
    let mut i: usize = 0;
    while i < kernels.len()
        invariant
            i <= kernels@.len(),
            kernels@.len() == latencies@.len(),
            q@ == quick(kernels@.take(i as int), latencies@.take(i as int)),
        decreases kernels@.len() - i,
    {
        assert(kernels@.take(i + 1).drop_last() =~= kernels@.take(i as int));
        assert(latencies@.take(i + 1).drop_last() =~= latencies@.take(i as int));
        if latencies[i] < LATENCY_THRESHOLD_NS {
            q.push(kernels[i]);
        }
        i += 1;
    }
    assert(kernels@.take(i as int) =~= kernels@);
    assert(latencies@.take(i as int) =~= latencies@);
    q
}

/// The place of the kernel with the most distances per second, the last of them where several have
/// as many.
pub open spec fn is_fastest(rates: Seq<u64>, at: int) -> bool {
    &&& 0 <= at < rates.len()
    &&& forall|i: int| 0 <= i < at ==> (#[trigger] rates[i]) <= rates[at]
    &&& forall|i: int| at < i < rates.len() ==> rates[i] < rates[at]
}

/// The kernel with the most distances per second, the last of them where several have as many; the
/// one that every machine has where there is none.
pub fn finalist(kernels: &Vec<KernelVariant>, rates: &Vec<u64>) -> (k: KernelVariant)
    requires
        kernels@.len() == rates@.len(),
    ensures
        kernels@.len() == 0 ==> k == KernelVariant::Scalar,
        forall|at: int| #[trigger] is_fastest(rates@, at) ==> k == kernels@[at],
        kernels@.len() > 0 ==> exists|at: int| #[trigger]
            is_fastest(rates@, at) && k == kernels@[at],
{
    if kernels.len() == 0 {
        return KernelVariant::Scalar;
    }
    let mut at: usize = 0;
    let mut i: usize = 1;
    while i < kernels.len()
        invariant
            at < i <= kernels@.len(),
            kernels@.len() == rates@.len(),
            forall|j: int| 0 <= j < at ==> (#[trigger] rates@[j]) <= rates@[at as int],
            forall|j: int| at < j < i ==> rates@[j] < rates@[at as int],
        decreases kernels@.len() - i,
    {
        if rates[i] >= rates[at] {
            at = i;
        }
        i += 1;
    }
    assert(is_fastest(rates@, at as int));
    assert forall|other: int| #[trigger] is_fastest(rates@, other) implies other == at by {
        assert(rates@[other] <= rates@[at as int] || other > at);
    }
    kernels[at]
}

/// The finalist if it holds its speed, else the one that every machine has.
pub fn settled(finalist: KernelVariant, holds: bool, dim: usize) -> (k: KernelVariant)
    ensures
        k == (if holds {
            finalist
        } else {
            KernelVariant::Scalar
        }),
{
    if holds {
        finalist
    } else {
        fallback_kernel(dim)
    }
}

/// What the timer said of each kernel in the first stage.
pub open spec fn are_latencies<T: KernelTimer>(
    timer: &T,
    dim: usize,
    kernels: Seq<KernelVariant>,
    latencies: Seq<u64>,
) -> bool {
    &&& latencies.len() == kernels.len()
    &&& forall|i: int|
        0 <= i < kernels.len() ==> call_ensures(
            T::latency_ns,
            (timer, kernels[i], dim),
            #[trigger] latencies[i],
        )
}

/// What the timer said of each kernel in the second stage.
pub open spec fn are_rates<T: KernelTimer>(
    timer: &T,
    dim: usize,
    kernels: Seq<KernelVariant>,
    rates: Seq<u64>,
) -> bool {
    &&& rates.len() == kernels.len()
    &&& forall|i: int|
        0 <= i < kernels.len() ==> call_ensures(
            T::qps,
            (timer, kernels[i], dim),
            #[trigger] rates[i],
        )
}

/// The kernel that three stages of timing leave: of the quick ones the fastest, if it holds its
/// speed; else, and where none is quick, the one that every machine has.
pub open spec fn staged<T: KernelTimer>(
    timer: &T,
    dim: usize,
    duration: Duration,
    kernels: Seq<KernelVariant>,
    latencies: Seq<u64>,
    rates: Seq<u64>,
    at: int,
    holds: bool,
    k: KernelVariant,
) -> bool {
    let candidates = quick(kernels, latencies);
    &&& are_latencies(timer, dim, kernels, latencies)
    &&& if candidates.len() == 0 {
        k == KernelVariant::Scalar
    } else {
        &&& are_rates(timer, dim, candidates, rates)
        &&& is_fastest(rates, at)
        &&& call_ensures(T::holds, (timer, candidates[at], dim, duration), holds)
        &&& k == (if holds {
            candidates[at]
        } else {
            KernelVariant::Scalar
        })
    }
}

/// A kernel that three stages of timing can leave, over what the timer can say.
pub open spec fn is_staged<T: KernelTimer>(
    timer: &T,
    cpu: CpuFeatures,
    dim: usize,
    duration: Duration,
    k: KernelVariant,
) -> bool {
    exists|latencies: Seq<u64>, rates: Seq<u64>, at: int, holds: bool| #[trigger]
        staged(timer, dim, duration, available(cpu), latencies, rates, at, holds, k)
}

/// The choice by timing alone: what the three stages leave. Whatever the timer says, the kernel is
/// one that the machine has.
pub fn run_three_stage_selection<T: KernelTimer>(
    timer: &T,
    cpu: &CpuFeatures,
    dim: usize,
    stability_duration: Duration,
) -> (k: KernelVariant)
    ensures
        available(*cpu).contains(k),
        is_staged(timer, *cpu, dim, stability_duration, k),
{
    let kernels = available_kernels(cpu);
    assert(kernels@[0] == KernelVariant::Scalar);
    let mut latencies: Vec<u64> = Vec::new();
    let mut i: usize = 0;
    while i < kernels.len()
        invariant
            i <= kernels@.len(),
            are_latencies(timer, dim, kernels@.take(i as int), latencies@),
        decreases kernels@.len() - i,
    {
        let ghost before = latencies@;
        let ns: u64 = timer.latency_ns(kernels[i], dim);
        latencies.push(ns);
        i += 1;
        assert forall|j: int| 0 <= j < i implies call_ensures(
            T::latency_ns,
            (timer, kernels@.take(i as int)[j], dim),
            #[trigger] latencies@[j],
        ) by {
            if j < i - 1 {
                assert(latencies@[j] == before[j]);
                assert(kernels@.take(i - 1)[j] == kernels@[j]);
            }
        }
    }
    assert(kernels@.take(i as int) =~= kernels@);
    let candidates = quick_kernels(&kernels, &latencies);
    if candidates.len() == 0 {
        assert(staged(
            timer,
            dim,
            stability_duration,
            available(*cpu),
            latencies@,
            Seq::empty(),
            0,
            false,
            KernelVariant::Scalar,
        ));
        return fallback_kernel(dim);
    }
    let mut rates: Vec<u64> = Vec::new();
    let mut j: usize = 0;
    while j < candidates.len()
        invariant
            j <= candidates@.len(),
            are_rates(timer, dim, candidates@.take(j as int), rates@),
        decreases candidates@.len() - j,
    {
        let ghost before = rates@;
        let qps: u64 = timer.qps(candidates[j], dim);
        rates.push(qps);
        j += 1;
        assert forall|i: int| 0 <= i < j implies call_ensures(
            T::qps,
            (timer, candidates@.take(j as int)[i], dim),
            #[trigger] rates@[i],
        ) by {
            if i < j - 1 {
                assert(rates@[i] == before[i]);
                assert(candidates@.take(j - 1)[i] == candidates@[i]);
            }
        }
    }
    assert(candidates@.take(j as int) =~= candidates@);
    let best = finalist(&candidates, &rates);
    let ghost at = choose|at: int| #[trigger]
        is_fastest(rates@, at) && best == candidates@[at];
    proof {
        assert(candidates@.contains(best));
        lemma_quick_are_kernels(kernels@, latencies@, best);
    }
    let holds: bool = timer.holds(best, dim, stability_duration);
    let k = settled(best, holds, dim);
    assert(staged(
        timer,
        dim,
        stability_duration,
        available(*cpu),
        latencies@,
        rates@,
        at,
        holds,
        k,
    ));
    k
}

/// Whether the choice for a dimension is settled without timing: a kernel is forced, or one was kept
/// that the machine has.
pub open spec fn settled_before(
    cpu: CpuFeatures,
    dim: usize,
    forced: Option<KernelVariant>,
    cache: Option<&KernelCache>,
) -> bool {
    forced is Some || cache is Some && kept_choice(cpu, cache->0@, dim) is Some
}

/// The choice with a time for the last stage: a forced kernel comes before one that was kept, which
/// counts if the machine has it; timing comes last.
pub fn select_kernel_with_duration<T: KernelTimer>(
    timer: &T,
    cpu: &CpuFeatures,
    dim: usize,
    stability_duration: Duration,
    forced: Option<KernelVariant>,
    cache: Option<&KernelCache>,
) -> (k: KernelVariant)
    ensures
        forced matches Some(f) ==> k == f,
        forced is None && cache is Some && kept_choice(*cpu, cache->0@, dim) is Some ==> Some(k)
            == kept_choice(*cpu, cache->0@, dim),
        forced is None ==> available(*cpu).contains(k),
        !settled_before(*cpu, dim, forced, cache) ==> is_staged(
            timer,
            *cpu,
            dim,
            stability_duration,
            k,
        ),
{
    if let Some(f) = forced {
        return f;
    }
    if let Some(c) = cache {
        if let Some(k) = cached_kernel(cpu, c, dim) {
            return k;
        }
    }
    run_three_stage_selection(timer, cpu, dim, stability_duration)
}

/// The choice, with five minutes for the last stage.
pub fn select_kernel<T: KernelTimer>(
    timer: &T,
    cpu: &CpuFeatures,
    dim: usize,
    forced: Option<KernelVariant>,
    cache: Option<&KernelCache>,
) -> (k: KernelVariant)
    ensures
        forced matches Some(f) ==> k == f,
        forced is None && cache is Some && kept_choice(*cpu, cache->0@, dim) is Some ==> Some(k)
            == kept_choice(*cpu, cache->0@, dim),
        forced is None ==> available(*cpu).contains(k),
        !settled_before(*cpu, dim, forced, cache) ==> exists|duration: Duration|
            duration_nanos(duration) == 300_000_000_000 && #[trigger] is_staged(
                timer,
                *cpu,
                dim,
                duration,
                k,
            ),
{
    let duration = Duration::from_secs(300);
    let k = select_kernel_with_duration(timer, cpu, dim, duration, forced, cache);
    assert(settled_before(*cpu, dim, forced, cache) || is_staged(timer, *cpu, dim, duration, k));
    k
}

/// The choice, and what is to be kept then: a choice that was made by timing is kept for its
/// dimension beside those that were kept before, and is the one that counts the next time. Nothing
/// new is kept where the choice was forced or kept before.
pub fn select_and_keep<T: KernelTimer>(
    timer: &T,
    cpu: &CpuFeatures,
    dim: usize,
    stability_duration: Duration,
    forced: Option<KernelVariant>,
    cache: Option<KernelCache>,
    now: u64,
) -> (r: (KernelVariant, Option<KernelCache>))
    ensures
        forced matches Some(f) ==> r.0 == f,
        forced is None ==> available(*cpu).contains(r.0),
        ({
            let kept = match cache {
                Some(c) => c@,
                None => Seq::<Kept>::empty(),
            };
            if forced is Some || kept_choice(*cpu, kept, dim) is Some {
                &&& r.1 is None
                &&& forced is None ==> kept_choice(*cpu, kept, dim) == Some(r.0)
            } else {
                &&& is_staged(timer, *cpu, dim, stability_duration, r.0)
                &&& r.1 matches Some(c) && c@ == with_kept(kept, dim, r.0, now) && kept_choice(
                    *cpu,
                    c@,
                    dim,
                ) == Some(r.0)
            }
        }),
{
    let mut kept = match cache {
        Some(c) => c,
        None => KernelCache::default(),
    };
    let k = select_kernel_with_duration(timer, cpu, dim, stability_duration, forced, Some(&kept));
    if forced.is_some() || cached_kernel(cpu, &kept, dim).is_some() {
        return (k, None);
    }
    proof {
        law_kept_choices_are_found(kept@, dim, k, now, dim);
    }
    kept.set(dim, k, now);
    (k, Some(kept))
}

/// `Duration::from_secs`, a duration of some seconds. Claimed: it has that many times `10^9`
/// nanoseconds.
pub assume_specification[ std::time::Duration::from_secs ](
    secs: u64,
) -> (duration: std::time::Duration)
    ensures
        duration_nanos(duration) == secs * 1_000_000_000,
;

/// The kernel that every machine has.
pub fn fallback_kernel(_dim: usize) -> (k: KernelVariant)
    ensures
        k == KernelVariant::Scalar,
{
    KernelVariant::Scalar
}

/// The kernel that a setting names, whatever its case and the white space around it.
pub open spec fn forced_by(text: Seq<char>) -> Option<KernelVariant> {
    KernelVariant::named(text::lowered_text(text::trimmed(text)))
}

/// The kernel that a setting names: white space around it and the case of its letters do not
/// matter; any other text names none.
pub fn forced_kernel(value: &str) -> (v: Option<KernelVariant>)
    ensures
        v == forced_by(value@),
{
    let mut from: usize = 0;
    let mut to: usize = value.unicode_len();
    assert(value@.subrange(0, to as int) =~= value@);
    while from < to && is_white(value.get_char(from))
        invariant
            from <= to == value@.len(),
            text::trimmed(value@) == text::trimmed(value@.subrange(from as int, to as int)),
        decreases to - from,
    {
        assert(value@.subrange(from as int, to as int).drop_first() =~= value@.subrange(
            from + 1,
            to as int,
        ));
        from += 1;
    }
    while from < to && is_white(value.get_char(to - 1))
        invariant
            from <= to <= value@.len(),
            from < to ==> !text::white(value@[from as int]),
            text::trimmed(value@) == text::trimmed(value@.subrange(from as int, to as int)),
        decreases to - from,
    {
        assert(value@.subrange(from as int, to as int).drop_last() =~= value@.subrange(
            from as int,
            to - 1,
        ));
        to -= 1;
    }
    assert(text::trimmed(value@) == value@.subrange(from as int, to as int));
    if is_word(value, from, to, "scalar") {
        Some(KernelVariant::Scalar)
    } else if is_word(value, from, to, "avx2") {
        Some(KernelVariant::Avx2)
    } else if is_word(value, from, to, "avx512") {
        Some(KernelVariant::Avx512)
    } else if is_word(value, from, to, "neon") {
        Some(KernelVariant::Neon)
    } else {
        None
    }
}

/// A choice that was kept.
#[derive(Debug, Clone)]
pub struct KernelCacheEntry {
    /// The dimension.
    pub dim: usize,
    /// The kernel's name.
    pub kernel: String,
    /// When it was chosen, in seconds.
    pub selected_at: u64,
}

/// A choice that was kept: the dimension, the kernel's name and the time.
pub struct Kept {
    /// The dimension.
    pub dim: usize,
    /// The kernel's name.
    pub kernel: Seq<char>,
    /// The time.
    pub selected_at: u64,
}

impl View for KernelCacheEntry {
    type V = Kept;

    open spec fn view(&self) -> Kept {
        Kept { dim: self.dim, kernel: self.kernel@, selected_at: self.selected_at }
    }
}

/// The choices that were kept.
#[derive(Debug, Clone)]
pub struct KernelCache {
    /// One for each dimension.
    pub entries: Vec<KernelCacheEntry>,
}

impl View for KernelCache {
    type V = Seq<Kept>;

    open spec fn view(&self) -> Seq<Kept> {
        Seq::new(self.entries@.len(), |i: int| self.entries@[i]@)
    }
}

/// The first place of a dimension, the end where there is none.
pub open spec fn place_of(kept: Seq<Kept>, dim: usize) -> int
    decreases kept.len(),
{
    if kept.len() == 0 || kept[0].dim == dim {
        0
    } else {
        1 + place_of(kept.drop_first(), dim)
    }
}

/// The kernel kept for a dimension.
pub open spec fn kept_for(kept: Seq<Kept>, dim: usize) -> Option<KernelVariant> {
    if place_of(kept, dim) < kept.len() {
        KernelVariant::named(kept[place_of(kept, dim)].kernel)
    } else {
        None
    }
}

/// The choices after one more was kept.
pub open spec fn with_kept(
    kept: Seq<Kept>,
    dim: usize,
    variant: KernelVariant,
    now: u64,
) -> Seq<Kept> {
    let entry = Kept { dim, kernel: variant.label(), selected_at: now };
    if place_of(kept, dim) < kept.len() {
        kept.update(place_of(kept, dim), entry)
    } else {
        kept.push(entry)
    }
}

/// The kernel kept for a dimension, if the machine has it.
pub open spec fn kept_choice(
    cpu: CpuFeatures,
    kept: Seq<Kept>,
    dim: usize,
) -> Option<KernelVariant> {
    match kept_for(kept, dim) {
        Some(k) if available(cpu).contains(k) => Some(k),
        _ => None,
    }
}

/// The first place of a dimension holds it, and none before does.
pub proof fn lemma_place(kept: Seq<Kept>, dim: usize)
    ensures
        0 <= place_of(kept, dim) <= kept.len(),
        place_of(kept, dim) < kept.len() ==> kept[place_of(kept, dim)].dim == dim,
        forall|i: int| 0 <= i < place_of(kept, dim) ==> (#[trigger] kept[i]).dim != dim,
    decreases kept.len(),
{
    if kept.len() > 0 && kept[0].dim != dim {
        lemma_place(kept.drop_first(), dim);
        assert forall|i: int| 0 <= i < place_of(kept, dim) implies (#[trigger] kept[i]).dim
            != dim by {
            if i > 0 {
                assert(kept[i] == kept.drop_first()[i - 1]);
            }
        }
    }
}

/// A place that holds a dimension where none before does is the first.
pub proof fn lemma_place_is(kept: Seq<Kept>, dim: usize, at: int)
    requires
        0 <= at <= kept.len(),
        at < kept.len() ==> kept[at].dim == dim,
        forall|i: int| 0 <= i < at ==> (#[trigger] kept[i]).dim != dim,
    ensures
        place_of(kept, dim) == at,
{
    lemma_place(kept, dim);
    let p = place_of(kept, dim);
    if p < at {
        assert(kept[p].dim == dim);
    } else if at < p {
        assert(kept[at].dim != dim);
    }
}

/// A choice that was kept is found again, and the choices for other dimensions stay as they were.
pub proof fn law_kept_choices_are_found(
    kept: Seq<Kept>,
    dim: usize,
    variant: KernelVariant,
    now: u64,
    other: usize,
)
    ensures
        kept_for(with_kept(kept, dim, variant, now), dim) == Some(variant),
        other != dim ==> kept_for(with_kept(kept, dim, variant, now), other) == kept_for(
            kept,
            other,
        ),
{
    let after = with_kept(kept, dim, variant, now);
    lemma_place(kept, dim);
    lemma_place_is(after, dim, place_of(kept, dim));
    assert(KernelVariant::named(variant.label()) == Some(variant)) by {
        reveal_strlit("scalar");
        reveal_strlit("avx2");
        reveal_strlit("avx512");
        reveal_strlit("neon");
        assert("scalar"@.len() == 6 && "avx2"@.len() == 4);
        assert("avx512"@.len() == 6 && "neon"@.len() == 4);
        assert("scalar"@[0] == 's' && "avx512"@[0] == 'a');
        assert("neon"@[0] == 'n' && "avx2"@[0] == 'a');
    }
    if other != dim {
        lemma_place(kept, other);
        let p = place_of(kept, other);
        if p < kept.len() || place_of(kept, dim) < kept.len() {
            assert(forall|i: int| 0 <= i < p ==> (#[trigger] after[i]).dim != other);
            lemma_place_is(after, other, p);
        } else {
            lemma_place_is(after, other, p + 1);
        }
    }
}

impl Default for KernelCache {
    /// No choices.
    fn default() -> (c: Self)
        ensures
            c@ == Seq::<Kept>::empty(),
    {
        let c = KernelCache { entries: Vec::new() };
        assert(c@ =~= Seq::<Kept>::empty());
        c
    }
}

impl KernelCache {
    /// The first place of a dimension.
    fn place(&self, dim: usize) -> (at: usize)
        ensures
            at == place_of(self@, dim),
            at <= self.entries@.len(),
    {
        let mut at: usize = 0;
        while at < self.entries.len() && self.entries[at].dim != dim
            invariant
                at <= self.entries@.len(),
                forall|i: int| 0 <= i < at ==> (#[trigger] self@[i]).dim != dim,
            decreases self.entries@.len() - at,
        {
            at += 1;
        }
        proof {
            lemma_place_is(self@, dim, at as int);
        }
        at
    }

    /// The kernel kept for a dimension: none where there is no entry, and none where the first
    /// entry's name is no kernel's.
    pub fn get(&self, dim: usize) -> (v: Option<KernelVariant>)
        ensures
            v == kept_for(self@, dim),
    {
        let at: usize = self.place(dim);
        if at < self.entries.len() {
            KernelVariant::from_name(self.entries[at].kernel.as_str())
        } else {
            None
        }
    }

    /// Keeps the choice for a dimension, in place of one that was kept before.
    pub fn set(&mut self, dim: usize, variant: KernelVariant, now: u64)
        ensures
            final(self)@ == with_kept(old(self)@, dim, variant, now),
    {
        let at: usize = self.place(dim);
        let entry = KernelCacheEntry { dim, kernel: variant.name().to_owned(), selected_at: now };
        let ghost before = self@;
        if at < self.entries.len() {
            self.entries.set(at, entry);
        } else {
            self.entries.push(entry);
        }
        assert(self@ =~= with_kept(before, dim, variant, now));
    }
}

/// The kernel kept for a dimension, if the machine has it.
pub fn cached_kernel(cpu: &CpuFeatures, cache: &KernelCache, dim: usize) -> (v: Option<
    KernelVariant,
>)
    ensures
        v == kept_choice(*cpu, cache@, dim),
{
    match cache.get(dim) {
        Some(k) => if is_available(cpu, k) {
            Some(k)
        } else {
            None
        },
        None => None,
    }
}

} // verus!
