use raven::distance::kernel::{
    available_kernels, cached_kernel, calls_per_second, fallback_kernel, finalist, forced_kernel,
    is_stable, measure_latency_ns, measure_qps, measure_qps_sustained, per_call, quick_kernels,
    run_three_stage_selection, select_and_keep, select_kernel_with_duration, settled, ClockTimer,
    KernelCache, KernelCacheEntry, KernelTimer, KernelVariant, LATENCY_THRESHOLD_NS,
};
use raven::distance::{
    select_kernel, validate_kernel_stability, CpuFeatures, DistanceKernel, DistanceMetric,
};
use std::time::Duration;

fn everything() -> CpuFeatures {
    CpuFeatures { avx2: true, fma: true, avx512f: true, f16c: true }
}

/// Says the same of every kernel but the ones in eight lanes.
struct Told {
    eight_latency: u64,
    eight_qps: u64,
    holds: bool,
}

impl KernelTimer for Told {
    fn latency_ns(&self, variant: KernelVariant, _dim: usize) -> u64 {
        if variant == KernelVariant::Avx2 {
            self.eight_latency
        } else {
            100
        }
    }

    fn qps(&self, variant: KernelVariant, _dim: usize) -> u64 {
        if variant == KernelVariant::Avx2 {
            self.eight_qps
        } else {
            1000
        }
    }

    fn holds(&self, _variant: KernelVariant, _dim: usize, _duration: Duration) -> bool {
        self.holds
    }
}

#[test]
fn available_kernels_has_scalar() {
    let kernels = available_kernels(&CpuFeatures::portable());
    assert!(kernels.contains(&KernelVariant::Scalar));
    assert_eq!(kernels.len(), 1);
}

#[test]
fn available_kernels_has_avx2_when_supported() {
    let kernels = available_kernels(&everything());
    assert!(kernels.contains(&KernelVariant::Avx2));
    assert_eq!(
        kernels,
        vec![KernelVariant::Scalar, KernelVariant::Avx2, KernelVariant::Avx512]
    );
}

#[test]
fn measure_latency_returns_positive() {
    let lat = measure_latency_ns(&everything(), KernelVariant::Scalar, 128);
    assert!(lat > 0);
}

#[test]
fn measure_qps_returns_positive() {
    let qps = measure_qps(&everything(), KernelVariant::Scalar, 128);
    assert!(qps > 0);
}

#[test]
fn select_kernel_picks_available_candidate() {
    let cpu = everything();
    let timer = ClockTimer { cpu };
    let k = select_kernel_with_duration(&timer, &cpu, 128, Duration::from_millis(50), None, None);
    let avail = available_kernels(&cpu);
    assert!(avail.contains(&k), "selected kernel {:?} not in available {:?}", k, avail);
}

#[test]
fn env_var_forces_scalar() {
    let cpu = everything();
    let timer = ClockTimer { cpu };
    let forced = forced_kernel("scalar");
    let k = select_kernel_with_duration(&timer, &cpu, 128, Duration::from_millis(50), forced, None);
    assert_eq!(k, KernelVariant::Scalar);
}

#[test]
fn env_var_forces_avx2_when_supported() {
    let cpu = everything();
    let timer = ClockTimer { cpu };
    let forced = forced_kernel("avx2");
    let k = select_kernel_with_duration(&timer, &cpu, 128, Duration::from_millis(50), forced, None);
    assert_eq!(k, KernelVariant::Avx2);
}

#[test]
fn env_var_invalid_value_ignored() {
    let cpu = everything();
    let timer = ClockTimer { cpu };
    let forced = forced_kernel("nonsense");
    assert_eq!(forced, None);
    let k = select_kernel_with_duration(&timer, &cpu, 128, Duration::from_millis(50), forced, None);
    assert!(available_kernels(&cpu).contains(&k));
}

#[test]
fn forced_kernels_are_read_whatever_their_case() {
    assert_eq!(forced_kernel("  AVX512\n"), Some(KernelVariant::Avx512));
    assert_eq!(forced_kernel("\u{3000}Neon\u{a0}"), Some(KernelVariant::Neon));
    assert_eq!(forced_kernel("avx 2"), None);
    assert_eq!(forced_kernel(""), None);
    assert_eq!(forced_kernel("   "), None);
}

#[test]
fn kernel_cache_set_get() {
    let mut cache = KernelCache::default();
    cache.set(768, KernelVariant::Scalar, 0);
    assert_eq!(cache.get(768), Some(KernelVariant::Scalar));
    assert_eq!(cache.get(128), None);
}

#[test]
fn kernel_cache_replaces() {
    let mut cache = KernelCache::default();
    cache.set(768, KernelVariant::Avx2, 1);
    cache.set(1536, KernelVariant::Scalar, 2);
    cache.set(768, KernelVariant::Avx512, 3);
    assert_eq!(cache.get(768), Some(KernelVariant::Avx512));
    assert_eq!(cache.get(1536), Some(KernelVariant::Scalar));
    assert_eq!(cache.get(256), None);
    assert_eq!(cache.entries.len(), 2);
    assert_eq!(cache.entries[0].selected_at, 3);
}

#[test]
fn unknown_names_are_not_found() {
    let entry = KernelCacheEntry { dim: 8, kernel: "sse".to_string(), selected_at: 0 };
    let cache = KernelCache { entries: vec![entry] };
    assert_eq!(cache.get(8), None);
}

#[test]
fn kept_kernels_must_be_available() {
    let mut cache = KernelCache::default();
    cache.set(8, KernelVariant::Avx512, 0);
    assert_eq!(cached_kernel(&everything(), &cache, 8), Some(KernelVariant::Avx512));
    assert_eq!(cached_kernel(&CpuFeatures::portable(), &cache, 8), None);
    let told = Told { eight_latency: 1, eight_qps: 1, holds: true };
    let cpu = everything();
    assert_eq!(select_kernel(&told, &cpu, 8, None, Some(&cache)), KernelVariant::Avx512);
}

#[test]
fn fallback_kernel_is_scalar() {
    assert_eq!(fallback_kernel(768), KernelVariant::Scalar);
}

#[test]
fn stages_drop_slow_and_unstable_kernels() {
    let cpu = CpuFeatures { avx2: true, fma: true, avx512f: false, f16c: false };
    let choose = |told: &Told| run_three_stage_selection(told, &cpu, 8, Duration::from_millis(1));
    let fast = Told { eight_latency: 10, eight_qps: 5000, holds: true };
    assert_eq!(choose(&fast), KernelVariant::Avx2);
    let slow = Told { eight_latency: LATENCY_THRESHOLD_NS, eight_qps: 5000, holds: true };
    assert_eq!(choose(&slow), KernelVariant::Scalar);
    let unstable = Told { eight_latency: 10, eight_qps: 5000, holds: false };
    assert_eq!(choose(&unstable), KernelVariant::Scalar);
    let rare = Told { eight_latency: 10, eight_qps: 5, holds: true };
    assert_eq!(choose(&rare), KernelVariant::Scalar);
}

#[test]
fn the_last_of_the_fastest_is_chosen() {
    let kernels = vec![KernelVariant::Scalar, KernelVariant::Avx2, KernelVariant::Avx512];
    assert_eq!(finalist(&kernels, &vec![7, 7, 3]), KernelVariant::Avx2);
    assert_eq!(finalist(&kernels, &vec![9, 7, 3]), KernelVariant::Scalar);
    assert_eq!(finalist(&vec![], &vec![]), KernelVariant::Scalar);
    assert_eq!(
        quick_kernels(&kernels, &vec![9_999, 10_000, 0]),
        vec![KernelVariant::Scalar, KernelVariant::Avx512]
    );
    assert_eq!(settled(KernelVariant::Avx2, true, 8), KernelVariant::Avx2);
    assert_eq!(settled(KernelVariant::Avx2, false, 8), KernelVariant::Scalar);
}

#[test]
fn speeds_are_compared_in_hundredths() {
    assert!(is_stable(100, 95));
    assert!(!is_stable(100, 94));
    assert!(is_stable(u64::MAX, u64::MAX));
    assert_eq!(per_call(2048, 1024), 2);
    assert_eq!(calls_per_second(1024, 1_000_000_000), 1024);
    assert_eq!(calls_per_second(0, 0), 0);
    assert_eq!(calls_per_second(5, 0), u64::MAX);
    assert_eq!(calls_per_second(1, 3_000_000_000), 0);
}

#[test]
fn a_clock_is_read() {
    let stable = validate_kernel_stability(
        &everything(),
        KernelVariant::Scalar,
        4,
        Duration::from_millis(20),
    );
    // Either answer is a right one; the calls must come to an end.
    assert!(stable || !stable);
}

#[test]
fn kernels_that_are_missing_are_replaced() {
    let all = everything();
    let none = CpuFeatures::portable();
    let l2 = DistanceMetric::L2;
    assert_eq!(KernelVariant::Avx2.build_kernel(l2, &all).name(), "avx2_l2");
    assert_eq!(KernelVariant::Avx2.build_kernel(l2, &none).name(), "scalar_l2");
    assert_eq!(KernelVariant::Avx512.build_kernel(l2, &all).name(), "avx512_l2");
    assert_eq!(KernelVariant::Avx512.build_kernel(l2, &none).name(), "scalar_l2");
    assert_eq!(KernelVariant::Neon.build_kernel(l2, &all).name(), "scalar_l2");
    assert_eq!(KernelVariant::Scalar.build_kernel(l2, &all).metric(), l2);
    assert_eq!(KernelVariant::from_name(KernelVariant::Neon.name()), Some(KernelVariant::Neon));
}

#[test]
fn no_time_is_time_for_no_calls() {
    let cpu = everything();
    let scalar = KernelVariant::Scalar;
    assert_eq!(measure_qps_sustained(&cpu, scalar, 8, Duration::from_secs(0)), 0);
    assert!(measure_qps_sustained(&cpu, scalar, 8, Duration::from_millis(50)) > 0);
    assert!(!validate_kernel_stability(&cpu, scalar, 8, Duration::from_secs(0)));
    assert!(measure_latency_ns(&cpu, scalar, 8) <= u64::MAX / 1024);
}

#[test]
fn only_choices_made_by_timing_are_kept() {
    let cpu = CpuFeatures { avx2: true, fma: true, avx512f: false, f16c: false };
    let fast = Told { eight_latency: 10, eight_qps: 5000, holds: true };
    let d = Duration::from_millis(1);
    let (k, kept) = select_and_keep(&fast, &cpu, 8, d, None, None, 77);
    assert_eq!(k, KernelVariant::Avx2);
    let kept = kept.unwrap();
    assert_eq!(kept.entries.len(), 1);
    assert_eq!(kept.entries[0].selected_at, 77);
    assert_eq!(kept.get(8), Some(KernelVariant::Avx2));
    // The next time the kept choice counts, whatever the timer says.
    let slow = Told { eight_latency: LATENCY_THRESHOLD_NS, eight_qps: 5000, holds: true };
    let (k, again) = select_and_keep(&slow, &cpu, 8, d, None, Some(kept.clone()), 78);
    assert_eq!(k, KernelVariant::Avx2);
    assert!(again.is_none());
    let (k, beside) = select_and_keep(&slow, &cpu, 16, d, None, Some(kept), 79);
    assert_eq!(k, KernelVariant::Scalar);
    let beside = beside.unwrap();
    assert_eq!(beside.get(8), Some(KernelVariant::Avx2));
    assert_eq!(beside.get(16), Some(KernelVariant::Scalar));
    let forced = Some(KernelVariant::Neon);
    let (k, none) = select_and_keep(&fast, &cpu, 8, d, forced, None, 80);
    assert_eq!(k, KernelVariant::Neon);
    assert!(none.is_none());
}
