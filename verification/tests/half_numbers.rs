use raven::distance::half::F16Dataset;
use raven::distance::{
    f16_to_f32_slice, f32_to_f16_slice, is_avx2_and_f16c_supported, is_avx512_and_f16c_supported,
    is_f16c_supported, l2_f16, l2_f16_mixed, l2_f16_mixed_avx2, l2_f16_mixed_avx512,
    l2_f16_mixed_simd, l2_f16_packed, CpuFeatures, F16, F32,
};

fn numbers(values: &[f32]) -> Vec<F32> {
    values.iter().map(|x| F32(x.to_bits())).collect()
}

fn half(x: f32) -> F16 {
    F16::from_f32(F32(x.to_bits()))
}

fn value(x: F32) -> f32 {
    f32::from_bits(x.0)
}

fn everything() -> CpuFeatures {
    CpuFeatures { avx2: true, fma: true, avx512f: true, f16c: true }
}

fn direct(query: &[f32], db: &[F16]) -> f32 {
    query
        .iter()
        .zip(db.iter())
        .map(|(q, d)| {
            let diff = q - value(d.to_f32());
            diff * diff
        })
        .sum()
}

#[test]
fn f16_roundtrip_basic() {
    let values = [1.0f32, 2.0, 3.0, 0.5, -1.5, 100.0, 0.001];
    for &v in &values {
        let h = half(v);
        let restored = value(h.to_f32());
        assert!(
            (restored - v).abs() / v.max(1e-6) < 0.01,
            "f16 roundtrip failed: {} {} {}",
            v,
            h.0,
            restored
        );
    }
}

#[test]
fn f16_zero_and_inf() {
    assert_eq!(half(0.0).0, 0);
    assert_eq!(half(-0.0).0, 0x8000);
    assert_eq!(half(f32::INFINITY).0, 0x7C00);
    assert_eq!(half(f32::NEG_INFINITY).0, 0xFC00);
}

#[test]
fn f16_overflow() {
    let h = half(70000.0);
    assert_eq!(h.0 & 0x7C00, 0x7C00);
}

#[test]
fn l2_f16_matches_f32_within_tolerance() {
    let a = [1.0f32, 2.0, 3.0, 4.0, 5.0];
    let b = [1.5f32, 2.5, 3.5, 4.5, 5.5];
    let mut f32_dist = 0.0f32;
    for i in 0..a.len() {
        let d = a[i] - b[i];
        f32_dist += d * d;
    }
    let f16_dist = value(l2_f16(&numbers(&a), &numbers(&b)));
    let rel_err = (f16_dist - f32_dist).abs() / f32_dist.max(1e-6);
    assert!(rel_err < 0.01, "{} vs {}, rel_err={}", f16_dist, f32_dist, rel_err);
}

#[test]
fn l2_f16_packed_basic() {
    let a = f32_to_f16_slice(&numbers(&[1.0, 2.0, 3.0]));
    let b = f32_to_f16_slice(&numbers(&[4.0, 5.0, 6.0]));
    let dist = value(l2_f16_packed(&a, &b));
    assert!((dist - 27.0).abs() < 0.5, "l2_f16_packed: {}", dist);
}

#[test]
fn l2_f16_mixed_basic() {
    let query = numbers(&[1.0, 2.0, 3.0]);
    let db = f32_to_f16_slice(&numbers(&[4.0, 5.0, 6.0]));
    let dist = value(l2_f16_mixed(&query, &db));
    assert!((dist - 27.0).abs() < 0.5, "l2_f16_mixed: {}", dist);
}

#[test]
fn f16_sift_range_precision() {
    let values: Vec<f32> = (0..100).map(|i| i as f32 / 100.0).collect();
    let mut max_err = 0.0f32;
    for &v in &values {
        let restored = value(half(v).to_f32());
        let err = (restored - v).abs();
        max_err = max_err.max(err);
    }
    assert!(max_err < 0.001, "f16 max error in [0,1]: {}", max_err);
}

#[test]
fn l2_f16_mixed_simd_matches_scalar() {
    let query: Vec<f32> = (0..128).map(|i| i as f32 / 128.0).collect();
    let db_f32: Vec<f32> = (0..128).map(|i| (i as f32 / 128.0) * 0.9).collect();
    let db = f32_to_f16_slice(&numbers(&db_f32));
    let scalar = value(l2_f16_mixed(&numbers(&query), &db));
    let simd = value(l2_f16_mixed_simd(&everything(), &numbers(&query), &db));
    let rel_err = (scalar - simd).abs() / scalar.max(1e-6);
    assert!(rel_err < 1e-4, "scalar={} simd={} rel_err={}", scalar, simd, rel_err);
}

#[test]
fn l2_f16_mixed_avx512_dim128() {
    let query: Vec<f32> = (0..128).map(|i| i as f32).collect();
    let db_f32: Vec<f32> = (0..128).map(|i| (i as f32) * 1.1).collect();
    let db = f32_to_f16_slice(&numbers(&db_f32));
    let result = value(l2_f16_mixed_avx512(&numbers(&query), &db));
    let expected = direct(&query, &db);
    let rel_err = (result - expected).abs() / expected.max(1.0);
    assert!(rel_err < 1e-5, "result={} expected={} rel_err={}", result, expected, rel_err);
}

#[test]
fn l2_f16_mixed_avx512_small_vec() {
    let query = [1.0f32, 2.0, 3.0, 4.0, 5.0];
    let db = f32_to_f16_slice(&numbers(&[4.0, 5.0, 6.0, 7.0, 8.0]));
    let result = value(l2_f16_mixed_avx512(&numbers(&query), &db));
    let expected = direct(&query, &db);
    assert!((result - expected).abs() < 1e-4, "result={} expected={}", result, expected);
}

#[test]
fn l2_f16_mixed_avx2_dim128() {
    let query: Vec<f32> = (0..128).map(|i| i as f32).collect();
    let db_f32: Vec<f32> = (0..128).map(|i| (i as f32) * 1.1).collect();
    let db = f32_to_f16_slice(&numbers(&db_f32));
    let result = value(l2_f16_mixed_avx2(&numbers(&query), &db));
    let expected = direct(&query, &db);
    let rel_err = (result - expected).abs() / expected.max(1.0);
    assert!(rel_err < 1e-5, "result={} expected={} rel_err={}", result, expected, rel_err);
}

#[test]
fn every_half_survives_a_round_trip() {
    for bits in 0..=u16::MAX {
        let h = F16(bits);
        let back = F16::from_f32(h.to_f32());
        let is_nan = bits & 0x7C00 == 0x7C00 && bits & 0x3FF != 0;
        if is_nan {
            assert!(h.to_f32().is_nan());
        } else {
            assert_eq!(back, h);
        }
    }
}

#[test]
fn halves_are_rounded_to_nearest_even() {
    // Halfway between 1 and the next half, and between the two after that.
    assert_eq!(half(1.0 + 1.0 / 2048.0).0, 0x3C00);
    assert_eq!(half(1.0 + 3.0 / 2048.0).0, 0x3C02);
    // The fraction overflows into the exponent.
    assert_eq!(half(1.9999).0, 0x4000);
    // The smallest half, and half of it.
    assert_eq!(half(5.9604645e-8).0, 1);
    assert_eq!(half(2.9802322e-8).0, 0);
    assert_eq!(half(65504.0).0, 0x7BFF);
    assert_eq!(half(65520.0).0, 0x7C00);
}

#[test]
fn a_dataset_holds_halves() {
    let set = F16Dataset::build(&numbers(&[1.0, 2.0, 3.0, 4.0]), 2);
    assert_eq!(set.len(), 2);
    assert_eq!(set.dim(), 2);
    assert!(!set.is_empty());
    let second = f16_to_f32_slice(set.vector(1));
    assert_eq!(second, numbers(&[3.0, 4.0]));
    assert_eq!(set.codes().len(), 4);
}

#[test]
fn support_is_read_from_the_features() {
    let mut cpu = everything();
    assert!(is_f16c_supported(&cpu));
    assert!(is_avx512_and_f16c_supported(&cpu));
    assert!(is_avx2_and_f16c_supported(&cpu));
    cpu.f16c = false;
    assert!(!is_avx512_and_f16c_supported(&cpu));
    assert!(!is_avx2_and_f16c_supported(&cpu));
    let query = numbers(&[1.0, 2.0]);
    let db = f32_to_f16_slice(&numbers(&[0.0, 0.0]));
    assert_eq!(l2_f16_mixed_simd(&cpu, &query, &db), l2_f16_mixed(&query, &db));
}
