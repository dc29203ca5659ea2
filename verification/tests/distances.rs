use raven::distance::avx2::ip_avx2;
use raven::distance::dispatch::{dispatch_dynamic_slice, DispatchResult};
use raven::distance::double::F64;
use raven::distance::dynamic::ip_dynamic;
use raven::distance::ordering::sort_numbers;
use raven::distance::scalar::ip_scalar;
use raven::distance::{
    l2_avx2, l2_avx512, l2_dispatch, l2_dynamic, l2_scalar, l2_simd, Avx2Kernel, Avx512Kernel,
    CpuFeatures, DistanceKernel, DistanceMetric, ScalarKernel, F32,
};

fn numbers(values: &[f32]) -> Vec<F32> {
    values.iter().map(|x| F32(x.to_bits())).collect()
}

fn single(x: f32) -> F32 {
    F32(x.to_bits())
}

fn value(x: F32) -> f32 {
    f32::from_bits(x.0)
}

fn everything() -> CpuFeatures {
    CpuFeatures { avx2: true, fma: true, avx512f: true, f16c: true }
}

#[test]
fn l2_scalar_basic() {
    let a = numbers(&[1.0, 2.0, 3.0]);
    let b = numbers(&[4.0, 5.0, 6.0]);
    assert!((value(l2_scalar(&a, &b)) - 27.0).abs() < 1e-6);
}

#[test]
fn l2_scalar_zero() {
    let a = numbers(&[1.0, 2.0, 3.0]);
    assert!(value(l2_scalar(&a, &a)).abs() < 1e-6);
}

#[test]
fn l2_scalar_ordering() {
    let q = numbers(&[0.0, 0.0]);
    let near = numbers(&[1.0, 0.0]);
    let far = numbers(&[3.0, 4.0]);
    assert!(value(l2_scalar(&q, &near)) < value(l2_scalar(&q, &far)));
}

#[test]
fn l2_dynamic_matches_scalar() {
    let a: Vec<f32> = (0..100).map(|i| i as f32).collect();
    let b: Vec<f32> = (0..100).map(|i| (i as f32) * 2.0).collect();
    let d_scalar: f32 = a.iter().zip(&b).map(|(x, y)| (x - y) * (x - y)).sum();
    let d_dynamic = value(l2_dynamic(&numbers(&a), &numbers(&b)));
    assert!((d_scalar - d_dynamic).abs() < 1e-3);
}

#[test]
fn l2_dynamic_small() {
    let a = numbers(&[1.0, 2.0, 3.0]);
    let b = numbers(&[4.0, 5.0, 6.0]);
    assert!((value(l2_dynamic(&a, &b)) - 27.0).abs() < 1e-6);
}

#[test]
fn l2_dynamic_aligned_8() {
    let a = numbers(&[1.0; 16]);
    let b = numbers(&[2.0; 16]);
    assert!((value(l2_dynamic(&a, &b)) - 16.0).abs() < 1e-6);
}

#[test]
fn l2_dynamic_zero() {
    let a = numbers(&[1.0; 100]);
    assert!(value(l2_dynamic(&a, &a)).abs() < 1e-6);
}

#[test]
fn avx2_matches_scalar() {
    let a: Vec<f32> = (0..100).map(|i| i as f32).collect();
    let b: Vec<f32> = (0..100).map(|i| (i as f32) * 2.0).collect();
    let d_scalar: f32 = a.iter().zip(&b).map(|(x, y)| (x - y) * (x - y)).sum();
    let d_avx2 = value(l2_avx2(&numbers(&a), &numbers(&b)));
    assert!((d_scalar - d_avx2).abs() < 1e-2, "scalar={} avx2={}", d_scalar, d_avx2);
}

#[test]
fn avx2_small_vectors() {
    let a = numbers(&[1.0, 2.0, 3.0, 4.0]);
    let b = numbers(&[4.0, 5.0, 6.0, 7.0]);
    let expected = 36.0f32;
    let result = value(l2_avx2(&a, &b));
    assert!((result - expected).abs() < 1e-5, "got {} expected {}", result, expected);
}

#[test]
fn avx2_aligned_8() {
    let a = numbers(&[1.0; 16]);
    let b = numbers(&[2.0; 16]);
    assert!((value(l2_avx2(&a, &b)) - 16.0).abs() < 1e-5);
}

#[test]
fn avx2_zero_distance() {
    let a = numbers(&[1.0; 100]);
    assert!(value(l2_avx2(&a, &a)).abs() < 1e-4);
}

#[test]
fn dispatch_uses_avx2_when_available() {
    let a = numbers(&[1.0; 100]);
    let b = numbers(&[2.0; 100]);
    assert!((value(l2_dispatch(&everything(), &a, &b)) - 100.0).abs() < 1e-4);
    assert!((value(l2_dispatch(&CpuFeatures::portable(), &a, &b)) - 100.0).abs() < 1e-4);
}

#[test]
fn avx2_kernel_trait() {
    let kernel = Avx2Kernel::l2();
    let a = numbers(&[1.0; 100]);
    let b = numbers(&[2.0; 100]);
    let d = value(kernel.distance(&a, &b));
    assert!((d - 100.0).abs() < 1e-4);
    assert_eq!(kernel.name(), "avx2_l2");
}

#[test]
fn avx512_matches_scalar() {
    let a: Vec<f32> = (0..100).map(|i| i as f32).collect();
    let b: Vec<f32> = (0..100).map(|i| (i as f32) * 2.0).collect();
    let d_scalar: f32 = a.iter().zip(&b).map(|(x, y)| (x - y) * (x - y)).sum();
    let d_avx512 = value(l2_avx512(&numbers(&a), &numbers(&b)));
    assert!((d_scalar - d_avx512).abs() < 1e-2, "scalar={} avx512={}", d_scalar, d_avx512);
}

#[test]
fn avx512_small_vectors() {
    let a = numbers(&[1.0, 2.0, 3.0, 4.0]);
    let b = numbers(&[4.0, 5.0, 6.0, 7.0]);
    let result = value(l2_avx512(&a, &b));
    assert!((result - 36.0).abs() < 1e-5, "got {} expected {}", result, 36.0);
}

#[test]
fn avx512_aligned_16() {
    let a = numbers(&[1.0; 32]);
    let b = numbers(&[2.0; 32]);
    assert!((value(l2_avx512(&a, &b)) - 32.0).abs() < 1e-5);
}

#[test]
fn avx512_dim_128() {
    let a: Vec<f32> = (0..128).map(|i| i as f32).collect();
    let b: Vec<f32> = (0..128).map(|i| (i as f32 + 1.0).sin()).collect();
    let d_scalar: f32 = a.iter().zip(&b).map(|(x, y)| (x - y) * (x - y)).sum();
    let d_avx512 = value(l2_avx512(&numbers(&a), &numbers(&b)));
    let rel_err = (d_scalar - d_avx512).abs() / d_scalar.max(1.0);
    assert!(rel_err < 1e-4, "scalar={} avx512={} rel_err={}", d_scalar, d_avx512, rel_err);
}

#[test]
fn avx512_zero_distance() {
    let a = numbers(&[1.0; 100]);
    assert!(value(l2_avx512(&a, &a)).abs() < 1e-4);
}

#[test]
fn avx512_kernel_trait() {
    let kernel = Avx512Kernel::l2();
    let a = numbers(&[1.0; 100]);
    let b = numbers(&[2.0; 100]);
    let d = value(kernel.distance(&a, &b));
    assert!((d - 100.0).abs() < 1e-4);
    assert_eq!(kernel.name(), "avx512_l2");
}

#[test]
fn dispatch_known_dim() {
    let r = dispatch_dynamic_slice(128);
    assert!(matches!(r, DispatchResult::Dynamic { dim: 128 }));
}

#[test]
fn lanes_are_summed_as_the_registers_are() {
    let a: Vec<f32> = (0..21).map(|i| 0.1 + (i as f32).sin()).collect();
    let b: Vec<f32> = (0..21).map(|i| 1.3 - (i as f32).cos()).collect();
    let mut lanes = [0.0f32; 8];
    for i in 0..16 {
        let d = a[i] - b[i];
        lanes[i % 8] = d.mul_add(d, lanes[i % 8]);
    }
    let s: Vec<f32> = (0..4).map(|i| lanes[i + 4] + lanes[i]).collect();
    let mut expected = (s[0] + s[1]) + (s[2] + s[3]);
    for i in 16..21 {
        let d = a[i] - b[i];
        expected += d * d;
    }
    assert_eq!(value(l2_avx2(&numbers(&a), &numbers(&b))), expected);
}

#[test]
fn the_widest_lanes_are_used() {
    let a: Vec<f32> = (0..40).map(|i| (i as f32).sin()).collect();
    let b: Vec<f32> = (0..40).map(|i| (i as f32 * 1.7).cos()).collect();
    let (a, b) = (numbers(&a), numbers(&b));
    let mut cpu = everything();
    assert_eq!(l2_simd(&cpu, &a, &b), l2_avx512(&a, &b));
    cpu.avx512f = false;
    assert_eq!(l2_simd(&cpu, &a, &b), l2_avx2(&a, &b));
    cpu.fma = false;
    assert_eq!(l2_simd(&cpu, &a, &b), l2_dynamic(&a, &b));
}

#[test]
fn inner_products_are_negated() {
    let a = numbers(&[1.0, 2.0, 3.0]);
    let b = numbers(&[4.0, 5.0, 6.0]);
    assert_eq!(value(ip_scalar(&a, &b)), -32.0);
    assert_eq!(value(ip_dynamic(&a, &b)), -32.0);
    assert_eq!(value(ip_avx2(&a, &b)), -32.0);
    assert_eq!(value(ScalarKernel::ip().distance(&a, &b)), -32.0);
    assert_eq!(value(Avx2Kernel::ip().distance(&a, &b)), -32.0);
    assert_eq!(Avx2Kernel::ip().name(), "avx2_ip");
    assert_eq!(ScalarKernel::ip().name(), "scalar_ip");
    assert_eq!(ScalarKernel::l2().name(), "scalar_l2");
    assert_eq!(ScalarKernel::ip().metric(), DistanceMetric::InnerProduct);
}

#[test]
fn arithmetic_is_that_of_the_machine() {
    let samples = [
        0.0f32,
        -0.0,
        1.0,
        -1.5,
        3.1415927,
        1e-40,
        -7e-45,
        1.1754944e-38,
        3.4028235e38,
        -2.5e30,
        1e-20,
        123456.79,
        f32::INFINITY,
        f32::NEG_INFINITY,
        0.33333334,
    ];
    for &x in &samples {
        for &y in &samples {
            let (a, b) = (single(x), single(y));
            for (ours, theirs) in [
                (a.add(b), x + y),
                (a.sub(b), x - y),
                (a.mul(b), x * y),
                (a.div(b), x / y),
            ] {
                if theirs.is_nan() {
                    assert!(ours.is_nan(), "{} {}", x, y);
                } else {
                    assert_eq!(ours.0, theirs.to_bits(), "{} {}", x, y);
                }
            }
            assert_eq!(a.lt(b), x < y);
            assert_eq!(a.le(b), x <= y);
            for &z in &samples {
                let theirs = x.mul_add(y, z);
                let ours = a.mul_add(b, single(z));
                if theirs.is_nan() {
                    assert!(ours.is_nan());
                } else {
                    assert_eq!(ours.0, theirs.to_bits(), "{} {} {}", x, y, z);
                }
            }
        }
        if x >= 0.0 {
            assert_eq!(single(x).sqrt().0, x.sqrt().to_bits());
        }
        assert_eq!(single(x).truncate_to_usize(), x as usize);
    }
    for n in [0usize, 1, 3, 16777217, 1 << 40, usize::MAX] {
        assert_eq!(F32::from_usize(n).0, (n as f32).to_bits());
    }
}

#[test]
fn rounding_to_whole_numbers() {
    for x in [0.0f32, 0.4, 0.5, 1.5, 2.5, 2.4999998, 1e10, -3.0] {
        assert_eq!(single(x).round_to_usize(), x.round() as usize);
    }
}

#[test]
fn double_comparison_is_that_of_the_machine() {
    for &x in &[0.0f64, -0.0, 1.5, -2.0, f64::INFINITY, f64::NAN] {
        for &y in &[0.0f64, -0.0, 1.5, -2.0, f64::INFINITY, f64::NAN] {
            assert_eq!(F64(x.to_bits()).lt(F64(y.to_bits())), x < y);
        }
    }
}

#[test]
fn numbers_are_sorted() {
    let sorted = sort_numbers(&numbers(&[3.0, -1.0, 2.0, -5.5]));
    assert_eq!(sorted, numbers(&[-5.5, -1.0, 2.0, 3.0]));
}

#[test]
fn a_vector_is_at_no_distance_from_itself() {
    let a = numbers(&[1.25, -3.5, 1e30, 7e-42, 0.1]);
    assert_eq!(l2_scalar(&a, &a), F32(0));
}

#[test]
fn distances_are_symmetric_and_not_negative() {
    let a = numbers(&[1.5, -2.25, 1e20, 3.0e-39, -0.0]);
    let b = numbers(&[-7.0, 0.125, -1e20, 1.0, 4.0]);
    let d = l2_scalar(&a, &b);
    assert_eq!(d, l2_scalar(&b, &a));
    assert!(value(d) >= 0.0);
    let c = numbers(&[1.0, 2.0, -3.0]);
    let e = numbers(&[-1.0, 0.5, 5.0]);
    assert_eq!(l2_scalar(&c, &e), single(4.0 + 2.25 + 64.0));
    assert_eq!(l2_scalar(&e, &c), single(70.25));
}
