//! Distances between vectors of whole numbers are exact.
//!
//! Whole numbers up to `2^24` are single-precision numbers, and sums and products that stay within
//! that limit are not rounded. So on such vectors a distance is the integer that it stands for,
//! whatever the order in which a kernel adds.
use vstd::prelude::*;
use vstd::arithmetic::power2;
use crate::distance::{DistanceKernel, DistanceMetric};
use crate::distance::arith;
use crate::distance::arith::INFINITY_BITS;
use crate::distance::avx2;
use crate::distance::avx2::Avx2Kernel;
use crate::distance::avx512;
use crate::distance::avx512::Avx512Kernel;
use crate::distance::cpu::CpuFeatures;
use crate::distance::fused;
use crate::distance::half;
use crate::distance::lanes;
use crate::distance::scalar;
use crate::distance::scalar::ScalarKernel;
use crate::distance::single::F32;
use crate::distance::sums;

verus! {

proof fn lemma_integer_units(m: nat, k: nat)
    requires
        0 < m < 0x100_0000,
        126 <= k <= 149,
        m >= power2::pow2((149 - k) as nat),
    ensures
        ({
            let x = arith::packed(false, m * power2::pow2(k), 1);
            x.finite() && !x.negative() && x.units() == m * power2::pow2(k)
        }),
    decreases k,
{
    power2::lemma2_to64();
    if m >= 0x80_0000 {
        arith::lemma_rounded_integer(m, k);
        let x = arith::packed(false, m * power2::pow2(k), 1);
        let mag = 0x80_0000 * k + m;
        assert(mag < INFINITY_BITS);
        assert(x.magnitude() == mag);
        assert(mag / 0x80_0000 == k + 1);
        assert(mag % 0x80_0000 == m - 0x80_0000);
    } else {
        assert(k > 126) by {
            if k == 126 {
                assert(power2::pow2(23) == 0x80_0000);
            }
        }
        let j = (k - 1) as nat;
        power2::lemma_pow2_unfold(k);
        power2::lemma_pow2_unfold((149 - j) as nat);
        assert(power2::pow2((149 - j) as nat) == 2 * power2::pow2((149 - k) as nat));
        lemma_integer_units(2 * m, j);
        assert((2 * m) * power2::pow2(j) == m * power2::pow2(k)) by (nonlinear_arith)
            requires
                power2::pow2(k) == 2 * power2::pow2(j),
        ;
    }
}

/// Whole numbers up to `2^24` are numbers.
pub proof fn lemma_of_int(n: nat)
    requires
        n <= 0x100_0000,
    ensures
        F32::of_int(n).finite(),
        !F32::of_int(n).negative(),
        F32::of_int(n).units() == n * power2::pow2(149),
{
    power2::lemma2_to64();
    if n == 0 {
        assert(0 * power2::pow2(149) == 0) by (nonlinear_arith);
        arith::lemma_rounded_integer(0, 0);
        assert(0 * power2::pow2(0) == 0);
        let x = F32::of_int(0);
        assert(x == F32(0));
        assert(x.units() == 0);
    } else if n < 0x100_0000 {
        lemma_integer_units(n, 149);
    } else {
        power2::lemma_pow2_unfold(150);
        arith::lemma_rounded_integer(0x80_0000, 150);
        assert(n * power2::pow2(149) == 0x80_0000 * power2::pow2(150)) by (nonlinear_arith)
            requires
                n == 0x100_0000,
                power2::pow2(150) == 2 * power2::pow2(149),
        ;
        let x = F32::of_int(n);
        let mag = 0x80_0000 * 150 + 0x80_0000;
        assert(x.magnitude() == mag);
        assert(mag / 0x80_0000 == 151);
        assert(mag % 0x80_0000 == 0);
    }
}

/// The number is the whole number `k`.
pub open spec fn is_whole(x: F32, k: int) -> bool {
    x.finite() && x.value() == k * power2::pow2(149)
}

/// An exact whole number is not rounded, at whatever scale it is given.
pub proof fn lemma_packed_whole(negative: bool, m: nat, p: nat, q: nat)
    requires
        m <= 0x100_0000,
        q > 0,
        p == (m * power2::pow2(149)) * q,
    ensures
        is_whole(
            arith::packed(negative, p, q),
            if negative {
                -(m as int)
            } else {
                m as int
            },
        ),
{
    let u = power2::pow2(149);
    lemma_of_int(m);
    arith::lemma_rounded_scale(m * u, 1, q);
    assert(1 * q == q);
    assert(arith::rounded(p, q) == arith::rounded(m * u, 1));
    let x = F32::of_int(m);
    let y = arith::packed(negative, p, q);
    let mag = arith::rounded(p, q);
    if mag >= INFINITY_BITS {
        assert(x.magnitude() == INFINITY_BITS);
    }
    assert(x.magnitude() == mag);
    assert(y.magnitude() == mag);
    assert(y.units() == x.units());
    assert(y.negative() == negative);
    assert(-(m as int) * u == -(m * u)) by (nonlinear_arith);
}

/// Whole numbers are added without rounding.
pub proof fn lemma_whole_plus(x: F32, y: F32, a: int, b: int)
    requires
        is_whole(x, a),
        is_whole(y, b),
        -0x100_0000 <= a + b <= 0x100_0000,
    ensures
        is_whole(x.plus(y), a + b),
{
    let u = power2::pow2(149) as int;
    power2::lemma_pow2_pos(149);
    let s = a + b;
    assert(a * u + b * u == s * u) by (nonlinear_arith)
        requires
            s == a + b,
    ;
    if s == 0 {
        assert(0 * u == 0);
        let z = arith::signed(x.negative() && y.negative(), 0);
        assert(z.magnitude() == 0 && z.units() == 0);
    } else {
        let m = fused::magnitude_of(s);
        assert((s * u < 0) == (s < 0)) by (nonlinear_arith)
            requires
                u > 0,
                s != 0,
        ;
        assert(s * u != 0) by (nonlinear_arith)
            requires
                u > 0,
                s != 0,
        ;
        assert(fused::magnitude_of(s * u) == m * u) by (nonlinear_arith)
            requires
                u > 0,
                m == (if s < 0 {
                    -s
                } else {
                    s
                }),
                fused::magnitude_of(s * u) == (if s * u < 0 {
                    -(s * u)
                } else {
                    s * u
                }),
                (s * u < 0) == (s < 0),
        ;
        assert((m * power2::pow2(149)) * 1 == m * power2::pow2(149));
        lemma_packed_whole(s < 0, m, (m * u) as nat, 1);
    }
}

/// A whole number has a whole opposite.
pub proof fn lemma_whole_negated(x: F32, a: int)
    requires
        is_whole(x, a),
    ensures
        is_whole(x.negated(), -a),
{
    let u = power2::pow2(149) as int;
    let y = x.negated();
    assert(y.magnitude() == x.magnitude());
    assert(y.negative() == !x.negative());
    assert(y.units() == x.units());
    assert((-a) * u == -(a * u)) by (nonlinear_arith);
}

/// Whole numbers are subtracted without rounding.
pub proof fn lemma_whole_less(x: F32, y: F32, a: int, b: int)
    requires
        is_whole(x, a),
        is_whole(y, b),
        -0x100_0000 <= a - b <= 0x100_0000,
    ensures
        is_whole(x.less(y), a - b),
{
    lemma_whole_negated(y, b);
    lemma_whole_plus(x, y.negated(), a, -b);
}

/// Whole numbers are multiplied and added without rounding.
pub proof fn lemma_whole_fused(x: F32, y: F32, z: F32, a: int, b: int, c: int)
    requires
        is_whole(x, a),
        is_whole(y, b),
        is_whole(z, c),
        -0x100_0000 <= a * b + c <= 0x100_0000,
    ensures
        is_whole(x.fused(y, z), a * b + c),
{
    let u = power2::pow2(149) as int;
    power2::lemma_pow2_pos(149);
    let s = a * b + c;
    let sum = x.value() * y.value() + z.value() * u;
    assert(sum == (s * u) * u) by (nonlinear_arith)
        requires
            sum == (a * u) * (b * u) + (c * u) * u,
            s == a * b + c,
    ;
    let w = u * u;
    assert(w > 0) by (nonlinear_arith)
        requires
            u > 0,
            w == u * u,
    ;
    assert((s * u) * u == s * w) by (nonlinear_arith)
        requires
            w == u * u,
    ;
    if s == 0 {
        assert(0 * w == 0);
        assert(0 * u == 0);
        let negative = x.negative() != y.negative();
        let r = arith::signed(negative && z.negative(), 0);
        assert(r.magnitude() == 0 && r.units() == 0);
    } else {
        let m = fused::magnitude_of(s);
        assert((s * w < 0) == (s < 0) && s * w != 0) by (nonlinear_arith)
            requires
                w > 0,
                s != 0,
        ;
        assert(fused::magnitude_of(s * w) == m * w) by (nonlinear_arith)
            requires
                w > 0,
                m == (if s < 0 {
                    -s
                } else {
                    s
                }),
                fused::magnitude_of(s * w) == (if s * w < 0 {
                    -(s * w)
                } else {
                    s * w
                }),
                (s * w < 0) == (s < 0),
        ;
        assert((m * power2::pow2(149)) * power2::pow2(149) == m * w) by (nonlinear_arith)
            requires
                w == u * u,
                u == power2::pow2(149) as int,
        ;
        lemma_packed_whole(s < 0, m, (m * w) as nat, power2::pow2(149));
    }
}

/// Whole numbers are multiplied without rounding.
pub proof fn lemma_whole_times(x: F32, y: F32, a: int, b: int)
    requires
        is_whole(x, a),
        is_whole(y, b),
        -0x100_0000 <= a * b <= 0x100_0000,
    ensures
        is_whole(x.times(y), a * b),
{
    let u = power2::pow2(149) as int;
    power2::lemma_pow2_pos(149);
    let m = fused::magnitude_of(a * b);
    let p = fused::magnitude_of(a);
    let q = fused::magnitude_of(b);
    let negative = x.negative() != y.negative();
    assert(x.units() == p * u) by (nonlinear_arith)
        requires
            x.value() == a * u,
            x.value() == (if x.negative() {
                -(x.units() as int)
            } else {
                x.units() as int
            }),
            p == (if a < 0 {
                -a
            } else {
                a
            }),
            x.units() >= 0,
            u > 0,
    ;
    assert(y.units() == q * u) by (nonlinear_arith)
        requires
            y.value() == b * u,
            y.value() == (if y.negative() {
                -(y.units() as int)
            } else {
                y.units() as int
            }),
            q == (if b < 0 {
                -b
            } else {
                b
            }),
            y.units() >= 0,
            u > 0,
    ;
    assert(m == p * q) by (nonlinear_arith)
        requires
            m == (if a * b < 0 {
                -(a * b)
            } else {
                a * b
            }),
            p == (if a < 0 {
                -a
            } else {
                a
            }),
            q == (if b < 0 {
                -b
            } else {
                b
            }),
    ;
    assert(x.units() * y.units() == (m * power2::pow2(149)) * power2::pow2(149)) by (nonlinear_arith)
        requires
            x.units() == p * u,
            y.units() == q * u,
            m == p * q,
            u == power2::pow2(149) as int,
    ;
    lemma_packed_whole(negative, m, x.units() * y.units(), power2::pow2(149));
    if a * b != 0 {
        assert(a != 0 && b != 0) by (nonlinear_arith)
            requires
                a * b != 0,
        ;
        assert(x.negative() == (a < 0)) by (nonlinear_arith)
            requires
                a != 0,
                u > 0,
                x.value() == a * u,
                x.units() >= 0,
                x.value() == (if x.negative() {
                    -(x.units() as int)
                } else {
                    x.units() as int
                }),
        ;
        assert(y.negative() == (b < 0)) by (nonlinear_arith)
            requires
                b != 0,
                u > 0,
                y.value() == b * u,
                y.units() >= 0,
                y.value() == (if y.negative() {
                    -(y.units() as int)
                } else {
                    y.units() as int
                }),
        ;
        assert((a * b < 0) == ((a < 0) != (b < 0))) by (nonlinear_arith)
            requires
                a != 0,
                b != 0,
        ;
    }
}

/// A whole multiple of a whole number is divided by it without rounding.
pub proof fn lemma_whole_over(x: F32, y: F32, a: int, b: int)
    requires
        is_whole(x, a * b),
        is_whole(y, b),
        b > 0,
        -0x100_0000 <= a <= 0x100_0000,
    ensures
        is_whole(x.over(y), a),
{
    let u = power2::pow2(149) as int;
    power2::lemma_pow2_pos(149);
    let m = fused::magnitude_of(a);
    assert(b * u > 0) by (nonlinear_arith)
        requires
            b > 0,
            u > 0,
    ;
    assert(!y.negative() && y.units() == b * u);
    assert(y.magnitude() != 0) by {
        if y.magnitude() == 0 {
            assert(y.units() == 0);
        }
    }
    assert(x.units() == m * b * u) by (nonlinear_arith)
        requires
            x.value() == (a * b) * u,
            x.value() == (if x.negative() {
                -(x.units() as int)
            } else {
                x.units() as int
            }),
            m == (if a < 0 {
                -a
            } else {
                a
            }),
            x.units() >= 0,
            b > 0,
            u > 0,
    ;
    assert(x.units() * power2::pow2(149) == (m * power2::pow2(149)) * y.units())
        by (nonlinear_arith)
        requires
            x.units() == m * b * u,
            y.units() == b * u,
            u == power2::pow2(149) as int,
    ;
    lemma_packed_whole(x.negative(), m, x.units() * power2::pow2(149), y.units());
    if a != 0 {
        assert(x.negative() == (a < 0)) by (nonlinear_arith)
            requires
                a != 0,
                b > 0,
                u > 0,
                x.value() == (a * b) * u,
                x.units() >= 0,
                x.value() == (if x.negative() {
                    -(x.units() as int)
                } else {
                    x.units() as int
                }),
        ;
    }
}

/// The components are these whole numbers.
pub open spec fn are_whole(a: Seq<F32>, m: Seq<int>) -> bool {
    &&& a.len() == m.len()
    &&& forall|i: int| 0 <= i < a.len() ==> is_whole(#[trigger] a[i], m[i])
}

/// The sum of some integers.
pub open spec fn sum_of(t: Seq<int>) -> int
    decreases t.len(),
{
    if t.len() == 0 {
        0
    } else {
        sum_of(t.drop_last()) + t.last()
    }
}

/// The squares of the differences.
pub open spec fn squared_differences(m: Seq<int>, n: Seq<int>) -> Seq<int> {
    Seq::new(m.len(), |i: int| (m[i] - n[i]) * (m[i] - n[i]))
}

/// The products.
pub open spec fn products(m: Seq<int>, n: Seq<int>) -> Seq<int> {
    Seq::new(m.len(), |i: int| m[i] * n[i])
}

/// The absolute values.
pub open spec fn sizes(t: Seq<int>) -> Seq<int> {
    Seq::new(
        t.len(),
        |i: int|
            if t[i] < 0 {
                -t[i]
            } else {
                t[i]
            },
    )
}

proof fn lemma_sum_concat(s: Seq<int>, t: Seq<int>)
    ensures
        sum_of(s + t) == sum_of(s) + sum_of(t),
    decreases t.len(),
{
    if t.len() == 0 {
        assert(s + t =~= s);
    } else {
        lemma_sum_concat(s, t.drop_last());
        assert((s + t).drop_last() =~= s + t.drop_last());
    }
}

proof fn lemma_sum_split(t: Seq<int>, k: int)
    requires
        0 <= k <= t.len(),
    ensures
        sum_of(t) == sum_of(t.take(k)) + sum_of(t.skip(k)),
{
    assert(t =~= t.take(k) + t.skip(k));
    lemma_sum_concat(t.take(k), t.skip(k));
}

/// A sum is no greater than the sum of the absolute values, which is not negative.
pub proof fn lemma_sizes(t: Seq<int>)
    ensures
        -sum_of(sizes(t)) <= sum_of(t) <= sum_of(sizes(t)),
        sum_of(sizes(t)) >= 0,
    decreases t.len(),
{
    if t.len() > 0 {
        lemma_sizes(t.drop_last());
        assert(sizes(t).drop_last() =~= sizes(t.drop_last()));
    }
}

/// A first part of the absolute values sums to no more than all of them.
proof fn lemma_sizes_part(t: Seq<int>, k: int)
    requires
        0 <= k <= t.len(),
    ensures
        sum_of(sizes(t.take(k))) <= sum_of(sizes(t)),
        sum_of(sizes(t)) == sum_of(sizes(t.take(k))) + sum_of(sizes(t.skip(k))),
{
    lemma_sum_split(sizes(t), k);
    assert(sizes(t).take(k) =~= sizes(t.take(k)));
    assert(sizes(t).skip(k) =~= sizes(t.skip(k)));
    lemma_sizes(t.skip(k));
}

/// The integers that a lane sums over the first registers.
spec fn lane_sum(t: Seq<int>, width: nat, registers: nat, lane: int) -> int
    decreases registers,
{
    if registers == 0 {
        0
    } else {
        lane_sum(t, width, (registers - 1) as nat, lane) + t[(registers - 1) * width + lane]
    }
}

/// The sum of the first `k` lanes.
spec fn lanes_sum(t: Seq<int>, width: nat, registers: nat, k: nat) -> int
    decreases k,
{
    if k == 0 {
        0
    } else {
        lanes_sum(t, width, registers, (k - 1) as nat) + lane_sum(t, width, registers, k - 1)
    }
}

proof fn lemma_lanes_step(t: Seq<int>, width: nat, registers: nat, k: nat)
    requires
        registers > 0,
        k <= width,
        (registers - 1) * width >= 0,
        (registers - 1) * width + width <= t.len(),
    ensures
        ({
            let at = (registers - 1) * width;
            lanes_sum(t, width, registers, k) == lanes_sum(t, width, (registers - 1) as nat, k)
                + sum_of(t.subrange(at, at + k))
        }),
    decreases k,
{
    let at = (registers - 1) * width;
    if k == 0 {
        assert(t.subrange(at, at + k) =~= Seq::<int>::empty());
    } else {
        lemma_lanes_step(t, width, registers, (k - 1) as nat);
        assert(t.subrange(at, at + k).drop_last() =~= t.subrange(at, at + k - 1));
        assert(t.subrange(at, at + k).last() == t[at + k - 1]);
    }
}

/// The lanes together sum what stands in the full registers.
proof fn lemma_lanes_sum(t: Seq<int>, width: nat, registers: nat)
    requires
        registers * width <= t.len(),
    ensures
        lanes_sum(t, width, registers, width) == sum_of(t.take((registers * width) as int)),
    decreases registers,
{
    if registers == 0 {
        lemma_lanes_none(t, width, width);
        assert(registers * width == 0) by (nonlinear_arith)
            requires
                registers == 0,
        ;
        assert(t.take((registers * width) as int) =~= Seq::<int>::empty());
    } else {
        let at = (registers - 1) * width;
        assert(at + width == registers * width && at >= 0) by (nonlinear_arith)
            requires
                at == (registers - 1) * width,
                registers >= 1,
        ;
        lemma_lanes_sum(t, width, (registers - 1) as nat);
        lemma_lanes_step(t, width, registers, width);
        let all = t.take((registers * width) as int);
        lemma_sum_split(all, at);
        assert(all.take(at) =~= t.take(at));
        assert(all.skip(at) =~= t.subrange(at, at + width));
    }
}

proof fn lemma_lanes_none(t: Seq<int>, width: nat, k: nat)
    ensures
        lanes_sum(t, width, 0, k) == 0,
    decreases k,
{
    if k > 0 {
        lemma_lanes_none(t, width, (k - 1) as nat);
    }
}

/// A lane's sum is no greater than the sum of the absolute values in it.
proof fn lemma_lane_size(t: Seq<int>, width: nat, registers: nat, lane: int)
    requires
        0 <= lane < width,
        registers * width <= t.len(),
    ensures
        -lane_sum(sizes(t), width, registers, lane) <= lane_sum(t, width, registers, lane)
            <= lane_sum(sizes(t), width, registers, lane),
        lane_sum(sizes(t), width, registers, lane) >= 0,
    decreases registers,
{
    if registers > 0 {
        let at = (registers - 1) * width;
        assert(at + width == registers * width && at >= 0) by (nonlinear_arith)
            requires
                at == (registers - 1) * width,
                registers >= 1,
        ;
        lemma_lane_size(t, width, (registers - 1) as nat, lane);
    }
}

proof fn lemma_lane_in_all(t: Seq<int>, width: nat, registers: nat, lane: int, k: nat)
    requires
        0 <= lane < k <= width,
        registers * width <= t.len(),
    ensures
        lane_sum(sizes(t), width, registers, lane) <= lanes_sum(sizes(t), width, registers, k),
        lanes_sum(sizes(t), width, registers, k) >= 0,
    decreases k,
{
    lemma_lane_size(t, width, registers, k - 1);
    if lane < k - 1 {
        lemma_lane_in_all(t, width, registers, lane, (k - 1) as nat);
    } else {
        lemma_lanes_not_negative(t, width, registers, (k - 1) as nat);
    }
}

proof fn lemma_lanes_not_negative(t: Seq<int>, width: nat, registers: nat, k: nat)
    requires
        k <= width,
        registers * width <= t.len(),
    ensures
        lanes_sum(sizes(t), width, registers, k) >= 0,
    decreases k,
{
    if k > 0 {
        lemma_lanes_not_negative(t, width, registers, (k - 1) as nat);
        lemma_lane_size(t, width, registers, k - 1);
    }
}

/// The lanes hold these integers.
spec fn lanes_whole(x: Seq<F32>, t: Seq<int>, width: nat, registers: nat) -> bool {
    &&& x.len() == width
    &&& forall|lane: int|
        0 <= lane < width ==> is_whole(
            #[trigger] x[lane],
            lane_sum(t, width, registers, lane),
        )
}

/// Numbers that are whole, with a limit on what their absolute values sum to.
proof fn lemma_pair(x: F32, y: F32, a: int, b: int, p: int, q: int)
    requires
        is_whole(x, a),
        is_whole(y, b),
        -p <= a <= p,
        -q <= b <= q,
        p + q <= 0x100_0000,
    ensures
        is_whole(x.plus(y), a + b),
        -(p + q) <= a + b <= p + q,
{
    lemma_whole_plus(x, y, a, b);
}

/// Eight lanes are added up without rounding.
proof fn lemma_across_whole(x: Seq<F32>, t: Seq<int>, registers: nat)
    requires
        lanes_whole(x, t, 8, registers),
        registers * 8 <= t.len(),
        sum_of(sizes(t)) <= 0x100_0000,
    ensures
        is_whole(avx2::across(x), sum_of(t.take((registers * 8) as int))),
{
    reveal_with_fuel(lanes_sum, 9);
    lemma_lanes_sum(t, 8, registers);
    lemma_lanes_sum(sizes(t), 8, registers);
    lemma_sizes_part(t, (registers * 8) as int);
    assert(sizes(t).take((registers * 8) as int) =~= sizes(t.take((registers * 8) as int)));
    let s = |lane: int| lane_sum(t, 8, registers, lane);
    let b = |lane: int| lane_sum(sizes(t), 8, registers, lane);
    assert forall|lane: int| 0 <= lane < 8 implies -#[trigger] b(lane) <= s(lane) <= b(lane)
        && b(lane) >= 0 by {
        lemma_lane_size(t, 8, registers, lane);
    }
    assert(b(0) + b(1) + b(2) + b(3) + b(4) + b(5) + b(6) + b(7) <= 0x100_0000);
    lemma_pair(x[4], x[0], s(4), s(0), b(4), b(0));
    lemma_pair(x[5], x[1], s(5), s(1), b(5), b(1));
    lemma_pair(x[6], x[2], s(6), s(2), b(6), b(2));
    lemma_pair(x[7], x[3], s(7), s(3), b(7), b(3));
    lemma_pair(
        x[4].plus(x[0]),
        x[5].plus(x[1]),
        s(4) + s(0),
        s(5) + s(1),
        b(4) + b(0),
        b(5) + b(1),
    );
    lemma_pair(
        x[6].plus(x[2]),
        x[7].plus(x[3]),
        s(6) + s(2),
        s(7) + s(3),
        b(6) + b(2),
        b(7) + b(3),
    );
    lemma_pair(
        x[4].plus(x[0]).plus(x[5].plus(x[1])),
        x[6].plus(x[2]).plus(x[7].plus(x[3])),
        s(4) + s(0) + (s(5) + s(1)),
        s(6) + s(2) + (s(7) + s(3)),
        b(4) + b(0) + (b(5) + b(1)),
        b(6) + b(2) + (b(7) + b(3)),
    );
}

/// The upper half added to the lower.
spec fn half_sums(t: Seq<int>) -> Seq<int> {
    Seq::new(t.len() / 2, |i: int| t[i] + t[i + t.len() / 2])
}

/// Adding by halves keeps the sum.
proof fn lemma_half_sums(t: Seq<int>, k: int)
    requires
        t.len() % 2 == 0,
        0 <= k <= t.len() / 2,
    ensures
        sum_of(half_sums(t).take(k)) == sum_of(t.take(k)) + sum_of(
            t.skip(t.len() as int / 2).take(k),
        ),
    decreases k,
{
    let h = t.len() as int / 2;
    if k > 0 {
        lemma_half_sums(t, k - 1);
        assert(half_sums(t).take(k).drop_last() =~= half_sums(t).take(k - 1));
        assert(t.take(k).drop_last() =~= t.take(k - 1));
        assert(t.skip(h).take(k).drop_last() =~= t.skip(h).take(k - 1));
    }
}

/// Halving whole numbers, each with a limit, gives whole numbers with the limits added up.
proof fn lemma_halved_whole(x: Seq<F32>, t: Seq<int>, b: Seq<int>)
    requires
        x.len() % 2 == 0,
        x.len() == b.len(),
        are_whole(x, t),
        forall|i: int| 0 <= i < t.len() ==> -b[i] <= #[trigger] t[i] <= b[i],
        sum_of(b) <= 0x100_0000,
    ensures
        are_whole(lanes::halved(x), half_sums(t)),
        half_sums(b).len() == half_sums(t).len(),
        forall|i: int|
            0 <= i < half_sums(t).len() ==> -half_sums(b)[i] <= #[trigger] half_sums(t)[i]
                <= half_sums(b)[i],
        sum_of(half_sums(t)) == sum_of(t),
        sum_of(half_sums(b)) == sum_of(b),
{
    let h = x.len() as int / 2;
    lemma_half_sums(t, h);
    lemma_half_sums(b, h);
    lemma_sum_split(t, h);
    lemma_sum_split(b, h);
    assert(half_sums(t).take(h) =~= half_sums(t));
    assert(half_sums(b).take(h) =~= half_sums(b));
    assert(t.skip(h).take(h) =~= t.skip(h));
    assert(b.skip(h).take(h) =~= b.skip(h));
    assert forall|i: int| 0 <= i < h implies is_whole(
        #[trigger] lanes::halved(x)[i],
        half_sums(t)[i],
    ) && -half_sums(b)[i] <= half_sums(t)[i] <= half_sums(b)[i] by {
        assert(-b[i] <= t[i] <= b[i] && -b[i + h] <= t[i + h] <= b[i + h]);
        lemma_member_limit(half_sums(b), i);
        assert forall|j: int| 0 <= j < h implies 0 <= #[trigger] half_sums(b)[j] by {
            assert(-b[j] <= t[j] <= b[j] && -b[j + h] <= t[j + h] <= b[j + h]);
        }
        assert(is_whole(x[i], t[i]) && is_whole(x[i + h], t[i + h]));
        lemma_pair(x[i], x[i + h], t[i], t[i + h], b[i], b[i + h]);
    }
}

/// None of some limits is more than all together.
proof fn lemma_member_limit(b: Seq<int>, i: int)
    requires
        0 <= i < b.len(),
    ensures
        (forall|j: int| 0 <= j < b.len() ==> 0 <= #[trigger] b[j]) ==> 0 <= b[i] <= sum_of(b),
    decreases b.len(),
{
    if forall|j: int| 0 <= j < b.len() ==> 0 <= #[trigger] b[j] {
        let short = b.drop_last();
        assert forall|j: int| 0 <= j < short.len() implies 0 <= #[trigger] short[j] by {
            assert(short[j] == b[j]);
        }
        lemma_not_negative(short);
        if i < short.len() {
            lemma_member_limit(short, i);
        }
    }
}

pub proof fn lemma_not_negative(b: Seq<int>)
    requires
        forall|j: int| 0 <= j < b.len() ==> 0 <= #[trigger] b[j],
    ensures
        sum_of(b) >= 0,
    decreases b.len(),
{
    if b.len() > 0 {
        let short = b.drop_last();
        assert forall|j: int| 0 <= j < short.len() implies 0 <= #[trigger] short[j] by {
            assert(short[j] == b[j]);
        }
        lemma_not_negative(short);
    }
}

/// Sixteen lanes are added up without rounding.
proof fn lemma_folded_whole(x: Seq<F32>, t: Seq<int>, b: Seq<int>)
    requires
        x.len() == 16,
        b.len() == 16,
        are_whole(x, t),
        forall|i: int| 0 <= i < t.len() ==> -b[i] <= #[trigger] t[i] <= b[i],
        sum_of(b) <= 0x100_0000,
    ensures
        is_whole(lanes::folded(x), sum_of(t)),
        -sum_of(b) <= sum_of(t) <= sum_of(b),
{
    let (x1, t1, b1) = (lanes::halved(x), half_sums(t), half_sums(b));
    let (x2, t2, b2) = (lanes::halved(x1), half_sums(t1), half_sums(b1));
    let (x3, t3, b3) = (lanes::halved(x2), half_sums(t2), half_sums(b2));
    let (x4, t4, b4) = (lanes::halved(x3), half_sums(t3), half_sums(b3));
    lemma_halved_whole(x, t, b);
    lemma_halved_whole(x1, t1, b1);
    lemma_halved_whole(x2, t2, b2);
    lemma_halved_whole(x3, t3, b3);
    reveal_with_fuel(sum_of, 2);
    assert(t4.len() == 1 && b4.len() == 1);
    assert(t4.drop_last() =~= Seq::<int>::empty());
    assert(b4.drop_last() =~= Seq::<int>::empty());
    assert(sum_of(t4) == t4[0] && sum_of(b4) == b4[0]);
    assert(-b4[0] <= t4[0] <= b4[0]);
    assert(is_whole(x4[0], t4[0]));
}

/// The squares of differences are their own absolute values.
proof fn lemma_squares(m: Seq<int>, n: Seq<int>)
    requires
        m.len() == n.len(),
    ensures
        sizes(squared_differences(m, n)) == squared_differences(m, n),
        forall|i: int| 0 <= i < m.len() ==> 0 <= #[trigger] squared_differences(m, n)[i],
{
    let t = squared_differences(m, n);
    assert forall|i: int| 0 <= i < m.len() implies 0 <= #[trigger] t[i] by {
        let d = m[i] - n[i];
        assert(d * d >= 0) by (nonlinear_arith);
    }
    assert(sizes(t) =~= t);
}

/// A difference is no greater than its square.
proof fn lemma_difference_limit(d: int)
    requires
        d * d <= 0x100_0000,
    ensures
        -0x100_0000 <= d <= 0x100_0000,
{
    assert(-0x100_0000 <= d <= 0x100_0000) by (nonlinear_arith)
        requires
            d * d <= 0x100_0000,
    ;
}

proof fn lemma_l2_scalar(start: F32, c: int, a: Seq<F32>, b: Seq<F32>, m: Seq<int>, n: Seq<int>)
    requires
        are_whole(a, m),
        are_whole(b, n),
        a.len() == b.len(),
        is_whole(start, c),
        0 <= c,
        c + sum_of(squared_differences(m, n)) <= 0x100_0000,
    ensures
        is_whole(lanes::l2_onto(start, a, b), c + sum_of(squared_differences(m, n))),
        sum_of(squared_differences(m, n)) >= 0,
    decreases a.len(),
{
    let t = squared_differences(m, n);
    lemma_squares(m, n);
    lemma_not_negative(t);
    if a.len() > 0 {
        let l = a.len() - 1;
        assert(t.drop_last() =~= squared_differences(m.drop_last(), n.drop_last()));
        let d = m[l] - n[l];
        assert(t.last() == d * d);
        assert(0 <= t[l]);
        assert(is_whole(a[l], m[l]) && is_whole(b[l], n[l]));
        assert forall|i: int| 0 <= i < l implies is_whole(
            #[trigger] a.drop_last()[i],
            m.drop_last()[i],
        ) by {
            assert(is_whole(a[i], m[i]));
        }
        assert forall|i: int| 0 <= i < l implies is_whole(
            #[trigger] b.drop_last()[i],
            n.drop_last()[i],
        ) by {
            assert(is_whole(b[i], n[i]));
        }
        lemma_squares(m.drop_last(), n.drop_last());
        lemma_not_negative(t.drop_last());
        lemma_l2_scalar(start, c, a.drop_last(), b.drop_last(), m.drop_last(), n.drop_last());
        lemma_difference_limit(d);
        lemma_whole_less(a[l], b[l], m[l], n[l]);
        let x = a[l].less(b[l]);
        lemma_whole_times(x, x, d, d);
        lemma_whole_plus(
            lanes::l2_onto(start, a.drop_last(), b.drop_last()),
            x.times(x),
            c + sum_of(t.drop_last()),
            d * d,
        );
    }
}

proof fn lemma_dot_scalar(start: F32, c: int, a: Seq<F32>, b: Seq<F32>, m: Seq<int>, n: Seq<int>, e: int)
    requires
        are_whole(a, m),
        are_whole(b, n),
        a.len() == b.len(),
        is_whole(start, c),
        -e <= c <= e,
        e + sum_of(sizes(products(m, n))) <= 0x100_0000,
    ensures
        is_whole(lanes::dot_onto(start, a, b), c + sum_of(products(m, n))),
    decreases a.len(),
{
    let t = products(m, n);
    if a.len() > 0 {
        let l = a.len() - 1;
        assert(t.drop_last() =~= products(m.drop_last(), n.drop_last()));
        assert(sizes(t).drop_last() =~= sizes(t.drop_last()));
        lemma_sizes(t.drop_last());
        assert(is_whole(a[l], m[l]) && is_whole(b[l], n[l]));
        assert forall|i: int| 0 <= i < l implies is_whole(
            #[trigger] a.drop_last()[i],
            m.drop_last()[i],
        ) by {
            assert(is_whole(a[i], m[i]));
        }
        assert forall|i: int| 0 <= i < l implies is_whole(
            #[trigger] b.drop_last()[i],
            n.drop_last()[i],
        ) by {
            assert(is_whole(b[i], n[i]));
        }
        lemma_dot_scalar(
            start,
            c,
            a.drop_last(),
            b.drop_last(),
            m.drop_last(),
            n.drop_last(),
            e,
        );
        lemma_whole_times(a[l], b[l], m[l], n[l]);
        lemma_whole_plus(
            lanes::dot_onto(start, a.drop_last(), b.drop_last()),
            a[l].times(b[l]),
            c + sum_of(t.drop_last()),
            m[l] * n[l],
        );
    }
}

/// The scalar sums are sums onto zero.
proof fn lemma_scalar_onto(a: Seq<F32>, b: Seq<F32>)
    requires
        a.len() == b.len(),
    ensures
        scalar::l2_of(a, b) == lanes::l2_onto(F32(0), a, b),
        scalar::dot_of(a, b) == lanes::dot_onto(F32(0), a, b),
    decreases a.len(),
{
    if a.len() > 0 {
        lemma_scalar_onto(a.drop_last(), b.drop_last());
    }
}

pub proof fn lemma_whole_zero()
    ensures
        is_whole(F32(0), 0),
{
    assert(0 * power2::pow2(149) == 0) by (nonlinear_arith);
    assert(F32(0).units() == 0);
}

proof fn lemma_l2_lane(
    a: Seq<F32>,
    b: Seq<F32>,
    m: Seq<int>,
    n: Seq<int>,
    width: nat,
    registers: nat,
    lane: int,
)
    requires
        are_whole(a, m),
        are_whole(b, n),
        a.len() == b.len(),
        0 <= lane < width,
        registers * width <= a.len(),
        lane_sum(squared_differences(m, n), width, registers, lane) <= 0x100_0000,
    ensures
        is_whole(
            lanes::l2_lane(a, b, width, registers, lane),
            lane_sum(squared_differences(m, n), width, registers, lane),
        ),
        lane_sum(squared_differences(m, n), width, registers, lane) >= 0,
    decreases registers,
{
    let t = squared_differences(m, n);
    lemma_squares(m, n);
    lemma_lane_size(t, width, registers, lane);
    if registers == 0 {
        lemma_whole_zero();
    } else {
        let at = (registers - 1) * width + lane;
        assert(0 <= at < a.len() && (registers - 1) * width <= a.len()) by (nonlinear_arith)
            requires
                at == (registers - 1) * width + lane,
                0 <= lane < width,
                registers >= 1,
                registers * width <= a.len(),
        ;
        assert(0 <= t[at]);
        lemma_lane_size(t, width, (registers - 1) as nat, lane);
        lemma_l2_lane(a, b, m, n, width, (registers - 1) as nat, lane);
        let d = m[at] - n[at];
        assert(is_whole(a[at], m[at]) && is_whole(b[at], n[at]));
        lemma_difference_limit(d);
        lemma_whole_less(a[at], b[at], m[at], n[at]);
        let x = a[at].less(b[at]);
        lemma_whole_fused(
            x,
            x,
            lanes::l2_lane(a, b, width, (registers - 1) as nat, lane),
            d,
            d,
            lane_sum(t, width, (registers - 1) as nat, lane),
        );
    }
}

proof fn lemma_dot_lane(
    a: Seq<F32>,
    b: Seq<F32>,
    m: Seq<int>,
    n: Seq<int>,
    width: nat,
    registers: nat,
    lane: int,
)
    requires
        are_whole(a, m),
        are_whole(b, n),
        a.len() == b.len(),
        0 <= lane < width,
        registers * width <= a.len(),
        lane_sum(sizes(products(m, n)), width, registers, lane) <= 0x100_0000,
    ensures
        is_whole(
            lanes::dot_lane(a, b, width, registers, lane),
            lane_sum(products(m, n), width, registers, lane),
        ),
    decreases registers,
{
    let t = products(m, n);
    lemma_lane_size(t, width, registers, lane);
    if registers == 0 {
        lemma_whole_zero();
    } else {
        let at = (registers - 1) * width + lane;
        assert(0 <= at < a.len() && (registers - 1) * width <= a.len()) by (nonlinear_arith)
            requires
                at == (registers - 1) * width + lane,
                0 <= lane < width,
                registers >= 1,
                registers * width <= a.len(),
        ;
        assert(0 <= sizes(t)[at]);
        lemma_lane_size(t, width, (registers - 1) as nat, lane);
        lemma_dot_lane(a, b, m, n, width, (registers - 1) as nat, lane);
        assert(is_whole(a[at], m[at]) && is_whole(b[at], n[at]));
        lemma_whole_fused(
            a[at],
            b[at],
            lanes::dot_lane(a, b, width, (registers - 1) as nat, lane),
            m[at],
            n[at],
            lane_sum(t, width, (registers - 1) as nat, lane),
        );
    }
}

/// What follows a place is whole as well.
proof fn lemma_skip_whole(a: Seq<F32>, m: Seq<int>, k: int)
    requires
        are_whole(a, m),
        0 <= k <= a.len(),
    ensures
        are_whole(a.skip(k), m.skip(k)),
{
    assert forall|i: int| 0 <= i < a.skip(k).len() implies is_whole(
        #[trigger] a.skip(k)[i],
        m.skip(k)[i],
    ) by {
        assert(is_whole(a[i + k], m[i + k]));
    }
}

/// On vectors of whole numbers the squared distance is the sum of the squared differences, and the
/// negated inner product is minus the sum of the products, whichever kernel computes it: in one
/// lane, in eight or in sixteen. This holds as long as the squares, or the absolute values of the
/// products, sum to no more than `2^24`.
pub proof fn law_distances_of_whole_vectors_are_exact(
    a: Seq<F32>,
    b: Seq<F32>,
    m: Seq<int>,
    n: Seq<int>,
)
    requires
        a.len() == b.len(),
        are_whole(a, m),
        are_whole(b, n),
    ensures
        sum_of(squared_differences(m, n)) <= 0x100_0000 ==> {
            let d = sum_of(squared_differences(m, n));
            &&& is_whole((ScalarKernel { metric: DistanceMetric::L2 }).dist(a, b), d)
            &&& is_whole((Avx2Kernel { metric: DistanceMetric::L2 }).dist(a, b), d)
            &&& is_whole((Avx512Kernel { metric: DistanceMetric::L2 }).dist(a, b), d)
        },
        sum_of(sizes(products(m, n))) <= 0x100_0000 ==> {
            let p = sum_of(products(m, n));
            &&& is_whole((ScalarKernel { metric: DistanceMetric::InnerProduct }).dist(a, b), -p)
            &&& is_whole((Avx2Kernel { metric: DistanceMetric::InnerProduct }).dist(a, b), -p)
        },
{
    lemma_scalar_onto(a, b);
    lemma_whole_zero();
    if sum_of(squared_differences(m, n)) <= 0x100_0000 {
        lemma_l2_scalar(F32(0), 0, a, b, m, n);
        lemma_l2_eight(a, b, m, n);
        lemma_l2_sixteen(a, b, m, n);
    }
    if sum_of(sizes(products(m, n))) <= 0x100_0000 {
        lemma_dot_scalar(F32(0), 0, a, b, m, n, 0);
        lemma_whole_negated(scalar::dot_of(a, b), sum_of(products(m, n)));
        lemma_ip_eight(a, b, m, n);
    }
}

proof fn lemma_l2_eight(a: Seq<F32>, b: Seq<F32>, m: Seq<int>, n: Seq<int>)
    requires
        a.len() == b.len(),
        are_whole(a, m),
        are_whole(b, n),
        sum_of(squared_differences(m, n)) <= 0x100_0000,
    ensures
        is_whole(avx2::l2_eight(a, b), sum_of(squared_differences(m, n))),
{
    let t = squared_differences(m, n);
    let r = a.len() / 8;
    let k = (r * 8) as int;
    lanes::lemma_registers(a.len(), 8);
    lemma_squares(m, n);
    let x = lanes::l2_lanes_of(a, b, 8);
    lemma_lanes_sum(t, 8, r);
    lemma_sum_split(t, k);
    lemma_sizes_part(t, k);
    assert(sizes(t).take(k) =~= sizes(t.take(k)));
    assert forall|lane: int| 0 <= lane < 8 implies is_whole(
        #[trigger] x[lane],
        lane_sum(t, 8, r, lane),
    ) by {
        lemma_lane_in_all(t, 8, r, lane, 8);
        lemma_l2_lane(a, b, m, n, 8, r, lane);
    }
    lemma_across_whole(x, t, r);
    lemma_sizes(t.take(k));
    lemma_skip_whole(a, m, k);
    lemma_skip_whole(b, n, k);
    assert(squared_differences(m.skip(k), n.skip(k)) =~= t.skip(k));
    lemma_l2_scalar(
        avx2::across(x),
        sum_of(t.take(k)),
        a.skip(k),
        b.skip(k),
        m.skip(k),
        n.skip(k),
    );
}

proof fn lemma_ip_eight(a: Seq<F32>, b: Seq<F32>, m: Seq<int>, n: Seq<int>)
    requires
        a.len() == b.len(),
        are_whole(a, m),
        are_whole(b, n),
        sum_of(sizes(products(m, n))) <= 0x100_0000,
    ensures
        is_whole(avx2::ip_eight(a, b), -sum_of(products(m, n))),
{
    let t = products(m, n);
    let r = a.len() / 8;
    let k = (r * 8) as int;
    lanes::lemma_registers(a.len(), 8);
    let x = lanes::dot_lanes_of(a, b, 8);
    lemma_lanes_sum(sizes(t), 8, r);
    lemma_sum_split(t, k);
    lemma_sizes_part(t, k);
    lemma_sizes(t.take(k));
    lemma_sizes(t.skip(k));
    assert(sizes(t).take(k) =~= sizes(t.take(k)));
    assert forall|lane: int| 0 <= lane < 8 implies is_whole(
        #[trigger] x[lane],
        lane_sum(t, 8, r, lane),
    ) by {
        lemma_lane_in_all(t, 8, r, lane, 8);
        lemma_dot_lane(a, b, m, n, 8, r, lane);
    }
    lemma_across_whole(x, t, r);
    lemma_skip_whole(a, m, k);
    lemma_skip_whole(b, n, k);
    assert(products(m.skip(k), n.skip(k)) =~= t.skip(k));
    lemma_dot_scalar(
        avx2::across(x),
        sum_of(t.take(k)),
        a.skip(k),
        b.skip(k),
        m.skip(k),
        n.skip(k),
        sum_of(sizes(t.take(k))),
    );
    lemma_whole_negated(
        lanes::dot_onto(avx2::across(x), a.skip(k), b.skip(k)),
        sum_of(t),
    );
}

/// The first sixteen of some integers, with zeros after their end.
spec fn padded(t: Seq<int>) -> Seq<int> {
    Seq::new(
        16,
        |i: int|
            if i < t.len() {
                t[i]
            } else {
                0
            },
    )
}

proof fn lemma_padded(t: Seq<int>, k: int)
    requires
        t.len() <= k <= 16,
    ensures
        sum_of(padded(t).take(k)) == sum_of(t),
    decreases k,
{
    if k == t.len() {
        assert(padded(t).take(k) =~= t);
    } else {
        lemma_padded(t, k - 1);
        assert(padded(t).take(k).drop_last() =~= padded(t).take(k - 1));
    }
}

proof fn lemma_lanes_seq(t: Seq<int>, width: nat, registers: nat, k: int)
    requires
        0 <= k <= width,
    ensures
        sum_of(Seq::new(width, |lane: int| lane_sum(t, width, registers, lane)).take(k))
            == lanes_sum(t, width, registers, k as nat),
    decreases k,
{
    let s = Seq::new(width, |lane: int| lane_sum(t, width, registers, lane));
    if k > 0 {
        lemma_lanes_seq(t, width, registers, k - 1);
        assert(s.take(k).drop_last() =~= s.take(k - 1));
    }
}

/// The lanes of the full registers add up to what stands in them.
proof fn lemma_sixteen_lanes(a: Seq<F32>, b: Seq<F32>, m: Seq<int>, n: Seq<int>, r: nat)
    requires
        a.len() == b.len(),
        are_whole(a, m),
        are_whole(b, n),
        r == a.len() / 16,
        sum_of(squared_differences(m, n).take((r * 16) as int)) <= 0x100_0000,
    ensures
        is_whole(
            lanes::folded(lanes::l2_lanes_of(a, b, 16)),
            sum_of(squared_differences(m, n).take((r * 16) as int)),
        ),
{
    let t = squared_differences(m, n);
    lanes::lemma_registers(a.len(), 16);
    lemma_squares(m, n);
    let x = lanes::l2_lanes_of(a, b, 16);
    lemma_lanes_sum(t, 16, r);
    let s = Seq::new(16, |lane: int| lane_sum(t, 16, r, lane));
    assert forall|lane: int| 0 <= lane < 16 implies is_whole(#[trigger] x[lane], s[lane])
        && 0 <= s[lane] by {
        lemma_lane_in_all(t, 16, r, lane, 16);
        lemma_l2_lane(a, b, m, n, 16, r, lane);
    }
    lemma_lanes_seq(t, 16, r, 16);
    assert(s.take(16) =~= s);
    assert forall|i: int| 0 <= i < s.len() implies -s[i] <= #[trigger] s[i] <= s[i] by {
        assert(is_whole(x[i], s[i]));
    }
    lemma_folded_whole(x, s, s);
}

/// What fills no register adds up to its squares.
proof fn lemma_sixteen_tail(a: Seq<F32>, b: Seq<F32>, m: Seq<int>, n: Seq<int>)
    requires
        a.len() == b.len() < 16,
        are_whole(a, m),
        are_whole(b, n),
        sum_of(squared_differences(m, n)) <= 0x100_0000,
    ensures
        is_whole(lanes::folded(avx512::l2_tail(a, b)), sum_of(squared_differences(m, n))),
{
    let t = squared_differences(m, n);
    lemma_squares(m, n);
    lemma_whole_zero();
    let y = avx512::l2_tail(a, b);
    let p = padded(t);
    lemma_padded(t, 16);
    assert(p.take(16) =~= p);
    assert forall|i: int| 0 <= i < 16 implies is_whole(#[trigger] y[i], p[i]) && 0 <= p[i] by {
        if i < t.len() {
            let d = m[i] - n[i];
            assert(0 <= t[i]);
            lemma_member_limit(t, i);
            assert(is_whole(a[i], m[i]) && is_whole(b[i], n[i]));
            lemma_difference_limit(d);
            lemma_whole_less(a[i], b[i], m[i], n[i]);
            let z = a[i].less(b[i]);
            lemma_whole_fused(z, z, F32(0), d, d, 0);
        }
    }
    assert forall|i: int| 0 <= i < p.len() implies -p[i] <= #[trigger] p[i] <= p[i] by {
        assert(is_whole(y[i], p[i]));
    }
    lemma_folded_whole(y, p, p);
}

proof fn lemma_l2_sixteen(a: Seq<F32>, b: Seq<F32>, m: Seq<int>, n: Seq<int>)
    requires
        a.len() == b.len(),
        are_whole(a, m),
        are_whole(b, n),
        sum_of(squared_differences(m, n)) <= 0x100_0000,
    ensures
        is_whole(avx512::l2_sixteen(a, b), sum_of(squared_differences(m, n))),
{
    let t = squared_differences(m, n);
    let r = a.len() / 16;
    let k = (r * 16) as int;
    lanes::lemma_registers(a.len(), 16);
    lemma_squares(m, n);
    lemma_sum_split(t, k);
    lemma_sizes_part(t, k);
    lemma_sizes(t.take(k));
    lemma_sizes(t.skip(k));
    lemma_skip_whole(a, m, k);
    lemma_skip_whole(b, n, k);
    let rest = squared_differences(m.skip(k), n.skip(k));
    assert(rest =~= t.skip(k));
    lemma_squares(m.skip(k), n.skip(k));
    lemma_not_negative(rest);
    let whole = t.take(k);
    assert forall|j: int| 0 <= j < whole.len() implies 0 <= #[trigger] whole[j] by {
        assert(0 <= t[j]);
    }
    lemma_not_negative(whole);
    lemma_sixteen_lanes(a, b, m, n, r);
    lemma_whole_zero();
    let tail_a = lanes::rest_of(a, 16);
    let tail_b = lanes::rest_of(b, 16);
    assert(tail_a =~= a.skip(k) && tail_b =~= b.skip(k));
    let start = if tail_a.len() == 0 {
        F32(0)
    } else {
        lanes::folded(avx512::l2_tail(tail_a, tail_b))
    };
    if tail_a.len() > 0 {
        lemma_sixteen_tail(tail_a, tail_b, m.skip(k), n.skip(k));
    }
    assert(is_whole(start, sum_of(rest)));
    lemma_whole_plus(
        start,
        lanes::folded(lanes::l2_lanes_of(a, b, 16)),
        sum_of(rest),
        sum_of(whole),
    );
}

/// A product is the same in both orders, rounded by itself or with a term.
proof fn lemma_product_commutes(x: F32, y: F32, z: F32)
    ensures
        x.times(y) == y.times(x),
        x.fused(y, z) == y.fused(x, z),
{
    assert(x.units() * y.units() == y.units() * x.units()) by (nonlinear_arith);
    assert(x.value() * y.value() == y.value() * x.value()) by (nonlinear_arith);
}

proof fn lemma_dot_symmetric(start: F32, a: Seq<F32>, b: Seq<F32>)
    requires
        a.len() == b.len(),
    ensures
        lanes::dot_onto(start, a, b) == lanes::dot_onto(start, b, a),
    decreases a.len(),
{
    if a.len() > 0 {
        lemma_dot_symmetric(start, a.drop_last(), b.drop_last());
        lemma_product_commutes(a.last(), b.last(), start);
    }
}

proof fn lemma_dot_lane_symmetric(a: Seq<F32>, b: Seq<F32>, width: nat, registers: nat, lane: int)
    ensures
        lanes::dot_lane(a, b, width, registers, lane) == lanes::dot_lane(
            b,
            a,
            width,
            registers,
            lane,
        ),
    decreases registers,
{
    if registers > 0 {
        let before = (registers - 1) as nat;
        lemma_dot_lane_symmetric(a, b, width, before, lane);
        let at = (registers - 1) * width + lane;
        lemma_product_commutes(a[at], b[at], lanes::dot_lane(a, b, width, before, lane));
    }
}

/// The inner product is the same in both directions, for all vectors, in one lane and in eight.
pub proof fn law_inner_product_is_symmetric(a: Seq<F32>, b: Seq<F32>)
    requires
        a.len() == b.len(),
    ensures
        ({
            let metric = DistanceMetric::InnerProduct;
            &&& (ScalarKernel { metric }).dist(a, b) == (ScalarKernel { metric }).dist(b, a)
            &&& (Avx2Kernel { metric }).dist(a, b) == (Avx2Kernel { metric }).dist(b, a)
        }),
{
    lemma_scalar_onto(a, b);
    lemma_scalar_onto(b, a);
    lemma_dot_symmetric(F32(0), a, b);
    let x = lanes::dot_lanes_of(a, b, 8);
    assert forall|lane: int| 0 <= lane < 8 implies #[trigger] x[lane] == lanes::dot_lanes_of(
        b,
        a,
        8,
    )[lane] by {
        lemma_dot_lane_symmetric(a, b, 8, a.len() / 8, lane);
    }
    assert(x =~= lanes::dot_lanes_of(b, a, 8));
    lanes::lemma_registers(a.len(), 8);
    lemma_dot_symmetric(avx2::across(x), lanes::rest_of(a, 8), lanes::rest_of(b, 8));
}

/// Whole numbers are summed up without rounding.
pub proof fn lemma_total(values: Seq<F32>, m: Seq<int>)
    requires
        are_whole(values, m),
        sum_of(sizes(m)) <= 0x100_0000,
    ensures
        is_whole(sums::total(values), sum_of(m)),
    decreases values.len(),
{
    lemma_sizes(m);
    if values.len() == 0 {
        lemma_whole_zero();
    } else {
        let short = m.drop_last();
        assert(sizes(m).drop_last() =~= sizes(short));
        lemma_sizes(short);
        assert(is_whole(values[values.len() - 1], m[m.len() - 1]));
        assert(are_whole(values.drop_last(), short)) by {
            assert forall|i: int| 0 <= i < short.len() implies is_whole(
                #[trigger] values.drop_last()[i],
                short[i],
            ) by {
                assert(is_whole(values[i], m[i]));
            }
        }
        lemma_total(values.drop_last(), short);
        lemma_whole_plus(
            sums::total(values.drop_last()),
            values.last(),
            sum_of(short),
            m.last(),
        );
    }
}

proof fn lemma_fused_l2(a: Seq<F32>, b: Seq<F32>, m: Seq<int>, n: Seq<int>)
    requires
        are_whole(a, m),
        are_whole(b, n),
        a.len() == b.len(),
        sum_of(squared_differences(m, n)) <= 0x100_0000,
    ensures
        is_whole(half::fused_l2_of(a, b), sum_of(squared_differences(m, n))),
    decreases a.len(),
{
    let t = squared_differences(m, n);
    lemma_squares(m, n);
    lemma_not_negative(t);
    lemma_whole_zero();
    if a.len() > 0 {
        let l = a.len() - 1;
        let short = squared_differences(m.drop_last(), n.drop_last());
        assert(t.drop_last() =~= short);
        let d = m[l] - n[l];
        assert(t.last() == d * d);
        assert(0 <= t[l]);
        assert(is_whole(a[l], m[l]) && is_whole(b[l], n[l]));
        assert forall|i: int| 0 <= i < l implies is_whole(
            #[trigger] a.drop_last()[i],
            m.drop_last()[i],
        ) by {
            assert(is_whole(a[i], m[i]));
        }
        assert forall|i: int| 0 <= i < l implies is_whole(
            #[trigger] b.drop_last()[i],
            n.drop_last()[i],
        ) by {
            assert(is_whole(b[i], n[i]));
        }
        lemma_squares(m.drop_last(), n.drop_last());
        lemma_not_negative(short);
        lemma_fused_l2(a.drop_last(), b.drop_last(), m.drop_last(), n.drop_last());
        lemma_difference_limit(d);
        lemma_whole_less(a[l], b[l], m[l], n[l]);
        let x = a[l].less(b[l]);
        lemma_whole_fused(
            x,
            x,
            half::fused_l2_of(a.drop_last(), b.drop_last()),
            d,
            d,
            sum_of(short),
        );
    }
}

proof fn lemma_eight_lanes(a: Seq<F32>, b: Seq<F32>, m: Seq<int>, n: Seq<int>, r: nat)
    requires
        a.len() == b.len(),
        are_whole(a, m),
        are_whole(b, n),
        r == a.len() / 8,
        sum_of(squared_differences(m, n).take((r * 8) as int)) <= 0x100_0000,
    ensures
        is_whole(
            sums::total(lanes::l2_lanes_of(a, b, 8)),
            sum_of(squared_differences(m, n).take((r * 8) as int)),
        ),
{
    let t = squared_differences(m, n);
    lanes::lemma_registers(a.len(), 8);
    lemma_squares(m, n);
    let x = lanes::l2_lanes_of(a, b, 8);
    lemma_lanes_sum(t, 8, r);
    let s = Seq::new(8, |lane: int| lane_sum(t, 8, r, lane));
    assert forall|lane: int| 0 <= lane < 8 implies is_whole(#[trigger] x[lane], s[lane])
        && 0 <= s[lane] by {
        lemma_lane_in_all(t, 8, r, lane, 8);
        lemma_l2_lane(a, b, m, n, 8, r, lane);
    }
    lemma_lanes_seq(t, 8, r, 8);
    assert(s.take(8) =~= s);
    assert(sizes(s) =~= s) by {
        assert forall|i: int| 0 <= i < 8 implies sizes(s)[i] == s[i] by {
            assert(is_whole(x[i], s[i]));
        }
    }
    lemma_total(x, s);
}

/// The squared distances of vectors that hold halves are exact where the components are whole and the
/// sum is not rounded: the same in one lane, in eight lanes and in sixteen.
pub proof fn law_distances_of_whole_halves_are_exact(
    a: Seq<F32>,
    b: Seq<F32>,
    m: Seq<int>,
    n: Seq<int>,
    cpu: CpuFeatures,
)
    requires
        a.len() == b.len(),
        are_whole(a, m),
        are_whole(b, n),
        sum_of(squared_differences(m, n)) <= 0x100_0000,
    ensures
        is_whole(half::fused_l2_of(a, b), sum_of(squared_differences(m, n))),
        is_whole(half::mixed_eight(a, b), sum_of(squared_differences(m, n))),
        is_whole(half::mixed_sixteen(a, b), sum_of(squared_differences(m, n))),
        is_whole(half::mixed_widest(cpu, a, b), sum_of(squared_differences(m, n))),
{
    lemma_fused_l2(a, b, m, n);
    lemma_mixed(a, b, m, n, 8);
    lemma_mixed(a, b, m, n, 16);
}

proof fn lemma_mixed(a: Seq<F32>, b: Seq<F32>, m: Seq<int>, n: Seq<int>, width: nat)
    requires
        a.len() == b.len(),
        are_whole(a, m),
        are_whole(b, n),
        sum_of(squared_differences(m, n)) <= 0x100_0000,
        width == 8 || width == 16,
    ensures
        width == 8 ==> is_whole(half::mixed_eight(a, b), sum_of(squared_differences(m, n))),
        width == 16 ==> is_whole(half::mixed_sixteen(a, b), sum_of(squared_differences(m, n))),
{
    let t = squared_differences(m, n);
    let r = a.len() / width;
    let k = (r * width) as int;
    lanes::lemma_registers(a.len(), width);
    lemma_squares(m, n);
    lemma_sum_split(t, k);
    lemma_skip_whole(a, m, k);
    lemma_skip_whole(b, n, k);
    let rest = squared_differences(m.skip(k), n.skip(k));
    assert(rest =~= t.skip(k));
    lemma_squares(m.skip(k), n.skip(k));
    lemma_not_negative(rest);
    let whole = t.take(k);
    assert forall|j: int| 0 <= j < whole.len() implies 0 <= #[trigger] whole[j] by {
        assert(0 <= t[j]);
    }
    lemma_not_negative(whole);
    lemma_whole_zero();
    assert(lanes::rest_of(a, width) =~= a.skip(k) && lanes::rest_of(b, width) =~= b.skip(k));
    lemma_l2_scalar(F32(0), 0, a.skip(k), b.skip(k), m.skip(k), n.skip(k));
    let start = lanes::l2_onto(F32(0), a.skip(k), b.skip(k));
    if width == 8 {
        lemma_eight_lanes(a, b, m, n, r);
        lemma_whole_plus(
            start,
            sums::total(lanes::l2_lanes_of(a, b, 8)),
            sum_of(rest),
            sum_of(whole),
        );
    } else {
        lemma_sixteen_lanes(a, b, m, n, r);
        lemma_whole_plus(
            start,
            lanes::folded(lanes::l2_lanes_of(a, b, 16)),
            sum_of(rest),
            sum_of(whole),
        );
    }
}

} // verus!
