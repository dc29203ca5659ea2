//! Half-precision numbers: half the memory, for distances that need not be exact.
//!
//! A half is sixteen bits, a sign, five bits of exponent and ten of fraction. Conversion from
//! single precision rounds to the nearest half, ties to even; conversion back is exact.
use vstd::prelude::*;
use vstd::arithmetic::div_mod;
use vstd::arithmetic::power2;
use crate::distance::arith;
use crate::distance::arith::INFINITY_BITS;
use crate::distance::cpu::{
    is_avx2_and_f16c_supported, is_avx512_and_f16c_supported, CpuFeatures,
};
use crate::distance::lanes;
use crate::distance::lanes::{add_l2_rest, fold, l2_lanes};
use crate::distance::single::F32;
use crate::distance::sums;
use crate::distance::sums::sum;

verus! {

/// A half-precision number as its bit pattern.
#[derive(Debug, Clone, Copy, PartialEq, Eq, Structural)]
pub struct F16(pub u16);

/// The pattern of half-precision infinity.
pub const HALF_INFINITY: u16 = 0x7C00;

/// The pattern of the half nearest to `p / q` units of `2^-24`, with no limit on the exponent.
/// Below `2^11` units every half is a multiple of one unit; each doubling above adds one to the
/// exponent and doubles the step.
pub open spec fn half_rounded(p: nat, q: nat) -> nat
    decreases p - q,
    when q > 0
{
    if p < q * 0x800 {
        arith::nearest(p, q)
    } else {
        0x400 + half_rounded(p, 2 * q)
    }
}

/// The half with this sign and these bits below it.
pub open spec fn half_signed(negative: bool, magnitude: nat) -> F16 {
    F16(
        (magnitude + (if negative {
            0x8000nat
        } else {
            0nat
        })) as u16,
    )
}

impl F16 {
    /// The bits below the sign.
    pub open spec fn magnitude(self) -> nat {
        (self.0 % 0x8000) as nat
    }

    /// Whether the sign is set.
    pub open spec fn negative(self) -> bool {
        self.0 >= 0x8000
    }

    /// The absolute value of a finite half in units of `2^-24`.
    pub open spec fn units(self) -> nat {
        let e = self.magnitude() / 0x400;
        let f = self.magnitude() % 0x400;
        if e == 0 {
            f
        } else {
            (f + 0x400) * power2::pow2((e - 1) as nat)
        }
    }

    /// The half nearest to a number: infinity where it is out of range, one pattern for what is no
    /// number.
    pub open spec fn of_single(x: F32) -> F16 {
        if x.nan() {
            half_signed(x.negative(), 0x7E00)
        } else if x.infinite() {
            half_signed(x.negative(), HALF_INFINITY as nat)
        } else {
            let mag = half_rounded(x.units(), power2::pow2(125));
            half_signed(
                x.negative(),
                if mag < HALF_INFINITY {
                    mag
                } else {
                    HALF_INFINITY as nat
                },
            )
        }
    }

    /// `x` is the number that the half is: the same sign, the same value. For what is no number the
    /// fraction is kept.
    pub open spec fn is_single(self, x: F32) -> bool {
        &&& x.negative() == self.negative()
        &&& self.magnitude() < HALF_INFINITY ==> x.finite() && x.units() == self.units()
            * power2::pow2(125)
        &&& self.magnitude() >= HALF_INFINITY ==> x.magnitude() == INFINITY_BITS + (
        self.magnitude() - HALF_INFINITY) * 0x2000
    }

    /// The number that the half is.
    pub open spec fn single(self) -> F32 {
        choose|x: F32| self.is_single(x)
    }

    /// The half nearest to a number.
    pub fn from_f32(f: F32) -> (h: F16)
        ensures
            h == F16::of_single(f),
    {
        let sign: u16 = if f.0 >= 0x8000_0000 {
            0x8000
        } else {
            0
        };
        let mag: u32 = f.0 % 0x8000_0000;
        if mag > INFINITY_BITS {
            return F16(sign + 0x7E00);
        }
        if mag == INFINITY_BITS {
            return F16(sign + HALF_INFINITY);
        }
        let rounded: u32 = if mag >= 0x3880_0000 {
            let shifted: u32 = mag - 0x3800_0000;
            let q: u32 = shifted / 0x2000;
            let rem: u32 = shifted % 0x2000;
            let up: u32 = if rem > 0x1000 || rem == 0x1000 && q % 2 == 1 {
                1
            } else {
                0
            };
            proof {
                lemma_half_normal(f);
            }
            q + up
        } else {
            from_small(f)
        };
        if rounded < HALF_INFINITY as u32 {
            F16(sign + rounded as u16)
        } else {
            F16(sign + HALF_INFINITY)
        }
    }

    /// The number that the half is.
    pub fn to_f32(self) -> (x: F32)
        ensures
            x == self.single(),
            self.is_single(x),
    {
        let sign: u32 = if self.0 >= 0x8000 {
            0x8000_0000
        } else {
            0
        };
        let mag: u32 = (self.0 % 0x8000) as u32;
        let x: F32;
        if mag >= HALF_INFINITY as u32 {
            x = F32(sign + INFINITY_BITS + (mag - HALF_INFINITY as u32) * 0x2000);
        } else if mag >= 0x400 {
            x = F32(sign + 0x3800_0000 + mag * 0x2000);
            proof {
                lemma_single_normal(self, x);
            }
        } else {
            x = F32(sign + small_to_single(mag, Ghost(self)));
        }
        proof {
            lemma_single_unique(self, x, self.single());
        }
        x
    }
}

proof fn lemma_half_rounded_at(p: nat, q: nat, k: nat)
    requires
        q > 0,
        p < q * power2::pow2(11 + k),
        k > 0 ==> q * power2::pow2((10 + k) as nat) <= p,
    ensures
        half_rounded(p, q) == 0x400 * k + arith::nearest(p, q * power2::pow2(k)),
    decreases k,
{
    power2::lemma2_to64();
    power2::lemma_pow2_pos(k);
    if k == 0 {
        assert(q * power2::pow2(0) == q) by (nonlinear_arith)
            requires
                power2::pow2(0) == 1,
        ;
    } else {
        let j = (k - 1) as nat;
        power2::lemma_pow2_unfold(k);
        power2::lemma_pow2_unfold((11 + k) as nat);
        power2::lemma_pow2_unfold((10 + k) as nat);
        assert(power2::pow2((11 + k) as nat) == 2 * power2::pow2((11 + j) as nat));
        assert(power2::pow2((10 + k) as nat) == 2 * power2::pow2((10 + j) as nat));
        assert(q * power2::pow2((11 + k) as nat) == (2 * q) * power2::pow2((11 + j) as nat))
            by (nonlinear_arith)
            requires
                power2::pow2((11 + k) as nat) == 2 * power2::pow2((11 + j) as nat),
        ;
        assert(q * power2::pow2((10 + k) as nat) == (2 * q) * power2::pow2((10 + j) as nat))
            by (nonlinear_arith)
            requires
                power2::pow2((10 + k) as nat) == 2 * power2::pow2((10 + j) as nat),
        ;
        assert(q * power2::pow2(k) == (2 * q) * power2::pow2(j)) by (nonlinear_arith)
            requires
                power2::pow2(k) == 2 * power2::pow2(j),
        ;
        if j == 0 {
            assert(power2::pow2((10 + k) as nat) == 0x800);
        } else {
            power2::lemma_pow2_strictly_increases(11, (10 + k) as nat);
            assert(q * 0x800 <= q * power2::pow2((10 + k) as nat)) by (nonlinear_arith)
                requires
                    0x800 <= power2::pow2((10 + k) as nat),
            ;
        }
        lemma_half_rounded_at(p, 2 * q, j);
    }
}

/// From `2^-14` on a half has the exponent of the number and the upper bits of its fraction.
proof fn lemma_half_normal(x: F32)
    requires
        0x3880_0000 <= x.magnitude() < INFINITY_BITS,
    ensures
        half_rounded(x.units(), power2::pow2(125)) == arith::nearest(
            (x.magnitude() - 0x3800_0000) as nat,
            0x2000,
        ),
{
    let e = (x.magnitude() / 0x80_0000) as nat;
    let f = (x.magnitude() % 0x80_0000) as nat;
    let m = (f + 0x80_0000) as nat;
    let k = (e - 113) as nat;
    let q = power2::pow2(125);
    let p = x.units();
    assert(e >= 113);
    power2::lemma2_to64();
    power2::lemma_pow2_pos(125);
    power2::lemma_pow2_pos(k);
    assert(p == m * power2::pow2((e - 1) as nat));
    power2::lemma_pow2_adds(112, k);
    let w = power2::pow2((e - 1) as nat);
    assert(w == power2::pow2(112) * power2::pow2(k));
    power2::lemma_pow2_adds(112, 13);
    assert(q == power2::pow2(112) * 0x2000);
    power2::lemma_pow2_adds(11, k);
    power2::lemma_pow2_adds(10, k);
    let c = power2::pow2(112);
    let kk = power2::pow2(k);
    power2::lemma_pow2_pos(112);
    let ck = c * kk;
    assert(ck > 0) by (nonlinear_arith)
        requires
            ck == c * kk,
            c > 0,
            kk > 0,
    ;
    assert(q * power2::pow2(11 + k) == 0x100_0000 * ck) by (nonlinear_arith)
        requires
            q == c * 0x2000,
            power2::pow2(11 + k) == 0x800 * kk,
            ck == c * kk,
    ;
    assert(q * power2::pow2((10 + k) as nat) == 0x80_0000 * ck) by (nonlinear_arith)
        requires
            q == c * 0x2000,
            power2::pow2((10 + k) as nat) == 0x400 * kk,
            ck == c * kk,
    ;
    assert(p == m * ck);
    assert(m * ck < 0x100_0000 * ck) by (nonlinear_arith)
        requires
            m < 0x100_0000,
            ck > 0,
    ;
    assert(0x80_0000 * ck <= m * ck) by (nonlinear_arith)
        requires
            m >= 0x80_0000,
            ck > 0,
    ;
    lemma_half_rounded_at(p, q, k);
    assert(q * kk == 0x2000 * ck) by (nonlinear_arith)
        requires
            q == c * 0x2000,
            ck == c * kk,
    ;
    arith::lemma_nearest_scale(m, 0x2000, ck);
    // The fraction with its leading bit, and the whole pattern, differ by an even multiple.
    let whole = (x.magnitude() - 0x3800_0000) as nat;
    assert(whole == m + 0x2000 * (0x400 * k));
    assert(whole / 0x2000 == m / 0x2000 + 0x400 * k);
    assert(whole % 0x2000 == m % 0x2000);
    assert((m / 0x2000 + 0x400 * k) % 2 == (m / 0x2000) % 2);
}

/// The rounding of a number below `2^-14`.
fn from_small(x: F32) -> (r: u32)
    requires
        x.magnitude() < 0x3880_0000,
    ensures
        r == half_rounded(x.units(), power2::pow2(125)),
        r <= 0x400,
{
    let (m, e) = x.unpack();
    let ghost q = power2::pow2(125);
    proof {
        power2::lemma2_to64();
        power2::lemma2_to64_rest();
        power2::lemma_pow2_pos(125);
    }
    assert(e <= 112) by {
        lemma_small_exponent(x, m as nat, e as nat);
    }
    let s: u32 = 125 - e;
    let ghost c = power2::pow2(e as nat);
    let ghost d = power2::pow2(s as nat);
    proof {
        power2::lemma_pow2_pos(e as nat);
        power2::lemma_pow2_pos(s as nat);
        power2::lemma_pow2_adds(e as nat, s as nat);
        assert(q == d * c) by (nonlinear_arith)
            requires
                q == c * d,
        ;
        arith::lemma_nearest_scale(m as nat, d, c);
        if s > 13 {
            power2::lemma_pow2_strictly_increases(13, s as nat);
        }
        assert(x.units() < q * 0x800) by (nonlinear_arith)
            requires
                x.units() == m * c,
                m < 0x100_0000,
                q == d * c,
                d >= 0x2000,
                c > 0,
        ;
        assert(half_rounded(x.units(), q) == arith::nearest(m as nat, d));
    }
    if s > 25 {
        proof {
            power2::lemma_pow2_strictly_increases(25, s as nat);
            div_mod::lemma_basic_div(m as int, d as int);
            div_mod::lemma_small_mod(m as nat, d);
        }
        return 0;
    }
    proof {
        if s < 25 {
            power2::lemma_pow2_strictly_increases(s as nat, 25);
        }
        vstd::bits::lemma_u64_shl_is_mul(1, s as u64);
    }
    let one: u64 = 1;
    let step: u64 = one << s;
    let f: u64 = m / step;
    let r: u64 = m % step;
    assert(f <= 0x7FF) by (nonlinear_arith)
        requires
            f == m as int / step as int,
            m < 0x100_0000,
            step >= 0x2000,
    ;
    let up: u64 = if 2 * r > step || 2 * r == step && f % 2 == 1 {
        1
    } else {
        0
    };
    proof {
        lemma_small_bound(x, m as nat, e as nat, f as nat, step as nat, s as nat);
    }
    (f + up) as u32
}

proof fn lemma_small_exponent(x: F32, m: nat, e: nat)
    requires
        x.magnitude() < 0x3880_0000,
        m < 0x100_0000,
        e > 0 ==> m >= 0x80_0000,
        x.units() == m * power2::pow2(e),
    ensures
        e <= 112,
        e == 112 ==> m < 0x100_0000,
{
    power2::lemma2_to64();
    let top = F32(0x3880_0000);
    assert(top.magnitude() == 0x3880_0000);
    if e > 112 {
        power2::lemma_pow2_pos(112);
        power2::lemma_pow2_unfold(113);
        if e > 113 {
            power2::lemma_pow2_strictly_increases(113, e);
        }
        let k = (x.magnitude() / 0x80_0000) as nat;
        let f = (x.magnitude() % 0x80_0000) as nat;
        assert(k <= 112);
        if k == 0 {
            assert(x.units() == f);
            assert(m * power2::pow2(e) >= 0x80_0000 * 2) by (nonlinear_arith)
                requires
                    m >= 0x80_0000,
                    power2::pow2(e) >= 2 * power2::pow2(112),
                    power2::pow2(112) >= 1,
            ;
        } else {
            if k < 112 {
                power2::lemma_pow2_strictly_increases((k - 1) as nat, 112);
            } else {
                power2::lemma_pow2_strictly_increases(111, 112);
            }
            let u = power2::pow2((k - 1) as nat);
            assert((f + 0x80_0000) * u < 0x100_0000 * power2::pow2(112)) by (nonlinear_arith)
                requires
                    f + 0x80_0000 < 0x100_0000,
                    0 <= u < power2::pow2(112),
            ;
            assert(m * power2::pow2(e) >= 0x100_0000 * power2::pow2(112)) by (nonlinear_arith)
                requires
                    m >= 0x80_0000,
                    power2::pow2(e) >= 2 * power2::pow2(112),
            ;
        }
    }
}

proof fn lemma_small_bound(x: F32, m: nat, e: nat, f: nat, step: nat, s: nat)
    requires
        x.magnitude() < 0x3880_0000,
        m < 0x100_0000,
        e <= 112,
        e > 0 ==> m >= 0x80_0000,
        s == 125 - e,
        s <= 25,
        step == power2::pow2(s),
        f == m / step,
        x.units() == m * power2::pow2(e),
    ensures
        f <= 0x3FF,
{
    power2::lemma2_to64();
    if e == 112 {
        let k = (x.magnitude() / 0x80_0000) as nat;
        let g = (x.magnitude() % 0x80_0000) as nat;
        assert(k <= 112);
        power2::lemma_pow2_strictly_increases(111, 112);
        if k == 0 {
            power2::lemma_pow2_pos(112);
            assert(m * power2::pow2(112) >= 0x80_0000) by (nonlinear_arith)
                requires
                    m >= 0x80_0000,
                    power2::pow2(112) >= 1,
            ;
        } else {
            if k < 112 {
                power2::lemma_pow2_strictly_increases((k - 1) as nat, 111);
            }
            power2::lemma_pow2_unfold(112);
            power2::lemma_pow2_pos(111);
            let u = power2::pow2((k - 1) as nat);
            assert((g + 0x80_0000) * u < 0x80_0000 * power2::pow2(112)) by (nonlinear_arith)
                requires
                    g + 0x80_0000 < 0x100_0000,
                    0 <= u <= power2::pow2(111),
                    power2::pow2(112) == 2 * power2::pow2(111),
                    power2::pow2(111) > 0,
            ;
            assert(m * power2::pow2(112) >= 0x80_0000 * power2::pow2(112)) by (nonlinear_arith)
                requires
                    m >= 0x80_0000,
                    power2::pow2(112) >= 0,
            ;
        }
        assert(false);
    } else {
        if s > 14 {
            power2::lemma_pow2_strictly_increases(14, s);
        }
        assert(step >= 0x4000);
        assert(f <= 0x3FF) by (nonlinear_arith)
            requires
                f == m as int / step as int,
                m < 0x100_0000,
                step >= 0x4000,
        ;
    }
}

proof fn lemma_single_normal(h: F16, x: F32)
    requires
        0x400 <= h.magnitude() < HALF_INFINITY,
        x.negative() == h.negative(),
        x.magnitude() == 0x3800_0000 + h.magnitude() * 0x2000,
    ensures
        h.is_single(x),
{
    let e = h.magnitude() / 0x400;
    let f = h.magnitude() % 0x400;
    let k = (x.magnitude() / 0x80_0000) as nat;
    let g = (x.magnitude() % 0x80_0000) as nat;
    assert(k == 112 + e);
    assert(g == f * 0x2000);
    power2::lemma2_to64();
    power2::lemma_pow2_adds(112, (e - 1) as nat);
    power2::lemma_pow2_adds(112, 13);
    let a = power2::pow2((e - 1) as nat);
    let c = power2::pow2(112);
    assert(power2::pow2((k - 1) as nat) == c * a);
    assert((g + 0x80_0000) * (c * a) == ((f + 0x400) * a) * (c * 0x2000)) by (nonlinear_arith)
        requires
            g == f * 0x2000,
    ;
}

/// The pattern of a half below `2^-14` as a number.
fn small_to_single(mag: u32, Ghost(h): Ghost<F16>) -> (r: u32)
    requires
        mag < 0x400,
        h.magnitude() == mag,
    ensures
        r < INFINITY_BITS,
        F32(r).units() == h.units() * power2::pow2(125),
{
    proof {
        power2::lemma2_to64();
    }
    if mag == 0 {
        assert(F32(0).units() == 0);
        assert(0 * power2::pow2(125) == 0) by (nonlinear_arith);
        return 0;
    }
    let mut m: u32 = mag;
    let mut e: u32 = 112;
    proof {
        lemma_small_start(mag as nat);
    }
    while m < 0x400
        invariant
            0 < m < 0x800,
            102 <= e <= 112,
            m >= power2::pow2((112 - e) as nat),
            (m * 0x2000) * power2::pow2(e as nat) == mag * power2::pow2(125),
        decreases 0x800 - m,
    {
        proof {
            power2::lemma2_to64();
            assert(e > 102) by {
                if e == 102 {
                    assert(power2::pow2(10) == 0x400);
                }
            }
            power2::lemma_pow2_unfold(e as nat);
            power2::lemma_pow2_unfold((112 - (e - 1)) as nat);
            assert(((2 * m) * 0x2000) * power2::pow2((e - 1) as nat) == (m * 0x2000)
                * power2::pow2(e as nat)) by (nonlinear_arith)
                requires
                    power2::pow2(e as nat) == 2 * power2::pow2((e - 1) as nat),
            ;
        }
        m = m * 2;
        e = e - 1;
    }
    let r: u32 = e * 0x80_0000 + m * 0x2000;
    proof {
        let x = F32(r);
        assert(x.magnitude() == r);
        assert(r as int / 0x80_0000 == e + 1);
        assert(r as int % 0x80_0000 == m * 0x2000 - 0x80_0000);
    }
    r
}

proof fn lemma_small_start(mag: nat)
    ensures
        (mag * 0x2000) * power2::pow2(112) == mag * power2::pow2(125),
{
    power2::lemma2_to64();
    power2::lemma_pow2_adds(13, 112);
    assert((mag * 0x2000) * power2::pow2(112) == mag * (0x2000 * power2::pow2(112)))
        by (nonlinear_arith);
}

/// A half is one number.
proof fn lemma_single_unique(h: F16, x: F32, y: F32)
    requires
        h.is_single(x),
    ensures
        h.is_single(h.single()),
        h.is_single(y) ==> x == y,
{
    if h.is_single(y) {
        if h.magnitude() < HALF_INFINITY {
            arith::lemma_rounded_exact(x);
            arith::lemma_rounded_exact(y);
        }
        assert(x.magnitude() == y.magnitude());
        assert(x.0 == y.0);
    }
}

/// To scale both sides leaves the rounding the same.
proof fn lemma_half_rounded_scale(p: nat, q: nat, w: nat)
    requires
        q > 0,
        w > 0,
    ensures
        half_rounded(p * w, q * w) == half_rounded(p, q),
    decreases p - q,
{
    assert(q * w > 0) by (nonlinear_arith)
        requires
            q > 0,
            w > 0,
    ;
    assert(p < q * 0x800 <==> p * w < (q * w) * 0x800) by (nonlinear_arith)
        requires
            w > 0,
    ;
    if p < q * 0x800 {
        arith::lemma_nearest_scale(p, q, w);
    } else {
        assert((2 * q) * w == 2 * (q * w)) by (nonlinear_arith);
        lemma_half_rounded_scale(p, 2 * q, w);
    }
}

proof fn lemma_half_rounded_exact(h: F16)
    requires
        h.magnitude() < HALF_INFINITY,
    ensures
        half_rounded(h.units(), 1) == h.magnitude(),
{
    let e = h.magnitude() / 0x400;
    let f = h.magnitude() % 0x400;
    power2::lemma2_to64();
    if e == 0 {
        assert(half_rounded(f, 1) == arith::nearest(f, 1));
    } else {
        let k = (e - 1) as nat;
        let m = f + 0x400;
        let w = power2::pow2(k);
        power2::lemma_pow2_pos(k);
        power2::lemma_pow2_adds(11, k);
        power2::lemma_pow2_adds(10, k);
        assert(m * w < 1 * power2::pow2(11 + k)) by (nonlinear_arith)
            requires
                m < 0x800,
                power2::pow2(11 + k) == 0x800 * w,
                w > 0,
        ;
        assert(1 * power2::pow2((10 + k) as nat) <= m * w) by (nonlinear_arith)
            requires
                m >= 0x400,
                power2::pow2((10 + k) as nat) == 0x400 * w,
                w > 0,
        ;
        lemma_half_rounded_at(m * w, 1, k);
        assert(1 * w == w);
        div_mod::lemma_div_multiples_vanish(m as int, w as int);
        assert(m * w == w * m) by (nonlinear_arith);
        div_mod::lemma_mod_multiples_basic(m as int, w as int);
    }
}

/// A half that is a number, made a single-precision number and rounded again, is the same half.
pub proof fn law_half_round_trip(h: F16, x: F32)
    requires
        h.magnitude() <= HALF_INFINITY,
        h.is_single(x),
    ensures
        F16::of_single(x) == h,
{
    if h.magnitude() < HALF_INFINITY {
        power2::lemma_pow2_pos(125);
        lemma_half_rounded_scale(h.units(), 1, power2::pow2(125));
        assert(1 * power2::pow2(125) == power2::pow2(125));
        lemma_half_rounded_exact(h);
    }
}

/// Halves of numbers, one for each.
pub fn f32_to_f16_slice(f32_slice: &[F32]) -> (out: Vec<F16>)
    ensures
        out@ == Seq::new(f32_slice@.len(), |i: int| F16::of_single(f32_slice@[i])),
{
    let ghost all = Seq::new(f32_slice@.len(), |i: int| F16::of_single(f32_slice@[i]));
    let mut out: Vec<F16> = Vec::with_capacity(f32_slice.len());
    let mut i: usize = 0;
    while i < f32_slice.len()
        invariant
            i <= f32_slice@.len(),
            all == Seq::new(f32_slice@.len(), |i: int| F16::of_single(f32_slice@[i])),
            out@ == all.take(i as int),
        decreases f32_slice@.len() - i,
    {
        out.push(F16::from_f32(f32_slice[i]));
        i += 1;
        assert(out@ =~= all.take(i as int));
    }
    assert(out@ =~= all);
    out
}

/// The numbers that halves are, one for each.
pub fn f16_to_f32_slice(f16_slice: &[F16]) -> (out: Vec<F32>)
    ensures
        out@ == Seq::new(f16_slice@.len(), |i: int| f16_slice@[i].single()),
{
    let ghost all = Seq::new(f16_slice@.len(), |i: int| f16_slice@[i].single());
    let mut out: Vec<F32> = Vec::with_capacity(f16_slice.len());
    let mut i: usize = 0;
    while i < f16_slice.len()
        invariant
            i <= f16_slice@.len(),
            all == Seq::new(f16_slice@.len(), |i: int| f16_slice@[i].single()),
            out@ == all.take(i as int),
        decreases f16_slice@.len() - i,
    {
        out.push(f16_slice[i].to_f32());
        i += 1;
        assert(out@ =~= all.take(i as int));
    }
    assert(out@ =~= all);
    out
}

/// The sum of the squared differences, added first to last, each step rounded once.
pub open spec fn fused_l2_of(a: Seq<F32>, b: Seq<F32>) -> F32
    decreases a.len(),
{
    if a.len() == 0 {
        F32(0)
    } else {
        let d = a.last().less(b.last());
        d.fused(d, fused_l2_of(a.drop_last(), b.drop_last()))
    }
}

/// Numbers rounded to halves and back.
pub open spec fn through_half(a: Seq<F32>) -> Seq<F32> {
    Seq::new(a.len(), |i: int| F16::of_single(a[i]).single())
}

/// The numbers that halves are.
pub open spec fn singles(a: Seq<F16>) -> Seq<F32> {
    Seq::new(a.len(), |i: int| a[i].single())
}

/// The squared distance of two vectors after each component is rounded to a half.
pub fn l2_f16(a: &[F32], b: &[F32]) -> (d: F32)
    requires
        a@.len() == b@.len(),
    ensures
        d == fused_l2_of(through_half(a@), through_half(b@)),
{
    let ghost x = through_half(a@);
    let ghost y = through_half(b@);
    let mut sum: F32 = F32(0);
    let mut i: usize = 0;
    while i < a.len()
        invariant
            i <= a@.len(),
            a@.len() == b@.len(),
            x == through_half(a@),
            y == through_half(b@),
            sum == fused_l2_of(x.take(i as int), y.take(i as int)),
        decreases a@.len() - i,
    {
        let d = F16::from_f32(a[i]).to_f32().sub(F16::from_f32(b[i]).to_f32());
        sum = d.mul_add(d, sum);
        assert(x.take(i + 1).drop_last() =~= x.take(i as int));
        assert(y.take(i + 1).drop_last() =~= y.take(i as int));
        i += 1;
    }
    assert(x.take(i as int) =~= x);
    assert(y.take(i as int) =~= y);
    sum
}

/// The squared distance of two vectors of halves.
pub fn l2_f16_packed(a: &[F16], b: &[F16]) -> (d: F32)
    requires
        a@.len() == b@.len(),
    ensures
        d == fused_l2_of(singles(a@), singles(b@)),
{
    let ghost x = singles(a@);
    let ghost y = singles(b@);
    let mut sum: F32 = F32(0);
    let mut i: usize = 0;
    while i < a.len()
        invariant
            i <= a@.len(),
            a@.len() == b@.len(),
            x == singles(a@),
            y == singles(b@),
            sum == fused_l2_of(x.take(i as int), y.take(i as int)),
        decreases a@.len() - i,
    {
        let d = a[i].to_f32().sub(b[i].to_f32());
        sum = d.mul_add(d, sum);
        assert(x.take(i + 1).drop_last() =~= x.take(i as int));
        assert(y.take(i + 1).drop_last() =~= y.take(i as int));
        i += 1;
    }
    assert(x.take(i as int) =~= x);
    assert(y.take(i as int) =~= y);
    sum
}

/// The squared distance of a vector and a vector of halves.
pub fn l2_f16_mixed(query: &[F32], db_packed: &[F16]) -> (d: F32)
    requires
        query@.len() == db_packed@.len(),
    ensures
        d == fused_l2_of(query@, singles(db_packed@)),
{
    let ghost x = query@;
    let ghost y = singles(db_packed@);
    let mut sum: F32 = F32(0);
    let mut i: usize = 0;
    while i < query.len()
        invariant
            i <= query@.len(),
            query@.len() == db_packed@.len(),
            x == query@,
            y == singles(db_packed@),
            sum == fused_l2_of(x.take(i as int), y.take(i as int)),
        decreases query@.len() - i,
    {
        let d = query[i].sub(db_packed[i].to_f32());
        sum = d.mul_add(d, sum);
        assert(x.take(i + 1).drop_last() =~= x.take(i as int));
        assert(y.take(i + 1).drop_last() =~= y.take(i as int));
        i += 1;
    }
    assert(x.take(i as int) =~= x);
    assert(y.take(i as int) =~= y);
    sum
}

/// The squared distance of two vectors in sixteen lanes; the rest is summed first.
pub open spec fn mixed_sixteen(a: Seq<F32>, b: Seq<F32>) -> F32 {
    lanes::l2_onto(F32(0), lanes::rest_of(a, 16), lanes::rest_of(b, 16)).plus(
        lanes::folded(lanes::l2_lanes_of(a, b, 16)),
    )
}

/// The squared distance of two vectors in eight lanes; the rest is summed first, and the lanes one
/// after the other.
pub open spec fn mixed_eight(a: Seq<F32>, b: Seq<F32>) -> F32 {
    lanes::l2_onto(F32(0), lanes::rest_of(a, 8), lanes::rest_of(b, 8)).plus(
        sums::total(lanes::l2_lanes_of(a, b, 8)),
    )
}

/// The squared distance of a vector and a vector of halves, in sixteen lanes.
pub fn l2_f16_mixed_avx512(query: &[F32], db_packed: &[F16]) -> (d: F32)
    requires
        query@.len() == db_packed@.len(),
    ensures
        d == mixed_sixteen(query@, singles(db_packed@)),
{
    let vector = f16_to_f32_slice(db_packed);
    assert(vector@ =~= singles(db_packed@));
    let rest = add_l2_rest(F32(0), query, vector.as_slice(), 16);
    rest.add(fold(&l2_lanes(query, vector.as_slice(), 16)))
}

/// The squared distance of a vector and a vector of halves, in eight lanes.
pub fn l2_f16_mixed_avx2(query: &[F32], db_packed: &[F16]) -> (d: F32)
    requires
        query@.len() == db_packed@.len(),
    ensures
        d == mixed_eight(query@, singles(db_packed@)),
{
    let vector = f16_to_f32_slice(db_packed);
    assert(vector@ =~= singles(db_packed@));
    let rest = add_l2_rest(F32(0), query, vector.as_slice(), 8);
    rest.add(sum(&l2_lanes(query, vector.as_slice(), 8)))
}

/// The squared distance of two vectors in as many lanes as the machine has for halves.
pub open spec fn mixed_widest(cpu: CpuFeatures, a: Seq<F32>, b: Seq<F32>) -> F32 {
    if cpu.sixteen_halves() {
        mixed_sixteen(a, b)
    } else if cpu.eight_halves() {
        mixed_eight(a, b)
    } else {
        fused_l2_of(a, b)
    }
}

/// The squared distance of a vector and a vector of halves, in as many lanes as the machine has for
/// halves.
pub fn l2_f16_mixed_simd(cpu: &CpuFeatures, query: &[F32], db_packed: &[F16]) -> (d: F32)
    requires
        query@.len() == db_packed@.len(),
    ensures
        d == mixed_widest(*cpu, query@, singles(db_packed@)),
{
    if is_avx512_and_f16c_supported(cpu) {
        l2_f16_mixed_avx512(query, db_packed)
    } else if is_avx2_and_f16c_supported(cpu) {
        l2_f16_mixed_avx2(query, db_packed)
    } else {
        l2_f16_mixed(query, db_packed)
    }
}

/// Vectors as halves, one after the other.
pub struct F16Dataset {
    codes: Vec<F16>,
    dim: usize,
}

impl F16Dataset {
    /// All halves.
    pub closed spec fn halves(self) -> Seq<F16> {
        self.codes@
    }

    /// The dimension.
    pub closed spec fn dimension(self) -> usize {
        self.dim
    }

    /// The vectors rounded to halves.
    pub fn build(vectors: &[F32], dim: usize) -> (s: Self)
        ensures
            s.halves() == Seq::new(vectors@.len(), |i: int| F16::of_single(vectors@[i])),
            s.dimension() == dim,
    {
        let codes = f32_to_f16_slice(vectors);
        F16Dataset { codes, dim }
    }

    /// All halves.
    pub fn codes(&self) -> (s: &[F16])
        ensures
            s@ == self.halves(),
    {
        self.codes.as_slice()
    }

    /// The vector of a node.
    pub fn vector(&self, id: usize) -> (s: &[F16])
        requires
            (id + 1) * self.dimension() <= self.halves().len(),
        ensures
            s@ == self.halves().subrange(
                id * self.dimension(),
                (id + 1) * self.dimension(),
            ),
    {
        let dim: usize = self.dim;
        assert((id + 1) * dim == id * dim + dim) by (nonlinear_arith);
        assert(0 <= id * dim) by (nonlinear_arith);
        assert(self.codes@.len() == self.codes.len());
        let start: usize = id * dim;
        vstd::slice::slice_subrange(self.codes.as_slice(), start, start + dim)
    }

    /// The dimension.
    pub fn dim(&self) -> (d: usize)
        ensures
            d == self.dimension(),
    {
        self.dim
    }

    /// The number of vectors.
    pub fn len(&self) -> (n: usize)
        requires
            self.dimension() > 0,
        ensures
            n == self.halves().len() / self.dimension() as nat,
    {
        self.codes.len() / self.dim
    }

    /// Whether there are no vectors.
    pub fn is_empty(&self) -> (b: bool)
        ensures
            b == (self.halves().len() == 0),
    {
        self.codes.len() == 0
    }
}

/// By how many places a small number is shifted to have eleven binary digits.
proof fn shift_of(m: nat) -> (t: nat)
    requires
        0 < m < 0x800,
    ensures
        0x400 <= m * power2::pow2(t) < 0x800,
        t <= 10,
        m >= 0x400 ==> t == 0,
        m >= 0x200 ==> t <= 1,
        m >= 0x100 ==> t <= 2,
        m >= 0x80 ==> t <= 3,
        m >= 0x40 ==> t <= 4,
        m >= 0x20 ==> t <= 5,
        m >= 0x10 ==> t <= 6,
        m >= 8 ==> t <= 7,
        m >= 4 ==> t <= 8,
        m >= 2 ==> t <= 9,
    decreases 0x800 - m,
{
    power2::lemma2_to64();
    if m >= 0x400 {
        assert(m * power2::pow2(0) == m) by (nonlinear_arith)
            requires
                power2::pow2(0) == 1,
        ;
        0
    } else {
        let t = shift_of(2 * m);
        power2::lemma_pow2_unfold(t + 1);
        assert((2 * m) * power2::pow2(t) == m * (2 * power2::pow2(t))) by (nonlinear_arith);
        t + 1
    }
}

/// Every half is a number.
pub proof fn lemma_single_exists(h: F16)
    ensures
        h.is_single(h.single()),
{
    let mag = h.magnitude();
    if mag >= HALF_INFINITY {
        let x = arith::signed(
            h.negative(),
            (INFINITY_BITS + (mag - HALF_INFINITY) * 0x2000) as nat,
        );
        assert(h.is_single(x));
    } else if mag >= 0x400 {
        let x = arith::signed(h.negative(), 0x3800_0000 + mag * 0x2000);
        lemma_single_normal(h, x);
    } else if mag == 0 {
        let x = arith::signed(h.negative(), 0);
        assert(x.units() == 0 && h.units() == 0);
        assert(0 * power2::pow2(125) == 0) by (nonlinear_arith);
        assert(h.is_single(x));
    } else {
        let t = shift_of(mag);
        let m = mag * power2::pow2(t);
        assert(t >= 1) by {
            power2::lemma2_to64();
            if t == 0 {
                assert(mag * power2::pow2(0) == mag) by (nonlinear_arith)
                    requires
                        power2::pow2(0) == 1,
                ;
            }
        }
        let e = (113 - t) as nat;
        let f = (m * 0x2000 - 0x80_0000) as nat;
        let bits = e * 0x80_0000 + f;
        let x = arith::signed(h.negative(), bits);
        assert(bits / 0x80_0000 == e && bits % 0x80_0000 == f);
        assert(x.magnitude() == bits && x.negative() == h.negative());
        assert(x.units() == (m * 0x2000) * power2::pow2((112 - t) as nat));
        power2::lemma_pow2_adds(13, (112 - t) as nat);
        power2::lemma_pow2_adds(t, (125 - t) as nat);
        power2::lemma2_to64();
        let a = power2::pow2(t);
        let b = power2::pow2((112 - t) as nat);
        let c = power2::pow2((125 - t) as nat);
        assert(((mag * a) * 0x2000) * b == mag * (a * c)) by (nonlinear_arith)
            requires
                c == 0x2000 * b,
        ;
        assert(h.units() == mag);
        assert(h.is_single(x));
    }
}

/// A half that is no infinity has the value that its bits spell.
pub proof fn law_halves_keep_their_value(h: F16)
    requires
        h.magnitude() < HALF_INFINITY,
    ensures
        h.single().finite(),
        h.single().negative() == h.negative(),
        h.single().units() == h.units() * power2::pow2(125),
{
    lemma_single_exists(h);
}

/// Numbers that are halves already stay what they are when each is rounded to a half.
pub proof fn law_halves_are_not_rounded(halves: Seq<F16>)
    requires
        forall|i: int|
            0 <= i < halves.len() ==> (#[trigger] halves[i]).magnitude() <= HALF_INFINITY,
    ensures
        through_half(singles(halves)) == singles(halves),
{
    let a = through_half(singles(halves));
    let b = singles(halves);
    assert forall|i: int| 0 <= i < halves.len() implies a[i] == b[i] by {
        lemma_single_exists(halves[i]);
        law_half_round_trip(halves[i], halves[i].single());
    }
    assert(a =~= b);
}

} // verus!
