//! A product and a sum with one rounding, and rounding to a whole number.
use vstd::prelude::*;
use vstd::arithmetic::div_mod;
use vstd::arithmetic::power2;
use crate::distance::arith;
use crate::distance::arith::{round_scaled, with_sign, INFINITY_BITS, NAN_BITS};
use crate::distance::single::F32;

verus! {

impl F32 {
    /// `self * factor + term`, rounded once.
    pub open spec fn fused(self, factor: F32, term: F32) -> F32 {
        let negative = self.negative() != factor.negative();
        if self.nan() || factor.nan() || term.nan() {
            F32(NAN_BITS)
        } else if self.infinite() || factor.infinite() {
            if self.magnitude() == 0 || factor.magnitude() == 0 || term.infinite()
                && term.negative() != negative {
                F32(NAN_BITS)
            } else {
                arith::signed(negative, INFINITY_BITS as nat)
            }
        } else if term.infinite() {
            term
        } else {
            let sum = self.value() * factor.value() + term.value() * power2::pow2(149);
            if sum == 0 {
                arith::signed(negative && term.negative(), 0)
            } else {
                arith::packed(sum < 0, magnitude_of(sum), power2::pow2(149))
            }
        }
    }

    /// The whole number nearest to the number, halves away from zero, cut off at the ends of the
    /// range; zero for what is no number.
    pub open spec fn nearest_usize(self) -> usize {
        if self.nan() || self.negative() {
            0
        } else if self.infinite() {
            usize::MAX
        } else {
            let whole = (2 * self.units() + power2::pow2(149)) / power2::pow2(150);
            if whole <= usize::MAX {
                whole as usize
            } else {
                usize::MAX
            }
        }
    }

    /// The whole part of the number, cut off at the ends of the range; zero for what is no number.
    pub open spec fn whole_usize(self) -> usize {
        if self.nan() || self.negative() {
            0
        } else if self.infinite() {
            usize::MAX
        } else {
            let whole = self.units() / power2::pow2(149);
            if whole <= usize::MAX {
                whole as usize
            } else {
                usize::MAX
            }
        }
    }

    /// `self * factor + term`, rounded once to nearest.
    pub fn mul_add(self, factor: F32, term: F32) -> (r: F32)
        ensures
            r == self.fused(factor, term),
    {
        let negative: bool = self.is_negative() != factor.is_negative();
        if self.is_nan() || factor.is_nan() || term.is_nan() {
            return F32(NAN_BITS);
        }
        if self.is_infinite() || factor.is_infinite() {
            if self.0 % 0x8000_0000 == 0 || factor.0 % 0x8000_0000 == 0 || term.is_infinite()
                && term.is_negative() != negative {
                return F32(NAN_BITS);
            }
            return with_sign(negative, INFINITY_BITS);
        }
        if term.is_infinite() {
            return term;
        }
        let (m1, e1) = self.unpack();
        let (m2, e2) = factor.unpack();
        let (m3, e3) = term.unpack();
        let neg3: bool = term.is_negative();
        assert(m1 * m2 <= 0xFF_FFFF * 0xFF_FFFF) by (nonlinear_arith)
            requires
                m1 <= 0xFF_FFFF,
                m2 <= 0xFF_FFFF,
        ;
        let x: u64 = m1 * m2;
        let ex: u32 = e1 + e2;
        let ey: u32 = e3 + 149;
        let ghost big = self.units() * factor.units();
        let ghost small = term.units() * power2::pow2(149);
        let ghost sum = self.value() * factor.value() + term.value() * power2::pow2(149);
        proof {
            power2::lemma_pow2_adds(e1 as nat, e2 as nat);
            power2::lemma_pow2_adds(e3 as nat, 149);
            assert(big == x * power2::pow2(ex as nat)) by (nonlinear_arith)
                requires
                    big == (m1 * power2::pow2(e1 as nat)) * (m2 * power2::pow2(e2 as nat)),
                    power2::pow2(ex as nat) == power2::pow2(e1 as nat) * power2::pow2(e2 as nat),
                    x == m1 * m2,
            ;
            assert(small == m3 * power2::pow2(ey as nat)) by (nonlinear_arith)
                requires
                    small == (m3 * power2::pow2(e3 as nat)) * power2::pow2(149),
                    power2::pow2(ey as nat) == power2::pow2(e3 as nat) * power2::pow2(149),
            ;
            lemma_signs(self, factor, term);
        }
        sum_unpacked(negative, x, ex, neg3, m3, ey)
    }

    /// The whole number nearest to the number.
    pub fn round_to_usize(self) -> (r: usize)
        ensures
            r == self.nearest_usize(),
    {
        if self.is_nan() || self.is_negative() {
            return 0;
        }
        if self.is_infinite() {
            return usize::MAX;
        }
        let (m, e) = self.unpack();
        let ghost whole = (2 * self.units() + power2::pow2(149)) / power2::pow2(150);
        proof {
            power2::lemma2_to64();
            power2::lemma2_to64_rest();
            power2::lemma_pow2_pos(149);
            power2::lemma_pow2_unfold(150);
        }
        if e >= 149 {
            let s: u32 = e - 149;
            proof {
                power2::lemma_pow2_adds(s as nat, 149);
                lemma_whole(m as nat, power2::pow2(s as nat), power2::pow2(149));
                assert(self.units() == (m * power2::pow2(s as nat)) * power2::pow2(149))
                    by (nonlinear_arith)
                    requires
                        self.units() == m * power2::pow2(e as nat),
                        power2::pow2(e as nat) == power2::pow2(s as nat) * power2::pow2(149),
                ;
                assert(whole == m * power2::pow2(s as nat));
            }
            if s > 40 {
                proof {
                    power2::lemma_pow2_strictly_increases(40, s as nat);
                    power2::lemma_pow2_unfold(s as nat);
                    if s > 41 {
                        power2::lemma_pow2_strictly_increases(41, s as nat);
                    }
                    assert(m * power2::pow2(s as nat) >= 0x80_0000 * 0x200_0000_0000)
                        by (nonlinear_arith)
                        requires
                            m >= 0x80_0000,
                            power2::pow2(s as nat) >= 0x200_0000_0000,
                    ;
                }
                return usize::MAX;
            }
            proof {
                if s < 40 {
                    power2::lemma_pow2_strictly_increases(s as nat, 40);
                }
                assert(m * power2::pow2(s as nat) <= 0xFF_FFFF * 0x100_0000_0000)
                    by (nonlinear_arith)
                    requires
                        m <= 0xFF_FFFF,
                        power2::pow2(s as nat) <= 0x100_0000_0000,
                ;
                vstd::bits::lemma_u64_shl_is_mul(m, s as u64);
            }
            let v: u64 = m << s;
            if v > usize::MAX as u64 {
                return usize::MAX;
            }
            return v as usize;
        }
        let s: u32 = 149 - e;
        proof {
            power2::lemma_pow2_adds(e as nat, s as nat);
            power2::lemma_pow2_pos(e as nat);
            power2::lemma_pow2_unfold((s + 1) as nat);
            lemma_fraction(
                m as nat,
                power2::pow2(e as nat),
                power2::pow2(s as nat),
            );
            assert(2 * self.units() + power2::pow2(149) == power2::pow2(e as nat) * (2 * m
                + power2::pow2(s as nat))) by (nonlinear_arith)
                requires
                    self.units() == m * power2::pow2(e as nat),
                    power2::pow2(149) == power2::pow2(e as nat) * power2::pow2(s as nat),
            ;
            assert(power2::pow2(150) == power2::pow2(e as nat) * (2 * power2::pow2(s as nat)))
                by (nonlinear_arith)
                requires
                    power2::pow2(150) == 2 * power2::pow2(149),
                    power2::pow2(149) == power2::pow2(e as nat) * power2::pow2(s as nat),
            ;
            assert(whole == (2 * m as nat + power2::pow2(s as nat)) / (2 * power2::pow2(s as nat)));
        }
        if s > 25 {
            proof {
                power2::lemma_pow2_strictly_increases(25, s as nat);
                div_mod::lemma_basic_div(
                    2 * m + power2::pow2(s as nat),
                    2 * power2::pow2(s as nat) as int,
                );
            }
            return 0;
        }
        proof {
            if s < 25 {
                power2::lemma_pow2_strictly_increases(s as nat, 25);
            }
            power2::lemma_pow2_pos(s as nat);
            vstd::bits::lemma_u64_shl_is_mul(1, s as u64);
        }
        let one: u64 = 1;
        let half: u64 = one << s;
        let v: u64 = (2 * m + half) / (2 * half);
        assert(v <= 2 * m + half) by (nonlinear_arith)
            requires
                v == (2 * m + half) as int / (2 * half) as int,
                half >= 1,
        ;
        assert(v <= usize::MAX);
        v as usize
    }
}

impl F32 {
    /// The whole part of the number.
    pub fn truncate_to_usize(self) -> (r: usize)
        ensures
            r == self.whole_usize(),
    {
        if self.is_nan() || self.is_negative() {
            return 0;
        }
        if self.is_infinite() {
            return usize::MAX;
        }
        let (m, e) = self.unpack();
        let ghost whole = self.units() / power2::pow2(149);
        proof {
            power2::lemma2_to64();
            power2::lemma2_to64_rest();
            power2::lemma_pow2_pos(149);
        }
        if e >= 149 {
            let s: u32 = e - 149;
            proof {
                power2::lemma_pow2_adds(s as nat, 149);
                assert(self.units() == (m * power2::pow2(s as nat)) * power2::pow2(149))
                    by (nonlinear_arith)
                    requires
                        self.units() == m * power2::pow2(e as nat),
                        power2::pow2(e as nat) == power2::pow2(s as nat) * power2::pow2(149),
                ;
                div_mod::lemma_div_multiples_vanish(
                    m * power2::pow2(s as nat),
                    power2::pow2(149) as int,
                );
                assert(self.units() == power2::pow2(149) * (m * power2::pow2(s as nat)))
                    by (nonlinear_arith)
                    requires
                        self.units() == (m * power2::pow2(s as nat)) * power2::pow2(149),
                ;
                assert(whole == m * power2::pow2(s as nat));
            }
            if s > 40 {
                proof {
                    power2::lemma_pow2_strictly_increases(40, s as nat);
                    power2::lemma_pow2_unfold(s as nat);
                    if s > 41 {
                        power2::lemma_pow2_strictly_increases(41, s as nat);
                    }
                    assert(m * power2::pow2(s as nat) >= 0x80_0000 * 0x200_0000_0000)
                        by (nonlinear_arith)
                        requires
                            m >= 0x80_0000,
                            power2::pow2(s as nat) >= 0x200_0000_0000,
                    ;
                }
                return usize::MAX;
            }
            proof {
                if s < 40 {
                    power2::lemma_pow2_strictly_increases(s as nat, 40);
                }
                assert(m * power2::pow2(s as nat) <= 0xFF_FFFF * 0x100_0000_0000)
                    by (nonlinear_arith)
                    requires
                        m <= 0xFF_FFFF,
                        power2::pow2(s as nat) <= 0x100_0000_0000,
                ;
                vstd::bits::lemma_u64_shl_is_mul(m, s as u64);
            }
            let v: u64 = m << s;
            if v > usize::MAX as u64 {
                return usize::MAX;
            }
            return v as usize;
        }
        let s: u32 = 149 - e;
        proof {
            power2::lemma_pow2_adds(e as nat, s as nat);
            power2::lemma_pow2_pos(e as nat);
            power2::lemma_pow2_pos(s as nat);
            div_mod::lemma_div_multiples_vanish_quotient(
                power2::pow2(e as nat) as int,
                m as int,
                power2::pow2(s as nat) as int,
            );
            assert(self.units() == power2::pow2(e as nat) * m) by (nonlinear_arith)
                requires
                    self.units() == m * power2::pow2(e as nat),
            ;
            assert(whole == m as nat / power2::pow2(s as nat));
        }
        if s > 24 {
            proof {
                power2::lemma_pow2_strictly_increases(24, s as nat);
                div_mod::lemma_basic_div(m as int, power2::pow2(s as nat) as int);
            }
            return 0;
        }
        proof {
            vstd::bits::lemma_u64_shr_is_div(m, s as u64);
            assert(m as int / power2::pow2(s as nat) as int <= m) by (nonlinear_arith)
                requires
                    power2::pow2(s as nat) >= 1,
                    m >= 0,
            ;
        }
        let v: u64 = m >> s;
        v as usize
    }
}

/// The absolute value.
pub open spec fn magnitude_of(x: int) -> nat {
    (if x < 0 {
        -x
    } else {
        x
    }) as nat
}

/// The value with a sign.
spec fn with_minus(negative: bool, x: int) -> int {
    if negative {
        -x
    } else {
        x
    }
}

proof fn lemma_signs(a: F32, b: F32, c: F32)
    requires
        a.finite(),
        b.finite(),
        c.finite(),
    ensures
        a.value() * b.value() + c.value() * power2::pow2(149) == with_minus(
            a.negative() != b.negative(),
            (a.units() * b.units()) as int,
        ) + with_minus(c.negative(), (c.units() * power2::pow2(149)) as int),
{
    let x = a.units() as int;
    let y = b.units() as int;
    let z = c.units() as int;
    let w = power2::pow2(149) as int;
    assert((-x) * y == -(x * y)) by (nonlinear_arith);
    assert(x * (-y) == -(x * y)) by (nonlinear_arith);
    assert((-x) * (-y) == x * y) by (nonlinear_arith);
    assert((-z) * w == -(z * w)) by (nonlinear_arith);
}

proof fn lemma_whole(m: nat, a: nat, u: nat)
    requires
        u > 0,
    ensures
        (2 * ((m * a) * u) + u) / (2 * u) == m * a,
{
    let k = (m * a) as int;
    assert(2 * (k * u) + u == (2 * u) * k + u) by (nonlinear_arith);
    div_mod::lemma_fundamental_div_mod_converse(
        (2 * (k * u) + u) as int,
        (2 * u) as int,
        k,
        u as int,
    );
}

proof fn lemma_fraction(m: nat, b: nat, c: nat)
    requires
        b > 0,
        c > 0,
    ensures
        (b * (2 * m + c)) / (b * (2 * c)) == (2 * m + c) / (2 * c),
{
    div_mod::lemma_div_multiples_vanish_quotient(b as int, (2 * m + c) as int, (2 * c) as int);
}

/// The number nearest to `x * 2^e` units of `2^-298`, or, where `sticky` is set, to a number
/// strictly between that and `(x + 1) * 2^e`.
fn round_double(negative: bool, x: u128, sticky: bool, e: u32, Ghost(p): Ghost<nat>) -> (r: F32)
    requires
        x < 0x10_0000_0000_0000_0000_0000_0000,
        sticky ==> x >= 0x100_0000,
        e <= 506,
        !sticky ==> p == x * power2::pow2(e as nat),
        sticky ==> x * power2::pow2(e as nat) < p < (x + 1) * power2::pow2(e as nat),
    ensures
        r == arith::packed(negative, p, power2::pow2(149)),
{
    let f: i32 = e as i32 - 149;
    let ghost q = power2::pow2(149);
    proof {
        power2::lemma2_to64();
        power2::lemma_pow2_pos(149);
        power2::lemma_pow2_pos(e as nat);
        let w = power2::pow2(e as nat);
        if f >= 0 {
            let a = power2::pow2(f as nat);
            power2::lemma_pow2_adds(149, f as nat);
            assert(w == q * a);
            assert((q * a) * x == x * w) by (nonlinear_arith)
                requires
                    w == q * a,
            ;
            assert((q * a) * (x + 1) == (x + 1) * w) by (nonlinear_arith)
                requires
                    w == q * a,
            ;
            assert(p * power2::pow2(0) == p) by (nonlinear_arith)
                requires
                    power2::pow2(0) == 1,
            ;
            assert(f == 0 ==> a == 1);
        } else {
            let b = power2::pow2((-f) as nat);
            power2::lemma_pow2_pos((-f) as nat);
            power2::lemma_pow2_adds(e as nat, (-f) as nat);
            assert(q == w * b);
            assert((q * 1) * x == (x * w) * b) by (nonlinear_arith)
                requires
                    q == w * b,
            ;
            assert((q * 1) * (x + 1) == ((x + 1) * w) * b) by (nonlinear_arith)
                requires
                    q == w * b,
            ;
            if sticky {
                assert((x * w) * b < p * b) by (nonlinear_arith)
                    requires
                        x * w < p,
                        b > 0,
                ;
                assert(p * b < ((x + 1) * w) * b) by (nonlinear_arith)
                    requires
                        p < (x + 1) * w,
                        b > 0,
                ;
            }
        }
        assert(arith::scaled(p, q, x as nat, sticky, f as int));
    }
    with_sign(negative, round_scaled(x, sticky, f, Ghost(p), Ghost(q)))
}

/// The sum of two numbers in units of `2^-298`.
spec fn sum_of_two(na: bool, m1: u64, e1: u32, nb: bool, m2: u64, e2: u32) -> int {
    with_minus(na, m1 * power2::pow2(e1 as nat)) + with_minus(nb, m2 * power2::pow2(e2 as nat))
}

/// That sum, rounded to a number.
spec fn rounded_sum(na: bool, nb: bool, sum: int) -> F32 {
    if sum == 0 {
        arith::signed(na && nb, 0)
    } else {
        arith::packed(sum < 0, magnitude_of(sum), power2::pow2(149))
    }
}

fn sum_unpacked(na: bool, m1: u64, e1: u32, nb: bool, m2: u64, e2: u32) -> (r: F32)
    requires
        m1 < 0x1_0000_0000_0000,
        m2 < 0x1_0000_0000_0000,
        e1 <= 506,
        e2 <= 506,
    ensures
        r == rounded_sum(na, nb, sum_of_two(na, m1, e1, nb, m2, e2)),
{
    let ghost sum = sum_of_two(na, m1, e1, nb, m2, e2);
    proof {
        lemma_term(m1 as nat, e1 as nat);
        lemma_term(m2 as nat, e2 as nat);
    }
    if m1 == 0 && m2 == 0 {
        return with_sign(na && nb, 0);
    }
    if m2 == 0 {
        return round_double(na, m1 as u128, false, e1, Ghost(magnitude_of(sum)));
    }
    if m1 == 0 {
        return round_double(nb, m2 as u128, false, e2, Ghost(magnitude_of(sum)));
    }
    if e1 >= e2 {
        sum_ordered(na, m1, e1, nb, m2, e2)
    } else {
        sum_ordered(nb, m2, e2, na, m1, e1)
    }
}

proof fn lemma_term(m: nat, e: nat)
    ensures
        m == 0 ==> m * power2::pow2(e) == 0,
        m > 0 ==> m * power2::pow2(e) > 0,
        m * power2::pow2(e) >= 0,
{
    power2::lemma_pow2_pos(e);
    assert(m > 0 ==> m * power2::pow2(e) > 0) by (nonlinear_arith)
        requires
            power2::pow2(e) > 0,
    ;
}

/// The quotient of `m` and `2^g`, and whether there is a remainder.
fn split_wide(m: u64, g: u32) -> (r: (u64, bool))
    requires
        m < 0x1_0000_0000_0000,
    ensures
        r.0 == m as nat / power2::pow2(g as nat),
        r.1 == (m as nat % power2::pow2(g as nat) != 0),
        r.0 <= m,
        g >= 1 ==> 2 * r.0 <= m,
{
    proof {
        power2::lemma_pow2_pos(g as nat);
        div_mod::lemma_fundamental_div_mod(m as int, power2::pow2(g as nat) as int);
        power2::lemma2_to64();
        power2::lemma2_to64_rest();
    }
    if g >= 48 {
        proof {
            if g > 48 {
                power2::lemma_pow2_strictly_increases(48, g as nat);
            }
            div_mod::lemma_basic_div(m as int, power2::pow2(g as nat) as int);
            div_mod::lemma_small_mod(m as nat, power2::pow2(g as nat));
        }
        return (0, m != 0);
    }
    let q: u64 = m >> g;
    proof {
        vstd::bits::lemma_u64_shr_is_div(m, g as u64);
        assert(q * power2::pow2(g as nat) <= m) by (nonlinear_arith)
            requires
                m == power2::pow2(g as nat) * q + m as int % power2::pow2(g as nat) as int,
                0 <= m as int % power2::pow2(g as nat) as int,
        ;
        if g >= 1 {
            power2::lemma_pow2_strictly_increases(0, g as nat);
        }
        assert(q <= m) by (nonlinear_arith)
            requires
                q * power2::pow2(g as nat) <= m,
                power2::pow2(g as nat) >= 1,
        ;
        if g >= 1 {
            assert(2 * q <= m) by (nonlinear_arith)
                requires
                    q * power2::pow2(g as nat) <= m,
                    power2::pow2(g as nat) >= 2,
            ;
        }
        vstd::bits::lemma_u64_shl_is_mul(q, g as u64);
        assert(m as int % power2::pow2(g as nat) as int == m - q * power2::pow2(g as nat))
            by (nonlinear_arith)
            requires
                m == power2::pow2(g as nat) * q + m as int % power2::pow2(g as nat) as int,
        ;
    }
    (q, m != q << g)
}

/// The sum of two numbers that are not zero, the first with the greater exponent.
fn sum_ordered(na: bool, m1: u64, e1: u32, nb: bool, m2: u64, e2: u32) -> (r: F32)
    requires
        0 < m1 < 0x1_0000_0000_0000,
        0 < m2 < 0x1_0000_0000_0000,
        e2 <= e1 <= 506,
    ensures
        r == rounded_sum(na, nb, sum_of_two(na, m1, e1, nb, m2, e2)),
{
    let d: u32 = e1 - e2;
    let t: u32 = if d <= 48 {
        d
    } else {
        48
    };
    let g: u32 = d - t;
    let e: u32 = e1 - t;
    let (lo, lost) = split_wide(m2, g);
    proof {
        power2::lemma2_to64();
        power2::lemma2_to64_rest();
        if t < 48 {
            power2::lemma_pow2_strictly_increases(t as nat, 48);
        }
        power2::lemma_pow2_pos(t as nat);
        assert(m1 * power2::pow2(t as nat) <= 0xFFFF_FFFF_FFFF * 0x1_0000_0000_0000)
            by (nonlinear_arith)
            requires
                m1 <= 0xFFFF_FFFF_FFFF,
                power2::pow2(t as nat) <= 0x1_0000_0000_0000,
        ;
        vstd::bits::lemma_u64_shl_is_mul(1, t as u64);
    }
    let one: u64 = 1;
    let hi: u128 = m1 as u128 * (one << t) as u128;
    let ghost scale = power2::pow2(e as nat);
    let ghost rest = (m2 as nat % power2::pow2(g as nat)) * power2::pow2(e2 as nat);
    let ghost a = m1 * power2::pow2(e1 as nat);
    let ghost b = m2 * power2::pow2(e2 as nat);
    let ghost sum = sum_of_two(na, m1, e1, nb, m2, e2);
    let ghost p = magnitude_of(sum);
    proof {
        arith::lemma_alignment(
            m1 as nat,
            e1 as nat,
            m2 as nat,
            e2 as nat,
            t as nat,
            g as nat,
            e as nat,
        );
        assert(a == hi * scale);
        assert(b == lo * scale + rest);
        assert(0 <= rest < scale);
        assert(lost == (rest > 0));
        if lost {
            if g == 0 {
                assert(power2::pow2(0) == 1);
            }
            assert(g >= 1);
            assert(hi >= 0x1_0000_0000_0000) by (nonlinear_arith)
                requires
                    hi == m1 * power2::pow2(48),
                    m1 >= 1,
                    power2::pow2(48) == 0x1_0000_0000_0000,
            ;
        }
        lemma_term(m1 as nat, e1 as nat);
        lemma_term(m2 as nat, e2 as nat);
    }
    if na == nb {
        let x: u128 = hi + lo as u128;
        proof {
            assert(x * scale == hi * scale + lo * scale) by (nonlinear_arith)
                requires
                    x == hi + lo,
            ;
            assert((x + 1) * scale == hi * scale + lo * scale + scale) by (nonlinear_arith)
                requires
                    x == hi + lo,
            ;
        }
        return round_double(na, x, lost, e, Ghost(p));
    }
    if lost {
        let x: u128 = hi - lo as u128 - 1;
        proof {
            assert(x * scale == hi * scale - lo * scale - scale) by (nonlinear_arith)
                requires
                    x == hi - lo - 1,
            ;
            assert((x + 1) * scale == hi * scale - lo * scale) by (nonlinear_arith)
                requires
                    x == hi - lo - 1,
            ;
            assert(x * scale >= 0) by (nonlinear_arith)
                requires
                    x >= 0,
                    scale > 0,
            ;
        }
        return round_double(na, x, true, e, Ghost(p));
    }
    if hi == lo as u128 {
        assert(sum == 0);
        return with_sign(false, 0);
    }
    if hi > lo as u128 {
        let x: u128 = hi - lo as u128;
        proof {
            assert(x * scale == hi * scale - lo * scale) by (nonlinear_arith)
                requires
                    x == hi - lo,
            ;
            assert(x * scale > 0) by (nonlinear_arith)
                requires
                    x > 0,
                    scale > 0,
            ;
        }
        return round_double(na, x, false, e, Ghost(p));
    }
    let x: u128 = lo as u128 - hi;
    proof {
        assert(x * scale == lo * scale - hi * scale) by (nonlinear_arith)
            requires
                x == lo - hi,
        ;
        assert(x * scale > 0) by (nonlinear_arith)
            requires
                x > 0,
                scale > 0,
        ;
    }
    round_double(nb, x, false, e, Ghost(p))
}

} // verus!
