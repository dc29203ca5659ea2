//! Single-precision arithmetic: sum, difference, product, quotient, rounded to the nearest number,
//! ties to even.
//!
//! A finite number is an integer multiple of `2^-149`, so the exact result of an operation is a
//! ratio of two integers in that unit, and every operation is that ratio, rounded.
use vstd::prelude::*;
use vstd::arithmetic::div_mod;
use vstd::arithmetic::power2;
use crate::distance::single::{F32, ONE_BITS, ONE_POINT_TWO_BITS};

verus! {

/// The pattern of positive infinity.
pub const INFINITY_BITS: u32 = 0x7F80_0000;

/// The pattern that stands for the result of an operation that has none.
pub const NAN_BITS: u32 = 0x7FC0_0000;

/// `p / q`, rounded to the nearest integer, ties to even.
pub open spec fn nearest(p: nat, q: nat) -> nat {
    let f = p / q;
    let r = p % q;
    if 2 * r > q || 2 * r == q && f % 2 == 1 {
        f + 1
    } else {
        f
    }
}

/// The pattern of the number nearest to `p / q` units of `2^-149`, with no limit on the exponent.
/// Below `2^24` units every number is a multiple of one unit; each doubling above adds one to the
/// exponent and doubles the step.
pub open spec fn rounded(p: nat, q: nat) -> nat
    decreases p - q,
    when q > 0
{
    if p < q * 0x100_0000 {
        nearest(p, q)
    } else {
        0x80_0000 + rounded(p, 2 * q)
    }
}

/// The number nearest to `p / q` units of `2^-149`, with the given sign: infinity where it is out
/// of range.
pub open spec fn packed(negative: bool, p: nat, q: nat) -> F32 {
    let mag = if rounded(p, q) < INFINITY_BITS {
        rounded(p, q)
    } else {
        INFINITY_BITS as nat
    };
    signed(negative, mag)
}

/// The pattern with this sign and these bits below it.
pub open spec fn signed(negative: bool, magnitude: nat) -> F32 {
    F32(
        (magnitude + (if negative {
            0x8000_0000nat
        } else {
            0nat
        })) as u32,
    )
}

impl F32 {
    /// Whether the number is finite.
    pub open spec fn finite(self) -> bool {
        self.magnitude() < INFINITY_BITS
    }

    /// Whether the number is one of the two infinities.
    pub open spec fn infinite(self) -> bool {
        self.magnitude() == INFINITY_BITS
    }

    /// The absolute value of a finite number in units of `2^-149`.
    pub open spec fn units(self) -> nat {
        let e = self.magnitude() / 0x80_0000;
        let f = self.magnitude() % 0x80_0000;
        if e == 0 {
            f as nat
        } else {
            (f + 0x80_0000) as nat * power2::pow2((e - 1) as nat)
        }
    }

    /// The value of a finite number in units of `2^-149`.
    pub open spec fn value(self) -> int {
        if self.negative() {
            -(self.units() as int)
        } else {
            self.units() as int
        }
    }

    /// The number with the other sign.
    pub open spec fn negated(self) -> F32 {
        signed(!self.negative(), self.magnitude() as nat)
    }

    /// The number without its sign.
    pub open spec fn absolute(self) -> F32 {
        F32(self.magnitude() as u32)
    }

    /// `self + other`.
    pub open spec fn plus(self, other: F32) -> F32 {
        if self.nan() || other.nan() {
            F32(NAN_BITS)
        } else if self.infinite() {
            if other.infinite() && self.negative() != other.negative() {
                F32(NAN_BITS)
            } else {
                self
            }
        } else if other.infinite() {
            other
        } else {
            let sum = self.value() + other.value();
            if sum == 0 {
                signed(self.negative() && other.negative(), 0)
            } else {
                packed(
                    sum < 0,
                    (if sum < 0 {
                        -sum
                    } else {
                        sum
                    }) as nat,
                    1,
                )
            }
        }
    }

    /// `self - other`.
    pub open spec fn less(self, other: F32) -> F32 {
        self.plus(other.negated())
    }

    /// `self * other`.
    pub open spec fn times(self, other: F32) -> F32 {
        let negative = self.negative() != other.negative();
        if self.nan() || other.nan() {
            F32(NAN_BITS)
        } else if self.infinite() || other.infinite() {
            if self.magnitude() == 0 || other.magnitude() == 0 {
                F32(NAN_BITS)
            } else {
                signed(negative, INFINITY_BITS as nat)
            }
        } else {
            packed(negative, self.units() * other.units(), power2::pow2(149))
        }
    }

    /// `self / other`.
    pub open spec fn over(self, other: F32) -> F32 {
        let negative = self.negative() != other.negative();
        if self.nan() || other.nan() {
            F32(NAN_BITS)
        } else if self.infinite() {
            if other.infinite() {
                F32(NAN_BITS)
            } else {
                signed(negative, INFINITY_BITS as nat)
            }
        } else if other.infinite() {
            signed(negative, 0)
        } else if other.magnitude() == 0 {
            if self.magnitude() == 0 {
                F32(NAN_BITS)
            } else {
                signed(negative, INFINITY_BITS as nat)
            }
        } else {
            packed(negative, self.units() * power2::pow2(149), other.units())
        }
    }

    /// The number nearest to an integer.
    pub open spec fn of_int(n: nat) -> F32 {
        packed(false, n * power2::pow2(149), 1)
    }
}

/// To scale both sides leaves the nearest integer the same.
pub proof fn lemma_nearest_scale(p: nat, q: nat, b: nat)
    requires
        q > 0,
        b > 0,
    ensures
        nearest(p * b, q * b) == nearest(p, q),
{
    let f = p / q;
    let r = p % q;
    div_mod::lemma_fundamental_div_mod(p as int, q as int);
    assert(r < q);
    assert(p * b == f * (q * b) + r * b) by (nonlinear_arith)
        requires
            p == q * f + r,
    ;
    assert(0 <= r * b < q * b) by (nonlinear_arith)
        requires
            0 <= r < q,
            b > 0,
    ;
    div_mod::lemma_fundamental_div_mod_converse(
        (p * b) as int,
        (q * b) as int,
        f as int,
        (r * b) as int,
    );
    assert(2 * r > q <==> 2 * (r * b) > q * b) by (nonlinear_arith)
        requires
            b > 0,
    ;
    assert(2 * r == q <==> 2 * (r * b) == q * b) by (nonlinear_arith)
        requires
            b > 0,
    ;
}

/// The rounding of a ratio between `2^(23 + k)` and `2^(24 + k)` units, or below `2^24` for `k = 0`.
proof fn lemma_rounded_at(p: nat, q: nat, k: nat)
    requires
        q > 0,
        p < q * power2::pow2(24 + k),
        k > 0 ==> q * power2::pow2((23 + k) as nat) <= p,
    ensures
        rounded(p, q) == 0x80_0000 * k + nearest(p, q * power2::pow2(k)),
    decreases k,
{
    power2::lemma2_to64();
    power2::lemma_pow2_pos(k);
    if k == 0 {
        assert(q * power2::pow2(0) == q) by (nonlinear_arith)
            requires
                power2::pow2(0) == 1,
        ;
    } else {
        let j = (k - 1) as nat;
        power2::lemma_pow2_unfold(k);
        power2::lemma_pow2_unfold((24 + k) as nat);
        power2::lemma_pow2_unfold((23 + k) as nat);
        assert(power2::pow2((24 + k) as nat) == 2 * power2::pow2((24 + j) as nat));
        assert(power2::pow2((23 + k) as nat) == 2 * power2::pow2((23 + j) as nat));
        assert(q * power2::pow2((24 + k) as nat) == (2 * q) * power2::pow2((24 + j) as nat)) by (nonlinear_arith)
            requires
                power2::pow2((24 + k) as nat) == 2 * power2::pow2((24 + j) as nat),
        ;
        assert(q * power2::pow2((23 + k) as nat) == (2 * q) * power2::pow2((23 + j) as nat)) by (nonlinear_arith)
            requires
                power2::pow2((23 + k) as nat) == 2 * power2::pow2((23 + j) as nat),
        ;
        assert(q * power2::pow2(k) == (2 * q) * power2::pow2(j)) by (nonlinear_arith)
            requires
                power2::pow2(k) == 2 * power2::pow2(j),
        ;
        // p >= q * 2^24
        if j == 0 {
            assert(power2::pow2((23 + k) as nat) == 0x100_0000);
        } else {
            power2::lemma_pow2_strictly_increases(24, (23 + k) as nat);
            assert(q * 0x100_0000 <= q * power2::pow2((23 + k) as nat)) by (nonlinear_arith)
                requires
                    0x100_0000 <= power2::pow2((23 + k) as nat),
            ;
        }
        lemma_rounded_at(p, 2 * q, j);
    }
}

/// The nearest integer to a ratio that lies between `x` and `x + 1` times a power of two, where
/// the power is below one: it is found from `x` alone, and from whether the ratio is `x` itself.
proof fn lemma_nearest_shift(p: nat, c: nat, x: nat, s: nat, sticky: bool)
    requires
        s >= 1,
        c > 0,
        !sticky ==> p == c * x,
        sticky ==> c * x < p < c * (x + 1),
    ensures
        ({
            let half = power2::pow2((s - 1) as nat);
            let g = x / half;
            let low = x % half;
            let f = g / 2;
            nearest(p, c * power2::pow2(s)) == (if g % 2 == 1 && (low > 0 || sticky || f % 2 == 1) {
                f + 1
            } else {
                f
            })
        }),
{
    let half = power2::pow2((s - 1) as nat);
    power2::lemma_pow2_pos((s - 1) as nat);
    power2::lemma_pow2_unfold(s);
    assert(power2::pow2(s) == 2 * half);
    let g = x / half;
    let low = x % half;
    let f = g / 2;
    let b = g % 2;
    let d = p - c * x;
    div_mod::lemma_fundamental_div_mod(x as int, half as int);
    assert(x == half * g + low && 0 <= low < half);
    assert(g == 2 * f + b);
    assert(0 <= d < c) by (nonlinear_arith)
        requires
            d == p - c * x,
            p == c * x && c > 0 || c * x < p < c * (x + 1),
    ;
    let q = c * power2::pow2(s);
    let r = c * (half * b + low) + d;
    assert(p == f * q + r) by (nonlinear_arith)
        requires
            d == p - c * x,
            x == half * g + low,
            g == 2 * f + b,
            q == c * (2 * half),
            r == c * (half * b + low) + d,
    ;
    assert(c * low + d < c * half) by (nonlinear_arith)
        requires
            0 <= low,
            low + 1 <= half,
            0 <= d < c,
    ;
    assert(0 <= c * low) by (nonlinear_arith)
        requires
            0 <= low,
            c > 0,
    ;
    if b == 0 {
        assert(r == c * low + d) by (nonlinear_arith)
            requires
                b == 0,
                r == c * (half * b + low) + d,
        ;
    } else {
        assert(r == c * half + c * low + d) by (nonlinear_arith)
            requires
                b == 1,
                r == c * (half * b + low) + d,
        ;
    }
    assert(q == 2 * (c * half)) by (nonlinear_arith)
        requires
            q == c * (2 * half),
    ;
    assert(0 <= r < q);
    div_mod::lemma_fundamental_div_mod_converse(
        p as int,
        q as int,
        f as int,
        r,
    );
    assert(low > 0 ==> c * low > 0) by (nonlinear_arith)
        requires
            c > 0,
    ;
    assert(low == 0 ==> c * low == 0) by (nonlinear_arith);
}

/// Takes the lowest `t` of at most `2 * t` binary digits away where more than `t` are left.
fn strip_digits(y: u128, len: u32, t: u32, w: u128, Ghost(x): Ghost<nat>) -> (r: (u128, u32))
    requires
        y > 0,
        w == power2::pow2(t as nat),
        w > 0,
        y / w < w,
        len + t <= 200,
        power2::pow2(len as nat) * y <= x < power2::pow2(len as nat) * (y + 1),
    ensures
        0 < r.0 < w,
        len <= r.1 <= len + t,
        power2::pow2(r.1 as nat) * r.0 <= x < power2::pow2(r.1 as nat) * (r.0 + 1),
{
    if y >= w {
        proof {
            lemma_digits(x, len as nat, y as nat, t as nat);
            div_mod::lemma_div_non_zero(y as int, w as int);
        }
        (y / w, len + t)
    } else {
        (y, len)
    }
}

/// The number of binary digits of a positive integer.
pub(crate) fn bit_length(x: u128) -> (len: u32)
    requires
        x > 0,
    ensures
        1 <= len <= 128,
        power2::pow2((len - 1) as nat) <= x < power2::pow2(len as nat),
{
    proof {
        power2::lemma2_to64();
        power2::lemma2_to64_rest();
    }
    let (y, len) = strip_digits(x, 0, 64, 0x1_0000_0000_0000_0000, Ghost(x as nat));
    let (y, len) = strip_digits(y, len, 32, 0x1_0000_0000, Ghost(x as nat));
    let (y, len) = strip_digits(y, len, 16, 0x1_0000, Ghost(x as nat));
    let (y, len) = strip_digits(y, len, 8, 0x100, Ghost(x as nat));
    let (y, len) = strip_digits(y, len, 4, 0x10, Ghost(x as nat));
    let (y, len) = strip_digits(y, len, 2, 4, Ghost(x as nat));
    let (y, len) = strip_digits(y, len, 1, 2, Ghost(x as nat));
    proof {
        assert(y == 1);
        power2::lemma_pow2_unfold((len + 1) as nat);
        assert(power2::pow2(len as nat) * 1 == power2::pow2(len as nat)) by (nonlinear_arith);
        assert(power2::pow2(len as nat) * 2 == 2 * power2::pow2(len as nat)) by (nonlinear_arith);
    }
    len + 1
}

proof fn lemma_digits(x: nat, len: nat, y: nat, t: nat)
    requires
        power2::pow2(len) * y <= x < power2::pow2(len) * (y + 1),
    ensures
        power2::pow2(len + t) * (y / power2::pow2(t)) <= x < power2::pow2(len + t) * (y / power2::pow2(t) + 1),
{
    power2::lemma_pow2_pos(t);
    power2::lemma_pow2_pos(len);
    power2::lemma_pow2_adds(len, t);
    let a = power2::pow2(len);
    let b = power2::pow2(t);
    let z = y / b;
    div_mod::lemma_fundamental_div_mod(y as int, b as int);
    assert(b * z <= y && y + 1 <= b * (z + 1)) by (nonlinear_arith)
        requires
            y == b * z + y % b,
            0 <= y % b < b,
    ;
    assert((a * b) * z <= x < (a * b) * (z + 1)) by (nonlinear_arith)
        requires
            a * y <= x < a * (y + 1),
            b * z <= y,
            y + 1 <= b * (z + 1),
            a > 0,
    ;
}

/// `p / q` is `x * 2^e`, or, where `sticky` is set, lies strictly between that and
/// `(x + 1) * 2^e`.
pub open spec fn scaled(p: nat, q: nat, x: nat, sticky: bool, e: int) -> bool {
    let a = power2::pow2(
        (if e > 0 {
            e
        } else {
            0
        }) as nat,
    );
    let b = power2::pow2(
        (if e < 0 {
            -e
        } else {
            0
        }) as nat,
    );
    if sticky {
        (q * a) * x < p * b < (q * a) * (x + 1)
    } else {
        p * b == (q * a) * x
    }
}

/// The same number with an exponent that is smaller by `t`.
proof fn lemma_scaled_down(p: nat, q: nat, x: nat, e: int, t: nat)
    requires
        scaled(p, q, x, false, e),
    ensures
        scaled(p, q, x * power2::pow2(t), false, e - t),
{
    let f = e - t;
    let w = power2::pow2(t);
    power2::lemma_pow2_pos(t);
    power2::lemma2_to64();
    if f >= 0 {
        power2::lemma_pow2_adds(f as nat, t);
        let a = power2::pow2(e as nat);
        let a2 = power2::pow2(f as nat);
        assert((q * a2) * (x * w) == (q * a) * x) by (nonlinear_arith)
            requires
                a == a2 * w,
        ;
        assert(e > 0 || a == 1);
        assert(f > 0 || a2 == 1);
    } else if e <= 0 {
        let g = (-e) as nat;
        let h = (-f) as nat;
        power2::lemma_pow2_adds(g, t);
        let b = power2::pow2(g);
        let b2 = power2::pow2(h);
        assert(e < 0 || b == 1);
        assert(p * b2 == (q * 1) * (x * w)) by (nonlinear_arith)
            requires
                b2 == b * w,
                p * b == (q * 1) * x,
        ;
    } else {
        let g = e as nat;
        let h = (-f) as nat;
        power2::lemma_pow2_adds(g, h);
        let a = power2::pow2(g);
        let b2 = power2::pow2(h);
        assert(p * b2 == (q * 1) * (x * w)) by (nonlinear_arith)
            requires
                w == a * b2,
                p * 1 == (q * a) * x,
        ;
    }
}

/// The rounding of a number that `x`, `sticky` and `e` describe, by a shift of `x`.
proof fn lemma_rounded_scaled(p: nat, q: nat, x: nat, sticky: bool, e: int, k: nat, s: nat)
    requires
        q > 0,
        s >= 1,
        k == e + s,
        scaled(p, q, x, sticky, e),
        x < power2::pow2(24 + s),
        k > 0 ==> power2::pow2((23 + s) as nat) <= x,
    ensures
        ({
            let half = power2::pow2((s - 1) as nat);
            let g = x / half;
            let low = x % half;
            let f = g / 2;
            rounded(p, q) == 0x80_0000 * k + (if g % 2 == 1 && (low > 0 || sticky || f % 2
                == 1) {
                f + 1
            } else {
                f
            })
        }),
{
    let a = power2::pow2(
        (if e > 0 {
            e
        } else {
            0
        }) as nat,
    );
    let b = power2::pow2(
        (if e < 0 {
            -e
        } else {
            0
        }) as nat,
    );
    power2::lemma_pow2_pos(
        (if e > 0 {
            e
        } else {
            0
        }) as nat,
    );
    power2::lemma_pow2_pos(
        (if e < 0 {
            -e
        } else {
            0
        }) as nat,
    );
    power2::lemma2_to64();
    let c = q * a;
    assert(c > 0) by (nonlinear_arith)
        requires
            c == q * a,
            q > 0,
            a > 0,
    ;
    // q * 2^k * b == c * 2^s
    assert(power2::pow2(k) * b == a * power2::pow2(s)) by {
        if e >= 0 {
            power2::lemma_pow2_adds(e as nat, s);
            assert(b == 1);
            assert(e > 0 || a == 1);
        } else {
            power2::lemma_pow2_adds(k, (-e) as nat);
            assert(a == 1);
        }
    }
    let q2 = q * power2::pow2(k);
    assert(q2 * b == c * power2::pow2(s)) by (nonlinear_arith)
        requires
            power2::pow2(k) * b == a * power2::pow2(s),
            q2 == q * power2::pow2(k),
            c == q * a,
    ;
    power2::lemma_pow2_pos(k);
    power2::lemma_pow2_pos(s);
    assert(q2 > 0) by (nonlinear_arith)
        requires
            q2 == q * power2::pow2(k),
            q > 0,
            power2::pow2(k) > 0,
    ;
    lemma_nearest_scale(p, q2, b);
    lemma_nearest_shift(p * b, c, x, s, sticky);
    // the range of p
    power2::lemma_pow2_adds(24, s);
    power2::lemma_pow2_adds(24, k);
    let big = power2::pow2(24);
    let ps = power2::pow2(s);
    assert(p * b < (q2 * big) * b) by (nonlinear_arith)
        requires
            q2 * b == c * ps,
            x + 1 <= big * ps,
            p * b < c * (x + 1) || p * b == c * x,
            c > 0,
    ;
    assert(p < q2 * big) by (nonlinear_arith)
        requires
            p * b < (q2 * big) * b,
            b > 0,
    ;
    assert(q * power2::pow2((24 + k) as nat) == q2 * big) by (nonlinear_arith)
        requires
            q2 == q * power2::pow2(k),
            power2::pow2((24 + k) as nat) == big * power2::pow2(k),
    ;
    if k > 0 {
        power2::lemma_pow2_adds(23, s);
        power2::lemma_pow2_adds(23, k);
        let mid = power2::pow2(23);
        assert((q2 * mid) * b <= p * b) by (nonlinear_arith)
            requires
                q2 * b == c * ps,
                mid * ps <= x,
                p * b >= c * x,
                c > 0,
        ;
        assert(q2 * mid <= p) by (nonlinear_arith)
            requires
                (q2 * mid) * b <= p * b,
                b > 0,
        ;
        assert(q * power2::pow2((23 + k) as nat) == q2 * mid) by (nonlinear_arith)
            requires
                q2 == q * power2::pow2(k),
                power2::pow2((23 + k) as nat) == mid * power2::pow2(k),
        ;
    }
    lemma_rounded_at(p, q, k);
}

/// The bits below the sign of the number nearest to `x * 2^e` units, or, where `sticky` is set, to
/// a number strictly between that and `(x + 1) * 2^e`.
pub(crate) fn round_scaled(
    x: u128,
    sticky: bool,
    e: i32,
    Ghost(p): Ghost<nat>,
    Ghost(q): Ghost<nat>,
) -> (mag: u32)
    requires
        q > 0,
        x < 0x10_0000_0000_0000_0000_0000_0000,
        sticky ==> x >= 0x100_0000,
        -200 <= e <= 400,
        scaled(p, q, x as nat, sticky, e as int),
    ensures
        mag <= INFINITY_BITS,
        mag == (if rounded(p, q) < INFINITY_BITS {
            rounded(p, q)
        } else {
            INFINITY_BITS as nat
        }),
{
    proof {
        power2::lemma2_to64();
        power2::lemma2_to64_rest();
    }
    if x == 0 {
        proof {
            lemma_zero(p, q, e as int);
        }
        return 0;
    }
    let mut y: u128 = x;
    let mut f: i32 = e;
    if x < 0x100_0000 {
        y = x * 0x100_0000;
        f = e - 24;
        proof {
            lemma_scaled_down(p, q, x as nat, e as int, 24);
        }
    }
    let len: u32 = bit_length(y);
    proof {
        assert(len >= 25) by {
            if len < 25 {
                if len < 24 {
                    power2::lemma_pow2_strictly_increases(len as nat, 24);
                }
            }
        }
        assert(len <= 124) by {
            if len > 124 {
                power2::lemma_pow2_adds(60, 64);
                if len > 125 {
                    power2::lemma_pow2_strictly_increases(124, (len - 1) as nat);
                }
            }
        }
    }
    let near: i32 = len as i32 - 24;
    let k: i32 = if f + near >= 0 {
        f + near
    } else {
        0
    };
    let s: i32 = k - f;
    proof {
        if s > near {
            power2::lemma_pow2_strictly_increases(len as nat, (24 + s) as nat);
        }
        lemma_rounded_scaled(p, q, y as nat, sticky, f as int, k as nat, s as nat);
    }
    if s >= 127 {
        proof {
            power2::lemma_pow2_adds(62, 64);
            power2::lemma_pow2_adds(60, 64);
            if s > 127 {
                power2::lemma_pow2_strictly_increases(126, (s - 1) as nat);
            }
            let half = power2::pow2((s - 1) as nat);
            assert(y < half);
            assert(y as nat / half == 0) by {
                div_mod::lemma_basic_div(y as int, half as int);
            }
        }
        return 0;
    }
    let half: u128 = 0x8000_0000_0000_0000_0000_0000_0000_0000u128 >> ((128 - s) as u32);
    let g: u128 = y >> ((s - 1) as u32);
    proof {
        lemma_shift_parts(y, s as u32);
    }
    let low: u128 = y - g * half;
    let m: u128 = g / 2;
    proof {
        // g < 2^25
        power2::lemma_pow2_adds(25, (s - 1) as nat);
        assert(g < 0x200_0000) by (nonlinear_arith)
            requires
                g * half <= y,
                y < 0x200_0000 * half,
                half > 0,
        ;
    }
    let up: bool = g % 2 == 1 && (low > 0 || sticky || m % 2 == 1);
    let mant: u64 = if up {
        m as u64 + 1
    } else {
        m as u64
    };
    let bits: u64 = 0x80_0000 * k as u64 + mant;
    if bits < INFINITY_BITS as u64 {
        bits as u32
    } else {
        INFINITY_BITS
    }
}

proof fn lemma_zero(p: nat, q: nat, e: int)
    requires
        q > 0,
        scaled(p, q, 0, false, e),
    ensures
        rounded(p, q) == 0,
{
    let b = power2::pow2(
        (if e < 0 {
            -e
        } else {
            0
        }) as nat,
    );
    power2::lemma_pow2_pos(
        (if e < 0 {
            -e
        } else {
            0
        }) as nat,
    );
    assert(p == 0) by (nonlinear_arith)
        requires
            p * b == 0,
            b > 0,
    ;
    assert(q * 0x100_0000 > 0) by (nonlinear_arith)
        requires
            q > 0,
    ;
    assert(0nat / q == 0) by {
        div_mod::lemma_basic_div(0, q as int);
    }
    assert(0nat % q == 0);
}

/// The quotient of `m` and `2^g`, and whether there is a remainder.
fn split_low(m: u64, g: u32) -> (r: (u64, bool))
    requires
        m < 0x100_0000,
    ensures
        r.0 == m as nat / power2::pow2(g as nat),
        r.1 == (m as nat % power2::pow2(g as nat) != 0),
        r.0 <= m,
{
    proof {
        power2::lemma_pow2_pos(g as nat);
        div_mod::lemma_fundamental_div_mod(m as int, power2::pow2(g as nat) as int);
    }
    if g >= 24 {
        proof {
            power2::lemma2_to64();
            if g > 24 {
                power2::lemma_pow2_strictly_increases(24, g as nat);
            }
            div_mod::lemma_basic_div(m as int, power2::pow2(g as nat) as int);
            div_mod::lemma_small_mod(m as nat, power2::pow2(g as nat));
        }
        return (0, m != 0);
    }
    let q: u64 = m >> g;
    proof {
        vstd::bits::lemma_u64_shr_is_div(m, g as u64);
        assert(q * power2::pow2(g as nat) <= m) by (nonlinear_arith)
            requires
                m == power2::pow2(g as nat) * q + m as int % power2::pow2(g as nat) as int,
                0 <= m as int % power2::pow2(g as nat) as int,
        ;
        assert(q <= m) by (nonlinear_arith)
            requires
                q * power2::pow2(g as nat) <= m,
                power2::pow2(g as nat) >= 1,
        ;
        vstd::bits::lemma_u64_shl_is_mul(q, g as u64);
        assert(m as int % power2::pow2(g as nat) as int == m - q * power2::pow2(g as nat))
            by (nonlinear_arith)
            requires
                m == power2::pow2(g as nat) * q + m as int % power2::pow2(g as nat) as int,
        ;
    }
    (q, m != q << g)
}

impl F32 {
    /// A finite number as an integer below `2^24` times a power of two units.
    pub(crate) fn unpack(self) -> (r: (u64, u32))
        requires
            self.finite(),
        ensures
            r.0 < 0x100_0000,
            r.1 <= 253,
            r.1 > 0 ==> r.0 >= 0x80_0000,
            self.units() == r.0 * power2::pow2(r.1 as nat),
            self.magnitude() == 0 <==> r.0 == 0,
    {
        proof {
            power2::lemma2_to64();
        }
        let mag: u32 = self.0 % 0x8000_0000;
        let e: u32 = mag / 0x80_0000;
        let f: u32 = mag % 0x80_0000;
        if e == 0 {
            assert(f * power2::pow2(0) == f) by (nonlinear_arith)
                requires
                    power2::pow2(0) == 1,
            ;
            (f as u64, 0)
        } else {
            (f as u64 + 0x80_0000, e - 1)
        }
    }

    /// Whether the number is one of the two infinities.
    pub(crate) fn is_infinite(self) -> (b: bool)
        ensures
            b == self.infinite(),
    {
        self.0 % 0x8000_0000 == INFINITY_BITS
    }

    pub(crate) fn is_negative(self) -> (b: bool)
        ensures
            b == self.negative(),
    {
        self.0 >= 0x8000_0000
    }

    /// The number with the other sign.
    pub fn neg(self) -> (r: F32)
        ensures
            r == self.negated(),
    {
        if self.0 >= 0x8000_0000 {
            F32(self.0 - 0x8000_0000)
        } else {
            F32(self.0 + 0x8000_0000)
        }
    }

    /// The number without its sign.
    pub fn abs(self) -> (r: F32)
        ensures
            r == self.absolute(),
    {
        F32(self.0 % 0x8000_0000)
    }

    /// `self + other`, rounded to nearest.
    pub fn add(self, other: F32) -> (r: F32)
        ensures
            r == self.plus(other),
    {
        if self.is_nan() || other.is_nan() {
            return F32(NAN_BITS);
        }
        if self.is_infinite() {
            if other.is_infinite() && self.is_negative() != other.is_negative() {
                return F32(NAN_BITS);
            }
            return self;
        }
        if other.is_infinite() {
            return other;
        }
        let (m1, e1) = self.unpack();
        let (m2, e2) = other.unpack();
        if e1 >= e2 {
            add_unpacked(self, other, m1, e1, m2, e2)
        } else {
            add_unpacked(other, self, m2, e2, m1, e1)
        }
    }

    /// `self - other`, rounded to nearest.
    pub fn sub(self, other: F32) -> (r: F32)
        ensures
            r == self.less(other),
    {
        self.add(other.neg())
    }

    /// `self * other`, rounded to nearest.
    pub fn mul(self, other: F32) -> (r: F32)
        ensures
            r == self.times(other),
    {
        let negative: bool = self.is_negative() != other.is_negative();
        if self.is_nan() || other.is_nan() {
            return F32(NAN_BITS);
        }
        if self.is_infinite() || other.is_infinite() {
            if self.0 % 0x8000_0000 == 0 || other.0 % 0x8000_0000 == 0 {
                return F32(NAN_BITS);
            }
            return with_sign(negative, INFINITY_BITS);
        }
        let (m1, e1) = self.unpack();
        let (m2, e2) = other.unpack();
        assert(m1 * m2 <= 0xFF_FFFF * 0xFF_FFFF) by (nonlinear_arith)
            requires
                m1 <= 0xFF_FFFF,
                m2 <= 0xFF_FFFF,
        ;
        let x: u64 = m1 * m2;
        let e: i32 = e1 as i32 + e2 as i32 - 149;
        let ghost p = self.units() * other.units();
        let ghost q = power2::pow2(149);
        proof {
            power2::lemma_pow2_pos(149);
            power2::lemma_pow2_adds(e1 as nat, e2 as nat);
            power2::lemma2_to64();
            let both = power2::pow2((e1 + e2) as nat);
            assert(p == x * both) by (nonlinear_arith)
                requires
                    p == (m1 * power2::pow2(e1 as nat)) * (m2 * power2::pow2(e2 as nat)),
                    both == power2::pow2(e1 as nat) * power2::pow2(e2 as nat),
                    x == m1 * m2,
            ;
            if e >= 0 {
                let a = power2::pow2(e as nat);
                power2::lemma_pow2_adds(e as nat, 149);
                assert(p * 1 == (q * a) * x) by (nonlinear_arith)
                    requires
                        p == x * both,
                        both == a * q,
                ;
                assert(e > 0 || a == 1);
            } else {
                let b = power2::pow2((-e) as nat);
                power2::lemma_pow2_adds((e1 + e2) as nat, (-e) as nat);
                assert(p * b == (q * 1) * x) by (nonlinear_arith)
                    requires
                        p == x * both,
                        both * b == q,
                ;
            }
        }
        with_sign(negative, round_scaled(x as u128, false, e, Ghost(p), Ghost(q)))
    }

    /// `self / other`, rounded to nearest.
    pub fn div(self, other: F32) -> (r: F32)
        ensures
            r == self.over(other),
    {
        let negative: bool = self.is_negative() != other.is_negative();
        if self.is_nan() || other.is_nan() {
            return F32(NAN_BITS);
        }
        if self.is_infinite() {
            if other.is_infinite() {
                return F32(NAN_BITS);
            }
            return with_sign(negative, INFINITY_BITS);
        }
        if other.is_infinite() {
            return with_sign(negative, 0);
        }
        if other.0 % 0x8000_0000 == 0 {
            if self.0 % 0x8000_0000 == 0 {
                return F32(NAN_BITS);
            }
            return with_sign(negative, INFINITY_BITS);
        }
        let (m1, e1) = self.unpack();
        let (m2, e2) = other.unpack();
        let num: u128 = m1 as u128 * 0x1_0000_0000_0000_0000;
        let x: u128 = num / m2 as u128;
        let sticky: bool = num % m2 as u128 != 0;
        let e: i32 = e1 as i32 - e2 as i32 + 85;
        let ghost p = self.units() * power2::pow2(149);
        let ghost q = other.units();
        proof {
            lemma_quotient(m1 as nat, e1 as nat, m2 as nat, e2 as nat);
            div_mod::lemma_fundamental_div_mod(num as int, m2 as int);
            let rem = num as int % m2 as int;
            assert(x <= num) by (nonlinear_arith)
                requires
                    num == m2 * x + rem,
                    0 <= rem,
                    m2 >= 1,
                    x >= 0,
            ;
            if sticky {
                assert(x >= 0x100_0000) by (nonlinear_arith)
                    requires
                        num == m2 * x + rem,
                        0 <= rem < m2,
                        m2 < 0x100_0000,
                        num >= 0x1_0000_0000_0000_0000,
                ;
            }
        }
        with_sign(negative, round_scaled(x, sticky, e, Ghost(p), Ghost(q)))
    }

    /// The number nearest to `n`.
    pub fn from_usize(n: usize) -> (r: F32)
        ensures
            r == F32::of_int(n as nat),
    {
        proof {
            let p = n * power2::pow2(149);
            let a = power2::pow2(149);
            power2::lemma2_to64();
            assert(p * 1 == (1 * a) * n) by (nonlinear_arith)
                requires
                    p == n * a,
            ;
        }
        with_sign(
            false,
            round_scaled(n as u128, false, 149, Ghost(n as nat * power2::pow2(149)), Ghost(1)),
        )
    }
}

pub(crate) fn with_sign(negative: bool, mag: u32) -> (r: F32)
    requires
        mag <= INFINITY_BITS,
    ensures
        r == signed(negative, mag as nat),
{
    if negative {
        F32(mag + 0x8000_0000)
    } else {
        F32(mag)
    }
}

/// The exact quotient of two unpacked numbers, in the form that the rounding asks for.
proof fn lemma_quotient(m1: nat, e1: nat, m2: nat, e2: nat)
    requires
        m2 > 0,
        e1 <= 253,
        e2 <= 253,
    ensures
        ({
            let num = m1 * 0x1_0000_0000_0000_0000;
            scaled(
                (m1 * power2::pow2(e1)) * power2::pow2(149),
                m2 * power2::pow2(e2),
                num / m2,
                num % m2 != 0,
                e1 - e2 + 85,
            )
        }),
        m2 * power2::pow2(e2) > 0,
{
    let num = m1 * 0x1_0000_0000_0000_0000;
    let x = num / m2;
    let r = num % m2;
    div_mod::lemma_fundamental_div_mod(num as int, m2 as int);
    let e = e1 - e2 + 85;
    let p = (m1 * power2::pow2(e1)) * power2::pow2(149);
    let q = m2 * power2::pow2(e2);
    power2::lemma2_to64();
    power2::lemma2_to64_rest();
    power2::lemma_pow2_pos(e1);
    power2::lemma_pow2_pos(e2);
    power2::lemma_pow2_adds(85, 64);
    power2::lemma_pow2_adds(e1, 85);
    assert(q > 0) by (nonlinear_arith)
        requires
            q == m2 * power2::pow2(e2),
            m2 > 0,
            power2::pow2(e2) > 0,
    ;
    let a = power2::pow2(
        (if e > 0 {
            e
        } else {
            0
        }) as nat,
    );
    let b = power2::pow2(
        (if e < 0 {
            -e
        } else {
            0
        }) as nat,
    );
    let top = power2::pow2((e1 + 85) as nat);
    // 2^(e1 + 85) * b == 2^e2 * a
    assert(top * b == power2::pow2(e2) * a) by {
        if e >= 0 {
            power2::lemma_pow2_adds(e2, e as nat);
            assert(b == 1);
            assert(e > 0 || a == 1);
            assert(top * b == top) by (nonlinear_arith)
                requires
                    b == 1,
            ;
        } else {
            power2::lemma_pow2_adds((e1 + 85) as nat, (-e) as nat);
            assert(a == 1);
            assert(power2::pow2(e2) * a == power2::pow2(e2)) by (nonlinear_arith)
                requires
                    a == 1,
            ;
        }
    }
    power2::lemma_pow2_pos(
        (if e > 0 {
            e
        } else {
            0
        }) as nat,
    );
    let big = 0x1_0000_0000_0000_0000nat;
    let t2 = power2::pow2(e2);
    assert(p == num * top) by (nonlinear_arith)
        requires
            p == (m1 * power2::pow2(e1)) * power2::pow2(149),
            power2::pow2(149) == power2::pow2(85) * big,
            top == power2::pow2(e1) * power2::pow2(85),
            num == m1 * big,
    ;
    let unit = t2 * a;
    assert(unit > 0) by (nonlinear_arith)
        requires
            unit == t2 * a,
            t2 > 0,
            a > 0,
    ;
    // p * b == num * unit, (q * a) * x == m2 * x * unit
    assert(p * b == num * unit) by (nonlinear_arith)
        requires
            p == num * top,
            top * b == unit,
    ;
    assert((q * a) * x == (m2 * x) * unit) by (nonlinear_arith)
        requires
            q == m2 * t2,
            unit == t2 * a,
    ;
    assert((q * a) * (x + 1) == (m2 * x) * unit + m2 * unit) by (nonlinear_arith)
        requires
            q == m2 * t2,
            unit == t2 * a,
    ;
    assert(num * unit == (m2 * x) * unit + r * unit) by (nonlinear_arith)
        requires
            num == m2 * x + r,
    ;
    assert(r * unit < m2 * unit) by (nonlinear_arith)
        requires
            r < m2,
            unit > 0,
    ;
    assert(r != 0 ==> r * unit > 0) by (nonlinear_arith)
        requires
            unit > 0,
            r >= 0,
    ;
    assert(r == 0 ==> r * unit == 0) by (nonlinear_arith);
}

/// The sum of two unpacked numbers, the first with the greater exponent.
fn add_unpacked(a: F32, b: F32, m1: u64, e1: u32, m2: u64, e2: u32) -> (r: F32)
    requires
        a.finite(),
        b.finite(),
        m1 < 0x100_0000,
        m2 < 0x100_0000,
        e2 <= e1 <= 253,
        e1 > 0 ==> m1 >= 0x80_0000,
        a.units() == m1 * power2::pow2(e1 as nat),
        b.units() == m2 * power2::pow2(e2 as nat),
    ensures
        r == a.plus(b),
{
    let d: u32 = e1 - e2;
    let t: u32 = if d <= 38 {
        d
    } else {
        38
    };
    let g: u32 = d - t;
    let e: u32 = e1 - t;
    let (lo, lost) = split_low(m2, g);
    proof {
        power2::lemma2_to64();
        power2::lemma2_to64_rest();
        if t < 38 {
            power2::lemma_pow2_strictly_increases(t as nat, 38);
        }
        assert(m1 * power2::pow2(t as nat) <= 0xFF_FFFF * 0x40_0000_0000) by (nonlinear_arith)
            requires
                m1 <= 0xFF_FFFF,
                power2::pow2(t as nat) <= 0x40_0000_0000,
        ;
        vstd::bits::lemma_u64_shl_is_mul(m1, t as u64);
    }
    let hi: u64 = m1 << t;
    let ghost scale = power2::pow2(e as nat);
    let ghost rest = (m2 as nat % power2::pow2(g as nat)) * power2::pow2(e2 as nat);
    proof {
        lemma_alignment(m1 as nat, e1 as nat, m2 as nat, e2 as nat, t as nat, g as nat, e as nat);
        assert(a.units() == hi * scale);
        assert(b.units() == lo * scale + rest);
        assert(0 <= rest < scale);
        assert(lost == (rest > 0));
        if lost {
            assert(t == 38);
            assert(hi >= 0x80_0000 * 0x40_0000_0000) by (nonlinear_arith)
                requires
                    hi == m1 * power2::pow2(38),
                    m1 >= 0x80_0000,
                    power2::pow2(38) == 0x40_0000_0000,
            ;
        }
    }
    let ghost sum = a.value() + b.value();
    let ghost p = (if sum < 0 {
        -sum
    } else {
        sum
    }) as nat;
    let na: bool = a.is_negative();
    let nb: bool = b.is_negative();
    if na == nb {
        let x: u64 = hi + lo;
        proof {
            assert((1 * scale) * x == hi * scale + lo * scale) by (nonlinear_arith)
                requires
                    x == hi + lo,
            ;
            assert((1 * scale) * (x + 1) == hi * scale + lo * scale + scale) by (nonlinear_arith)
                requires
                    x == hi + lo,
            ;
            assert(p == hi * scale + lo * scale + rest);
            lemma_sum_scaled(p, x as nat, lost, e as int, scale);
            lemma_positive(x as nat, scale);
        }
        if x == 0 && !lost {
            return with_sign(na, 0);
        }
        return with_sign(na, round_scaled(x as u128, lost, e as i32, Ghost(p), Ghost(1)));
    }
    if lost {
        let x: u64 = hi - lo - 1;
        proof {
            assert((1 * scale) * x == hi * scale - lo * scale - scale) by (nonlinear_arith)
                requires
                    x == hi - lo - 1,
            ;
            assert((1 * scale) * (x + 1) == hi * scale - lo * scale) by (nonlinear_arith)
                requires
                    x == hi - lo - 1,
            ;
            assert(p == hi * scale - lo * scale - rest);
            lemma_sum_scaled(p, x as nat, true, e as int, scale);
        }
        return with_sign(na, round_scaled(x as u128, true, e as i32, Ghost(p), Ghost(1)));
    }
    if hi == lo {
        assert(sum == 0);
        return with_sign(false, 0);
    }
    let (x, negative) = if hi > lo {
        (hi - lo, na)
    } else {
        (lo - hi, nb)
    };
    proof {
        if hi > lo {
            assert((1 * scale) * x == hi * scale - lo * scale) by (nonlinear_arith)
                requires
                    x == hi - lo,
            ;
        } else {
            assert((1 * scale) * x == lo * scale - hi * scale) by (nonlinear_arith)
                requires
                    x == lo - hi,
            ;
        }
        lemma_positive(x as nat, scale);
        lemma_sum_scaled(p, x as nat, false, e as int, scale);
    }
    with_sign(negative, round_scaled(x as u128, false, e as i32, Ghost(p), Ghost(1)))
}

proof fn lemma_positive(x: nat, scale: nat)
    requires
        scale > 0,
    ensures
        x > 0 ==> scale * x > 0,
        x == 0 ==> scale * x == 0,
{
    assert(x > 0 ==> scale * x > 0) by (nonlinear_arith)
        requires
            scale > 0,
    ;
}

proof fn lemma_sum_scaled(p: nat, x: nat, sticky: bool, e: int, scale: nat)
    requires
        e >= 0,
        scale == power2::pow2(e as nat),
        !sticky ==> p == (1 * scale) * x,
        sticky ==> (1 * scale) * x < p < (1 * scale) * (x + 1),
    ensures
        scaled(p, 1, x, sticky, e),
{
    power2::lemma2_to64();
    let b = power2::pow2(0);
    assert(p * b == p) by (nonlinear_arith)
        requires
            b == 1,
    ;
    assert(1 * scale == scale);
}

/// Two unpacked numbers over a common power of two.
pub proof fn lemma_alignment(m1: nat, e1: nat, m2: nat, e2: nat, t: nat, g: nat, e: nat)
    requires
        e1 == e + t,
        e == e2 + g,
    ensures
        ({
            let scale = power2::pow2(e);
            let w = power2::pow2(g);
            &&& scale > 0
            &&& w > 0
            &&& m1 * power2::pow2(e1) == (m1 * power2::pow2(t)) * scale
            &&& m2 * power2::pow2(e2) == (m2 / w) * scale + (m2 % w) * power2::pow2(e2)
            &&& 0 <= (m2 % w) * power2::pow2(e2) < scale
            &&& m2 % w > 0 <==> (m2 % w) * power2::pow2(e2) > 0
        }),
{
    let scale = power2::pow2(e);
    let w = power2::pow2(g);
    let u = power2::pow2(e2);
    power2::lemma_pow2_pos(e);
    power2::lemma_pow2_pos(g);
    power2::lemma_pow2_pos(e2);
    power2::lemma_pow2_adds(t, e);
    power2::lemma_pow2_adds(e2, g);
    div_mod::lemma_fundamental_div_mod(m2 as int, w as int);
    assert(m1 * power2::pow2(e1) == (m1 * power2::pow2(t)) * scale) by (nonlinear_arith)
        requires
            power2::pow2(e1) == power2::pow2(t) * scale,
    ;
    let f = m2 / w;
    let r = m2 % w;
    assert(m2 * u == f * scale + r * u) by (nonlinear_arith)
        requires
            m2 == w * f + r,
            scale == u * w,
    ;
    assert(0 <= r * u < scale) by (nonlinear_arith)
        requires
            0 <= r < w,
            scale == u * w,
            u > 0,
    ;
    assert(r > 0 <==> r * u > 0) by (nonlinear_arith)
        requires
            u > 0,
            r >= 0,
    ;
}

/// A greater ratio has no smaller nearest integer.
proof fn lemma_nearest_monotone(p1: nat, q1: nat, p2: nat, q2: nat)
    requires
        q1 > 0,
        q2 > 0,
        p1 * q2 <= p2 * q1,
    ensures
        nearest(p1, q1) <= nearest(p2, q2),
{
    let f1 = p1 / q1;
    let r1 = p1 % q1;
    let f2 = p2 / q2;
    let r2 = p2 % q2;
    div_mod::lemma_fundamental_div_mod(p1 as int, q1 as int);
    div_mod::lemma_fundamental_div_mod(p2 as int, q2 as int);
    if f1 > f2 {
        assert(false) by (nonlinear_arith)
            requires
                p1 == q1 * f1 + r1,
                p2 == q2 * f2 + r2,
                0 <= r1,
                0 <= r2 < q2,
                q1 > 0,
                f1 >= f2 + 1,
                p1 * q2 <= p2 * q1,
        ;
    } else if f1 == f2 {
        assert(r1 * q2 <= r2 * q1) by (nonlinear_arith)
            requires
                p1 == q1 * f1 + r1,
                p2 == q2 * f1 + r2,
                p1 * q2 <= p2 * q1,
        ;
        if 2 * r1 > q1 {
            assert(2 * r2 > q2) by (nonlinear_arith)
                requires
                    r1 * q2 <= r2 * q1,
                    2 * r1 > q1,
                    q1 > 0,
                    q2 > 0,
            ;
        } else if 2 * r1 == q1 {
            assert(2 * r2 >= q2) by (nonlinear_arith)
                requires
                    r1 * q2 <= r2 * q1,
                    2 * r1 == q1,
                    q1 > 0,
            ;
        }
    }
}

pub proof fn lemma_rounded_low(p: nat, q: nat)
    requires
        q > 0,
        p >= q * 0x80_0000,
    ensures
        rounded(p, q) >= 0x80_0000,
{
    if p < q * 0x100_0000 {
        div_mod::lemma_fundamental_div_mod(p as int, q as int);
        assert(p / q >= 0x80_0000) by (nonlinear_arith)
            requires
                p == q * (p / q) + p % q,
                0 <= p % q < q,
                p >= q * 0x80_0000,
        ;
    }
}

pub proof fn lemma_rounded_high(p: nat, q: nat)
    requires
        q > 0,
        p < q * 0x100_0000,
    ensures
        nearest(p, q) <= 0x100_0000,
{
    div_mod::lemma_fundamental_div_mod(p as int, q as int);
    assert(p / q < 0x100_0000) by (nonlinear_arith)
        requires
            p == q * (p / q) + p % q,
            0 <= p % q,
            p < q * 0x100_0000,
    ;
}

/// Rounding keeps the order: a greater ratio is rounded to no smaller number.
pub proof fn lemma_rounded_monotone(p1: nat, q1: nat, p2: nat, q2: nat)
    requires
        q1 > 0,
        q2 > 0,
        p1 * q2 <= p2 * q1,
    ensures
        rounded(p1, q1) <= rounded(p2, q2),
    decreases p1 - q1,
{
    if p1 < q1 * 0x100_0000 {
        if p2 < q2 * 0x100_0000 {
            lemma_nearest_monotone(p1, q1, p2, q2);
        } else {
            lemma_rounded_high(p1, q1);
            assert(p2 >= (2 * q2) * 0x80_0000);
            lemma_rounded_low(p2, 2 * q2);
        }
    } else {
        assert(p2 >= q2 * 0x100_0000) by (nonlinear_arith)
            requires
                p1 * q2 <= p2 * q1,
                p1 >= q1 * 0x100_0000,
                q1 > 0,
        ;
        assert(p1 * (2 * q2) <= p2 * (2 * q1)) by (nonlinear_arith)
            requires
                p1 * q2 <= p2 * q1,
        ;
        lemma_rounded_monotone(p1, 2 * q1, p2, 2 * q2);
    }
}

/// The rounding of an integer times a power of two that is a number.
pub proof fn lemma_rounded_integer(m: nat, k: nat)
    requires
        m < 0x100_0000,
        k > 0 ==> m >= 0x80_0000,
    ensures
        rounded(m * power2::pow2(k), 1) == 0x80_0000 * k + m,
{
    power2::lemma2_to64();
    power2::lemma_pow2_pos(k);
    let w = power2::pow2(k);
    power2::lemma_pow2_adds(24, k);
    assert(m * w < 1 * power2::pow2(24 + k)) by (nonlinear_arith)
        requires
            m < 0x100_0000,
            power2::pow2(24 + k) == 0x100_0000 * w,
            w > 0,
    ;
    if k > 0 {
        power2::lemma_pow2_adds(23, k);
        assert(1 * power2::pow2((23 + k) as nat) <= m * w) by (nonlinear_arith)
            requires
                m >= 0x80_0000,
                power2::pow2((23 + k) as nat) == 0x80_0000 * w,
                w > 0,
        ;
    }
    lemma_rounded_at(m * w, 1, k);
    assert(1 * w == w);
    div_mod::lemma_div_multiples_vanish(m as int, w as int);
    assert(m * w == w * m) by (nonlinear_arith);
    div_mod::lemma_mod_multiples_basic(m as int, w as int);
}

/// A number is rounded to itself.
pub proof fn lemma_rounded_exact(x: F32)
    requires
        x.finite(),
    ensures
        rounded(x.units(), 1) == x.magnitude(),
{
    let e = x.magnitude() / 0x80_0000;
    let f = x.magnitude() % 0x80_0000;
    power2::lemma2_to64();
    if e == 0 {
        assert(f * power2::pow2(0) == f) by (nonlinear_arith)
            requires
                power2::pow2(0) == 1,
        ;
        lemma_rounded_integer(f as nat, 0);
    } else {
        lemma_rounded_integer((f + 0x80_0000) as nat, (e - 1) as nat);
    }
}

/// To scale a ratio leaves its rounding the same.
pub proof fn lemma_rounded_scale(p: nat, q: nat, w: nat)
    requires
        q > 0,
        w > 0,
    ensures
        rounded(p * w, q * w) == rounded(p, q),
{
    assert(q * w > 0) by (nonlinear_arith)
        requires
            q > 0,
            w > 0,
    ;
    assert((p * w) * q == p * (q * w)) by (nonlinear_arith);
    lemma_rounded_monotone(p * w, q * w, p, q);
    lemma_rounded_monotone(p, q, p * w, q * w);
}

/// One times a number is the number.
pub proof fn lemma_one_times(x: F32)
    requires
        !x.nan(),
    ensures
        F32(ONE_BITS).times(x) == x,
{
    let one = F32(ONE_BITS);
    power2::lemma2_to64();
    assert(one.magnitude() == 0x3F80_0000);
    assert(one.units() == 0x80_0000 * power2::pow2(126));
    power2::lemma_pow2_adds(23, 126);
    assert(one.units() == power2::pow2(149)) by (nonlinear_arith)
        requires
            one.units() == 0x80_0000 * power2::pow2(126),
            power2::pow2(149) == 0x80_0000 * power2::pow2(126),
    ;
    if x.finite() {
        power2::lemma_pow2_pos(149);
        lemma_rounded_exact(x);
        lemma_rounded_scale(x.units(), 1, power2::pow2(149));
        assert(1 * power2::pow2(149) == power2::pow2(149));
        assert(one.units() * x.units() == x.units() * power2::pow2(149)) by (nonlinear_arith)
            requires
                one.units() == power2::pow2(149),
        ;
    }
}

/// To multiply a number that is at least one by 1.2 gives a greater number.
pub proof fn lemma_growth(x: F32)
    requires
        x.finite(),
        F32(ONE_BITS).at_most(x),
    ensures
        x.times(F32(ONE_POINT_TWO_BITS)).rank() > x.rank(),
        !x.times(F32(ONE_POINT_TWO_BITS)).nan(),
        F32(ONE_BITS).at_most(x.times(F32(ONE_POINT_TWO_BITS))),
{
    let c = F32(ONE_POINT_TWO_BITS);
    power2::lemma2_to64();
    assert(!x.negative());
    let e = (x.magnitude() / 0x80_0000) as nat;
    let f = (x.magnitude() % 0x80_0000) as nat;
    assert(e >= 127);
    let k = (e - 1) as nat;
    let w = power2::pow2(k);
    power2::lemma_pow2_pos(k);
    let m = f + 0x80_0000;
    assert(x.units() == m * w);
    assert(c.units() == 10066330 * power2::pow2(126));
    let q = power2::pow2(149);
    power2::lemma_pow2_adds(23, 126);
    power2::lemma_pow2_pos(126);
    let t = power2::pow2(126);
    let p = x.units() * c.units();
    // The next number is (m + 1) * 2^k units.
    assert(((m + 1) * w) * q <= p * 1) by (nonlinear_arith)
        requires
            p == (m * w) * (10066330 * t),
            q == 0x80_0000 * t,
            m >= 0x80_0000,
            w > 0,
            t > 0,
    ;
    power2::lemma_pow2_pos(149);
    lemma_rounded_monotone((m + 1) * w, 1, p, q);
    if m + 1 < 0x100_0000 {
        lemma_rounded_integer(m + 1, k);
    } else {
        power2::lemma_pow2_unfold(k + 1);
        assert((m + 1) * w == 0x80_0000 * power2::pow2(k + 1)) by (nonlinear_arith)
            requires
                m + 1 == 0x100_0000,
                power2::pow2(k + 1) == 2 * w,
        ;
        lemma_rounded_integer(0x80_0000, k + 1);
    }
    assert(rounded(p, q) >= x.magnitude() + 1);
}

/// What shifts by `s - 1` and by `128 - s` give.
pub proof fn lemma_shift_parts(x: u128, s: u32)
    requires
        1 <= s <= 127,
    ensures
        0x8000_0000_0000_0000_0000_0000_0000_0000u128 >> (128 - s) as u32 == power2::pow2(
            (s - 1) as nat,
        ),
        x >> (s - 1) as u32 == x as nat / power2::pow2((s - 1) as nat),
        power2::pow2((s - 1) as nat) > 0,
        (x as nat / power2::pow2((s - 1) as nat)) * power2::pow2((s - 1) as nat) <= x,
        x - (x as nat / power2::pow2((s - 1) as nat)) * power2::pow2((s - 1) as nat) == x as nat
            % power2::pow2((s - 1) as nat),
{
    let half = power2::pow2((s - 1) as nat);
    power2::lemma2_to64();
    power2::lemma2_to64_rest();
    vstd::bits::lemma_u128_shr_is_div(
        0x8000_0000_0000_0000_0000_0000_0000_0000u128,
        (128 - s) as u128,
    );
    vstd::bits::lemma_u128_shr_is_div(x, (s - 1) as u128);
    power2::lemma_pow2_adds(63, 64);
    power2::lemma_pow2_adds((128 - s) as nat, (s - 1) as nat);
    power2::lemma_pow2_pos((128 - s) as nat);
    power2::lemma_pow2_pos((s - 1) as nat);
    div_mod::lemma_div_multiples_vanish(half as int, power2::pow2((128 - s) as nat) as int);
    div_mod::lemma_fundamental_div_mod(x as int, half as int);
    let g = x as nat / half;
    assert(half * g == g * half) by (nonlinear_arith);
}

} // verus!
