//! The single-precision square root, rounded to the nearest number, ties to even.
use vstd::prelude::*;
use vstd::arithmetic::power2;
use crate::distance::arith;
use crate::distance::arith::{bit_length, INFINITY_BITS, NAN_BITS};
use crate::distance::single::F32;

verus! {

/// `f` is the integer part of `sqrt(n) / q`.
pub open spec fn is_root_floor(n: nat, q: nat, f: nat) -> bool {
    (f * q) * (f * q) <= n && n < ((f + 1) * q) * ((f + 1) * q)
}

/// `sqrt(n) / q`, rounded to the nearest integer, ties to even.
pub open spec fn nearest_root(n: nat, q: nat) -> nat {
    let f = choose|f: nat| is_root_floor(n, q, f);
    let middle = (2 * f + 1) * q;
    if 4 * n > middle * middle || 4 * n == middle * middle && f % 2 == 1 {
        f + 1
    } else {
        f
    }
}

/// The pattern of the number nearest to `sqrt(n) / q` units of `2^-149`, with no limit on the
/// exponent: as for a ratio, each doubling adds one to the exponent and doubles the step.
pub open spec fn rounded_root(n: nat, q: nat) -> nat
    decreases n - q * q,
    when q > 0
    via rounded_root_ends
{
    if n < (q * 0x100_0000) * (q * 0x100_0000) {
        nearest_root(n, q)
    } else {
        0x80_0000 + rounded_root(n, 2 * q)
    }
}

#[via_fn]
proof fn rounded_root_ends(n: nat, q: nat) {
    if n >= (q * 0x100_0000) * (q * 0x100_0000) {
        assert((2 * q) * (2 * q) <= (q * 0x100_0000) * (q * 0x100_0000)) by (nonlinear_arith)
            requires
                q > 0,
        ;
        assert(q * q < (2 * q) * (2 * q)) by (nonlinear_arith)
            requires
                q > 0,
        ;
    }
}

impl F32 {
    /// The square root.
    pub open spec fn root(self) -> F32 {
        if self.nan() {
            F32(NAN_BITS)
        } else if self.zero() {
            self
        } else if self.negative() {
            F32(NAN_BITS)
        } else if self.infinite() {
            F32(INFINITY_BITS)
        } else {
            F32(rounded_root(self.units() * power2::pow2(149), 1) as u32)
        }
    }
}

/// Squares are ordered as their roots.
proof fn lemma_square_order(a: int, b: int)
    requires
        0 <= a,
        0 <= b,
    ensures
        a <= b <==> a * a <= b * b,
        a < b <==> a * a < b * b,
        a == b <==> a * a == b * b,
{
    assert(a <= b ==> a * a <= b * b) by (nonlinear_arith)
        requires
            0 <= a,
            0 <= b,
    ;
    assert(a < b ==> a * a < b * b) by (nonlinear_arith)
        requires
            0 <= a,
            0 <= b,
    ;
    assert(b < a ==> b * b < a * a) by (nonlinear_arith)
        requires
            0 <= a,
            0 <= b,
    ;
}

/// There is one integer part.
pub proof fn lemma_root_floor_unique(n: nat, q: nat, f: nat, g: nat)
    requires
        q > 0,
        is_root_floor(n, q, f),
        is_root_floor(n, q, g),
    ensures
        f == g,
{
    lemma_square_order((f * q) as int, ((g + 1) * q) as int);
    lemma_square_order((g * q) as int, ((f + 1) * q) as int);
    assert(f < g + 1) by (nonlinear_arith)
        requires
            f * q < (g + 1) * q,
            q > 0,
    ;
    assert(g < f + 1) by (nonlinear_arith)
        requires
            g * q < (f + 1) * q,
            q > 0,
    ;
}

/// The rounding of a root between `2^(23 + k)` and `2^(24 + k)` units.
proof fn lemma_rounded_root_at(n: nat, q: nat, k: nat)
    requires
        q > 0,
        n < (q * power2::pow2(24 + k)) * (q * power2::pow2(24 + k)),
        k > 0 ==> (q * power2::pow2((23 + k) as nat)) * (q * power2::pow2((23 + k) as nat)) <= n,
    ensures
        rounded_root(n, q) == 0x80_0000 * k + nearest_root(n, q * power2::pow2(k)),
    decreases k,
{
    power2::lemma2_to64();
    power2::lemma_pow2_pos(k);
    if k == 0 {
        assert(q * power2::pow2(0) == q) by (nonlinear_arith)
            requires
                power2::pow2(0) == 1,
        ;
    } else {
        let j = (k - 1) as nat;
        power2::lemma_pow2_unfold(k);
        power2::lemma_pow2_unfold((24 + k) as nat);
        power2::lemma_pow2_unfold((23 + k) as nat);
        assert(power2::pow2((24 + k) as nat) == 2 * power2::pow2((24 + j) as nat));
        assert(power2::pow2((23 + k) as nat) == 2 * power2::pow2((23 + j) as nat));
        assert(q * power2::pow2((24 + k) as nat) == (2 * q) * power2::pow2((24 + j) as nat))
            by (nonlinear_arith)
            requires
                power2::pow2((24 + k) as nat) == 2 * power2::pow2((24 + j) as nat),
        ;
        assert(q * power2::pow2((23 + k) as nat) == (2 * q) * power2::pow2((23 + j) as nat))
            by (nonlinear_arith)
            requires
                power2::pow2((23 + k) as nat) == 2 * power2::pow2((23 + j) as nat),
        ;
        assert(q * power2::pow2(k) == (2 * q) * power2::pow2(j)) by (nonlinear_arith)
            requires
                power2::pow2(k) == 2 * power2::pow2(j),
        ;
        if j > 0 {
            power2::lemma_pow2_strictly_increases(24, (23 + k) as nat);
        }
        assert(q * 0x100_0000 <= q * power2::pow2((23 + k) as nat)) by (nonlinear_arith)
            requires
                0x100_0000 <= power2::pow2((23 + k) as nat),
        ;
        lemma_square_order(
            (q * 0x100_0000) as int,
            (q * power2::pow2((23 + k) as nat)) as int,
        );
        lemma_rounded_root_at(n, 2 * q, j);
    }
}

/// The rounding of a root that lies between `x` and `x + 1` times `2^e`, found from `x` alone and
/// from whether it is `x` itself.
proof fn lemma_rounded_root_scaled(n: nat, x: nat, exact: bool, e: nat, s: nat)
    requires
        s >= 1,
        (x * power2::pow2(e)) * (x * power2::pow2(e)) <= n,
        n < ((x + 1) * power2::pow2(e)) * ((x + 1) * power2::pow2(e)),
        exact <==> n == (x * power2::pow2(e)) * (x * power2::pow2(e)),
        x < power2::pow2(24 + s),
        power2::pow2((23 + s) as nat) <= x,
    ensures
        ({
            let half = power2::pow2((s - 1) as nat);
            let g = x / half;
            let low = x % half;
            let f = g / 2;
            rounded_root(n, 1) == 0x80_0000 * (e + s) + (if g % 2 == 1 && (low > 0 || !exact || f
                % 2 == 1) {
                f + 1
            } else {
                f
            })
        }),
{
    let half = power2::pow2((s - 1) as nat);
    let unit = power2::pow2(e);
    power2::lemma_pow2_pos((s - 1) as nat);
    power2::lemma_pow2_pos(e);
    power2::lemma_pow2_unfold(s);
    let g = x / half;
    let low = x % half;
    let f = g / 2;
    let b = g % 2;
    vstd::arithmetic::div_mod::lemma_fundamental_div_mod(x as int, half as int);
    assert(g == 2 * f + b);
    let k = e + s;
    power2::lemma_pow2_adds(s, e);
    let q = power2::pow2(k);
    assert(q == (2 * half) * unit);
    // f * q <= x * unit and (x + 1) * unit <= (f + 1) * q
    assert(half * g == 2 * (half * f) + half * b) by (nonlinear_arith)
        requires
            g == 2 * f + b,
    ;
    assert(half * b == 0 || half * b == half) by (nonlinear_arith)
        requires
            b == 0 || b == 1,
    ;
    let whole = 2 * (half * f);
    assert(whole <= x && x + 1 <= whole + 2 * half);
    assert(f * q == whole * unit) by (nonlinear_arith)
        requires
            q == (2 * half) * unit,
            whole == 2 * (half * f),
    ;
    assert((f + 1) * q == (whole + 2 * half) * unit) by (nonlinear_arith)
        requires
            q == (2 * half) * unit,
            whole == 2 * (half * f),
    ;
    assert(whole * unit <= x * unit && (x + 1) * unit <= (whole + 2 * half) * unit)
        by (nonlinear_arith)
        requires
            whole <= x,
            x + 1 <= whole + 2 * half,
            unit > 0,
    ;
    lemma_square_order((f * q) as int, (x * unit) as int);
    lemma_square_order(((x + 1) * unit) as int, ((f + 1) * q) as int);
    assert(is_root_floor(n, q, f));
    let chosen = choose|c: nat| is_root_floor(n, q, c);
    assert(q > 0) by (nonlinear_arith)
        requires
            q == (2 * half) * unit,
            half > 0,
            unit > 0,
    ;
    lemma_root_floor_unique(n, q, f, chosen);
    // the middle between f and f + 1 is h * unit, with h = whole + half
    let h = whole + half;
    let middle = (2 * f + 1) * q;
    assert(middle == 2 * (h * unit)) by (nonlinear_arith)
        requires
            q == (2 * half) * unit,
            whole == 2 * (half * f),
            h == whole + half,
            middle == (2 * f + 1) * q,
    ;
    assert(middle * middle == 4 * ((h * unit) * (h * unit))) by (nonlinear_arith)
        requires
            middle == 2 * (h * unit),
    ;
    if b == 0 {
        assert(x + 1 <= h);
        assert((x + 1) * unit <= h * unit) by (nonlinear_arith)
            requires
                x + 1 <= h,
        ;
        lemma_square_order(((x + 1) * unit) as int, (h * unit) as int);
    } else {
        assert(x == h + low);
        assert(h * unit <= x * unit) by (nonlinear_arith)
            requires
                h <= x,
        ;
        lemma_square_order((h * unit) as int, (x * unit) as int);
        if low > 0 {
            assert(h * unit < x * unit) by (nonlinear_arith)
                requires
                    h < x,
                    unit > 0,
            ;
        }
    }
    // the range
    power2::lemma_pow2_adds(24 + s, e);
    power2::lemma_pow2_adds((23 + s) as nat, e);
    let top = power2::pow2((24 + s) as nat);
    let bottom = power2::pow2((23 + s) as nat);
    assert((x + 1) * unit <= top * unit) by (nonlinear_arith)
        requires
            x + 1 <= top,
    ;
    assert(bottom * unit <= x * unit) by (nonlinear_arith)
        requires
            bottom <= x,
    ;
    assert(1 * power2::pow2((24 + k) as nat) == top * unit);
    assert(1 * power2::pow2((23 + k) as nat) == bottom * unit);
    lemma_square_order(((x + 1) * unit) as int, (top * unit) as int);
    lemma_square_order((bottom * unit) as int, (x * unit) as int);
    lemma_rounded_root_at(n, 1, k);
    assert(1 * q == q);
}

/// The integer part of the square root.
pub(crate) fn integer_root(v: u128) -> (r: u128)
    requires
        v < 0x1000_0000_0000_0000_0000_0000_0000,
    ensures
        r * r <= v < (r + 1) * (r + 1),
        r < 0x100_0000_0000_0000,
{
    let mut r: u128 = 0;
    let mut span: u128 = 0x100_0000_0000_0000;
    let ghost mut j: nat = 56;
    proof {
        power2::lemma2_to64();
        power2::lemma2_to64_rest();
    }
    while span > 1
        invariant
            span == power2::pow2(j),
            span <= 0x100_0000_0000_0000,
            r + span <= 0x100_0000_0000_0000,
            r * r <= v < (r + span) * (r + span),
        decreases span,
    {
        proof {
            power2::lemma2_to64();
            if j == 0 {
                assert(false);
            }
            power2::lemma_pow2_unfold(j);
            j = (j - 1) as nat;
        }
        let half: u128 = span / 2;
        let c: u128 = r + half;
        assert(c * c <= 0x100_0000_0000_0000 * 0x100_0000_0000_0000) by (nonlinear_arith)
            requires
                c <= 0x100_0000_0000_0000,
        ;
        assert(half == power2::pow2(j));
        if c * c <= v {
            assert(c + half == r + span);
            r = c;
        }
        span = half;
    }
    assert(span == 1) by {
        power2::lemma_pow2_pos(j);
    }
    proof {
        if r == 0x100_0000_0000_0000 {
            assert(false);
        }
    }
    r
}

impl F32 {
    /// The square root, rounded to nearest.
    pub fn sqrt(self) -> (r: F32)
        ensures
            r == self.root(),
    {
        if self.is_nan() {
            return F32(NAN_BITS);
        }
        if self.is_zero() {
            return self;
        }
        if self.0 >= 0x8000_0000 {
            return F32(NAN_BITS);
        }
        if self.0 == INFINITY_BITS {
            return self;
        }
        let (m, e) = self.unpack();
        // units * 2^149 = w * 4^h with w below 2^25
        let odd: bool = e % 2 == 0;
        let w: u128 = if odd {
            2 * m as u128
        } else {
            m as u128
        };
        let h: u32 = if odd {
            (e + 148) / 2
        } else {
            (e + 149) / 2
        };
        let ghost n = self.units() * power2::pow2(149);
        proof {
            lemma_root_operand(m as nat, e as nat, w as nat, h as nat);
        }
        let v: u128 = w * 0x1_0000_0000_0000_0000_0000;
        let x: u128 = integer_root(v);
        proof {
            assert(x >= 0x100_0000_0000) by (nonlinear_arith)
                requires
                    (x + 1) * (x + 1) > 0x100_0000_0000 * 0x100_0000_0000,
                    x >= 0,
            ;
            assert(x * x <= 0x100_0000_0000_0000 * 0x100_0000_0000_0000) by (nonlinear_arith)
                requires
                    x <= 0x100_0000_0000_0000,
            ;
        }
        let exact: bool = x * x == v;
        let len: u32 = bit_length(x);
        proof {
            power2::lemma2_to64();
            power2::lemma2_to64_rest();
            if len <= 40 {
                if len < 40 {
                    power2::lemma_pow2_strictly_increases(len as nat, 40);
                }
                assert(false);
            }
            if len > 57 {
                power2::lemma_pow2_strictly_increases(57, len as nat);
                if len > 58 {
                    power2::lemma_pow2_strictly_increases(57, (len - 1) as nat);
                }
                assert(false);
            }
        }
        let s: u32 = len - 24;
        let ex: u32 = h - 40;
        proof {
            lemma_root_scaled(n, w as nat, h as nat, x as nat);
            lemma_rounded_root_scaled(n, x as nat, exact, ex as nat, s as nat);
        }
        let half: u128 = 0x8000_0000_0000_0000_0000_0000_0000_0000u128 >> (128 - s);
        let g: u128 = x >> (s - 1);
        proof {
            arith::lemma_shift_parts(x, s);
            power2::lemma_pow2_adds(25, (s - 1) as nat);
            assert(g < 0x200_0000) by (nonlinear_arith)
                requires
                    g * half <= x,
                    x < 0x200_0000 * half,
                    half > 0,
            ;
        }
        let low: u128 = x - g * half;
        let f: u128 = g / 2;
        let up: bool = g % 2 == 1 && (low > 0 || !exact || f % 2 == 1);
        let mant: u32 = if up {
            f as u32 + 1
        } else {
            f as u32
        };
        F32(0x80_0000 * (ex + s) + mant)
    }
}

/// A number's units times `2^149` as an integer times a power of four.
proof fn lemma_root_operand(m: nat, e: nat, w: nat, h: nat)
    requires
        e % 2 == 0 ==> w == 2 * m && 2 * h == e + 148,
        e % 2 == 1 ==> w == m && 2 * h == e + 149,
    ensures
        (m * power2::pow2(e)) * power2::pow2(149) == w * (power2::pow2(h) * power2::pow2(h)),
{
    power2::lemma2_to64();
    power2::lemma_pow2_adds(h, h);
    power2::lemma_pow2_adds(e, 149);
    let all = power2::pow2(e + 149);
    assert((m * power2::pow2(e)) * power2::pow2(149) == m * all) by (nonlinear_arith)
        requires
            all == power2::pow2(e) * power2::pow2(149),
    ;
    if e % 2 == 0 {
        power2::lemma_pow2_unfold(e + 149);
        assert(m * all == w * power2::pow2(h + h)) by (nonlinear_arith)
            requires
                w == 2 * m,
                all == 2 * power2::pow2(h + h),
        ;
    }
}

/// The root of an integer times a power of four.
proof fn lemma_root_scaled(n: nat, w: nat, h: nat, x: nat)
    requires
        h >= 40,
        n == w * (power2::pow2(h) * power2::pow2(h)),
        x * x <= w * 0x1_0000_0000_0000_0000_0000,
        w * 0x1_0000_0000_0000_0000_0000 < (x + 1) * (x + 1),
    ensures
        ({
            let u = power2::pow2((h - 40) as nat);
            &&& (x * u) * (x * u) <= n
            &&& n < ((x + 1) * u) * ((x + 1) * u)
            &&& x * x == w * 0x1_0000_0000_0000_0000_0000 <==> n == (x * u) * (x * u)
        }),
{
    let u = power2::pow2((h - 40) as nat);
    power2::lemma2_to64();
    power2::lemma2_to64_rest();
    power2::lemma_pow2_pos((h - 40) as nat);
    power2::lemma_pow2_adds((h - 40) as nat, 40);
    let v = w * 0x1_0000_0000_0000_0000_0000;
    let uu = u * u;
    assert(uu > 0) by (nonlinear_arith)
        requires
            uu == u * u,
            u > 0,
    ;
    assert(n == v * uu) by (nonlinear_arith)
        requires
            n == w * (power2::pow2(h) * power2::pow2(h)),
            power2::pow2(h) == u * 0x100_0000_0000,
            v == w * 0x1_0000_0000_0000_0000_0000,
            uu == u * u,
    ;
    assert((x * u) * (x * u) == (x * x) * uu) by (nonlinear_arith)
        requires
            uu == u * u,
    ;
    assert(((x + 1) * u) * ((x + 1) * u) == ((x + 1) * (x + 1)) * uu) by (nonlinear_arith)
        requires
            uu == u * u,
    ;
    let lo = x * x;
    let hi = (x + 1) * (x + 1);
    assert(lo * uu <= v * uu && v * uu < hi * uu) by (nonlinear_arith)
        requires
            lo <= v < hi,
            uu > 0,
    ;
    assert(lo == v <==> lo * uu == v * uu) by (nonlinear_arith)
        requires
            uu > 0,
    ;
}

} // verus!
