//! What the order of the numbers is, and that each operation gives the number nearest to the exact
//! result.
use vstd::prelude::*;
use vstd::arithmetic::div_mod;
use vstd::arithmetic::power2;
use crate::distance::arith;
use crate::distance::arith::INFINITY_BITS;
use crate::distance::double::F64;
use crate::distance::fused;
use crate::distance::half;
use crate::distance::half::{F16, HALF_INFINITY};
use crate::distance::root;
use crate::distance::single::F32;

verus! {

/// How far two integers are apart.
pub open spec fn apart(a: int, b: int) -> int {
    if a <= b {
        b - a
    } else {
        a - b
    }
}

/// No finite number is nearer to `p / q` units.
pub open spec fn is_nearest(r: F32, p: int, q: nat) -> bool {
    &&& r.finite()
    &&& forall|z: F32|
        z.finite() ==> apart(r.value() * q, p) <= apart(#[trigger] z.value() * q, p)
}

/// The absolute value that a pattern stands for, in units.
spec fn units_of(magnitude: nat) -> nat {
    let e = magnitude / 0x80_0000;
    let f = magnitude % 0x80_0000;
    if e == 0 {
        f
    } else {
        (f + 0x80_0000) * power2::pow2((e - 1) as nat)
    }
}

proof fn lemma_units_small(m: nat)
    requires
        m <= 0x100_0000,
    ensures
        units_of(m) == m,
{
    power2::lemma2_to64();
    let f = m % 0x80_0000;
    if m == 0x100_0000 {
        assert(m / 0x80_0000 == 2 && f == 0);
        assert((f + 0x80_0000) * power2::pow2(1) == 0x100_0000) by (nonlinear_arith)
            requires
                f == 0,
                power2::pow2(1) == 2,
        ;
    } else if m >= 0x80_0000 {
        assert(m / 0x80_0000 == 1 && f == m - 0x80_0000);
        assert((f + 0x80_0000) * power2::pow2(0) == f + 0x80_0000) by (nonlinear_arith)
            requires
                power2::pow2(0) == 1,
        ;
    }
}

proof fn lemma_units_double(m: nat)
    requires
        m >= 0x80_0000,
    ensures
        units_of(m + 0x80_0000) == 2 * units_of(m),
{
    let e = m / 0x80_0000;
    let f = m % 0x80_0000;
    assert((m + 0x80_0000) / 0x80_0000 == e + 1);
    assert((m + 0x80_0000) % 0x80_0000 == f);
    power2::lemma_pow2_unfold(e);
    let w = power2::pow2((e - 1) as nat);
    assert((f + 0x80_0000) * (2 * w) == 2 * ((f + 0x80_0000) * w)) by (nonlinear_arith);
}

proof fn lemma_nearest_integer(p: nat, q: nat, z: nat)
    requires
        q > 0,
    ensures
        apart((arith::nearest(p, q) * q) as int, p as int) <= apart((z * q) as int, p as int),
{
    let f = p / q;
    let r = p % q;
    div_mod::lemma_fundamental_div_mod(p as int, q as int);
    assert(p == f * q + r) by (nonlinear_arith)
        requires
            p == q * f + r,
    ;
    assert((f + 1) * q == f * q + q) by (nonlinear_arith);
    if z <= f {
        assert(z * q <= f * q) by (nonlinear_arith)
            requires
                z <= f,
        ;
    } else {
        assert(z * q >= (f + 1) * q) by (nonlinear_arith)
            requires
                z >= f + 1,
        ;
    }
}

proof fn lemma_rounded_nearest(p: nat, q: nat, z: nat)
    requires
        q > 0,
    ensures
        apart((units_of(arith::rounded(p, q)) * q) as int, p as int) <= apart(
            (units_of(z) * q) as int,
            p as int,
        ),
    decreases p - q,
{
    if p < q * 0x100_0000 {
        arith::lemma_rounded_high(p, q);
        lemma_units_small(arith::nearest(p, q));
        lemma_nearest_integer(p, q, units_of(z));
    } else {
        let m = arith::rounded(p, 2 * q);
        assert(p >= (2 * q) * 0x80_0000);
        arith::lemma_rounded_low(p, 2 * q);
        lemma_units_double(m);
        let u = units_of(m);
        assert((2 * u) * q == u * (2 * q)) by (nonlinear_arith);
        let y = if z >= 0x100_0000 {
            (z - 0x80_0000) as nat
        } else {
            0x80_0000
        };
        lemma_rounded_nearest(p, 2 * q, y);
        let v = units_of(y);
        assert((2 * v) * q == v * (2 * q)) by (nonlinear_arith);
        if z >= 0x100_0000 {
            lemma_units_double(y);
        } else {
            lemma_units_small(z);
            lemma_units_small(0x80_0000);
            assert(z * q <= 0x100_0000 * q) by (nonlinear_arith)
                requires
                    z < 0x100_0000,
            ;
            assert(v * (2 * q) == 0x100_0000 * q) by (nonlinear_arith)
                requires
                    v == 0x80_0000,
            ;
        }
    }
}

proof fn lemma_packed_nearest(negative: bool, p: nat, q: nat)
    requires
        q > 0,
        arith::packed(negative, p, q).finite(),
    ensures
        is_nearest(
            arith::packed(negative, p, q),
            if negative {
                -(p as int)
            } else {
                p as int
            },
            q,
        ),
{
    let r = arith::packed(negative, p, q);
    let m = arith::rounded(p, q);
    let target = if negative {
        -(p as int)
    } else {
        p as int
    };
    assert(m < INFINITY_BITS) by {
        if m >= INFINITY_BITS {
            assert(r.magnitude() == INFINITY_BITS);
        }
    }
    assert(r.magnitude() == m && r.negative() == negative);
    assert(r.units() == units_of(m));
    assert forall|z: F32| z.finite() implies apart(r.value() * q, target) <= apart(
        #[trigger] z.value() * q,
        target,
    ) by {
        let u = r.units() as int;
        let v = z.units() as int;
        assert((-u) * q == -(u * q)) by (nonlinear_arith);
        assert((-v) * q == -(v * q)) by (nonlinear_arith);
        assert(v * q >= 0) by (nonlinear_arith)
            requires
                v >= 0,
        ;
        assert(z.units() == units_of(z.magnitude() as nat));
        if z.negative() == negative {
            lemma_rounded_nearest(p, q, z.magnitude() as nat);
        } else {
            lemma_rounded_nearest(p, q, 0);
            lemma_units_small(0);
            assert(0 * q == 0) by (nonlinear_arith);
        }
    }
}

proof fn lemma_zero_nearest(r: F32, q: nat)
    requires
        r.magnitude() == 0,
    ensures
        is_nearest(r, 0, q),
{
    assert(r.units() == 0);
    assert(0 * q == 0) by (nonlinear_arith);
}

/// Numbers stand in the order of their values, and the two zeros stand together.
pub proof fn law_order_is_of_values(x: F32, y: F32)
    requires
        x.finite(),
        y.finite(),
    ensures
        x.below(y) <==> x.value() < y.value(),
        x.at_most(y) <==> x.value() <= y.value(),
{
    lemma_magnitudes(x, y);
    lemma_magnitudes(y, x);
    assert(x.magnitude() == 0 ==> x.units() == 0);
    assert(y.magnitude() == 0 ==> y.units() == 0);
    lemma_magnitudes(x, F32(0));
    lemma_magnitudes(y, F32(0));
    assert(F32(0).units() == 0);
}

proof fn lemma_magnitudes(x: F32, y: F32)
    requires
        x.finite(),
        y.finite(),
    ensures
        x.units() <= y.units() ==> x.magnitude() <= y.magnitude(),
        x.magnitude() == y.magnitude() ==> x.units() == y.units(),
{
    arith::lemma_rounded_exact(x);
    arith::lemma_rounded_exact(y);
    if x.units() <= y.units() {
        arith::lemma_rounded_monotone(x.units(), 1, y.units(), 1);
    }
}

/// A sum is the number nearest to the exact sum.
pub proof fn law_sums_are_nearest(x: F32, y: F32)
    requires
        x.finite(),
        y.finite(),
        x.plus(y).finite(),
    ensures
        is_nearest(x.plus(y), x.value() + y.value(), 1),
{
    let sum = x.value() + y.value();
    if sum == 0 {
        lemma_zero_nearest(x.plus(y), 1);
    } else {
        lemma_packed_nearest(sum < 0, fused::magnitude_of(sum), 1);
    }
}

/// A difference is the number nearest to the exact difference.
pub proof fn law_differences_are_nearest(x: F32, y: F32)
    requires
        x.finite(),
        y.finite(),
        x.less(y).finite(),
    ensures
        is_nearest(x.less(y), x.value() - y.value(), 1),
{
    let z = y.negated();
    assert(z.magnitude() == y.magnitude() && z.negative() == !y.negative());
    assert(z.value() == -y.value());
    law_sums_are_nearest(x, z);
}

/// A product is the number nearest to the exact product.
pub proof fn law_products_are_nearest(x: F32, y: F32)
    requires
        x.finite(),
        y.finite(),
        x.times(y).finite(),
    ensures
        is_nearest(x.times(y), x.value() * y.value(), power2::pow2(149)),
{
    power2::lemma_pow2_pos(149);
    let a = x.units() as int;
    let b = y.units() as int;
    assert((-a) * b == -(a * b) && a * (-b) == -(a * b) && (-a) * (-b) == a * b)
        by (nonlinear_arith);
    lemma_packed_nearest(
        x.negative() != y.negative(),
        x.units() * y.units(),
        power2::pow2(149),
    );
}

/// A quotient is the number nearest to the exact quotient.
pub proof fn law_quotients_are_nearest(x: F32, y: F32)
    requires
        x.finite(),
        y.finite(),
        y.magnitude() != 0,
        x.over(y).finite(),
    ensures
        is_nearest(
            x.over(y),
            if y.negative() {
                -(x.value() * power2::pow2(149))
            } else {
                x.value() * power2::pow2(149)
            },
            y.units(),
        ),
{
    let a = x.units() as int;
    let w = power2::pow2(149) as int;
    assert((-a) * w == -(a * w)) by (nonlinear_arith);
    assert(y.units() > 0) by {
        if y.units() == 0 {
            lemma_magnitudes(y, F32(0));
            assert(F32(0).units() == 0);
        }
    }
    lemma_packed_nearest(
        x.negative() != y.negative(),
        x.units() * power2::pow2(149),
        y.units(),
    );
}

/// A product with a term added is the number nearest to the exact result: it is rounded once.
pub proof fn law_fused_results_are_nearest(x: F32, y: F32, z: F32)
    requires
        x.finite(),
        y.finite(),
        z.finite(),
        x.fused(y, z).finite(),
    ensures
        is_nearest(
            x.fused(y, z),
            x.value() * y.value() + z.value() * power2::pow2(149),
            power2::pow2(149),
        ),
{
    power2::lemma_pow2_pos(149);
    let sum = x.value() * y.value() + z.value() * power2::pow2(149);
    if sum == 0 {
        lemma_zero_nearest(x.fused(y, z), power2::pow2(149));
    } else {
        lemma_packed_nearest(sum < 0, fused::magnitude_of(sum), power2::pow2(149));
    }
}

/// The number for an integer is the one nearest to it.
pub proof fn law_integers_are_nearest(n: nat)
    requires
        F32::of_int(n).finite(),
    ensures
        is_nearest(F32::of_int(n), (n * power2::pow2(149)) as int, 1),
{
    lemma_packed_nearest(false, n * power2::pow2(149), 1);
}

proof fn lemma_squares_order(a: int, b: int)
    requires
        0 <= a,
        0 <= b,
    ensures
        a < b <==> a * a < b * b,
{
    if a < b {
        assert(a * a < b * b) by (nonlinear_arith)
            requires
                0 <= a < b,
        ;
    } else {
        assert(a * a >= b * b) by (nonlinear_arith)
            requires
                0 <= b <= a,
        ;
    }
}

proof fn lemma_root_of_square(s: nat, q: nat)
    requires
        q > 0,
    ensures
        root::rounded_root(s * s, q) == arith::rounded(s, q),
    decreases s - q,
{
    lemma_squares_order(s as int, (q * 0x100_0000) as int);
    if s < q * 0x100_0000 {
        let f = s / q;
        let r = s % q;
        div_mod::lemma_fundamental_div_mod(s as int, q as int);
        assert(s == f * q + r) by (nonlinear_arith)
            requires
                s == q * f + r,
        ;
        assert((f + 1) * q == f * q + q) by (nonlinear_arith);
        lemma_squares_order(s as int, (f * q) as int);
        lemma_squares_order(s as int, ((f + 1) * q) as int);
        assert(root::is_root_floor(s * s, q, f));
        let n = s * s;
        let g = choose|g: nat| root::is_root_floor(n, q, g);
        root::lemma_root_floor_unique(n, q, f, g);
        let middle = (2 * f + 1) * q;
        assert(middle == 2 * (f * q) + q) by (nonlinear_arith)
            requires
                middle == (2 * f + 1) * q,
        ;
        assert(4 * (s * s) == (2 * s) * (2 * s)) by (nonlinear_arith);
        lemma_squares_order(middle as int, (2 * s) as int);
        lemma_squares_order((2 * s) as int, middle as int);
        if 4 * (s * s) == middle * middle {
            assert(2 * s == middle);
        }
        if 2 * s == middle {
            assert((2 * s) * (2 * s) == middle * middle);
        }
        assert(root::nearest_root(s * s, q) == arith::nearest(s, q));
    } else {
        lemma_root_of_square(s, 2 * q);
    }
}

/// The root of what is the exact square of a positive number is that number.
pub proof fn law_roots_undo_exact_squares(x: F32, y: F32)
    requires
        x.finite(),
        y.finite(),
        x.value() > 0,
        y.value() > 0,
        y.value() * y.value() == x.value() * power2::pow2(149),
    ensures
        x.root() == y,
{
    lemma_root_of_square(y.units(), 1);
    arith::lemma_rounded_exact(y);
    assert(!x.zero()) by {
        if x.zero() {
            assert(x.magnitude() == 0);
            assert(x.units() == 0);
        }
    }
    assert(y.0 == y.magnitude());
}

/// The absolute value that the pattern of a half stands for, in units of halves.
spec fn half_units_of(magnitude: nat) -> nat {
    let e = magnitude / 0x400;
    let f = magnitude % 0x400;
    if e == 0 {
        f
    } else {
        (f + 0x400) * power2::pow2((e - 1) as nat)
    }
}

proof fn lemma_half_units_small(m: nat)
    requires
        m <= 0x800,
    ensures
        half_units_of(m) == m,
{
    power2::lemma2_to64();
    let f = m % 0x400;
    if m == 0x800 {
        assert(m / 0x400 == 2 && f == 0);
        assert((f + 0x400) * power2::pow2(1) == 0x800) by (nonlinear_arith)
            requires
                f == 0,
                power2::pow2(1) == 2,
        ;
    } else if m >= 0x400 {
        assert(m / 0x400 == 1 && f == m - 0x400);
        assert((f + 0x400) * power2::pow2(0) == f + 0x400) by (nonlinear_arith)
            requires
                power2::pow2(0) == 1,
        ;
    }
}

proof fn lemma_half_units_double(m: nat)
    requires
        m >= 0x400,
    ensures
        half_units_of(m + 0x400) == 2 * half_units_of(m),
{
    let e = m / 0x400;
    let f = m % 0x400;
    assert((m + 0x400) / 0x400 == e + 1);
    assert((m + 0x400) % 0x400 == f);
    power2::lemma_pow2_unfold(e);
    let w = power2::pow2((e - 1) as nat);
    assert((f + 0x400) * (2 * w) == 2 * ((f + 0x400) * w)) by (nonlinear_arith);
}

proof fn lemma_half_rounded_nearest(p: nat, q: nat, z: nat)
    requires
        q > 0,
    ensures
        apart((half_units_of(half::half_rounded(p, q)) * q) as int, p as int) <= apart(
            (half_units_of(z) * q) as int,
            p as int,
        ),
        p >= q * 0x400 ==> half::half_rounded(p, q) >= 0x400,
    decreases p - q,
{
    if p < q * 0x800 {
        let f = p / q;
        div_mod::lemma_fundamental_div_mod(p as int, q as int);
        assert(f < 0x800) by (nonlinear_arith)
            requires
                p == q * f + p % q,
                0 <= p % q,
                p < q * 0x800,
        ;
        if p >= q * 0x400 {
            let r = p % q;
            assert(f >= 0x400) by (nonlinear_arith)
                requires
                    p == q * f + r,
                    r < q,
                    q > 0,
                    p >= q * 0x400,
            ;
        }
        lemma_half_units_small(arith::nearest(p, q));
        lemma_nearest_integer(p, q, half_units_of(z));
    } else {
        let m = half::half_rounded(p, 2 * q);
        assert(p >= (2 * q) * 0x400);
        let y = if z >= 0x800 {
            (z - 0x400) as nat
        } else {
            0x400
        };
        lemma_half_rounded_nearest(p, 2 * q, y);
        lemma_half_units_double(m);
        let u = half_units_of(m);
        assert((2 * u) * q == u * (2 * q)) by (nonlinear_arith);
        let v = half_units_of(y);
        assert((2 * v) * q == v * (2 * q)) by (nonlinear_arith);
        if z >= 0x800 {
            lemma_half_units_double(y);
        } else {
            lemma_half_units_small(z);
            lemma_half_units_small(0x400);
            assert(z * q <= 0x800 * q) by (nonlinear_arith)
                requires
                    z < 0x800,
            ;
            assert(v * (2 * q) == 0x800 * q) by (nonlinear_arith)
                requires
                    v == 0x400,
            ;
        }
    }
}

/// A number rounded to a half keeps its sign, and no half of that sign is nearer to it.
pub proof fn law_halves_are_nearest(x: F32, z: F16)
    requires
        x.finite(),
        F16::of_single(x).magnitude() < HALF_INFINITY,
        z.magnitude() < HALF_INFINITY,
    ensures
        F16::of_single(x).negative() == x.negative(),
        apart(
            (F16::of_single(x).units() * power2::pow2(125)) as int,
            x.units() as int,
        ) <= apart((z.units() * power2::pow2(125)) as int, x.units() as int),
{
    power2::lemma_pow2_pos(125);
    let h = F16::of_single(x);
    let m = half::half_rounded(x.units(), power2::pow2(125));
    assert(h.magnitude() == m && h.negative() == x.negative());
    lemma_half_rounded_nearest(x.units(), power2::pow2(125), z.magnitude());
    assert(h.units() == half_units_of(m));
    assert(z.units() == half_units_of(z.magnitude()));
}

/// Double-precision numbers stand in the order of their patterns: those without the sign bit by their
/// pattern, those with it the other way round and before them. What is no number stands nowhere, and the
/// two zeros stand together.
pub proof fn law_order_of_doubles(x: F64, y: F64)
    ensures
        x.0 <= 0x7FF0_0000_0000_0000 && y.0 <= 0x7FF0_0000_0000_0000 ==> (x.below(y) <==> x.0 < y.0),
        0x8000_0000_0000_0000 <= x.0 <= 0xFFF0_0000_0000_0000 && 0x8000_0000_0000_0000 <= y.0
            <= 0xFFF0_0000_0000_0000 ==> (x.below(y) <==> y.0 < x.0),
        0x8000_0000_0000_0000 < x.0 <= 0xFFF0_0000_0000_0000 && y.0 <= 0x7FF0_0000_0000_0000
            ==> x.below(y) && !y.below(x),
        x.0 == 0x8000_0000_0000_0000 && y.0 == 0 ==> !x.below(y) && !y.below(x),
        x.0 > 0xFFF0_0000_0000_0000 || 0x7FF0_0000_0000_0000 < x.0 < 0x8000_0000_0000_0000
            ==> !x.below(y) && !y.below(x),
{
}

/// The greater of two numbers is one of them and no less than either, the smaller one is one of them and
/// no more than either. Where one is no number, both are the other.
pub proof fn law_greater_and_smaller(x: F32, y: F32)
    ensures
        x.greater(y) == x || x.greater(y) == y,
        x.lesser(y) == x || x.lesser(y) == y,
        !x.nan() && !y.nan() ==> x.at_most(x.greater(y)) && y.at_most(x.greater(y)),
        !x.nan() && !y.nan() ==> x.lesser(y).at_most(x) && x.lesser(y).at_most(y),
        x.nan() ==> x.greater(y) == y && x.lesser(y) == y,
        !x.nan() && y.nan() ==> x.greater(y) == x && x.lesser(y) == x,
{
}

/// A number with the other sign has the opposite value, and without a sign it has the value without one.
pub proof fn law_signs(x: F32)
    requires
        x.finite(),
    ensures
        x.negated().value() == -x.value(),
        x.negated().negated() == x,
        x.absolute().value() == apart(0, x.value()),
{
    let y = x.negated();
    assert(y.magnitude() == x.magnitude() && y.negative() == !x.negative());
    assert(x.absolute().magnitude() == x.magnitude() && !x.absolute().negative());
    assert(y.negated().0 == x.0);
}

/// The total order goes on from the order of values: it tells all patterns apart, the zero with a sign
/// stands before the other, and what is no number stands at the ends.
pub proof fn law_total_order(x: F32, y: F32)
    ensures
        x.below(y) ==> x.total_rank() < y.total_rank(),
        x.total_rank() == y.total_rank() ==> x == y,
        x.0 == 0x8000_0000 && y.0 == 0 ==> x.total_rank() < y.total_rank(),
        x.nan() && !y.nan() && x.negative() ==> x.total_rank() < y.total_rank(),
        x.nan() && !y.nan() && !x.negative() ==> y.total_rank() < x.total_rank(),
{
    assert(x.total_rank() == y.total_rank() ==> x.0 == y.0);
}

/// The size nearest to a number is no more than half away from it, and the whole part of a number is less
/// than one below it, for numbers that are no less than zero and no more than the greatest size.
pub proof fn law_sizes_of_numbers(x: F32)
    requires
        x.finite(),
        !x.negative(),
        x.units() <= usize::MAX * power2::pow2(149),
    ensures
        2 * apart(x.nearest_usize() * power2::pow2(149), x.value()) <= power2::pow2(149),
        x.whole_usize() * power2::pow2(149) <= x.value(),
        x.value() < (x.whole_usize() + 1) * power2::pow2(149),
{
    let u = power2::pow2(149) as int;
    let p = x.units() as int;
    power2::lemma_pow2_pos(149);
    power2::lemma_pow2_unfold(150);
    let n = (2 * p + u) / (2 * u);
    let w = p / u;
    div_mod::lemma_fundamental_div_mod(2 * p + u, 2 * u);
    div_mod::lemma_fundamental_div_mod(p, u);
    let r = (2 * p + u) % (2 * u);
    let s = p % u;
    assert(2 * (n * u) == 2 * p + u - r) by (nonlinear_arith)
        requires
            2 * p + u == (2 * u) * n + r,
    ;
    assert(w * u == p - s) by (nonlinear_arith)
        requires
            p == u * w + s,
    ;
    assert((w + 1) * u == w * u + u) by (nonlinear_arith);
    assert(n <= usize::MAX) by (nonlinear_arith)
        requires
            2 * (n * u) == 2 * p + u - r,
            r >= 0,
            p <= usize::MAX * u,
            u > 0,
    ;
    assert(w <= usize::MAX) by (nonlinear_arith)
        requires
            w * u == p - s,
            s >= 0,
            p <= usize::MAX * u,
            u > 0,
    ;
    assert(n >= 0 && w >= 0) by (nonlinear_arith)
        requires
            2 * (n * u) == 2 * p + u - r,
            r < 2 * u,
            w * u == p - s,
            s < u,
            p >= 0,
            u > 0,
    ;
}

/// Halfway between two integers, rounding goes to the even one.
pub proof fn law_ties_go_to_even(p: nat, q: nat, f: nat)
    requires
        q > 0,
        2 * p == (2 * f + 1) * q,
    ensures
        arith::nearest(p, q) % 2 == 0,
        arith::nearest(p, q) == f || arith::nearest(p, q) == f + 1,
{
    let g = p / q;
    let r = p % q;
    div_mod::lemma_fundamental_div_mod(p as int, q as int);
    assert(g == f && 2 * r == q) by (nonlinear_arith)
        requires
            p == q * g + r,
            0 <= r < q,
            2 * p == (2 * f + 1) * q,
            q > 0,
    ;
}

/// What is no number stays none. Of infinities, the sum of two with different signs, the product with
/// zero and the quotient of two are no number; otherwise an infinity stays one, with the sign that goes
/// with it, and what is divided by it is zero. A number other than zero divided by zero is infinite.
pub proof fn law_special_values(x: F32, y: F32)
    ensures
        x.nan() || y.nan() ==> x.plus(y).nan() && x.times(y).nan() && x.over(y).nan(),
        x.infinite() && y.infinite() && x.negative() != y.negative() ==> x.plus(y).nan(),
        x.infinite() && y.infinite() && x.negative() == y.negative() ==> x.plus(y) == x,
        x.infinite() && y.finite() ==> x.plus(y) == x && y.plus(x) == x,
        x.infinite() && y.magnitude() == 0 ==> x.times(y).nan() && y.times(x).nan(),
        x.infinite() && !y.nan() && y.magnitude() != 0 ==> x.times(y).infinite() && (x.times(
            y,
        ).negative() <==> x.negative() != y.negative()),
        x.infinite() && y.infinite() ==> x.over(y).nan(),
        x.finite() && y.infinite() ==> x.over(y).magnitude() == 0,
        x.infinite() && y.finite() ==> x.over(y).infinite(),
        x.magnitude() == 0 && y.magnitude() == 0 ==> x.over(y).nan(),
        !x.nan() && x.magnitude() != 0 && y.magnitude() == 0 ==> x.over(y).infinite() && (x.over(
            y,
        ).negative() <==> x.negative() != y.negative()),
{
}

} // verus!
