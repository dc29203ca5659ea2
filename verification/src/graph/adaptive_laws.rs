//! What an estimated search width is sure to be.
use vstd::prelude::*;
use vstd::arithmetic::div_mod;
use vstd::arithmetic::mul;
use vstd::arithmetic::power2;
use crate::distance::arith;
use crate::distance::exact_laws;
use crate::distance::number_laws;
use crate::distance::single::{F32, ONE_BITS};
use crate::graph::adaptive_ef;
use crate::graph::adaptive_ef::AdaptiveView;
use crate::graph::weighing_laws;
use crate::tally;

verus! {

proof fn lemma_of_int_finite(n: nat)
    requires
        n <= usize::MAX,
    ensures
        F32::of_int(n).finite(),
        !F32::of_int(n).negative(),
{
    let w = power2::pow2(149);
    power2::lemma2_to64();
    power2::lemma2_to64_rest();
    power2::lemma_pow2_pos(149);
    power2::lemma_pow2_adds(41, 149);
    arith::lemma_rounded_integer(0x80_0000, 190);
    let top = 0x80_0000 * power2::pow2(190);
    assert(n * w <= top) by (nonlinear_arith)
        requires
            n <= 0xFFFF_FFFF_FFFF_FFFF,
            top == 0x80_0000 * (0x200_0000_0000 * w),
            w > 0,
    ;
    arith::lemma_rounded_monotone(n * w, 1, top, 1);
}

proof fn lemma_units_monotone(a: F32, b: F32)
    requires
        a.finite(),
        b.finite(),
        a.magnitude() <= b.magnitude(),
    ensures
        a.units() <= b.units(),
{
    arith::lemma_rounded_exact(a);
    arith::lemma_rounded_exact(b);
    if a.units() > b.units() {
        arith::lemma_rounded_monotone(b.units(), 1, a.units(), 1);
        assert(a.magnitude() == b.magnitude());
    }
}

/// The nearest whole number grows with the number.
proof fn lemma_nearest_usize_monotone(a: F32, b: F32)
    requires
        !a.nan(),
        !b.nan(),
        !a.negative(),
        !b.negative(),
        a.magnitude() <= b.magnitude(),
    ensures
        a.nearest_usize() <= b.nearest_usize(),
{
    if b.finite() {
        assert(a.finite());
        lemma_units_monotone(a, b);
        power2::lemma_pow2_pos(150);
        div_mod::lemma_div_is_ordered(
            (2 * a.units() + power2::pow2(149)) as int,
            (2 * b.units() + power2::pow2(149)) as int,
            power2::pow2(150) as int,
        );
    }
}

proof fn lemma_nearest_usize_of_int(n: usize)
    requires
        n <= 0x100_0000,
    ensures
        F32::of_int(n as nat).nearest_usize() == n,
{
    exact_laws::lemma_of_int(n as nat);
    let u = power2::pow2(149) as int;
    let k = n as int;
    power2::lemma_pow2_pos(149);
    power2::lemma_pow2_unfold(150);
    assert(2 * (k * u) + u == (2 * u) * k + u) by (nonlinear_arith);
    div_mod::lemma_fundamental_div_mod_converse(2 * (k * u) + u, 2 * u, k, u);
}

proof fn lemma_one()
    ensures
        F32(ONE_BITS).units() == power2::pow2(149),
{
    let one = F32(ONE_BITS);
    power2::lemma2_to64();
    assert(one.magnitude() == 0x3F80_0000);
    power2::lemma_pow2_adds(23, 126);
    assert(one.units() == power2::pow2(149)) by (nonlinear_arith)
        requires
            one.units() == 0x80_0000 * power2::pow2(126),
            power2::pow2(149) == 0x80_0000 * power2::pow2(126),
    ;
}

/// The exact sum of a share of the span and the base, in units of `2^-298`.
spec fn exact(x: F32, span: F32, base: F32) -> nat {
    x.units() * span.units() + base.units() * power2::pow2(149)
}

proof fn lemma_fused_share(x: F32, span: F32, base: F32)
    requires
        adaptive_ef::is_share(x),
        span.finite(),
        !span.negative(),
        base.finite(),
        !base.negative(),
    ensures
        x.finite(),
        x.fused(span, base) == arith::packed(
            false,
            exact(x, span, base),
            power2::pow2(149),
        ),
{
    let p = exact(x, span, base);
    power2::lemma_pow2_pos(149);
    assert(x.value() * span.value() == (x.units() * span.units()) as int);
    if p == 0 {
        arith::lemma_rounded_monotone(0, power2::pow2(149), 0, 1);
        arith::lemma_rounded_integer(0, 0);
        power2::lemma2_to64();
        assert(0 * power2::pow2(0) == 0);
        assert(arith::rounded(0, 1) == 0);
    }
}

/// A greater share of the way gives no smaller width.
pub proof fn law_width_grows(a: F32, b: F32, min_ef: usize, max_ef: usize)
    requires
        adaptive_ef::is_share(a),
        adaptive_ef::is_share(b),
        a.at_most(b),
        min_ef <= max_ef,
    ensures
        adaptive_ef::width_at(a, min_ef, max_ef) <= adaptive_ef::width_at(b, min_ef, max_ef),
{
    let span = F32::of_int((max_ef - min_ef) as nat);
    let base = F32::of_int(min_ef as nat);
    lemma_of_int_finite((max_ef - min_ef) as nat);
    lemma_of_int_finite(min_ef as nat);
    lemma_fused_share(a, span, base);
    lemma_fused_share(b, span, base);
    lemma_units_monotone(a, b);
    power2::lemma_pow2_pos(149);
    mul::lemma_mul_inequality(a.units() as int, b.units() as int, span.units() as int);
    let q = power2::pow2(149);
    let p1 = exact(a, span, base);
    let p2 = exact(b, span, base);
    mul::lemma_mul_inequality(p1 as int, p2 as int, q as int);
    arith::lemma_rounded_monotone(p1, q, p2, q);
    lemma_nearest_usize_monotone(a.fused(span, base), b.fused(span, base));
}

/// At no share of the way the width is the smallest, at the whole way the greatest.
pub proof fn law_width_at_the_ends(min_ef: usize, max_ef: usize)
    requires
        min_ef <= max_ef <= 0x100_0000,
    ensures
        adaptive_ef::width_at(F32(0), min_ef, max_ef) == min_ef,
        adaptive_ef::width_at(F32(ONE_BITS), min_ef, max_ef) == max_ef,
{
    let zero = F32(0);
    let one = F32(ONE_BITS);
    let d = (max_ef - min_ef) as nat;
    let span = F32::of_int(d);
    let base = F32::of_int(min_ef as nat);
    let u = power2::pow2(149);
    power2::lemma_pow2_pos(149);
    exact_laws::lemma_of_int(d);
    exact_laws::lemma_of_int(min_ef as nat);
    exact_laws::lemma_of_int(max_ef as nat);
    lemma_fused_share(zero, span, base);
    lemma_fused_share(one, span, base);
    lemma_one();
    assert(zero.units() == 0);
    assert(exact(zero, span, base) == (min_ef * u) * u) by (nonlinear_arith)
        requires
            exact(zero, span, base) == 0 * span.units() + (min_ef * u) * u,
    ;
    assert(exact(one, span, base) == (max_ef * u) * u) by (nonlinear_arith)
        requires
            exact(one, span, base) == u * (d * u) + (min_ef * u) * u,
            d + min_ef == max_ef,
    ;
    arith::lemma_rounded_scale(min_ef as nat * u, 1, u);
    arith::lemma_rounded_scale(max_ef as nat * u, 1, u);
    assert(1 * u == u);
    assert(zero.fused(span, base) == base);
    assert(one.fused(span, base) == F32::of_int(max_ef as nat));
    lemma_nearest_usize_of_int(min_ef);
    lemma_nearest_usize_of_int(max_ef);
}

proof fn lemma_below_count(distances: Seq<F32>, d: F32, e: F32)
    requires
        d.at_most(e),
    ensures
        adaptive_ef::below_count(distances, d) <= adaptive_ef::below_count(distances, e)
            <= distances.len(),
    decreases distances.len(),
{
    if distances.len() > 0 {
        lemma_below_count(distances.skip(1), d, e);
    }
}

/// An estimate lies between the smallest and the greatest width.
pub proof fn law_estimate_in_range(v: AdaptiveView, distance: F32)
    requires
        v.usable(),
    ensures
        v.min_ef <= v.estimate(distance) <= v.max_ef,
{
}

/// A query that is farther away gets no smaller width.
pub proof fn law_estimate_grows(v: AdaptiveView, near: F32, far: F32)
    requires
        v.usable(),
        v.grows(),
        near.at_most(far),
    ensures
        v.estimate(near) <= v.estimate(far),
{
    if v.distances.len() > 1 {
        lemma_below_count(v.distances, near, far);
        let i = adaptive_ef::below_count(v.distances, near) as int;
        let j = adaptive_ef::below_count(v.distances, far) as int;
        assert(v.shape[i].at_most(v.shape[j]));
        law_width_grows(v.shape[i], v.shape[j], v.min_ef, v.max_ef);
    }
}

proof fn lemma_all_below(distances: Seq<F32>, d: F32)
    requires
        forall|i: int| 0 <= i < distances.len() ==> (#[trigger] distances[i]).below(d),
    ensures
        adaptive_ef::below_count(distances, d) == distances.len(),
    decreases distances.len(),
{
    if distances.len() > 0 {
        let rest = distances.skip(1);
        assert forall|i: int| 0 <= i < rest.len() implies (#[trigger] rest[i]).below(d) by {
            assert(distances[i + 1].below(d));
        }
        lemma_all_below(rest, d);
    }
}

/// Where fewer than two distances were sampled every query gets the mean of both widths.
pub proof fn law_few_samples_give_the_mean(v: AdaptiveView, distance: F32)
    requires
        v.distances.len() <= 1,
    ensures
        v.estimate(distance) == (v.min_ef + v.max_ef) / 2,
{
}

/// A query no farther than all sampled distances gets the smallest width, one farther than all of
/// them the greatest.
pub proof fn law_estimate_at_the_ends(v: AdaptiveView, distance: F32)
    requires
        v.usable(),
        v.grows(),
        v.distances.len() > 1,
        v.max_ef <= 0x100_0000,
    ensures
        (forall|i: int|
            0 <= i < v.distances.len() ==> distance.at_most(#[trigger] v.distances[i]))
            ==> v.estimate(distance) == v.min_ef,
        (forall|i: int|
            0 <= i < v.distances.len() ==> (#[trigger] v.distances[i]).below(distance))
            ==> v.estimate(distance) == v.max_ef,
{
    law_width_at_the_ends(v.min_ef, v.max_ef);
    if forall|i: int| 0 <= i < v.distances.len() ==> distance.at_most(#[trigger] v.distances[i]) {
        assert(distance.at_most(v.distances[0]));
        assert(adaptive_ef::below_count(v.distances, distance) == 0);
    }
    if forall|i: int| 0 <= i < v.distances.len() ==> (#[trigger] v.distances[i]).below(distance) {
        lemma_all_below(v.distances, distance);
    }
}

/// The width for a share lies that share of the way from the smallest width to the greatest: exactly,
/// where that is a whole number.
pub proof fn law_widths_are_in_proportion(share: F32, min_ef: usize, max_ef: usize, width: int)
    requires
        adaptive_ef::is_share(share),
        min_ef <= max_ef <= 0x100_0000,
        min_ef <= width <= max_ef,
        share.value() * (max_ef - min_ef) == (width - min_ef) * power2::pow2(149),
    ensures
        adaptive_ef::width_at(share, min_ef, max_ef) == width,
{
    let d = (max_ef - min_ef) as nat;
    let span = F32::of_int(d);
    let base = F32::of_int(min_ef as nat);
    let u = power2::pow2(149) as int;
    power2::lemma_pow2_pos(149);
    exact_laws::lemma_of_int(d);
    exact_laws::lemma_of_int(min_ef as nat);
    let v = share.value();
    let sum = v * span.value() + base.value() * u;
    assert(sum == (width * u) * u) by (nonlinear_arith)
        requires
            sum == v * (d * u) + (min_ef * u) * u,
            v * d == (width - min_ef) * u,
    ;
    let r = share.fused(span, base);
    if sum == 0 {
        assert(width == 0) by {
            if width > 0 {
                assert((width * u) * u > 0) by (nonlinear_arith)
                    requires
                        width > 0,
                        u > 0,
                ;
            }
        }
        assert(r.units() == 0);
        assert(0 * u == 0) by (nonlinear_arith);
    } else {
        assert((width * u) * u >= 0) by (nonlinear_arith)
            requires
                width >= 0,
                u > 0,
        ;
        exact_laws::lemma_packed_whole(false, width as nat, sum as nat, u as nat);
    }
    assert(exact_laws::is_whole(r, width));
    assert(r.units() == width * u) by {
        if r.negative() {
            assert(width * u >= 0) by (nonlinear_arith)
                requires
                    width >= 0,
                    u > 0,
            ;
        }
    }
    power2::lemma_pow2_unfold(150);
    if !r.negative() {
        assert((2 * (width * u) + u) / (2 * u) == width) by (nonlinear_arith)
            requires
                u > 0,
        ;
    } else {
        assert(r.value() == -(width * u));
        assert(width == 0) by (nonlinear_arith)
            requires
                width * u == -(width * u),
                u > 0,
        ;
    }
}

/// The distances that a query is farther than are those that are less, where they are in order.
pub proof fn law_ranks_count_the_nearer(distances: Seq<F32>, d: F32)
    requires
        forall|i: int, j: int|
            #![trigger distances[i], distances[j]]
            0 <= i <= j < distances.len() ==> distances[i].at_most(distances[j]),
    ensures
        adaptive_ef::below_count(distances, d) == tally::tally(
            distances,
            weighing_laws::less_than(d),
        ),
    decreases distances.len(),
{
    let p = weighing_laws::less_than(d);
    if distances.len() > 0 {
        if distances[0].below(d) {
            let rest = distances.skip(1);
            assert forall|i: int, j: int|
                #![trigger rest[i], rest[j]]
                0 <= i <= j < rest.len() implies rest[i].at_most(rest[j]) by {
                assert(distances[i + 1].at_most(distances[j + 1]));
            }
            law_ranks_count_the_nearer(rest, d);
            assert(rest.insert(0, distances[0]) =~= distances);
            tally::lemma_insert(rest, 0, distances[0], p);
        } else {
            assert forall|i: int| 0 <= i < distances.len() implies !p(#[trigger] distances[i]) by {
                assert(distances[0].at_most(distances[i]));
            }
            tally::lemma_ends(distances, p, 0);
        }
    }
}

/// The share that a rank has is the number nearest to the rank divided by the number of distances.
pub proof fn law_shares_are_of_ranks(rank: nat, count: nat)
    requires
        rank <= count <= 0x100_0000,
        count > 0,
        adaptive_ef::percentile(rank, count).finite(),
    ensures
        number_laws::is_nearest(
            adaptive_ef::percentile(rank, count),
            ((rank * power2::pow2(149)) * power2::pow2(149)) as int,
            count * power2::pow2(149),
        ),
{
    exact_laws::lemma_of_int(rank);
    exact_laws::lemma_of_int(count);
    power2::lemma_pow2_pos(149);
    assert(count * power2::pow2(149) > 0) by (nonlinear_arith)
        requires
            count > 0,
            power2::pow2(149) > 0,
    ;
    let y = F32::of_int(count);
    assert(y.magnitude() != 0) by {
        if y.magnitude() == 0 {
            assert(y.units() == 0);
        }
    }
    number_laws::law_quotients_are_nearest(F32::of_int(rank), y);
}

/// Where the power leaves a share as it is, the share of a rank is the number nearest to the rank divided
/// by the number of distances.
pub proof fn law_raised_shares_are_of_ranks<P: Fn(F32, F32) -> F32>(
    power: P,
    gamma: F32,
    count: nat,
    rank: nat,
)
    requires
        rank <= count <= 0x100_0000,
        count > 0,
        adaptive_ef::percentile(rank, count).finite(),
        forall|x: F32| #[trigger] adaptive_ef::power_at(power, x, gamma) == x,
    ensures
        number_laws::is_nearest(
            adaptive_ef::raised_shares(power, gamma, count)[rank as int],
            ((rank * power2::pow2(149)) * power2::pow2(149)) as int,
            count * power2::pow2(149),
        ),
        adaptive_ef::raised_shares(power, gamma, count).len() == count + 1,
{
    law_shares_are_of_ranks(rank, count);
}

/// As many vectors are sampled as there are, but no more than two thousand.
pub proof fn law_samples_are_few(n: nat)
    ensures
        adaptive_ef::sample_count_of(n) <= n,
        adaptive_ef::sample_count_of(n) <= 2000,
        adaptive_ef::sample_count_of(n) == n || adaptive_ef::sample_count_of(n) == 2000,
{
}

/// Under a positive exponent the shares of the ranks grow from none to all.
pub proof fn law_positive_exponents_give_growing_shares<P: Fn(F32, F32) -> F32>(
    power: P,
    gamma: F32,
    count: nat,
)
    requires
        F32(0).below(gamma),
    ensures
        adaptive_ef::is_shape(adaptive_ef::shape_of(power, gamma, count), count),
{
    adaptive_ef::law_kept_shares_grow(adaptive_ef::raised_shares(power, gamma, count), count);
}

} // verus!
