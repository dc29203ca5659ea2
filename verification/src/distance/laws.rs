//! What holds of distances.
use vstd::prelude::*;
use vstd::arithmetic::power2;
use crate::distance::arith;
use crate::distance::arith::{INFINITY_BITS, NAN_BITS};
use crate::distance::avx2;
use crate::distance::avx512;
use crate::distance::lanes;
use crate::distance::scalar;
use crate::distance::single::F32;

verus! {

/// The parts of a number made of a sign and a magnitude.
proof fn lemma_signed(negative: bool, magnitude: nat)
    requires
        magnitude <= NAN_BITS,
    ensures
        arith::signed(negative, magnitude).negative() == negative,
        arith::signed(negative, magnitude).magnitude() == magnitude,
{
}

/// A square depends on the magnitude alone, and it is not negative.
proof fn lemma_square(c: F32, d: F32)
    requires
        c.magnitude() == d.magnitude(),
    ensures
        c.times(c) == d.times(d),
        !c.times(c).negative(),
{
    let mag = if arith::rounded(c.units() * c.units(), power2::pow2(149)) < INFINITY_BITS {
        arith::rounded(c.units() * c.units(), power2::pow2(149))
    } else {
        INFINITY_BITS as nat
    };
    lemma_signed(false, mag);
    lemma_signed(false, INFINITY_BITS as nat);
}

/// Two differences of the same numbers have the same magnitude.
proof fn lemma_difference(x: F32, y: F32)
    ensures
        x.less(y).magnitude() == y.less(x).magnitude(),
{
    if !x.nan() && !y.nan() {
        lemma_signed(!x.negative(), x.magnitude() as nat);
        lemma_signed(!y.negative(), y.magnitude() as nat);
        if x.finite() && y.finite() {
            let sum = x.value() - y.value();
            let mag = (if sum < 0 {
                -sum
            } else {
                sum
            }) as nat;
            assert(x.value() + y.negated().value() == sum);
            assert(y.value() + x.negated().value() == -sum);
            let r = if arith::rounded(mag, 1) < INFINITY_BITS {
                arith::rounded(mag, 1)
            } else {
                INFINITY_BITS as nat
            };
            lemma_signed(true, r);
            lemma_signed(false, r);
            lemma_signed(true, 0);
            lemma_signed(false, 0);
        }
    }
}

/// A sum of numbers that are not negative is not negative.
proof fn lemma_sum(x: F32, y: F32)
    requires
        !x.negative(),
        !y.negative(),
    ensures
        !x.plus(y).negative(),
{
    if x.finite() && y.finite() {
        let sum = x.value() + y.value();
        let r = if arith::rounded(sum as nat, 1) < INFINITY_BITS {
            arith::rounded(sum as nat, 1)
        } else {
            INFINITY_BITS as nat
        };
        lemma_signed(false, r);
        lemma_signed(false, 0);
    }
}

/// The squared distance is the same in both directions.
pub proof fn law_distance_is_symmetric(a: Seq<F32>, b: Seq<F32>)
    requires
        a.len() == b.len(),
    ensures
        scalar::l2_of(a, b) == scalar::l2_of(b, a),
    decreases a.len(),
{
    if a.len() > 0 {
        law_distance_is_symmetric(a.drop_last(), b.drop_last());
        lemma_difference(a.last(), b.last());
        lemma_square(a.last().less(b.last()), b.last().less(a.last()));
    }
}

/// The squared distance is not negative.
pub proof fn law_distance_is_not_negative(a: Seq<F32>, b: Seq<F32>)
    requires
        a.len() == b.len(),
    ensures
        !scalar::l2_of(a, b).negative(),
    decreases a.len(),
{
    if a.len() > 0 {
        law_distance_is_not_negative(a.drop_last(), b.drop_last());
        let d = a.last().less(b.last());
        lemma_square(d, d);
        lemma_sum(scalar::l2_of(a.drop_last(), b.drop_last()), d.times(d));
    }
}

/// All components are finite.
pub open spec fn all_finite(a: Seq<F32>) -> bool {
    forall|i: int| 0 <= i < a.len() ==> (#[trigger] a[i]).finite()
}

/// What zero does.
proof fn lemma_zero(x: F32)
    requires
        x.finite(),
    ensures
        x.less(x) == F32(0),
        F32(0).times(F32(0)) == F32(0),
        F32(0).plus(F32(0)) == F32(0),
        F32(0).fused(F32(0), F32(0)) == F32(0),
{
    lemma_signed(!x.negative(), x.magnitude() as nat);
    assert(x.value() + x.negated().value() == 0);
    power2::lemma_pow2_pos(149);
    let z = F32(0);
    assert(z.units() == 0 && z.value() == 0);
    assert(z.units() * z.units() == 0) by (nonlinear_arith)
        requires
            z.units() == 0,
    ;
    assert(arith::rounded(0, power2::pow2(149)) == 0) by {
        let q = power2::pow2(149);
        assert(0 < q * 0x100_0000);
        assert(0nat / q == 0 && 0nat % q == 0) by (nonlinear_arith)
            requires
                q > 0,
        ;
    }
    assert(0 * power2::pow2(149) == 0);
}

/// A vector of finite components is at no distance from itself, whichever kernel computes it.
pub proof fn law_no_distance_to_itself(a: Seq<F32>)
    requires
        all_finite(a),
    ensures
        scalar::l2_of(a, a) == F32(0),
        avx2::l2_eight(a, a) == F32(0),
        avx512::l2_sixteen(a, a) == F32(0),
{
    lemma_scalar_zero(a);
    lemma_zero(F32(0));
    assert forall|lane: int| 0 <= lane < 8 implies #[trigger] lanes::l2_lanes_of(a, a, 8)[lane]
        == F32(0) by {
        lemma_lane_zero(a, 8, a.len() / 8, lane);
    }
    assert forall|lane: int| 0 <= lane < 16 implies #[trigger] lanes::l2_lanes_of(a, a, 16)[lane]
        == F32(0) by {
        lemma_lane_zero(a, 16, a.len() / 16, lane);
    }
    lanes::lemma_registers(a.len(), 8);
    lanes::lemma_registers(a.len(), 16);
    lemma_onto_zero(lanes::rest_of(a, 8));
    let tail = lanes::rest_of(a, 16);
    assert forall|i: int| 0 <= i < 16 implies #[trigger] avx512::l2_tail(tail, tail)[i] == F32(
        0,
    ) by {
        if i < tail.len() {
            lemma_zero(tail[i]);
        }
    }
    lemma_folded_zero(avx512::l2_tail(tail, tail));
    lemma_folded_zero(lanes::l2_lanes_of(a, a, 16));
}

proof fn lemma_scalar_zero(a: Seq<F32>)
    requires
        all_finite(a),
    ensures
        scalar::l2_of(a, a) == F32(0),
    decreases a.len(),
{
    if a.len() > 0 {
        lemma_scalar_zero(a.drop_last());
        lemma_zero(a.last());
    }
}

proof fn lemma_onto_zero(a: Seq<F32>)
    requires
        all_finite(a),
    ensures
        lanes::l2_onto(F32(0), a, a) == F32(0),
    decreases a.len(),
{
    if a.len() > 0 {
        lemma_onto_zero(a.drop_last());
        lemma_zero(a.last());
    }
}

proof fn lemma_lane_zero(a: Seq<F32>, width: nat, registers: nat, lane: int)
    requires
        all_finite(a),
        width > 0,
        registers <= a.len() / width,
        0 <= lane < width,
    ensures
        lanes::l2_lane(a, a, width, registers, lane) == F32(0),
    decreases registers,
{
    if registers > 0 {
        lemma_lane_zero(a, width, (registers - 1) as nat, lane);
        let at = (registers - 1) * width + lane;
        lanes::lemma_registers(a.len(), width);
        assert(0 <= at < a.len()) by (nonlinear_arith)
            requires
                at == (registers - 1) * width + lane,
                0 <= lane < width,
                1 <= registers <= a.len() / width,
                a.len() / width * width <= a.len(),
        ;
        lemma_zero(a[at]);
    }
}

proof fn lemma_folded_zero(x: Seq<F32>)
    requires
        x.len() == 16,
        forall|i: int| 0 <= i < 16 ==> #[trigger] x[i] == F32(0),
    ensures
        lanes::folded(x) == F32(0),
{
    lemma_zero(F32(0));
    let eight = lanes::halved(x);
    let four = lanes::halved(eight);
    let two = lanes::halved(four);
    assert(forall|i: int| 0 <= i < 8 ==> #[trigger] eight[i] == F32(0));
    assert(forall|i: int| 0 <= i < 4 ==> #[trigger] four[i] == F32(0));
    assert(forall|i: int| 0 <= i < 2 ==> #[trigger] two[i] == F32(0));
}

} // verus!
