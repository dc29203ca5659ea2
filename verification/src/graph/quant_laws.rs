//! What the pruning that weighs errors has in common with the one that does not.
use vstd::prelude::*;
use vstd::arithmetic::power2;
use crate::distance::arith;
use crate::distance::single::{F32, ONE_BITS};
use crate::graph::candidates;
use crate::graph::linear_pool;
use crate::graph::linear_pool::Entry;
use crate::graph::prune_laws;
use crate::graph::quant_aware_prune::{QuantAwarePruneConfig, QuantSpace};
use crate::graph::robust_prune::PruneSpace;

verus! {

/// Zero times a finite number is zero, and so is that divided by a number other than zero.
proof fn lemma_no_share(error: F32, scale: F32)
    requires
        error.finite(),
        !scale.nan(),
        scale.magnitude() != 0,
    ensures
        F32(0).times(error).over(scale).magnitude() == 0,
{
    let z = F32(0);
    assert(z.units() == 0);
    power2::lemma_pow2_pos(149);
    assert(z.units() * error.units() == 0) by (nonlinear_arith)
        requires
            z.units() == 0,
    ;
    lemma_rounded_zero(power2::pow2(149));
    let product = z.times(error);
    assert(product.magnitude() == 0);
    if scale.finite() {
        assert(product.units() == 0);
        lemma_units(scale);
        assert(product.units() * power2::pow2(149) == 0) by (nonlinear_arith)
            requires
                product.units() == 0,
        ;
        lemma_rounded_zero(scale.units());
    }
}

/// A number other than zero has a value other than zero.
proof fn lemma_units(x: F32)
    requires
        x.magnitude() != 0,
    ensures
        x.units() > 0,
{
    let e = x.magnitude() / 0x80_0000;
    if e != 0 {
        power2::lemma_pow2_pos((e - 1) as nat);
        let f = x.magnitude() % 0x80_0000;
        assert((f + 0x80_0000) as nat * power2::pow2((e - 1) as nat) > 0) by (nonlinear_arith)
            requires
                f >= 0,
                power2::pow2((e - 1) as nat) > 0,
        ;
    }
}

proof fn lemma_rounded_zero(q: nat)
    requires
        q > 0,
    ensures
        arith::rounded(0, q) == 0,
{
    assert(0 < q * 0x100_0000);
    assert(0nat / q == 0 && 0nat % q == 0) by (nonlinear_arith)
        requires
            q > 0,
    ;
}

/// The two zeros add the same to any number but a negative zero.
proof fn lemma_zeros_add_the_same(x: F32, a: F32, b: F32)
    requires
        x.magnitude() != 0 || !x.negative(),
        a.magnitude() == 0,
        b.magnitude() == 0,
    ensures
        x.plus(a) == x.plus(b),
{
    assert(a.units() == 0 && b.units() == 0);
    if x.magnitude() != 0 {
        lemma_units(x);
    }
}

/// The errors of the candidates are finite, and their scale is a number other than zero.
pub open spec fn errors_are_numbers(
    space: QuantSpace,
    list: Seq<u32>,
    mu_error: F32,
    epsilon: F32,
) -> bool {
    &&& forall|i: int| 0 <= i < list.len() ==> (space.error)(#[trigger] list[i]).finite()
    &&& !mu_error.plus(epsilon).nan()
    &&& mu_error.plus(epsilon).magnitude() != 0
}

/// With a weight of zero the errors change nothing: whatever they are and however they are scaled,
/// the same candidates are kept, in the same order.
pub proof fn law_without_weight_errors_change_nothing(
    space: QuantSpace,
    other: QuantSpace,
    list: Seq<u32>,
    mu_dist: F32,
    mu_error: F32,
    other_mu_error: F32,
    config: QuantAwarePruneConfig,
)
    requires
        config.beta == F32(0),
        space.dist == other.dist,
        space.pair == other.pair,
        errors_are_numbers(space, list, mu_error, config.epsilon),
        errors_are_numbers(other, list, other_mu_error, config.epsilon),
        forall|i: int|
            0 <= i < list.len() ==> ({
                let share = (space.dist)(#[trigger] list[i]).over(mu_dist.plus(config.epsilon));
                share.magnitude() != 0 || !share.negative()
            }),
    ensures
        space.kept(list, mu_dist, mu_error, config) == other.kept(
            list,
            mu_dist,
            other_mu_error,
            config,
        ),
{
    let scores = space.scores(list, mu_dist, mu_error, config);
    let others = other.scores(list, mu_dist, other_mu_error, config);
    assert forall|i: int| 0 <= i < list.len() implies scores[i] == others[i] by {
        let c = list[i];
        lemma_no_share((space.error)(c), mu_error.plus(config.epsilon));
        lemma_no_share((other.error)(c), other_mu_error.plus(config.epsilon));
        lemma_zeros_add_the_same(
            (space.dist)(c).over(mu_dist.plus(config.epsilon)),
            config.beta.times((space.error)(c)).over(mu_error.plus(config.epsilon)),
            config.beta.times((other.error)(c)).over(other_mu_error.plus(config.epsilon)),
        );
    }
    assert(scores =~= others);
    let ranked = linear_pool::in_order(scores);
    lemma_taken_same(space, other, ranked, ranked.len() as int, config.alpha, config.r_max as nat);
}

proof fn lemma_taken_same(
    space: QuantSpace,
    other: QuantSpace,
    ranked: Seq<Entry>,
    i: int,
    alpha: F32,
    r_max: nat,
)
    requires
        space.dist == other.dist,
        space.pair == other.pair,
    ensures
        space.taken(ranked, i, alpha, r_max) == other.taken(ranked, i, alpha, r_max),
    decreases i,
{
    if i > 0 {
        lemma_taken_same(space, other, ranked, i - 1, alpha, r_max);
    }
}

/// One candidate hides another by its distance where the ratio of the distances occludes it. The
/// two part where the distances are equal, or so near that their ratio is one.
pub open spec fn hides_as_it_occludes(space: QuantSpace, a: u32, b: u32) -> bool {
    let d = (space.pair)(a, b);
    F32(ONE_BITS).times(d).at_most((space.dist)(b)) <==> d.zero() || F32(ONE_BITS).below(
        (space.dist)(b).over(d),
    )
}

proof fn lemma_occluded(space: PruneSpace, i: int, f: F32, kept: Seq<int>, k: int)
    requires
        0 <= k <= kept.len(),
        !f.nan(),
        f.at_most(F32(ONE_BITS)),
        forall|x: int| 0 <= x < kept.len() ==> (#[trigger] kept[x]) < i,
    ensures
        F32(ONE_BITS).below(space.occluded(i, f, kept, k, F32(ONE_BITS))) <==> exists|x: int|
            k <= x < kept.len() && (space.between(#[trigger] kept[x], i).zero() || F32(
                ONE_BITS,
            ).below(space.scored[i].0.over(space.between(kept[x], i)))),
    decreases kept.len() - k,
{
    let one = F32(ONE_BITS);
    if k < kept.len() && !space.between(kept[k], i).zero() {
        let ratio = space.scored[i].0.over(space.between(kept[k], i));
        let g = if f.below(ratio) {
            ratio
        } else {
            f
        };
        if !one.below(g) {
            lemma_occluded(space, i, g, kept, k + 1);
            assert(!one.below(ratio));
        }
    }
}

/// With a weight of zero and a threshold of one, the pruning keeps what `RobustPrune` keeps without
/// filling, where no candidate is listed twice, the scores order the candidates as the distances
/// do, and hiding and occluding mean the same between them.
pub proof fn law_without_weight_it_is_robust_prune(
    space: QuantSpace,
    list: Seq<u32>,
    node: u32,
    mu_dist: F32,
    mu_error: F32,
    config: QuantAwarePruneConfig,
)
    requires
        config.beta == F32(0),
        config.alpha == F32(ONE_BITS),
        ({
            let ranked = linear_pool::in_order(space.scores(list, mu_dist, mu_error, config));
            let scored = candidates::prepared(list, node, space.dist);
            &&& ranked.len() == scored.len()
            &&& forall|i: int|
                0 <= i < ranked.len() ==> (#[trigger] ranked[i]).0 == scored[i].1
        }),
        forall|a: u32, b: u32|
            list.contains(a) && list.contains(b) && a != b ==> #[trigger] hides_as_it_occludes(
                space,
                a,
                b,
            ),
    ensures
        space.kept(list, mu_dist, mu_error, config) == prune_laws::space_over(
            list,
            node,
            space.dist,
            space.pair,
        ).robust(F32(ONE_BITS), config.r_max as nat, false),
{
    let one = F32(ONE_BITS);
    let r_max = config.r_max as nat;
    let ranked = linear_pool::in_order(space.scores(list, mu_dist, mu_error, config));
    let plain = prune_laws::space_over(list, node, space.dist, space.pair);
    let n = ranked.len() as int;
    candidates::lemma_prepared(list, node, space.dist);
    lemma_scan_takes(space, plain, ranked, list, node, n, r_max);
    let places = space.taken(ranked, n, one, r_max);
    lemma_taken_places(space, ranked, n, one, r_max);
    lemma_single_round(plain, r_max);
    let kept = plain.rounds(plain.start(), one, one, r_max).kept;
    assert(kept =~= places);
    let ours = space.kept(list, mu_dist, mu_error, config);
    let theirs = plain.ids(places);
    assert(ours.len() == theirs.len());
    assert forall|i: int| 0 <= i < ours.len() implies ours[i] == theirs[i] by {
        assert(ours[i] == ranked[places[i]].0);
    }
    assert(ours =~= theirs);
}

proof fn lemma_single_round(space: PruneSpace, r_max: nat)
    ensures
        space.rounds(space.start(), F32(ONE_BITS), F32(ONE_BITS), r_max).kept == (if r_max == 0 {
            Seq::<int>::empty()
        } else {
            space.scan(
                space.start(),
                space.scored.len() as int,
                F32(ONE_BITS),
                r_max,
            ).kept
        }),
{
    assert(F32(ONE_BITS).at_most(F32(ONE_BITS)));
}

proof fn lemma_taken_places(space: QuantSpace, ranked: Seq<Entry>, i: int, alpha: F32, r_max: nat)
    requires
        0 <= i <= ranked.len(),
    ensures
        ({
            let places = space.taken(ranked, i, alpha, r_max);
            &&& places.len() <= r_max
            &&& forall|x: int| 0 <= x < places.len() ==> 0 <= (#[trigger] places[x]) < i
        }),
    decreases i,
{
    if i > 0 {
        lemma_taken_places(space, ranked, i - 1, alpha, r_max);
    }
}

proof fn lemma_scan_takes(
    space: QuantSpace,
    plain: PruneSpace,
    ranked: Seq<Entry>,
    list: Seq<u32>,
    node: u32,
    i: int,
    r_max: nat,
)
    requires
        plain.pair == space.pair,
        candidates::is_prepared(plain.scored, list, node, space.dist),
        ranked.len() == plain.scored.len(),
        forall|k: int| 0 <= k < ranked.len() ==> (#[trigger] ranked[k]).0 == plain.scored[k].1,
        forall|a: u32, b: u32|
            list.contains(a) && list.contains(b) && a != b ==> #[trigger] hides_as_it_occludes(
                space,
                a,
                b,
            ),
        0 <= i <= ranked.len(),
    ensures
        ({
            let state = plain.scan(plain.start(), i, F32(ONE_BITS), r_max);
            &&& state.kept == space.taken(ranked, i, F32(ONE_BITS), r_max)
            &&& state.occlusion.len() == ranked.len()
            &&& forall|j: int| i <= j < ranked.len() ==> #[trigger] state.occlusion[j] == F32(0)
        }),
    decreases i,
{
    if i > 0 {
        let one = F32(ONE_BITS);
        let at = i - 1;
        lemma_scan_takes(space, plain, ranked, list, node, at, r_max);
        lemma_taken_places(space, ranked, at, one, r_max);
        let state = plain.scan(plain.start(), at, one, r_max);
        let kept = state.kept;
        lemma_occluded(plain, at, F32(0), kept, 0);
        let hidden = space.hidden(ranked, kept, at, one);
        let occluded = one.below(plain.occluded(at, F32(0), kept, 0, one));
        assert forall|x: int| 0 <= x < kept.len() implies (one.times(
            (space.pair)(ranked[#[trigger] kept[x]].0, ranked[at].0),
        ).at_most((space.dist)(ranked[at].0)) <==> plain.between(kept[x], at).zero() || one.below(
            plain.scored[at].0.over(plain.between(kept[x], at)),
        )) by {
            let a = ranked[kept[x]].0;
            let b = ranked[at].0;
            assert(list.contains(plain.scored[kept[x]].1) && list.contains(plain.scored[at].1));
            assert(candidates::nearer(plain.scored[kept[x]], plain.scored[at]));
            assert(plain.scored[at].0 == (space.dist)(b));
            assert(a != b) by {
                if a == b {
                    assert(plain.scored[kept[x]].0 == plain.scored[at].0);
                }
            }
            assert(hides_as_it_occludes(space, a, b));
        }
        assert(hidden == occluded) by {
            if hidden {
                let x = choose|x: int|
                    0 <= x < kept.len() && one.times(
                        (space.pair)(ranked[#[trigger] kept[x]].0, ranked[at].0),
                    ).at_most((space.dist)(ranked[at].0));
                assert(0 <= kept[x]);
            }
            if occluded {
                let x = choose|x: int|
                    0 <= x < kept.len() && (plain.between(#[trigger] kept[x], at).zero()
                        || one.below(plain.scored[at].0.over(plain.between(kept[x], at))));
                assert(0 <= kept[x]);
            }
        }
        assert(state.occlusion[at] == F32(0));
    }
}

} // verus!
