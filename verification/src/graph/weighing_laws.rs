//! What is kept where the errors of the edges are weighed, and what the scales of distances and errors
//! are.
use vstd::prelude::*;
use vstd::arithmetic::power2;
use crate::distance::DistanceKernel;
use crate::distance::exact_laws;
use crate::distance::number_laws;
use crate::distance::single::{F32, ONE_BITS, TWO_BITS};
use crate::distance::sums;
use crate::graph::construction::{NeighborChoice, QuantChoice};
use crate::graph::linear_pool;
use crate::graph::linear_pool::Entry;
use crate::graph::neighbour_laws;
use crate::graph::points::Points;
use crate::graph::quant_aware_prune;
use crate::graph::quant_aware_prune::{
    ErrorFn, Exponentials, NodeErrors, NormalizationScheme, QuantAwarePruneConfig, QuantSpace, EPSILON,
    NEGATIVE_INFINITY,
};
use crate::tally;

verus! {

/// A candidate is hidden by another at a threshold: the threshold times the distance between them is
/// at most the distance of the candidate to the node.
pub open spec fn shades<K: DistanceKernel>(
    data: Points<K>,
    node: u32,
    a: u32,
    b: u32,
    alpha: F32,
) -> bool {
    alpha.times(neighbour_laws::gap(data, a, b)).at_most(neighbour_laws::gap(data, node, b))
}

/// The kept candidates hide the candidate.
pub open spec fn shaded<K: DistanceKernel>(
    data: Points<K>,
    node: u32,
    kept: Seq<u32>,
    c: u32,
    alpha: F32,
) -> bool {
    exists|k: int| 0 <= k < kept.len() && shades(data, node, #[trigger] kept[k], c, alpha)
}

/// The space that a choice prunes a node's candidates in.
pub open spec fn space_of<
    K: DistanceKernel,
    E: ErrorFn,
    X: Fn(F32) -> F32,
    L: Fn(F32) -> F32,
>(choice: QuantChoice<K, E, X, L>, node: u32) -> QuantSpace {
    quant_aware_prune::quant_space(
        choice.data.kernel,
        choice.data.vectors@,
        choice.data.dim as int,
        node,
        choice.errors,
    )
}

/// The score of a candidate, among those that were seen.
pub open spec fn score_among<
    K: DistanceKernel,
    E: ErrorFn,
    X: Fn(F32) -> F32,
    L: Fn(F32) -> F32,
>(choice: QuantChoice<K, E, X, L>, node: u32, seen: Seq<u32>, c: u32) -> F32 {
    let list = quant_aware_prune::others(seen, node);
    let space = space_of(choice, node);
    space.score(
        c,
        choice.exponentials.scale_of(
            quant_aware_prune::measures(list, space.dist),
            choice.config.normalization,
        ),
        choice.exponentials.scale_of(
            quant_aware_prune::measures(list, space.error),
            choice.config.normalization,
        ),
        *choice.config,
    )
}

proof fn lemma_others_hold(list: Seq<u32>, node: u32, c: u32)
    requires
        list.contains(c),
        c != node,
    ensures
        quant_aware_prune::others(list, node).contains(c),
    decreases list.len(),
{
    let short = list.drop_last();
    let all = quant_aware_prune::others(list, node);
    if list.last() == c {
        assert(all[all.len() - 1] == c);
    } else {
        let k = choose|k: int| 0 <= k < list.len() && list[k] == c;
        assert(short[k] == c);
        lemma_others_hold(short, node, c);
        let rest = quant_aware_prune::others(short, node);
        let j = choose|j: int| 0 <= j < rest.len() && rest[j] == c;
        assert(all[j] == c);
    }
}

proof fn lemma_taken(space: QuantSpace, ranked: Seq<Entry>, i: int, alpha: F32, r_max: nat)
    requires
        0 <= i <= ranked.len(),
    ensures
        ({
            let places = space.taken(ranked, i, alpha, r_max);
            &&& places.len() <= r_max
            &&& forall|x: int| 0 <= x < places.len() ==> 0 <= (#[trigger] places[x]) < i
            &&& forall|x: int, y: int|
                #![trigger places[x], places[y]]
                0 <= x < y < places.len() ==> places[x] < places[y] && !alpha.times(
                    (space.pair)(ranked[places[x]].0, ranked[places[y]].0),
                ).at_most((space.dist)(ranked[places[y]].0))
            &&& places.len() < r_max ==> forall|j: int|
                0 <= j < i ==> places.contains(j) || #[trigger] space.hidden(
                    ranked,
                    places,
                    j,
                    alpha,
                )
            &&& i > 0 && r_max > 0 ==> places.len() > 0 && places[0] == 0
        }),
    decreases i,
{
    if i > 0 {
        lemma_taken(space, ranked, i - 1, alpha, r_max);
        let before = space.taken(ranked, i - 1, alpha, r_max);
        let places = space.taken(ranked, i, alpha, r_max);
        if places != before {
            assert forall|x: int, y: int|
                #![trigger places[x], places[y]]
                0 <= x < y < places.len() implies places[x] < places[y] && !alpha.times(
                (space.pair)(ranked[places[x]].0, ranked[places[y]].0),
            ).at_most((space.dist)(ranked[places[y]].0)) by {
                assert(places[x] == before[x]);
                if y < before.len() {
                    assert(places[y] == before[y]);
                }
            }
        }
        if places.len() < r_max {
            assert forall|j: int| 0 <= j < i implies places.contains(j)
                || #[trigger] space.hidden(ranked, places, j, alpha) by {
                if j == i - 1 {
                    if places != before {
                        assert(places[before.len() as int] == j);
                    }
                } else if before.contains(j) {
                    let k = choose|k: int| 0 <= k < before.len() && before[k] == j;
                    assert(places[k] == j);
                } else {
                    assert(space.hidden(ranked, before, j, alpha));
                    let k = choose|k: int|
                        0 <= k < before.len() && alpha.times(
                            (space.pair)(ranked[#[trigger] before[k]].0, ranked[j].0),
                        ).at_most((space.dist)(ranked[j].0));
                    assert(places[k] == before[k]);
                }
            }
        }
    }
}

/// The neighbours that are chosen with the errors in view, at the threshold of the round: they are
/// candidates other than the node, no more than the limit. They stand in the order of their scores, the
/// least of all first, and none hides one that stands behind it. Every candidate that is left out while
/// there is room is hidden by one that is kept.
pub proof fn law_weighed_neighbours<
    K: DistanceKernel,
    E: ErrorFn,
    X: Fn(F32) -> F32,
    L: Fn(F32) -> F32,
>(choice: QuantChoice<K, E, X, L>, node: u32, seen: Seq<u32>, alpha: F32)
    requires
        forall|c: u32|
            #![trigger seen.contains(c)]
            seen.contains(c) && c != node ==> !score_among(choice, node, seen, c).nan(),
    ensures
        ({
            let kept = choice.chosen(node, seen, alpha);
            let r_max = choice.config.r_max;
            &&& kept.len() <= r_max
            &&& forall|i: int|
                0 <= i < kept.len() ==> seen.contains(#[trigger] kept[i]) && kept[i] != node
            &&& forall|i: int, j: int|
                #![trigger kept[i], kept[j]]
                0 <= i < j < kept.len() ==> score_among(choice, node, seen, kept[i]).at_most(
                    score_among(choice, node, seen, kept[j]),
                ) && !shades(*choice.data, node, kept[i], kept[j], alpha)
            &&& r_max > 0 ==> forall|c: u32|
                #![trigger seen.contains(c)]
                seen.contains(c) && c != node ==> kept.len() > 0 && score_among(
                    choice,
                    node,
                    seen,
                    kept[0],
                ).at_most(score_among(choice, node, seen, c))
            &&& kept.len() < r_max ==> forall|c: u32|
                #![trigger seen.contains(c)]
                seen.contains(c) && c != node ==> kept.contains(c) || shaded(
                    *choice.data,
                    node,
                    kept,
                    c,
                    alpha,
                )
        }),
{
    broadcast use vstd::seq_lib::group_to_multiset_ensures;

    let list = quant_aware_prune::others(seen, node);
    let space = space_of(choice, node);
    let mu_dist = choice.exponentials.scale_of(
        quant_aware_prune::measures(list, space.dist),
        choice.config.normalization,
    );
    let mu_error = choice.exponentials.scale_of(
        quant_aware_prune::measures(list, space.error),
        choice.config.normalization,
    );
    let config = QuantAwarePruneConfig { alpha, ..*choice.config };
    let r_max = config.r_max as nat;
    let scores = space.scores(list, mu_dist, mu_error, config);
    let ranked = linear_pool::in_order(scores);
    quant_aware_prune::lemma_others(seen, node);
    assert forall|i: int| 0 <= i < scores.len() implies !(#[trigger] scores[i]).1.nan() by {
        assert(seen.contains(list[i]));
        assert(scores[i].1 == score_among(choice, node, seen, list[i]));
    }
    linear_pool::lemma_in_order(scores);
    let n = ranked.len() as int;
    lemma_taken(space, ranked, n, alpha, r_max);
    let places = space.taken(ranked, n, alpha, r_max);
    let kept = choice.chosen(node, seen, alpha);
    assert(kept =~= Seq::new(places.len(), |i: int| ranked[places[i]].0));
    assert forall|i: int| 0 <= i < n implies seen.contains((#[trigger] ranked[i]).0)
        && ranked[i].0 != node && ranked[i].1 == score_among(
        choice,
        node,
        seen,
        ranked[i].0,
    ) by {
        assert(ranked.contains(ranked[i]));
        assert(ranked.to_multiset().count(ranked[i]) > 0);
        assert(scores.contains(ranked[i]));
        let k = choose|k: int| 0 <= k < scores.len() && scores[k] == ranked[i];
        assert(seen.contains(list[k]));
    }
    assert forall|i: int, j: int|
        #![trigger kept[i], kept[j]]
        0 <= i < j < kept.len() implies score_among(choice, node, seen, kept[i]).at_most(
        score_among(choice, node, seen, kept[j]),
    ) && !shades(*choice.data, node, kept[i], kept[j], alpha) by {
        assert(places[i] < places[j]);
        assert(ranked[places[i]].1.at_most(ranked[places[j]].1));
    }
    assert forall|c: u32|
        #![trigger seen.contains(c)]
        seen.contains(c) && c != node implies exists|j: int|
        0 <= j < n && (#[trigger] ranked[j]).0 == c by {
        lemma_others_hold(seen, node, c);
        let k = choose|k: int| 0 <= k < list.len() && list[k] == c;
        assert(scores[k].0 == c);
        assert(scores.contains(scores[k]));
        assert(scores.to_multiset().count(scores[k]) > 0);
        assert(ranked.contains(scores[k]));
    }
    if r_max > 0 {
        assert forall|c: u32|
            #![trigger seen.contains(c)]
            seen.contains(c) && c != node implies kept.len() > 0 && score_among(
            choice,
            node,
            seen,
            kept[0],
        ).at_most(score_among(choice, node, seen, c)) by {
            let j = choose|j: int| 0 <= j < n && (#[trigger] ranked[j]).0 == c;
            assert(ranked[0].1.at_most(ranked[j].1));
        }
    }
    if kept.len() < r_max {
        assert forall|c: u32|
            #![trigger seen.contains(c)]
            seen.contains(c) && c != node implies kept.contains(c) || shaded(
            *choice.data,
            node,
            kept,
            c,
            alpha,
        ) by {
            let j = choose|j: int| 0 <= j < n && (#[trigger] ranked[j]).0 == c;
            if places.contains(j) {
                let k = choose|k: int| 0 <= k < places.len() && places[k] == j;
                assert(kept[k] == c);
            } else {
                assert(space.hidden(ranked, places, j, alpha));
                let k = choose|k: int|
                    0 <= k < places.len() && alpha.times(
                        (space.pair)(ranked[#[trigger] places[k]].0, ranked[j].0),
                    ).at_most((space.dist)(ranked[j].0));
                assert(shades(*choice.data, node, kept[k], c, alpha));
            }
        }
    }
}

/// A score is how often the scale of the distances goes into the distance, and the weight times how
/// often the scale of the errors goes into the error, together: exactly, where these are whole numbers.
pub proof fn law_scores_add_shares(
    space: QuantSpace,
    c: u32,
    mu_dist: F32,
    mu_error: F32,
    config: QuantAwarePruneConfig,
    dist_scale: int,
    dist_share: int,
    error_scale: int,
    error_share: int,
    weight: int,
    error: int,
)
    requires
        dist_scale > 0,
        error_scale > 0,
        exact_laws::is_whole(mu_dist.plus(config.epsilon), dist_scale),
        exact_laws::is_whole((space.dist)(c), dist_share * dist_scale),
        exact_laws::is_whole(mu_error.plus(config.epsilon), error_scale),
        exact_laws::is_whole((space.error)(c), error),
        exact_laws::is_whole(config.beta, weight),
        weight * error == error_share * error_scale,
        -0x100_0000 <= weight * error <= 0x100_0000,
        -0x100_0000 <= dist_share <= 0x100_0000,
        -0x100_0000 <= dist_share + error_share <= 0x100_0000,
    ensures
        exact_laws::is_whole(
            space.score(c, mu_dist, mu_error, config),
            dist_share + error_share,
        ),
{
    exact_laws::lemma_whole_over(
        (space.dist)(c),
        mu_dist.plus(config.epsilon),
        dist_share,
        dist_scale,
    );
    exact_laws::lemma_whole_times(config.beta, (space.error)(c), weight, error);
    assert(-0x100_0000 <= error_share <= 0x100_0000) by (nonlinear_arith)
        requires
            -0x100_0000 <= error_share * error_scale <= 0x100_0000,
            error_scale >= 1,
    ;
    exact_laws::lemma_whole_over(
        config.beta.times((space.error)(c)),
        mu_error.plus(config.epsilon),
        error_share,
        error_scale,
    );
    exact_laws::lemma_whole_plus(
        (space.dist)(c).over(mu_dist.plus(config.epsilon)),
        config.beta.times((space.error)(c)).over(mu_error.plus(config.epsilon)),
        dist_share,
        error_share,
    );
}

/// The error of an edge between two nodes is the mean of their errors: exactly, where these are whole
/// and their sum is even.
pub proof fn law_edge_errors_are_means(errors: NodeErrors, u: u32, v: u32, a: int, b: int, m: int)
    requires
        errors.known(u, v),
        exact_laws::is_whole(errors.errors@[u as int], a),
        exact_laws::is_whole(errors.errors@[v as int], b),
        a + b == 2 * m,
        -0x100_0000 <= a + b <= 0x100_0000,
    ensures
        exact_laws::is_whole(errors.error_of(u, v), m),
{
    lemma_two();
    let x = errors.errors@[u as int];
    let y = errors.errors@[v as int];
    exact_laws::lemma_whole_plus(x, y, a, b);
    exact_laws::lemma_whole_over(x.plus(y), F32(TWO_BITS), m, 2);
}

proof fn lemma_two()
    ensures
        exact_laws::is_whole(F32(TWO_BITS), 2),
{
    let x = F32(TWO_BITS);
    assert(x.magnitude() == 0x4000_0000 && !x.negative());
    assert(x.units() == 0x80_0000 * power2::pow2(127));
    power2::lemma_pow2_adds(23, 127);
    power2::lemma_pow2_adds(1, 149);
    power2::lemma2_to64();
}

/// The mean of whole numbers is their sum divided by how many they are: exactly, where that is whole.
pub proof fn law_means_are_exact(values: Seq<F32>, m: Seq<int>, mean: int)
    requires
        exact_laws::are_whole(values, m),
        0 < values.len() <= 0x100_0000,
        exact_laws::sum_of(exact_laws::sizes(m)) <= 0x100_0000,
        exact_laws::sum_of(m) == mean * m.len(),
    ensures
        exact_laws::is_whole(quant_aware_prune::mean_of(values), mean),
{
    exact_laws::lemma_total(values, m);
    exact_laws::lemma_sizes(m);
    exact_laws::lemma_of_int(values.len());
    assert(-0x100_0000 <= mean <= 0x100_0000) by (nonlinear_arith)
        requires
            -0x100_0000 <= mean * m.len() <= 0x100_0000,
            m.len() >= 1,
    ;
    exact_laws::lemma_whole_over(
        sums::total(values),
        F32::of_int(values.len()),
        mean,
        values.len() as int,
    );
}

/// The squares of what each of the numbers is away from a number.
pub open spec fn squares_from(m: Seq<int>, center: int) -> Seq<int> {
    Seq::new(m.len(), |i: int| (m[i] - center) * (m[i] - center))
}

/// The mean of the squares of what each number is away from the mean is exact, for whole numbers whose
/// mean is whole.
pub proof fn lemma_variance(values: Seq<F32>, m: Seq<int>, mean: int, variance: int)
    requires
        exact_laws::are_whole(values, m),
        0 < values.len() <= 0x100_0000,
        exact_laws::sum_of(exact_laws::sizes(m)) <= 0x100_0000,
        exact_laws::sum_of(m) == mean * m.len(),
        forall|i: int| 0 <= i < m.len() ==> -0xFFF <= (#[trigger] m[i]) - mean <= 0xFFF,
        exact_laws::sum_of(squares_from(m, mean)) <= 0x100_0000,
        exact_laws::sum_of(squares_from(m, mean)) == variance * m.len(),
    ensures
        exact_laws::is_whole(
            quant_aware_prune::mean_of(
                quant_aware_prune::squared_deviations(values, quant_aware_prune::mean_of(values)),
            ),
            variance,
        ),
{
    law_means_are_exact(values, m, mean);
    let center = quant_aware_prune::mean_of(values);
    let squares = quant_aware_prune::squared_deviations(values, center);
    let s = squares_from(m, mean);
    assert(exact_laws::are_whole(squares, s)) by {
        assert forall|i: int| 0 <= i < squares.len() implies exact_laws::is_whole(
            #[trigger] squares[i],
            s[i],
        ) by {
            let d = m[i] - mean;
            assert(exact_laws::is_whole(values[i], m[i]));
            exact_laws::lemma_whole_less(values[i], center, m[i], mean);
            assert(0 <= d * d <= 0x100_0000) by (nonlinear_arith)
                requires
                    -0xFFF <= d <= 0xFFF,
            ;
            exact_laws::lemma_whole_times(
                values[i].less(center),
                values[i].less(center),
                d,
                d,
            );
        }
    }
    assert(exact_laws::sizes(s) =~= s) by {
        assert forall|i: int| 0 <= i < s.len() implies exact_laws::sizes(s)[i] == s[i] by {
            let d = m[i] - mean;
            assert(d * d >= 0) by (nonlinear_arith);
        }
    }
    law_means_are_exact(squares, s, variance);
}

/// What the standard deviation is the root of is the mean of the squares of what each number is away
/// from the mean: exactly, for whole numbers whose mean is whole.
pub proof fn law_variances_are_exact(values: Seq<F32>, m: Seq<int>, mean: int, variance: int)
    requires
        exact_laws::are_whole(values, m),
        0 < values.len() <= 0x100_0000,
        exact_laws::sum_of(exact_laws::sizes(m)) <= 0x100_0000,
        exact_laws::sum_of(m) == mean * m.len(),
        forall|i: int| 0 <= i < m.len() ==> -0xFFF <= (#[trigger] m[i]) - mean <= 0xFFF,
        exact_laws::sum_of(squares_from(m, mean)) <= 0x100_0000,
        exact_laws::sum_of(squares_from(m, mean)) == variance * m.len(),
    ensures
        exists|x: F32|
            exact_laws::is_whole(x, variance) && quant_aware_prune::deviation_of(values)
                == #[trigger] x.root(),
{
    lemma_variance(values, m, mean, variance);
    let x = quant_aware_prune::mean_of(
        quant_aware_prune::squared_deviations(values, quant_aware_prune::mean_of(values)),
    );
    assert(quant_aware_prune::deviation_of(values) == x.root());
}

/// Whether a number is less than another.
pub open spec fn less_than(m: F32) -> spec_fn(F32) -> bool {
    |x: F32| x.below(m)
}

/// Whether a number is more than another.
pub open spec fn more_than(m: F32) -> spec_fn(F32) -> bool {
    |x: F32| m.below(x)
}

spec fn seconds(s: Seq<Entry>) -> Seq<F32> {
    Seq::new(s.len(), |i: int| s[i].1)
}

proof fn lemma_tally_order(offers: Seq<Entry>, p: spec_fn(F32) -> bool)
    requires
        forall|i: int| 0 <= i < offers.len() ==> !(#[trigger] offers[i]).1.nan(),
    ensures
        tally::tally(seconds(linear_pool::in_order(offers)), p) == tally::tally(seconds(offers), p),
    decreases offers.len(),
{
    if offers.len() == 0 {
        assert(seconds(linear_pool::in_order(offers)) =~= seconds(offers));
    } else {
        let short = offers.drop_last();
        let e = offers.last();
        assert forall|i: int| 0 <= i < short.len() implies !(#[trigger] short[i]).1.nan() by {
            assert(!offers[i].1.nan());
        }
        lemma_tally_order(short, p);
        linear_pool::lemma_in_order(short);
        let before = linear_pool::in_order(short);
        assert(!offers[offers.len() - 1].1.nan());
        linear_pool::lemma_insert_pos(before, e.1);
        let at = linear_pool::insert_pos(before, e.1);
        assert(seconds(before.insert(at, e)) =~= seconds(before).insert(at, e.1));
        tally::lemma_insert(seconds(before), at, e.1, p);
        assert(seconds(offers).drop_last() =~= seconds(short));
    }
}

/// The number stands at a place of the list in order: no more are less than stand before the place, and
/// no more are greater than stand after it.
pub open spec fn stands_at(values: Seq<F32>, x: F32, place: int) -> bool {
    &&& values.contains(x)
    &&& tally::tally(values, less_than(x)) <= place
    &&& tally::tally(values, more_than(x)) <= values.len() - 1 - place
}

proof fn lemma_stands(values: Seq<F32>, place: int)
    requires
        0 <= place < values.len(),
        forall|i: int| 0 <= i < values.len() ==> !(#[trigger] values[i]).nan(),
    ensures
        stands_at(
            values,
            linear_pool::in_order(quant_aware_prune::as_entries(values))[place].1,
            place,
        ),
{
    broadcast use vstd::seq_lib::group_to_multiset_ensures;

    let offers = quant_aware_prune::as_entries(values);
    assert forall|i: int| 0 <= i < offers.len() implies !(#[trigger] offers[i]).1.nan() by {
        assert(!values[i].nan());
    }
    linear_pool::lemma_in_order(offers);
    let s = linear_pool::in_order(offers);
    let x = s[place].1;
    let v = seconds(s);
    assert(seconds(offers) =~= values);
    lemma_tally_order(offers, less_than(x));
    lemma_tally_order(offers, more_than(x));
    assert forall|i: int| place <= i < v.len() implies !less_than(x)(#[trigger] v[i]) by {
        assert(s[place].1.at_most(s[i].1));
    }
    assert forall|i: int| 0 <= i < place + 1 implies !more_than(x)(#[trigger] v[i]) by {
        assert(s[i].1.at_most(s[place].1));
    }
    tally::lemma_ends(v, less_than(x), place);
    tally::lemma_ends(v, more_than(x), place + 1);
    assert(s.contains(s[place]));
    assert(s.to_multiset().count(s[place]) > 0);
    assert(offers.contains(s[place]));
    let k = choose|k: int| 0 <= k < offers.len() && offers[k] == s[place];
    assert(values[k] == x);
}

/// The median of an odd number of numbers is one of them, with no more than half of the others less and
/// no more than half of them greater.
pub proof fn law_median_stands_in_the_middle(values: Seq<F32>)
    requires
        values.len() % 2 == 1,
        forall|i: int| 0 <= i < values.len() ==> !(#[trigger] values[i]).nan(),
    ensures
        stands_at(values, quant_aware_prune::median_of(values), values.len() as int / 2),
{
    lemma_stands(values, values.len() as int / 2);
}

/// The median of an even number of numbers is half the sum of the two that stand in the middle.
pub proof fn law_median_of_an_even_number(values: Seq<F32>) -> (pair: (F32, F32))
    requires
        values.len() > 0,
        values.len() % 2 == 0,
        forall|i: int| 0 <= i < values.len() ==> !(#[trigger] values[i]).nan(),
    ensures
        stands_at(values, pair.0, values.len() as int / 2 - 1),
        stands_at(values, pair.1, values.len() as int / 2),
        quant_aware_prune::median_of(values) == pair.0.plus(pair.1).over(F32(TWO_BITS)),
{
    let mid = values.len() as int / 2;
    lemma_stands(values, mid - 1);
    lemma_stands(values, mid);
    let s = linear_pool::in_order(quant_aware_prune::as_entries(values));
    (s[mid - 1].1, s[mid].1)
}

/// Whole numbers from one on are no smaller than what keeps a divisor from being zero.
proof fn lemma_above_epsilon(x: F32, k: int)
    requires
        exact_laws::is_whole(x, k),
        k >= 1,
    ensures
        x.greater(F32(EPSILON)) == x,
{
    power2::lemma_pow2_pos(149);
    let e = F32(EPSILON);
    assert(e.finite() && !e.negative());
    lemma_epsilon_below_one();
    let u = power2::pow2(149) as int;
    assert(k * u >= u) by (nonlinear_arith)
        requires
            k >= 1,
            u > 0,
    ;
    number_laws::law_order_is_of_values(x, e);
}

proof fn lemma_epsilon_below_one()
    ensures
        F32(EPSILON).units() <= power2::pow2(149),
{
    let e = F32(EPSILON);
    let w = e.magnitude() / 0x80_0000;
    let f = e.magnitude() % 0x80_0000;
    assert(w == 100);
    assert(f + 0x80_0000 <= 0x100_0000);
    power2::lemma_pow2_adds(24, 99);
    power2::lemma2_to64();
    let g = (f + 0x80_0000) as nat;
    let p = power2::pow2(99);
    assert(g * p <= 0x100_0000 * p) by (nonlinear_arith)
        requires
            g <= 0x100_0000,
    ;
    power2::lemma_pow2_strictly_increases(123, 149);
}

/// By the mean, the scale of whole numbers is their mean: exactly, where it is whole.
pub proof fn law_mean_scales<X: Fn(F32) -> F32, L: Fn(F32) -> F32>(
    exponentials: Exponentials<X, L>,
    values: Seq<F32>,
    m: Seq<int>,
    mean: int,
)
    requires
        exact_laws::are_whole(values, m),
        0 < values.len() <= 0x100_0000,
        exact_laws::sum_of(exact_laws::sizes(m)) <= 0x100_0000,
        exact_laws::sum_of(m) == mean * m.len(),
    ensures
        exact_laws::is_whole(
            exponentials.scale_of(values, NormalizationScheme::Mean),
            mean,
        ),
{
    law_means_are_exact(values, m, mean);
}

/// By the standard deviation, the scale of whole numbers is the root of the mean of the squares of what
/// each is away from the mean: exactly, where the mean and the root are whole.
pub proof fn law_deviation_scales<X: Fn(F32) -> F32, L: Fn(F32) -> F32>(
    exponentials: Exponentials<X, L>,
    values: Seq<F32>,
    m: Seq<int>,
    mean: int,
    deviation: int,
)
    requires
        exact_laws::are_whole(values, m),
        0 < values.len() <= 0x100_0000,
        exact_laws::sum_of(exact_laws::sizes(m)) <= 0x100_0000,
        exact_laws::sum_of(m) == mean * m.len(),
        forall|i: int| 0 <= i < m.len() ==> -0xFFF <= (#[trigger] m[i]) - mean <= 0xFFF,
        1 <= deviation <= 0xFFF,
        exact_laws::sum_of(squares_from(m, mean)) <= 0x100_0000,
        exact_laws::sum_of(squares_from(m, mean)) == (deviation * deviation) * m.len(),
    ensures
        exact_laws::is_whole(
            exponentials.scale_of(values, NormalizationScheme::StdDev),
            deviation,
        ),
{
    let variance = deviation * deviation;
    lemma_variance(values, m, mean, variance);
    let x = quant_aware_prune::mean_of(
        quant_aware_prune::squared_deviations(values, quant_aware_prune::mean_of(values)),
    );
    let y = F32::of_int(deviation as nat);
    exact_laws::lemma_of_int(deviation as nat);
    power2::lemma_pow2_pos(149);
    let u = power2::pow2(149) as int;
    assert(variance >= 1) by (nonlinear_arith)
        requires
            variance == deviation * deviation,
            deviation >= 1,
    ;
    assert(variance * u > 0) by (nonlinear_arith)
        requires
            variance >= 1,
            u > 0,
    ;
    assert(deviation * u > 0) by (nonlinear_arith)
        requires
            deviation >= 1,
            u > 0,
    ;
    assert((deviation * u) * (deviation * u) == (variance * u) * u) by (nonlinear_arith)
        requires
            variance == deviation * deviation,
    ;
    number_laws::law_roots_undo_exact_squares(x, y);
    lemma_above_epsilon(y, deviation);
}

/// How far each of the numbers is from another, without the sign.
pub open spec fn gaps_from(values: Seq<F32>, center: F32) -> Seq<F32> {
    Seq::new(values.len(), |i: int| values[i].less(center).absolute())
}

/// By the absolute deviations, the scale of an odd number of numbers is the one that stands in the
/// middle of how far each is from the one that stands in the middle of them.
pub proof fn law_middle_deviation_scales<X: Fn(F32) -> F32, L: Fn(F32) -> F32>(
    exponentials: Exponentials<X, L>,
    values: Seq<F32>,
) -> (center: F32)
    requires
        values.len() % 2 == 1,
        forall|i: int| 0 <= i < values.len() ==> !(#[trigger] values[i]).nan(),
        forall|i: int, c: F32|
            #![trigger values[i], gaps_from(values, c)]
            0 <= i < values.len() && values.contains(c) ==> !gaps_from(values, c)[i].nan(),
    ensures
        stands_at(values, center, values.len() as int / 2),
        ({
            let gaps = gaps_from(values, center);
            let scale = exponentials.scale_of(values, NormalizationScheme::Mad);
            scale == F32(EPSILON) || stands_at(gaps, scale, values.len() as int / 2)
        }),
{
    let center = quant_aware_prune::median_of(values);
    law_median_stands_in_the_middle(values);
    let gaps = quant_aware_prune::absolute_deviations(values, center);
    assert(gaps =~= gaps_from(values, center));
    assert forall|i: int| 0 <= i < gaps.len() implies !(#[trigger] gaps[i]).nan() by {
        assert(!values[i].nan());
        assert(!gaps_from(values, center)[i].nan());
    }
    law_median_stands_in_the_middle(gaps);
    center
}

/// The greatest of some numbers is one of them, and none is greater.
pub proof fn law_greatest_is_greatest(values: Seq<F32>)
    requires
        values.len() > 0,
        forall|i: int| 0 <= i < values.len() ==> !(#[trigger] values[i]).nan(),
    ensures
        values.contains(quant_aware_prune::greatest(values)),
        forall|i: int|
            0 <= i < values.len() ==> (#[trigger] values[i]).at_most(
                quant_aware_prune::greatest(values),
            ),
    decreases values.len(),
{
    let short = values.drop_last();
    let l = values.len() - 1;
    let g = quant_aware_prune::greatest(values);
    assert(!values[l].nan());
    assert forall|i: int| 0 <= i < short.len() implies !(#[trigger] short[i]).nan() by {
        assert(!values[i].nan());
    }
    if short.len() == 0 {
        let low = F32(NEGATIVE_INFINITY);
        assert(low.rank() == -0x7F80_0000);
        assert(quant_aware_prune::greatest(short) == low);
        if g != values[l] {
            assert(!low.below(values[l]));
            assert(values[l].rank() == low.rank());
            assert(values[l] == low);
        }
        assert(values[l] == g);
    } else {
        law_greatest_is_greatest(short);
        let before = quant_aware_prune::greatest(short);
        let k = choose|k: int| 0 <= k < short.len() && short[k] == before;
        assert(values[k] == before);
        assert(!before.nan());
        if g == before {
            assert(values.contains(g));
        } else {
            assert(values[l] == g);
        }
        assert forall|i: int| 0 <= i < values.len() implies (#[trigger] values[i]).at_most(g) by {
            if i < l {
                assert(short[i].at_most(before));
            }
        }
    }
}

/// By the exponentials, the scale of a number that is given several times is that number, where the
/// exponential of nothing is one and the logarithm of one is nothing.
pub proof fn law_exponential_scales_of_one_number<X: Fn(F32) -> F32, L: Fn(F32) -> F32>(
    exponentials: Exponentials<X, L>,
    values: Seq<F32>,
    x: F32,
    k: int,
)
    requires
        0 < values.len() <= 0x100_0000,
        forall|i: int| 0 <= i < values.len() ==> #[trigger] values[i] == x,
        exact_laws::is_whole(x, k),
        1 <= k <= 0x100_0000,
        forall|z: F32|
            z.magnitude() == 0 ==> #[trigger] quant_aware_prune::value_at(exponentials.exp, z)
                == F32(ONE_BITS),
        forall|z: F32|
            exact_laws::is_whole(z, 1) ==> #[trigger] quant_aware_prune::value_at(
                exponentials.ln,
                z,
            ) == F32(0),
    ensures
        exact_laws::is_whole(
            exponentials.scale_of(values, NormalizationScheme::LogSumExp),
            k,
        ),
{
    let top = quant_aware_prune::greatest(values);
    assert forall|i: int| 0 <= i < values.len() implies !(#[trigger] values[i]).nan() by {}
    law_greatest_is_greatest(values);
    let at = choose|at: int| 0 <= at < values.len() && values[at] == top;
    assert(top == x);
    let powers = exponentials.powers(values);
    let ones = Seq::new(values.len(), |i: int| 1int);
    lemma_one_is_whole();
    assert(exact_laws::are_whole(powers, ones)) by {
        assert forall|i: int| 0 <= i < powers.len() implies exact_laws::is_whole(
            #[trigger] powers[i],
            ones[i],
        ) by {
            assert(values[i] == x);
            let z = x.less(x);
            exact_laws::lemma_whole_less(x, x, k, k);
            lemma_nothing(z);
            assert(powers[i] == quant_aware_prune::value_at(exponentials.exp, z));
        }
    }
    lemma_ones(values.len());
    assert(exact_laws::sizes(ones) =~= ones);
    law_means_are_exact(powers, ones, 1);
    let mean = quant_aware_prune::mean_of(powers);
    exact_laws::lemma_whole_zero();
    assert(quant_aware_prune::value_at(exponentials.ln, mean) == F32(0));
    exact_laws::lemma_whole_plus(x, F32(0), k, 0);
    lemma_above_epsilon(x.plus(F32(0)), k);
}

proof fn lemma_ones(n: nat)
    ensures
        exact_laws::sum_of(Seq::new(n, |i: int| 1int)) == n,
    decreases n,
{
    let s = Seq::new(n, |i: int| 1int);
    if n > 0 {
        lemma_ones((n - 1) as nat);
        assert(s.drop_last() =~= Seq::new((n - 1) as nat, |i: int| 1int));
    }
}

proof fn lemma_one_is_whole()
    ensures
        exact_laws::is_whole(F32(ONE_BITS), 1),
{
    let x = F32(ONE_BITS);
    assert(x.magnitude() == 0x3F80_0000 && !x.negative());
    assert(x.units() == 0x80_0000 * power2::pow2(126));
    power2::lemma_pow2_adds(23, 126);
    power2::lemma2_to64();
}

proof fn lemma_nothing(z: F32)
    requires
        exact_laws::is_whole(z, 0),
    ensures
        z.magnitude() == 0,
{
    power2::lemma_pow2_pos(149);
    assert(0 * power2::pow2(149) == 0) by (nonlinear_arith);
    exact_laws::lemma_whole_zero();
    number_laws::law_order_is_of_values(z, F32(0));
    number_laws::law_order_is_of_values(F32(0), z);
}

} // verus!
