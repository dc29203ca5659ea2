//! A search width for each query, by how far the query is from the place where its search starts.
//!
//! Distances of a sample of the vectors are kept in order. The share of them below the distance of
//! a query, raised to the power `gamma`, says where between the smallest and the greatest width
//! the query's width lies. How a number is raised to a power differs between machines, so that is
//! handed in.
use vstd::prelude::*;
use crate::distance::DistanceKernel;
use crate::distance::ordering;
use crate::distance::ordering::sort_numbers;
use crate::distance::single::{F32, ONE_BITS};
use crate::graph::layered;
use crate::graph::layered::LayeredNavigation;
use crate::graph::points::Points;
use crate::graph::search;
use crate::graph::search::{vector_slice, NodeScore, VectorScore};

verus! {

/// How many vectors are sampled at most.
pub const MAX_SAMPLES: usize = 2000;

/// The widths and the distances that they are estimated from.
pub struct AdaptiveEfConfig {
    sorted_distances: Vec<F32>,
    min_ef: usize,
    max_ef: usize,
    /// The exponent that the shares were made with. One is linear; above one most queries get a
    /// small width.
    pub gamma: F32,
    shape: Vec<F32>,
}

/// The settings as plain values.
pub struct AdaptiveView {
    /// The distances in order.
    pub distances: Seq<F32>,
    /// The smallest width.
    pub min_ef: usize,
    /// The greatest width.
    pub max_ef: usize,
    /// The exponent.
    pub gamma: F32,
    /// For each number of distances the share that it is of all, raised to the exponent.
    pub shape: Seq<F32>,
}

impl View for AdaptiveEfConfig {
    type V = AdaptiveView;

    closed spec fn view(&self) -> AdaptiveView {
        AdaptiveView {
            distances: self.sorted_distances@,
            min_ef: self.min_ef,
            max_ef: self.max_ef,
            gamma: self.gamma,
            shape: self.shape@,
        }
    }
}

/// How many distances come before the first that is not below `d`. In a list in order these are
/// all that are below `d`.
pub open spec fn below_count(distances: Seq<F32>, d: F32) -> nat
    decreases distances.len(),
{
    if distances.len() == 0 || !distances[0].below(d) {
        0
    } else {
        1 + below_count(distances.skip(1), d)
    }
}

/// The share that `rank` is of `count`.
pub open spec fn percentile(rank: nat, count: nat) -> F32 {
    F32::of_int(rank).over(F32::of_int(count))
}

/// The width that lies at the given share of the way from the smallest to the greatest, rounded to
/// the nearest, and never outside of the two.
pub open spec fn width_at(share: F32, min_ef: usize, max_ef: usize) -> usize {
    let width = share.fused(
        F32::of_int((max_ef - min_ef) as nat),
        F32::of_int(min_ef as nat),
    ).nearest_usize();
    if width < min_ef {
        min_ef
    } else if width > max_ef {
        max_ef
    } else {
        width
    }
}

/// How many of `n` vectors are sampled.
pub open spec fn sample_count_of(n: nat) -> nat {
    if n < MAX_SAMPLES {
        n
    } else {
        MAX_SAMPLES as nat
    }
}

/// The share is between none and all.
pub open spec fn is_share(x: F32) -> bool {
    F32(0).at_most(x) && x.at_most(F32(ONE_BITS)) && !x.negative()
}

/// The shares never fall.
pub open spec fn shape_grows(shape: Seq<F32>) -> bool {
    &&& forall|i: int| 0 <= i < shape.len() ==> is_share(#[trigger] shape[i])
    &&& forall|i: int, j: int|
        0 <= i <= j < shape.len() ==> (#[trigger] shape[i]).at_most(#[trigger] shape[j])
}

/// The shares for the ranks among `count` distances: one for each rank, none for the first rank,
/// all for the last, and never less for a greater rank.
pub open spec fn is_shape(shape: Seq<F32>, count: nat) -> bool {
    &&& shape.len() == count + 1
    &&& shape_grows(shape)
    &&& shape[0] == F32(0)
    &&& count > 0 ==> shape[count as int] == F32(ONE_BITS)
}

/// `power` takes every pair of numbers and has one value at each.
pub open spec fn is_power<P: Fn(F32, F32) -> F32>(power: P) -> bool {
    &&& forall|x: F32, y: F32| #[trigger] call_requires(power, (x, y))
    &&& forall|x: F32, y: F32, a: F32, b: F32|
        #![trigger call_ensures(power, (x, y), a), call_ensures(power, (x, y), b)]
        call_ensures(power, (x, y), a) && call_ensures(power, (x, y), b) ==> a == b
}

/// One number to the power of another.
pub open spec fn power_at<P: Fn(F32, F32) -> F32>(power: P, x: F32, y: F32) -> F32 {
    choose|z: F32| #[trigger] call_ensures(power, (x, y), z)
}

/// The shares that all ranks among `count` distances are of all, raised to the exponent.
pub open spec fn raised_shares<P: Fn(F32, F32) -> F32>(
    power: P,
    gamma: F32,
    count: nat,
) -> Seq<F32> {
    Seq::new((count + 1) as nat, |i: int| power_at(power, percentile(i as nat, count), gamma))
}

/// The shares that a configuration has for the ranks among `count` distances. Under a positive
/// exponent they grow from none to all.
pub open spec fn shape_of<P: Fn(F32, F32) -> F32>(power: P, gamma: F32, count: nat) -> Seq<F32> {
    if F32(0).below(gamma) {
        kept_shape(raised_shares(power, gamma, count), count)
    } else {
        raised_shares(power, gamma, count)
    }
}

/// The share that is kept of those offered for the rank `i` among `count`: none for the first
/// rank, all for the last, and between them the one offered, brought up to the share before it and
/// down to all. What is no number counts as the share before it.
pub open spec fn kept_share(offered: Seq<F32>, count: nat, i: nat) -> F32
    decreases i,
{
    if i == 0 {
        F32(0)
    } else if i >= count {
        F32(ONE_BITS)
    } else {
        let before = kept_share(offered, count, (i - 1) as nat);
        if !before.below(offered[i as int]) {
            before
        } else if offered[i as int].at_most(F32(ONE_BITS)) {
            offered[i as int]
        } else {
            F32(ONE_BITS)
        }
    }
}

/// The shares that are kept of those offered.
pub open spec fn kept_shape(offered: Seq<F32>, count: nat) -> Seq<F32> {
    Seq::new((count + 1) as nat, |i: int| kept_share(offered, count, i as nat))
}

proof fn lemma_kept_share(offered: Seq<F32>, count: nat, i: nat)
    ensures
        is_share(kept_share(offered, count, i)),
        i > 0 ==> kept_share(offered, count, (i - 1) as nat).at_most(
            kept_share(offered, count, i),
        ),
    decreases i,
{
    if i > 0 {
        lemma_kept_share(offered, count, (i - 1) as nat);
    }
}

proof fn lemma_kept_shares_grow(offered: Seq<F32>, count: nat, i: nat, j: nat)
    requires
        i <= j,
    ensures
        kept_share(offered, count, i).at_most(kept_share(offered, count, j)),
    decreases j,
{
    lemma_kept_share(offered, count, j);
    if i < j {
        lemma_kept_shares_grow(offered, count, i, (j - 1) as nat);
    }
}

/// Whatever shares are offered, those that are kept grow from none to all.
pub proof fn law_kept_shares_grow(offered: Seq<F32>, count: nat)
    ensures
        is_shape(kept_shape(offered, count), count),
{
    let kept = kept_shape(offered, count);
    assert forall|i: int| 0 <= i < kept.len() implies is_share(#[trigger] kept[i]) by {
        lemma_kept_share(offered, count, i as nat);
    }
    assert forall|i: int, j: int| 0 <= i <= j < kept.len() implies (#[trigger] kept[i]).at_most(
        #[trigger] kept[j],
    ) by {
        lemma_kept_shares_grow(offered, count, i as nat, j as nat);
    }
}

proof fn lemma_growing_share_is_kept(offered: Seq<F32>, count: nat, i: nat)
    requires
        is_shape(offered, count),
        i <= count,
    ensures
        kept_share(offered, count, i) == offered[i as int],
    decreases i,
{
    if 0 < i < count {
        lemma_growing_share_is_kept(offered, count, (i - 1) as nat);
        assert(is_share(offered[i - 1]) && is_share(offered[i as int]));
        assert(offered[i - 1].at_most(offered[i as int]));
    }
}

/// Shares that grow from none to all are kept as they are offered.
pub proof fn law_growing_shares_are_kept(offered: Seq<F32>, count: nat)
    requires
        is_shape(offered, count),
    ensures
        kept_shape(offered, count) == offered,
{
    assert forall|i: int| 0 <= i <= count implies kept_shape(offered, count)[i] == offered[i] by {
        lemma_growing_share_is_kept(offered, count, i as nat);
    }
    assert(kept_shape(offered, count) =~= offered);
}

impl AdaptiveView {
    /// There is a share for every rank, and the smallest width is the smaller one.
    pub open spec fn usable(self) -> bool {
        &&& self.min_ef <= self.max_ef
        &&& self.shape.len() == self.distances.len() + 1
    }

    /// The shares grow from none to all.
    pub open spec fn grows(self) -> bool {
        is_shape(self.shape, self.distances.len())
    }

    /// The width for a query at the given distance. With fewer than two distances it is the mean
    /// of the smallest and the greatest, rounded down.
    pub open spec fn estimate(self, distance: F32) -> usize {
        if self.distances.len() <= 1 {
            ((self.min_ef + self.max_ef) / 2) as usize
        } else {
            width_at(
                self.shape[below_count(self.distances, distance) as int],
                self.min_ef,
                self.max_ef,
            )
        }
    }
}

/// The share that a rank is of `count`, raised to the exponent.
fn raised_share<P: Fn(F32, F32) -> F32>(power: &P, gamma: F32, rank: usize, count: usize) -> (s:
    F32)
    requires
        is_power(*power),
    ensures
        s == power_at(*power, percentile(rank as nat, count as nat), gamma),
{
    let share = F32::from_usize(rank).div(F32::from_usize(count));
    let s = power(share, gamma);
    assert(call_ensures(*power, (share, gamma), s));
    assert(call_ensures(*power, (share, gamma), power_at(*power, share, gamma)));
    s
}

/// The shares for the ranks among `count` distances.
fn make_shape<P: Fn(F32, F32) -> F32>(power: &P, gamma: F32, count: usize) -> (shape: Vec<F32>)
    requires
        is_power(*power),
    ensures
        shape@ == shape_of(*power, gamma, count as nat),
        shape@.len() == count + 1,
        F32(0).below(gamma) ==> is_shape(shape@, count as nat),
{
    let ghost offered = raised_shares(*power, gamma, count as nat);
    let ghost all = shape_of(*power, gamma, count as nat);
    let grows: bool = F32(0).lt(gamma);
    let mut last = if grows {
        F32(0)
    } else {
        raised_share(power, gamma, 0, count)
    };
    let mut shape: Vec<F32> = Vec::new();
    shape.push(last);
    let mut i: usize = 0;
    assert(shape@ =~= all.take(1));
    while i < count
        invariant
            i <= count,
            is_power(*power),
            grows == F32(0).below(gamma),
            offered == raised_shares(*power, gamma, count as nat),
            all == shape_of(*power, gamma, count as nat),
            shape@ == all.take(i + 1),
            grows ==> last == kept_share(offered, count as nat, i as nat),
        decreases count - i,
    {
        i += 1;
        let raised = raised_share(power, gamma, i, count);
        assert(raised == offered[i as int]);
        if !grows {
            last = raised;
        } else if i == count {
            last = F32(ONE_BITS);
        } else if last.lt(raised) {
            last = if raised.le(F32(ONE_BITS)) {
                raised
            } else {
                F32(ONE_BITS)
            };
        }
        shape.push(last);
        assert(shape@ =~= all.take(i + 1));
    }
    assert(shape@ =~= all);
    proof {
        law_kept_shares_grow(offered, count as nat);
    }
    shape
}

impl AdaptiveEfConfig {
    /// A configuration from distances that are in order.
    pub fn from_sorted_samples<P: Fn(F32, F32) -> F32>(
        sorted_distances: Vec<F32>,
        min_ef: usize,
        max_ef: usize,
        gamma: F32,
        power: P,
    ) -> (c: Self)
        requires
            1 <= min_ef <= max_ef,
            F32(0).below(gamma),
            is_power(power),
        ensures
            c@ == (AdaptiveView {
                distances: sorted_distances@,
                min_ef,
                max_ef,
                gamma,
                shape: shape_of(power, gamma, sorted_distances@.len()),
            }),
            c@.usable(),
            c@.grows(),
    {
        let shape = make_shape(&power, gamma, sorted_distances.len());
        AdaptiveEfConfig { sorted_distances, min_ef, max_ef, gamma, shape }
    }

    /// The same distances with other widths and another exponent.
    pub fn with_params<P: Fn(F32, F32) -> F32>(
        &self,
        min_ef: usize,
        max_ef: usize,
        gamma: F32,
        power: P,
    ) -> (c: Self)
        requires
            is_power(power),
        ensures
            c@ == (AdaptiveView {
                distances: self@.distances,
                min_ef,
                max_ef,
                gamma,
                shape: shape_of(power, gamma, self@.distances.len()),
            }),
            min_ef <= max_ef ==> c@.usable(),
            F32(0).below(gamma) ==> c@.grows(),
    {
        let sorted_distances = self.sorted_distances.clone();
        assert(sorted_distances@ =~= self.sorted_distances@);
        let shape = make_shape(&power, gamma, sorted_distances.len());
        AdaptiveEfConfig { sorted_distances, min_ef, max_ef, gamma, shape }
    }

    /// A configuration from the distances of the first vectors to the entry point.
    pub fn build_f32<K: DistanceKernel, P: Fn(F32, F32) -> F32>(
        kernel: &K,
        vectors: &[F32],
        dim: usize,
        entry_point: u32,
        min_ef: usize,
        max_ef: usize,
        gamma: F32,
        power: P,
    ) -> (c: Self)
        requires
            dim > 0,
            entry_point <= usize::MAX,
            search::has_vector(vectors@, dim as int, entry_point as int),
            1 <= min_ef <= max_ef,
            F32(0).below(gamma),
            is_power(power),
        ensures
            ({
                let data = Points { kernel, vectors, dim };
                let count = sample_count_of(vectors@.len() / dim as nat);
                let score = data.score_to(data.vector(entry_point as int));
                c@ == (AdaptiveView {
                    distances: ordering::ascending(Seq::new(count, |i: int| score(i as u32))),
                    min_ef,
                    max_ef,
                    gamma,
                    shape: shape_of(power, gamma, count),
                })
            }),
            c@.usable(),
            c@.grows(),
    {
        assert(vectors@.len() == vectors.len());
        let n: usize = vectors.len() / dim;
        let query = vector_slice(vectors, dim, entry_point);
        let score = VectorScore { kernel, vectors, dim, query };
        proof {
            lemma_all_known(&score, n as nat);
        }
        let c = AdaptiveEfConfig::build_sq8(&score, n, min_ef, max_ef, gamma, power);
        proof {
            let data = Points { kernel, vectors, dim };
            let count = sample_count_of(n as nat);
            let to = data.score_to(data.vector(entry_point as int));
            assert(Seq::new(count, |i: int| score.score_of(i as u32)) =~= Seq::new(
                count,
                |i: int| to(i as u32),
            ));
        }
        c
    }

    /// A configuration from the scores of the first of `n` nodes, such as the distances of their
    /// codes to the code of the entry point.
    pub fn build_sq8<S: NodeScore, P: Fn(F32, F32) -> F32>(
        score: &S,
        n: usize,
        min_ef: usize,
        max_ef: usize,
        gamma: F32,
        power: P,
    ) -> (c: Self)
        requires
            forall|id: u32| id < sample_count_of(n as nat) ==> #[trigger] score.known(id),
            1 <= min_ef <= max_ef,
            F32(0).below(gamma),
            is_power(power),
        ensures
            c@ == (AdaptiveView {
                distances: ordering::ascending(
                    Seq::new(sample_count_of(n as nat), |i: int| score.score_of(i as u32)),
                ),
                min_ef,
                max_ef,
                gamma,
                shape: shape_of(power, gamma, sample_count_of(n as nat)),
            }),
            c@.usable(),
            c@.grows(),
    {
        let count: usize = if n < MAX_SAMPLES {
            n
        } else {
            MAX_SAMPLES
        };
        let ghost all = Seq::new(count as nat, |i: int| score.score_of(i as u32));
        let mut samples: Vec<F32> = Vec::with_capacity(count);
        let mut i: usize = 0;
        while i < count
            invariant
                i <= count <= MAX_SAMPLES,
                forall|id: u32| id < count ==> #[trigger] score.known(id),
                all == Seq::new(count as nat, |i: int| score.score_of(i as u32)),
                samples@ == all.take(i as int),
            decreases count - i,
        {
            samples.push(score.score(i as u32));
            i += 1;
            assert(samples@ =~= all.take(i as int));
        }
        assert(samples@ =~= all);
        let sorted = sort_numbers(samples.as_slice());
        AdaptiveEfConfig::from_sorted_samples(sorted, min_ef, max_ef, gamma, power)
    }

    /// A configuration from the distances of the first vectors to the places where the layers
    /// start a search for them.
    pub fn build_with_layered_nav<K: DistanceKernel, P: Fn(F32, F32) -> F32>(
        kernel: &K,
        vectors: &[F32],
        dim: usize,
        nav: &LayeredNavigation,
        min_ef: usize,
        max_ef: usize,
        gamma: F32,
        power: P,
    ) -> (c: Self)
        requires
            dim > 0,
            layered::descendable(nav@, vectors@, dim as int),
            1 <= min_ef <= max_ef,
            F32(0).below(gamma),
            is_power(power),
        ensures
            ({
                let data = Points { kernel, vectors, dim };
                let count = sample_count_of(vectors@.len() / dim as nat);
                c@ == (AdaptiveView {
                    distances: ordering::ascending(
                        Seq::new(
                            count,
                            |i: int|
                                layered::descent(
                                    data,
                                    nav@,
                                    data.vector(i),
                                    nav@.max_level as nat,
                                ).1,
                        ),
                    ),
                    min_ef,
                    max_ef,
                    gamma,
                    shape: shape_of(power, gamma, count),
                })
            }),
            c@.usable(),
            c@.grows(),
    {
        assert(vectors@.len() == vectors.len());
        let n: usize = vectors.len() / dim;
        let count: usize = if n < MAX_SAMPLES {
            n
        } else {
            MAX_SAMPLES
        };
        let ghost data = Points { kernel, vectors, dim };
        let ghost all = Seq::new(
            count as nat,
            |i: int|
                layered::descent(data, nav@, data.vector(i), nav@.max_level as nat).1,
        );
        let mut samples: Vec<F32> = Vec::with_capacity(count);
        let mut i: usize = 0;
        while i < count
            invariant
                i <= count <= n,
                count <= MAX_SAMPLES,
                dim > 0,
                n == vectors@.len() / dim as nat,
                vectors@.len() == vectors.len(),
                layered::descendable(nav@, vectors@, dim as int),
                data == (Points { kernel, vectors, dim }),
                all == Seq::new(
                    count as nat,
                    |i: int|
                        layered::descent(data, nav@, data.vector(i), nav@.max_level as nat).1,
                ),
                samples@ == all.take(i as int),
            decreases count - i,
        {
            proof {
                lemma_has_vector(vectors@, dim as nat, i as int);
            }
            let query = vector_slice(vectors, dim, i as u32);
            let start = nav.initialize(kernel, vectors, dim, query);
            samples.push(start.1);
            i += 1;
            assert(samples@ =~= all.take(i as int));
        }
        assert(samples@ =~= all);
        let sorted = sort_numbers(samples.as_slice());
        AdaptiveEfConfig::from_sorted_samples(sorted, min_ef, max_ef, gamma, power)
    }

    /// The width for a query at the given distance, between the smallest and the greatest.
    pub fn estimate_ef(&self, distance: F32) -> (ef: usize)
        requires
            self@.usable(),
        ensures
            ef == self@.estimate(distance),
            self@.min_ef <= ef <= self@.max_ef,
    {
        if self.sorted_distances.len() <= 1 {
            let half: usize = (self.max_ef - self.min_ef) / 2;
            return self.min_ef + half;
        }
        let ghost all = self.sorted_distances@;
        let ghost whole = below_count(all, distance);
        let mut rank: usize = 0;
        assert(all.skip(0) =~= all);
        while rank < self.sorted_distances.len() && self.sorted_distances[rank].lt(distance)
            invariant
                all == self.sorted_distances@,
                rank <= all.len(),
                whole == rank + below_count(all.skip(rank as int), distance),
            decreases all.len() - rank,
        {
            assert(all.skip(rank as int)[0] == all[rank as int]);
            assert(all.skip(rank as int).skip(1) =~= all.skip(rank + 1));
            rank += 1;
        }
        proof {
            if rank < all.len() {
                assert(all.skip(rank as int)[0] == all[rank as int]);
            }
        }
        let span = F32::from_usize(self.max_ef - self.min_ef);
        let base = F32::from_usize(self.min_ef);
        let width: usize = self.shape[rank].mul_add(span, base).round_to_usize();
        if width < self.min_ef {
            self.min_ef
        } else if width > self.max_ef {
            self.max_ef
        } else {
            width
        }
    }

    /// The smallest width.
    pub fn min_ef(&self) -> (ef: usize)
        ensures
            ef == self@.min_ef,
    {
        self.min_ef
    }

    /// The greatest width.
    pub fn max_ef(&self) -> (ef: usize)
        ensures
            ef == self@.max_ef,
    {
        self.max_ef
    }

    /// How many distances there are.
    pub fn sample_count(&self) -> (n: usize)
        ensures
            n == self@.distances.len(),
    {
        self.sorted_distances.len()
    }

    /// The smallest distance, the lower quartile, the median, the upper quartile and the greatest;
    /// zeros where there is no distance.
    pub fn distribution_stats(&self) -> (s: (F32, F32, F32, F32, F32))
        ensures
            ({
                let d = self@.distances;
                let n = d.len() as int;
                s == (if n == 0 {
                    (F32(0), F32(0), F32(0), F32(0), F32(0))
                } else {
                    (d[0], d[n / 4], d[n / 2], d[3 * n / 4], d[n - 1])
                })
            }),
    {
        let n: usize = self.sorted_distances.len();
        if n == 0 {
            return (F32(0), F32(0), F32(0), F32(0), F32(0));
        }
        let upper: usize = (3 * n as u128 / 4) as usize;
        (
            self.sorted_distances[0],
            self.sorted_distances[n / 4],
            self.sorted_distances[n / 2],
            self.sorted_distances[upper],
            self.sorted_distances[n - 1],
        )
    }
}

proof fn lemma_has_vector(vectors: Seq<F32>, dim: nat, id: int)
    requires
        dim > 0,
        0 <= id < vectors.len() / dim,
    ensures
        search::has_vector(vectors, dim as int, id),
{
    let n = vectors.len() / dim;
    vstd::arithmetic::div_mod::lemma_fundamental_div_mod(vectors.len() as int, dim as int);
    assert(n * dim <= vectors.len()) by (nonlinear_arith)
        requires
            vectors.len() == dim * n + vectors.len() as int % dim as int,
            0 <= vectors.len() as int % dim as int,
    ;
    search::lemma_covered(vectors, dim, n, id);
}

proof fn lemma_all_known<K: DistanceKernel>(score: &VectorScore<K>, n: nat)
    requires
        score.dim > 0,
        n == score.vectors@.len() / score.dim as nat,
        score.query@.len() == score.dim,
    ensures
        forall|id: u32| id < sample_count_of(n) ==> #[trigger] score.known(id),
{
    assert forall|id: u32| id < sample_count_of(n) implies #[trigger] score.known(id) by {
        lemma_has_vector(score.vectors@, score.dim as nat, id as int);
    }
}

} // verus!
