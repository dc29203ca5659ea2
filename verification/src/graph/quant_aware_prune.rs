//! Pruning that weighs the quantization error of an edge against its length.
//!
//! The score of a candidate is `dist / (mu_dist + eps) + beta * error / (mu_error + eps)`, where
//! the two `mu` are the scale of the distances and of the errors of all candidates. The candidates
//! are taken in the order of their scores, and each one that is taken hides those that are
//! occluded by it.
use vstd::prelude::*;
use crate::distance::DistanceKernel;
use crate::distance::single::{F32, ONE_POINT_TWO_BITS, THREE_TENTHS_BITS, TWO_BITS};
use crate::distance::sums;
use crate::distance::sums::sum;
use crate::graph::candidates;
use crate::graph::linear_pool;
use crate::graph::linear_pool::{sort_by_distance, Entry};
use crate::graph::robust_prune;
use crate::graph::search;
use crate::graph::search::vector_slice;

verus! {

/// The pattern of `1e-8`, which keeps a division from having a zero below it.
pub const EPSILON: u32 = 0x322B_CC77;

/// The pattern of `0.05`, the smallest weight that makes a difference.
pub const BETA_MIN: u32 = 0x3D4C_CCCD;

/// The pattern of `2.0`, the greatest weight that makes sense.
pub const BETA_MAX: u32 = 0x4000_0000;

/// The pattern of negative infinity.
pub const NEGATIVE_INFINITY: u32 = 0xFF80_0000;

/// How the scale of distances and errors is measured.
#[derive(Debug, Clone, Copy, PartialEq, Eq, Structural)]
pub enum NormalizationScheme {
    /// The mean.
    Mean,
    /// The standard deviation.
    StdDev,
    /// The median of the absolute deviations from the median.
    Mad,
    /// The logarithm of the mean of exponentials.
    LogSumExp,
}

impl Default for NormalizationScheme {
    fn default() -> (s: Self)
        ensures
            s == NormalizationScheme::Mean,
    {
        NormalizationScheme::Mean
    }
}

/// The settings of the pruning.
#[derive(Debug, Clone, Copy)]
pub struct QuantAwarePruneConfig {
    /// The occlusion threshold.
    pub alpha: F32,
    /// The weight of the error.
    pub beta: F32,
    /// What is added to every divisor.
    pub epsilon: F32,
    /// How many neighbours are kept at most.
    pub r_max: usize,
    /// How the scale is measured.
    pub normalization: NormalizationScheme,
}

impl Default for QuantAwarePruneConfig {
    fn default() -> (c: Self)
        ensures
            c == (QuantAwarePruneConfig {
                alpha: F32(ONE_POINT_TWO_BITS),
                beta: F32(THREE_TENTHS_BITS),
                epsilon: F32(EPSILON),
                r_max: 64,
                normalization: NormalizationScheme::Mean,
            }),
    {
        QuantAwarePruneConfig {
            alpha: F32(ONE_POINT_TWO_BITS),
            beta: F32(THREE_TENTHS_BITS),
            epsilon: F32(EPSILON),
            r_max: 64,
            normalization: NormalizationScheme::Mean,
        }
    }
}

/// The quantization error of an edge.
pub trait ErrorFn {
    /// Whether the edge has an error.
    spec fn known(&self, u: u32, v: u32) -> bool;

    /// The error of the edge.
    spec fn error_of(&self, u: u32, v: u32) -> F32;

    /// The error of the edge.
    fn error(&self, u: u32, v: u32) -> (e: F32)
        requires
            self.known(u, v),
        ensures
            e == self.error_of(u, v),
    ;
}

/// The error of an edge as the mean of the errors of its two ends.
pub struct NodeErrors<'a> {
    /// The error of each node.
    pub errors: &'a [F32],
}

impl<'a> ErrorFn for NodeErrors<'a> {
    open spec fn known(&self, u: u32, v: u32) -> bool {
        u < self.errors@.len() && v < self.errors@.len()
    }

    open spec fn error_of(&self, u: u32, v: u32) -> F32 {
        self.errors@[u as int].plus(self.errors@[v as int]).over(F32(TWO_BITS))
    }

    fn error(&self, u: u32, v: u32) -> (e: F32) {
        self.errors[u as usize].add(self.errors[v as usize]).div(F32(TWO_BITS))
    }
}

/// The mean of a list.
pub open spec fn mean_of(values: Seq<F32>) -> F32 {
    sums::total(values).over(F32::of_int(values.len()))
}

/// The squared deviations from a value.
pub open spec fn squared_deviations(values: Seq<F32>, center: F32) -> Seq<F32> {
    Seq::new(
        values.len(),
        |i: int| values[i].less(center).times(values[i].less(center)),
    )
}

/// The absolute deviations from a value.
pub open spec fn absolute_deviations(values: Seq<F32>, center: F32) -> Seq<F32> {
    Seq::new(values.len(), |i: int| values[i].less(center).absolute())
}

/// The standard deviation of a list.
pub open spec fn deviation_of(values: Seq<F32>) -> F32 {
    mean_of(squared_deviations(values, mean_of(values))).root()
}

/// A list of numbers as entries to sort.
pub open spec fn as_entries(values: Seq<F32>) -> Seq<Entry> {
    Seq::new(values.len(), |i: int| (0u32, values[i]))
}

/// The middle of the sorted list, or the mean of the two middle ones.
pub open spec fn median_of(values: Seq<F32>) -> F32 {
    let s = linear_pool::in_order(as_entries(values));
    let mid = values.len() as int / 2;
    if values.len() == 0 {
        F32(0)
    } else if values.len() % 2 == 0 {
        s[mid - 1].1.plus(s[mid].1).over(F32(TWO_BITS))
    } else {
        s[mid].1
    }
}

/// The median of the absolute deviations from the median.
pub open spec fn mad_of(values: Seq<F32>) -> F32 {
    median_of(absolute_deviations(values, median_of(values)))
}

/// The exponential function and the natural logarithm. How they round differs between machines, so
/// they are handed in.
pub struct Exponentials<X: Fn(F32) -> F32, L: Fn(F32) -> F32> {
    /// The exponential function.
    pub exp: X,
    /// The natural logarithm.
    pub ln: L,
}

/// The function takes every number and has one value at each.
pub open spec fn is_function<F: Fn(F32) -> F32>(f: F) -> bool {
    &&& forall|x: F32| #[trigger] call_requires(f, (x,))
    &&& forall|x: F32, a: F32, b: F32|
        #![trigger call_ensures(f, (x,), a), call_ensures(f, (x,), b)]
        call_ensures(f, (x,), a) && call_ensures(f, (x,), b) ==> a == b
}

/// The value of a function.
pub open spec fn value_at<F: Fn(F32) -> F32>(f: F, x: F32) -> F32 {
    choose|y: F32| #[trigger] call_ensures(f, (x,), y)
}

/// Calls a function.
fn apply<F: Fn(F32) -> F32>(f: &F, x: F32) -> (y: F32)
    requires
        is_function(*f),
    ensures
        y == value_at(*f, x),
{
    let y = f(x);
    assert(call_ensures(*f, (x,), y));
    assert(call_ensures(*f, (x,), value_at(*f, x)));
    y
}

/// The greatest of a list; negative infinity where there is none.
pub open spec fn greatest(values: Seq<F32>) -> F32
    decreases values.len(),
{
    if values.len() == 0 {
        F32(NEGATIVE_INFINITY)
    } else {
        greatest(values.drop_last()).greater(values.last())
    }
}

impl<X: Fn(F32) -> F32, L: Fn(F32) -> F32> Exponentials<X, L> {
    /// Both are functions.
    pub open spec fn usable(&self) -> bool {
        is_function(self.exp) && is_function(self.ln)
    }

    /// The exponentials of how far each is from the greatest.
    pub open spec fn powers(&self, values: Seq<F32>) -> Seq<F32> {
        Seq::new(
            values.len(),
            |i: int| value_at(self.exp, values[i].less(greatest(values))),
        )
    }

    /// The logarithm of the mean of the exponentials of a list. The greatest is taken out of the
    /// mean, so that no exponential is above one.
    pub open spec fn log_sum_exp(&self, values: Seq<F32>) -> F32 {
        greatest(values).plus(value_at(self.ln, mean_of(self.powers(values))))
    }

    /// The scale of a list.
    pub open spec fn scale_of(&self, values: Seq<F32>, scheme: NormalizationScheme) -> F32 {
        if values.len() == 0 {
            F32(EPSILON)
        } else {
            match scheme {
                NormalizationScheme::Mean => mean_of(values),
                NormalizationScheme::StdDev => deviation_of(values).greater(F32(EPSILON)),
                NormalizationScheme::Mad => mad_of(values).greater(F32(EPSILON)),
                NormalizationScheme::LogSumExp => self.log_sum_exp(values).greater(F32(EPSILON)),
            }
        }
    }
}

/// The logarithm of the mean of the exponentials of a list.
fn log_mean_exp<X: Fn(F32) -> F32, L: Fn(F32) -> F32>(
    values: &Vec<F32>,
    exponentials: &Exponentials<X, L>,
) -> (m: F32)
    requires
        exponentials.usable(),
    ensures
        m == exponentials.log_sum_exp(values@),
{
    let mut top = F32(NEGATIVE_INFINITY);
    let mut i: usize = 0;
    while i < values.len()
        invariant
            i <= values@.len(),
            top == greatest(values@.take(i as int)),
        decreases values@.len() - i,
    {
        top = top.max(values[i]);
        assert(values@.take(i + 1).drop_last() =~= values@.take(i as int));
        i += 1;
    }
    assert(values@.take(i as int) =~= values@);
    let ghost all = exponentials.powers(values@);
    let mut powers: Vec<F32> = Vec::with_capacity(values.len());
    let mut j: usize = 0;
    while j < values.len()
        invariant
            j <= values@.len(),
            exponentials.usable(),
            top == greatest(values@),
            all == exponentials.powers(values@),
            powers@ == all.take(j as int),
        decreases values@.len() - j,
    {
        powers.push(apply(&exponentials.exp, values[j].sub(top)));
        j += 1;
        assert(powers@ =~= all.take(j as int));
    }
    assert(powers@ =~= all);
    top.add(apply(&exponentials.ln, mean(&powers)))
}

fn mean(values: &Vec<F32>) -> (m: F32)
    ensures
        m == mean_of(values@),
{
    sum(values).div(F32::from_usize(values.len()))
}

fn median(values: &Vec<F32>) -> (m: F32)
    ensures
        m == median_of(values@),
{
    let n: usize = values.len();
    if n == 0 {
        return F32(0);
    }
    let mut entries: Vec<(u32, F32)> = Vec::with_capacity(n);
    let mut i: usize = 0;
    while i < n
        invariant
            i <= n,
            n == values@.len(),
            entries@ == as_entries(values@).take(i as int),
        decreases n - i,
    {
        entries.push((0, values[i]));
        i += 1;
        assert(entries@ =~= as_entries(values@).take(i as int));
    }
    assert(entries@ =~= as_entries(values@));
    let s = sort_by_distance(entries.as_slice());
    let mid: usize = n / 2;
    if n % 2 == 0 {
        s[mid - 1].1.add(s[mid].1).div(F32(TWO_BITS))
    } else {
        s[mid].1
    }
}

/// The scale of the distances or errors of all candidates.
pub fn compute_normalization<X: Fn(F32) -> F32, L: Fn(F32) -> F32>(
    values: &Vec<F32>,
    scheme: NormalizationScheme,
    exponentials: &Exponentials<X, L>,
) -> (s: F32)
    requires
        exponentials.usable(),
    ensures
        s == exponentials.scale_of(values@, scheme),
{
    if values.len() == 0 {
        return F32(EPSILON);
    }
    match scheme {
        NormalizationScheme::Mean => mean(values),
        NormalizationScheme::StdDev => {
            let m = mean(values);
            let mut squares: Vec<F32> = Vec::with_capacity(values.len());
            let mut i: usize = 0;
            while i < values.len()
                invariant
                    i <= values@.len(),
                    squares@ == squared_deviations(values@, m).take(i as int),
                decreases values@.len() - i,
            {
                let d = values[i].sub(m);
                squares.push(d.mul(d));
                i += 1;
                assert(squares@ =~= squared_deviations(values@, m).take(i as int));
            }
            assert(squares@ =~= squared_deviations(values@, m));
            mean(&squares).sqrt().max(F32(EPSILON))
        },
        NormalizationScheme::Mad => {
            let m = median(values);
            let mut devs: Vec<F32> = Vec::with_capacity(values.len());
            let mut i: usize = 0;
            while i < values.len()
                invariant
                    i <= values@.len(),
                    devs@ == absolute_deviations(values@, m).take(i as int),
                decreases values@.len() - i,
            {
                devs.push(values[i].sub(m).abs());
                i += 1;
                assert(devs@ =~= absolute_deviations(values@, m).take(i as int));
            }
            assert(devs@ =~= absolute_deviations(values@, m));
            median(&devs).max(F32(EPSILON))
        },
        NormalizationScheme::LogSumExp => {
            log_mean_exp(values, exponentials).max(F32(EPSILON))
        },
    }
}

/// The candidates other than the node, as they stand.
pub open spec fn others(list: Seq<u32>, node: u32) -> Seq<u32>
    decreases list.len(),
{
    if list.len() == 0 {
        Seq::empty()
    } else if list.last() == node {
        others(list.drop_last(), node)
    } else {
        others(list.drop_last(), node).push(list.last())
    }
}

/// What the pruning looks at.
pub struct QuantSpace {
    /// The distance of a candidate to the node.
    pub dist: spec_fn(u32) -> F32,
    /// The error of the edge to a candidate.
    pub error: spec_fn(u32) -> F32,
    /// The distance between two candidates.
    pub pair: spec_fn(u32, u32) -> F32,
}

impl QuantSpace {
    /// The score of a candidate.
    pub open spec fn score(
        self,
        c: u32,
        mu_dist: F32,
        mu_error: F32,
        config: QuantAwarePruneConfig,
    ) -> F32 {
        (self.dist)(c).over(mu_dist.plus(config.epsilon)).plus(
            config.beta.times((self.error)(c)).over(mu_error.plus(config.epsilon)),
        )
    }

    /// The candidates with their scores.
    pub open spec fn scores(
        self,
        list: Seq<u32>,
        mu_dist: F32,
        mu_error: F32,
        config: QuantAwarePruneConfig,
    ) -> Seq<Entry> {
        Seq::new(
            list.len(),
            |i: int| (list[i], self.score(list[i], mu_dist, mu_error, config)),
        )
    }

    /// A taken candidate hides `c`: `alpha` times its distance to `c` is at most the distance of
    /// `c` to the node.
    pub open spec fn hidden(self, ranked: Seq<Entry>, taken: Seq<int>, i: int, alpha: F32) -> bool {
        exists|k: int|
            0 <= k < taken.len() && alpha.times(
                (self.pair)(ranked[#[trigger] taken[k]].0, ranked[i].0),
            ).at_most((self.dist)(ranked[i].0))
    }

    /// The places of the candidates that are taken among the first `i`.
    pub open spec fn taken(self, ranked: Seq<Entry>, i: int, alpha: F32, r_max: nat) -> Seq<int>
        decreases i,
    {
        if i <= 0 {
            Seq::empty()
        } else {
            let before = self.taken(ranked, i - 1, alpha, r_max);
            if before.len() >= r_max || self.hidden(ranked, before, i - 1, alpha) {
                before
            } else {
                before.push(i - 1)
            }
        }
    }

    /// What the pruning keeps.
    pub open spec fn kept(
        self,
        list: Seq<u32>,
        mu_dist: F32,
        mu_error: F32,
        config: QuantAwarePruneConfig,
    ) -> Seq<u32> {
        let ranked = linear_pool::in_order(self.scores(list, mu_dist, mu_error, config));
        let places = self.taken(
            ranked,
            ranked.len() as int,
            config.alpha,
            config.r_max as nat,
        );
        Seq::new(places.len(), |i: int| ranked[places[i]].0)
    }
}

/// What a pruning of a node's candidates looks at.
pub open spec fn quant_space<K: DistanceKernel, E: ErrorFn>(
    kernel: &K,
    vectors: Seq<F32>,
    dim: int,
    node: u32,
    errors: &E,
) -> QuantSpace {
    QuantSpace {
        dist: candidates::distances_to(kernel, vectors, dim, node),
        error: |c: u32| errors.error_of(node, c),
        pair: robust_prune::pair_distances(kernel, vectors, dim),
    }
}

/// The distances and the errors of the candidates.
pub open spec fn measures(list: Seq<u32>, of: spec_fn(u32) -> F32) -> Seq<F32> {
    Seq::new(list.len(), |i: int| of(list[i]))
}

/// Every candidate has a vector and an error.
pub open spec fn quant_valid<E: ErrorFn>(
    vectors: Seq<F32>,
    dim: int,
    node: u32,
    list: Seq<u32>,
    errors: &E,
) -> bool {
    &&& node <= usize::MAX
    &&& search::has_vector(vectors, dim, node as int)
    &&& forall|i: int|
        0 <= i < list.len() ==> search::has_vector(vectors, dim, (#[trigger] list[i]) as int)
            && list[i] <= usize::MAX && errors.known(node, list[i])
}

/// The pruning that weighs errors.
pub struct QuantAwareRobustPrune;

impl QuantAwareRobustPrune {
    /// The neighbours to keep of a node's candidates, with the scales of distances and errors
    /// measured by the configured scheme.
    pub fn prune<K: DistanceKernel, E: ErrorFn, X: Fn(F32) -> F32, L: Fn(F32) -> F32>(
        kernel: &K,
        candidates: &[u32],
        query_node: u32,
        vectors: &[F32],
        dim: usize,
        error_fn: &E,
        exponentials: &Exponentials<X, L>,
        config: &QuantAwarePruneConfig,
    ) -> (result: Vec<u32>)
        requires
            quant_valid(vectors@, dim as int, query_node, candidates@, error_fn),
            exponentials.usable(),
        ensures
            ({
                let space = quant_space(kernel, vectors@, dim as int, query_node, error_fn);
                let list = others(candidates@, query_node);
                result@ == space.kept(
                    list,
                    exponentials.scale_of(measures(list, space.dist), config.normalization),
                    exponentials.scale_of(measures(list, space.error), config.normalization),
                    *config,
                )
            }),
    {
        let list = without_node(candidates, query_node);
        let ghost space = quant_space(kernel, vectors@, dim as int, query_node, error_fn);
        proof {
            lemma_others(candidates@, query_node);
        }
        let query = vector_slice(vectors, dim, query_node);
        let mut dists: Vec<F32> = Vec::with_capacity(list.len());
        let mut errors: Vec<F32> = Vec::with_capacity(list.len());
        let mut i: usize = 0;
        while i < list.len()
            invariant
                i <= list@.len(),
                list@ == others(candidates@, query_node),
                forall|k: int|
                    0 <= k < list@.len() ==> candidates@.contains(#[trigger] list@[k]),
                quant_valid(vectors@, dim as int, query_node, candidates@, error_fn),
                space == quant_space(kernel, vectors@, dim as int, query_node, error_fn),
                query@ == search::vector_of(vectors@, dim as int, query_node as int),
                query@.len() == dim,
                dists@ == measures(list@, space.dist).take(i as int),
                errors@ == measures(list@, space.error).take(i as int),
            decreases list@.len() - i,
        {
            let c: u32 = list[i];
            proof {
                assert(candidates@.contains(list@[i as int]));
                let j = choose|j: int| 0 <= j < candidates@.len() && candidates@[j] == c;
                assert(search::has_vector(vectors@, dim as int, candidates@[j] as int));
            }
            dists.push(kernel.distance(query, vector_slice(vectors, dim, c)));
            errors.push(error_fn.error(query_node, c));
            i += 1;
            assert(dists@ =~= measures(list@, space.dist).take(i as int));
            assert(errors@ =~= measures(list@, space.error).take(i as int));
        }
        assert(dists@ =~= measures(list@, space.dist));
        assert(errors@ =~= measures(list@, space.error));
        let mu_dist = compute_normalization(&dists, config.normalization, exponentials);
        let mu_error = compute_normalization(&errors, config.normalization, exponentials);
        QuantAwareRobustPrune::prune_scaled(
            kernel,
            candidates,
            query_node,
            vectors,
            dim,
            error_fn,
            mu_dist,
            mu_error,
            config,
        )
    }

    /// The neighbours to keep of a node's candidates, for given scales of distances and errors.
    pub fn prune_scaled<K: DistanceKernel, E: ErrorFn>(
        kernel: &K,
        candidates: &[u32],
        query_node: u32,
        vectors: &[F32],
        dim: usize,
        error_fn: &E,
        mu_dist: F32,
        mu_error: F32,
        config: &QuantAwarePruneConfig,
    ) -> (result: Vec<u32>)
        requires
            quant_valid(vectors@, dim as int, query_node, candidates@, error_fn),
        ensures
            result@ == quant_space(
                kernel,
                vectors@,
                dim as int,
                query_node,
                error_fn,
            ).kept(others(candidates@, query_node), mu_dist, mu_error, *config),
    {
        let list = without_node(candidates, query_node);
        let ghost space = quant_space(kernel, vectors@, dim as int, query_node, error_fn);
        proof {
            lemma_others(candidates@, query_node);
        }
        let query = vector_slice(vectors, dim, query_node);
        let scale_dist = mu_dist.add(config.epsilon);
        let scale_error = mu_error.add(config.epsilon);
        let mut scored: Vec<(u32, F32)> = Vec::with_capacity(list.len());
        let mut i: usize = 0;
        while i < list.len()
            invariant
                i <= list@.len(),
                forall|k: int|
                    0 <= k < list@.len() ==> candidates@.contains(#[trigger] list@[k]),
                quant_valid(vectors@, dim as int, query_node, candidates@, error_fn),
                space == quant_space(kernel, vectors@, dim as int, query_node, error_fn),
                query@ == search::vector_of(vectors@, dim as int, query_node as int),
                query@.len() == dim,
                scale_dist == mu_dist.plus(config.epsilon),
                scale_error == mu_error.plus(config.epsilon),
                scored@ == space.scores(list@, mu_dist, mu_error, *config).take(i as int),
            decreases list@.len() - i,
        {
            let c: u32 = list[i];
            proof {
                assert(candidates@.contains(list@[i as int]));
                let j = choose|j: int| 0 <= j < candidates@.len() && candidates@[j] == c;
                assert(search::has_vector(vectors@, dim as int, candidates@[j] as int));
            }
            let d = kernel.distance(query, vector_slice(vectors, dim, c));
            let e = error_fn.error(query_node, c);
            let score = d.div(scale_dist).add(config.beta.mul(e).div(scale_error));
            scored.push((c, score));
            i += 1;
            assert(scored@ =~= space.scores(list@, mu_dist, mu_error, *config).take(i as int));
        }
        assert(scored@ =~= space.scores(list@, mu_dist, mu_error, *config));
        let ranked = sort_by_distance(scored.as_slice());
        proof {
            assert forall|k: int| 0 <= k < scored@.len() implies candidates@.contains(
                (#[trigger] scored@[k]).0,
            ) by {
                assert(candidates@.contains(list@[k]));
            }
            lemma_in_order_members(scored@, candidates@);
        }
        take_visible(kernel, candidates, query_node, vectors, dim, error_fn, &ranked, config)
    }
}

/// Takes the ranked candidates one after the other, leaving out those that a taken one hides.
fn take_visible<K: DistanceKernel, E: ErrorFn>(
    kernel: &K,
    candidates: &[u32],
    query_node: u32,
    vectors: &[F32],
    dim: usize,
    error_fn: &E,
    ranked: &Vec<(u32, F32)>,
    config: &QuantAwarePruneConfig,
) -> (result: Vec<u32>)
    requires
        quant_valid(vectors@, dim as int, query_node, candidates@, error_fn),
        forall|k: int| 0 <= k < ranked@.len() ==> candidates@.contains((#[trigger] ranked@[k]).0),
    ensures
        ({
            let space = quant_space(kernel, vectors@, dim as int, query_node, error_fn);
            let places = space.taken(
                ranked@,
                ranked@.len() as int,
                config.alpha,
                config.r_max as nat,
            );
            result@ == Seq::new(places.len(), |i: int| ranked@[places[i]].0)
        }),
{
    let ghost space = quant_space(kernel, vectors@, dim as int, query_node, error_fn);
    let query = vector_slice(vectors, dim, query_node);
    let mut result: Vec<u32> = Vec::new();
    let ghost mut places: Seq<int> = Seq::empty();
    let mut i: usize = 0;
    while i < ranked.len()
        invariant
            i <= ranked@.len(),
            quant_valid(vectors@, dim as int, query_node, candidates@, error_fn),
            forall|k: int|
                0 <= k < ranked@.len() ==> candidates@.contains((#[trigger] ranked@[k]).0),
            space == quant_space(kernel, vectors@, dim as int, query_node, error_fn),
            query@ == search::vector_of(vectors@, dim as int, query_node as int),
            query@.len() == dim,
            places == space.taken(ranked@, i as int, config.alpha, config.r_max as nat),
            forall|k: int| 0 <= k < places.len() ==> 0 <= (#[trigger] places[k]) < i,
            result@ == Seq::new(places.len(), |k: int| ranked@[places[k]].0),
        decreases ranked@.len() - i,
    {
        let c: u32 = ranked[i].0;
        proof {
            lemma_member(vectors@, dim as int, query_node, candidates@, error_fn, c);
        }
        let cv = vector_slice(vectors, dim, c);
        let d = kernel.distance(query, cv);
        let mut hidden: bool = false;
        let mut k: usize = 0;
        while k < result.len()
            invariant
                k <= result@.len(),
                i < ranked@.len(),
                c == ranked@[i as int].0,
                quant_valid(vectors@, dim as int, query_node, candidates@, error_fn),
                forall|m: int|
                    0 <= m < ranked@.len() ==> candidates@.contains((#[trigger] ranked@[m]).0),
                space == quant_space(kernel, vectors@, dim as int, query_node, error_fn),
                cv@ == search::vector_of(vectors@, dim as int, c as int),
                cv@.len() == dim,
                d == (space.dist)(c),
                forall|m: int| 0 <= m < places.len() ==> 0 <= (#[trigger] places[m]) < i,
                result@ == Seq::new(places.len(), |m: int| ranked@[places[m]].0),
                hidden == exists|m: int|
                    0 <= m < k && config.alpha.times(
                        (space.pair)(ranked@[#[trigger] places[m]].0, c),
                    ).at_most(d),
            decreases result@.len() - k,
        {
            let p: u32 = result[k];
            proof {
                assert(ranked@[places[k as int]].0 == p);
                lemma_member(vectors@, dim as int, query_node, candidates@, error_fn, p);
            }
            let between = kernel.distance(vector_slice(vectors, dim, p), cv);
            if config.alpha.mul(between).le(d) {
                hidden = true;
            }
            k += 1;
        }
        assert(hidden == space.hidden(ranked@, places, i as int, config.alpha));
        if result.len() < config.r_max && !hidden {
            result.push(c);
            proof {
                places = places.push(i as int);
            }
            assert(result@ =~= Seq::new(places.len(), |m: int| ranked@[places[m]].0));
        }
        i += 1;
    }
    result
}

proof fn lemma_member<E: ErrorFn>(
    vectors: Seq<F32>,
    dim: int,
    node: u32,
    list: Seq<u32>,
    errors: &E,
    c: u32,
)
    requires
        quant_valid(vectors, dim, node, list, errors),
        list.contains(c),
    ensures
        search::has_vector(vectors, dim, c as int),
        c <= usize::MAX,
        errors.known(node, c),
{
    let j = choose|j: int| 0 <= j < list.len() && list[j] == c;
    assert(search::has_vector(vectors, dim, list[j] as int));
}

fn without_node(list: &[u32], node: u32) -> (out: Vec<u32>)
    ensures
        out@ == others(list@, node),
{
    let mut out: Vec<u32> = Vec::new();
    let mut i: usize = 0;
    assert(others(list@.take(0), node) =~= Seq::<u32>::empty());
    while i < list.len()
        invariant
            i <= list@.len(),
            out@ == others(list@.take(i as int), node),
        decreases list@.len() - i,
    {
        assert(list@.take(i + 1).drop_last() =~= list@.take(i as int));
        if list[i] != node {
            out.push(list[i]);
        }
        i += 1;
    }
    assert(list@.take(i as int) =~= list@);
    out
}

/// The others are members of the list, and none is the node.
pub proof fn lemma_others(list: Seq<u32>, node: u32)
    ensures
        forall|k: int|
            0 <= k < others(list, node).len() ==> list.contains(#[trigger] others(list, node)[k])
                && others(list, node)[k] != node,
    decreases list.len(),
{
    if list.len() > 0 {
        let short = list.drop_last();
        lemma_others(short, node);
        assert forall|k: int| 0 <= k < others(list, node).len() implies list.contains(
            #[trigger] others(list, node)[k],
        ) && others(list, node)[k] != node by {
            if k < others(short, node).len() {
                let x = others(short, node)[k];
                assert(short.contains(x));
                let j = choose|j: int| 0 <= j < short.len() && short[j] == x;
                assert(list[j] == x);
            } else {
                assert(list[list.len() - 1] == list.last());
            }
        }
    }
}

/// Leaving out the node makes none occur twice.
pub proof fn lemma_others_distinct(list: Seq<u32>, node: u32)
    requires
        list.no_duplicates(),
    ensures
        others(list, node).no_duplicates(),
    decreases list.len(),
{
    if list.len() > 0 {
        let short = list.drop_last();
        lemma_others_distinct(short, node);
        lemma_others(short, node);
        let out = others(list, node);
        assert forall|a: int, b: int|
            0 <= a < out.len() && 0 <= b < out.len() && a != b implies out[a] != out[b] by {
            let before = others(short, node);
            if a < before.len() && b == before.len() {
                let j = choose|j: int| 0 <= j < short.len() && short[j] == before[a];
                assert(short.contains(before[a]));
                assert(list[j] != list[list.len() - 1]);
            } else if b < before.len() && a == before.len() {
                let j = choose|j: int| 0 <= j < short.len() && short[j] == before[b];
                assert(short.contains(before[b]));
                assert(list[j] != list[list.len() - 1]);
            }
        }
    }
}

/// Sorting brings in nothing new.
pub proof fn lemma_in_order_members(list: Seq<Entry>, members: Seq<u32>)
    requires
        forall|k: int| 0 <= k < list.len() ==> members.contains((#[trigger] list[k]).0),
    ensures
        forall|k: int|
            0 <= k < linear_pool::in_order(list).len() ==> members.contains(
                (#[trigger] linear_pool::in_order(list)[k]).0,
            ),
        linear_pool::in_order(list).len() == list.len(),
    decreases list.len(),
{
    if list.len() > 0 {
        let short = list.drop_last();
        assert forall|k: int| 0 <= k < short.len() implies members.contains(
            (#[trigger] short[k]).0,
        ) by {
            assert(members.contains(list[k].0));
        }
        lemma_in_order_members(short, members);
        let before = linear_pool::in_order(short);
        let e = list.last();
        search::lemma_search_pos_range(before, e.1, 0, before.len() as int);
        let p = linear_pool::insert_pos(before, e.1);
        let all = linear_pool::in_order(list);
        assert forall|k: int| 0 <= k < all.len() implies members.contains(
            (#[trigger] all[k]).0,
        ) by {
            if k < p {
                assert(all[k] == before[k]);
            } else if k > p {
                assert(all[k] == before[k - 1]);
            } else {
                assert(members.contains(list[list.len() - 1].0));
            }
        }
    }
}

/// No id occurs twice.
pub open spec fn ids_distinct(list: Seq<Entry>) -> bool {
    forall|i: int, j: int|
        #![trigger list[i], list[j]]
        0 <= i < j < list.len() ==> list[i].0 != list[j].0
}

/// Sorting makes no id occur twice.
proof fn lemma_in_order_distinct(list: Seq<Entry>)
    requires
        ids_distinct(list),
    ensures
        ids_distinct(linear_pool::in_order(list)),
    decreases list.len(),
{
    if list.len() > 0 {
        let short = list.drop_last();
        let e = list.last();
        assert(ids_distinct(short)) by {
            assert forall|i: int, j: int|
                #![trigger short[i], short[j]]
                0 <= i < j < short.len() implies short[i].0 != short[j].0 by {
                assert(list[i].0 != list[j].0);
            }
        }
        lemma_in_order_distinct(short);
        let before = linear_pool::in_order(short);
        let members = Seq::new(short.len(), |i: int| short[i].0);
        assert forall|k: int| 0 <= k < short.len() implies members.contains(
            (#[trigger] short[k]).0,
        ) by {
            assert(members[k] == short[k].0);
        }
        lemma_in_order_members(short, members);
        assert forall|k: int| 0 <= k < before.len() implies (#[trigger] before[k]).0 != e.0 by {
            assert(members.contains(before[k].0));
            let j = choose|j: int| 0 <= j < members.len() && members[j] == before[k].0;
            assert(list[j].0 != list[list.len() - 1].0);
        }
        search::lemma_search_pos_range(before, e.1, 0, before.len() as int);
        let p = linear_pool::insert_pos(before, e.1);
        let all = linear_pool::in_order(list);
        assert forall|i: int, j: int|
            #![trigger all[i], all[j]]
            0 <= i < j < all.len() implies all[i].0 != all[j].0 by {
            let a = if i < p {
                i
            } else {
                i - 1
            };
            let b = if j < p {
                j
            } else {
                j - 1
            };
            if i == p {
                assert(all[j] == before[b]);
            } else if j == p {
                assert(all[i] == before[a]);
            } else {
                assert(all[i] == before[a] && all[j] == before[b]);
            }
        }
    }
}

proof fn lemma_taken(space: QuantSpace, ranked: Seq<Entry>, i: int, alpha: F32, r_max: nat)
    requires
        0 <= i <= ranked.len(),
    ensures
        ({
            let t = space.taken(ranked, i, alpha, r_max);
            &&& t.len() <= r_max
            &&& forall|k: int| 0 <= k < t.len() ==> 0 <= (#[trigger] t[k]) < i
            &&& forall|a: int, b: int|
                #![trigger t[a], t[b]]
                0 <= a < b < t.len() ==> t[a] < t[b]
            &&& i >= 1 && r_max >= 1 ==> t.len() >= 1 && t[0] == 0
        }),
    decreases i,
{
    if i > 0 {
        lemma_taken(space, ranked, i - 1, alpha, r_max);
    }
}

/// What the pruning keeps are candidates other than the node, at most `r_max` of them, none twice
/// where no candidate occurs twice. The candidate with the best score is kept, first, as long as
/// one may be kept at all.
pub proof fn law_quant_prune_keeps_candidates(
    space: QuantSpace,
    list: Seq<u32>,
    node: u32,
    mu_dist: F32,
    mu_error: F32,
    config: QuantAwarePruneConfig,
)
    ensures
        ({
            let rest = others(list, node);
            let kept = space.kept(rest, mu_dist, mu_error, config);
            let ranked = linear_pool::in_order(space.scores(rest, mu_dist, mu_error, config));
            &&& kept.len() <= config.r_max
            &&& forall|i: int|
                0 <= i < kept.len() ==> list.contains(#[trigger] kept[i]) && kept[i] != node
            &&& rest.no_duplicates() ==> kept.no_duplicates()
            &&& rest.len() >= 1 && config.r_max >= 1 ==> kept.len() >= 1 && kept[0] == ranked[0].0
        }),
{
    let rest = others(list, node);
    let entries = space.scores(rest, mu_dist, mu_error, config);
    let ranked = linear_pool::in_order(entries);
    lemma_others(list, node);
    assert forall|k: int| 0 <= k < entries.len() implies rest.contains(
        (#[trigger] entries[k]).0,
    ) by {
        assert(rest[k] == entries[k].0);
    }
    lemma_in_order_members(entries, rest);
    lemma_taken(space, ranked, ranked.len() as int, config.alpha, config.r_max as nat);
    let kept = space.kept(rest, mu_dist, mu_error, config);
    let t = space.taken(ranked, ranked.len() as int, config.alpha, config.r_max as nat);
    assert forall|i: int| 0 <= i < kept.len() implies list.contains(#[trigger] kept[i]) && kept[i]
        != node by {
        assert(rest.contains(ranked[t[i]].0));
        let j = choose|j: int| 0 <= j < rest.len() && rest[j] == ranked[t[i]].0;
        assert(list.contains(rest[j]));
    }
    if rest.no_duplicates() {
        assert(ids_distinct(entries)) by {
            assert forall|i: int, j: int|
                #![trigger entries[i], entries[j]]
                0 <= i < j < entries.len() implies entries[i].0 != entries[j].0 by {
                assert(rest[i] != rest[j]);
            }
        }
        lemma_in_order_distinct(entries);
        assert forall|a: int, b: int|
            0 <= a < kept.len() && 0 <= b < kept.len() && a != b implies kept[a] != kept[b] by {
            if a < b {
                assert(ranked[t[a]].0 != ranked[t[b]].0);
            } else {
                assert(ranked[t[b]].0 != ranked[t[a]].0);
            }
        }
    }
}

} // verus!
