//! The random numbers of a build: ChaCha8, so that one seed gives one index on every machine.
use vstd::prelude::*;
use vstd::arithmetic::power2;
pub use rand_chacha::ChaCha8Rng as InnerRng;
use rand::{Rng, RngCore, SeedableRng};
use rand::seq::SliceRandom;
use crate::distance::exact_laws;
use crate::distance::number_laws;
use crate::distance::single::F32;

verus! {

/// The generator of the `rand_chacha` crate.
#[verifier::external_type_specification]
#[verifier::external_body]
pub struct ExInnerRng(InnerRng);

/// What was asked of a generator.
pub enum Draw {
    /// A 32-bit number.
    U32,
    /// A 64-bit number.
    U64,
    /// A number below a bound.
    Below {
        /// The bound.
        bound: u32,
    },
    /// A 64-bit number below a bound.
    Below64 {
        /// The bound.
        bound: u64,
    },
    /// A list in another order.
    Shuffle {
        /// The list.
        items: Seq<u32>,
    },
    /// A list of which some items are put in another order.
    PartialShuffle {
        /// The list.
        items: Seq<u32>,
        /// How many items.
        amount: nat,
    },
    /// Some of the numbers below a length.
    Sample {
        /// The length.
        length: nat,
        /// How many numbers.
        amount: nat,
    },
    /// One item of a list.
    Choose {
        /// The list.
        items: Seq<usize>,
    },
}

/// A generator as the seed it started from and what was asked of it since, first to last. The two
/// determine everything that it will give.
#[verifier::ext_equal]
pub struct RngView {
    /// The seed.
    pub seed: u64,
    /// What was asked.
    pub draws: Seq<Draw>,
}

impl RngView {
    /// A generator that nothing was asked of.
    pub open spec fn fresh(seed: u64) -> RngView {
        RngView { seed, draws: Seq::empty() }
    }

    /// The generator after one more request.
    pub open spec fn after(self, draw: Draw) -> RngView {
        RngView { seed: self.seed, draws: self.draws.push(draw) }
    }

    /// The next number in `[0, 1)`: the upper 24 bits of the next 32-bit number, times `2^-24`.
    pub open spec fn unit(self) -> F32 {
        F32(UNIT_STEP_BITS).times(F32::of_int((chacha8_u32(self.seed, self.draws) / 256) as nat))
    }
}

/// The pattern of `2^-24`.
pub const UNIT_STEP_BITS: u32 = 0x3380_0000;

/// The next 32-bit number of the generator.
pub uninterp spec fn chacha8_u32(seed: u64, draws: Seq<Draw>) -> u32;

/// The next 64-bit number of the generator.
pub uninterp spec fn chacha8_u64(seed: u64, draws: Seq<Draw>) -> u64;

/// The next number below a bound.
pub uninterp spec fn chacha8_below(seed: u64, draws: Seq<Draw>, bound: u32) -> u32;

/// The next 64-bit number below a bound.
pub uninterp spec fn chacha8_below64(seed: u64, draws: Seq<Draw>, bound: u64) -> u64;

/// A list, shuffled.
pub uninterp spec fn chacha8_shuffle(seed: u64, draws: Seq<Draw>, items: Seq<u32>) -> Seq<u32>;

/// A list, partly shuffled.
pub uninterp spec fn chacha8_partial_shuffle(
    seed: u64,
    draws: Seq<Draw>,
    items: Seq<u32>,
    amount: nat,
) -> Seq<u32>;

/// Some of the numbers below a length.
pub uninterp spec fn chacha8_sample(
    seed: u64,
    draws: Seq<Draw>,
    length: nat,
    amount: nat,
) -> Seq<usize>;

/// One item of a list.
pub uninterp spec fn chacha8_choose(seed: u64, draws: Seq<Draw>, items: Seq<usize>) -> usize;

/// The generator.
pub struct ChaCha8Rng {
    inner: InnerRng,
    state: Ghost<RngView>,
}

impl View for ChaCha8Rng {
    type V = RngView;

    closed spec fn view(&self) -> RngView {
        self.state@
    }
}

impl ChaCha8Rng {
    /// A generator with the given seed. `SeedableRng::seed_from_u64` makes the inner generator from
    /// the seed alone; claimed is that the new generator stands for that seed with nothing asked
    /// of it yet.
    #[verifier::external_body]
    pub fn seed_from(seed: u64) -> (r: Self)
        ensures
            r@ == RngView::fresh(seed),
    {
        ChaCha8Rng {
            inner: InnerRng::seed_from_u64(seed),
            state: Ghost(RngView::fresh(seed)),
        }
    }

    /// A generator with the seed 42.
    pub fn new() -> (r: Self)
        ensures
            r@ == RngView::fresh(42),
    {
        ChaCha8Rng::seed_from(42)
    }

    /// The next 32-bit number, from `RngCore::next_u32`. Claimed: it is a function of the seed and
    /// of what was asked before.
    #[verifier::external_body]
    pub fn next_u32(&mut self) -> (x: u32)
        ensures
            x == chacha8_u32(old(self)@.seed, old(self)@.draws),
            final(self)@ == old(self)@.after(Draw::U32),
    {
        self.inner.next_u32()
    }

    /// The next 64-bit number, from `RngCore::next_u64`. Claimed: it is a function of the seed and
    /// of what was asked before.
    #[verifier::external_body]
    pub fn next_u64(&mut self) -> (x: u64)
        ensures
            x == chacha8_u64(old(self)@.seed, old(self)@.draws),
            final(self)@ == old(self)@.after(Draw::U64),
    {
        self.inner.next_u64()
    }

    /// The next number in `[0, 1)`.
    pub fn next_unit(&mut self) -> (x: F32)
        ensures
            x == old(self)@.unit(),
            final(self)@ == old(self)@.after(Draw::U32),
    {
        let v: u32 = self.next_u32() / 256;
        F32(UNIT_STEP_BITS).mul(F32::from_usize(v as usize))
    }

    /// The next number below `bound`, from `Rng::gen_range`, which panics on an empty range.
    /// Claimed: it is below the bound, and a function of the seed, of what was asked before and of
    /// the bound.
    #[verifier::external_body]
    pub(crate) fn below(&mut self, bound: u32) -> (x: u32)
        requires
            bound > 0,
        ensures
            x < bound,
            x == chacha8_below(old(self)@.seed, old(self)@.draws, bound),
            final(self)@ == old(self)@.after(Draw::Below { bound }),
    {
        self.inner.gen_range(0..bound)
    }

    /// The next 64-bit number below `bound`, from `Rng::gen_range` on 64-bit numbers, which panics on
    /// an empty range. Claimed: it is below the bound, and a function of the seed, of what was
    /// asked before and of the bound.
    #[verifier::external_body]
    pub(crate) fn below64(&mut self, bound: u64) -> (x: u64)
        requires
            bound > 0,
        ensures
            x < bound,
            x == chacha8_below64(old(self)@.seed, old(self)@.draws, bound),
            final(self)@ == old(self)@.after(Draw::Below64 { bound }),
    {
        self.inner.gen_range(0..bound)
    }

    /// Shuffles a list with `SliceRandom::shuffle`. Claimed: the items stay the same, and their
    /// order is a function of the seed, of what was asked before and of the list.
    #[verifier::external_body]
    pub(crate) fn shuffle(&mut self, items: &mut Vec<u32>)
        requires
            old(items)@.len() <= u32::MAX,
        ensures
            final(items)@ == chacha8_shuffle(old(self)@.seed, old(self)@.draws, old(items)@),
            final(items)@.to_multiset() == old(items)@.to_multiset(),
            final(self)@ == old(self)@.after(Draw::Shuffle { items: old(items)@ }),
    {
        items.shuffle(&mut self.inner);
    }

    /// Shuffles `amount` items of a list with `SliceRandom::partial_shuffle`, which puts them at
    /// the end of the list. Claimed: the items stay the same, and their order is a function of the
    /// seed, of what was asked before, of the list and of the amount.
    #[verifier::external_body]
    pub(crate) fn partial_shuffle(&mut self, items: &mut Vec<u32>, amount: usize)
        requires
            old(items)@.len() <= u32::MAX,
        ensures
            final(items)@ == chacha8_partial_shuffle(
                old(self)@.seed,
                old(self)@.draws,
                old(items)@,
                amount as nat,
            ),
            final(items)@.to_multiset() == old(items)@.to_multiset(),
            final(self)@ == old(self)@.after(
                Draw::PartialShuffle { items: old(items)@, amount: amount as nat },
            ),
    {
        items.partial_shuffle(&mut self.inner, amount);
    }

    /// `amount` distinct numbers below `length`, from `rand::seq::index::sample`, which panics
    /// where there are not that many. Claimed: there are `amount` of them, below `length`, none
    /// twice, and they are a function of the seed, of what was asked before and of the two
    /// arguments.
    #[verifier::external_body]
    pub(crate) fn sample(&mut self, length: usize, amount: usize) -> (s: Vec<usize>)
        requires
            amount <= length <= u32::MAX,
        ensures
            s@ == chacha8_sample(
                old(self)@.seed,
                old(self)@.draws,
                length as nat,
                amount as nat,
            ),
            s@.len() == amount,
            s@.no_duplicates(),
            forall|i: int| 0 <= i < s@.len() ==> (#[trigger] s@[i]) < length,
            final(self)@ == old(self)@.after(
                Draw::Sample { length: length as nat, amount: amount as nat },
            ),
    {
        rand::seq::index::sample(&mut self.inner, length, amount).into_vec()
    }

    /// One item of a list, from `SliceRandom::choose`, which gives none of an empty list. Claimed:
    /// it is one of the items, and a function of the seed, of what was asked before and of the
    /// list.
    #[verifier::external_body]
    pub(crate) fn pick(&mut self, items: &Vec<usize>) -> (x: usize)
        requires
            0 < items@.len() <= u32::MAX,
        ensures
            x == chacha8_choose(old(self)@.seed, old(self)@.draws, items@),
            items@.contains(x),
            final(self)@ == old(self)@.after(Draw::Choose { items: items@ }),
    {
        *items.as_slice().choose(&mut self.inner).unwrap()
    }
}

impl Default for ChaCha8Rng {
    fn default() -> (r: Self)
        ensures
            r@ == RngView::fresh(42),
    {
        ChaCha8Rng::new()
    }
}

/// Two generators with the same seed of which the same was asked are the same: whatever is asked
/// next, they give the same.
pub proof fn law_same_seed_same_numbers(a: RngView, b: RngView, bound: u32)
    requires
        a.seed == b.seed,
        a.draws == b.draws,
    ensures
        a == b,
        chacha8_u32(a.seed, a.draws) == chacha8_u32(b.seed, b.draws),
        chacha8_u64(a.seed, a.draws) == chacha8_u64(b.seed, b.draws),
        chacha8_below(a.seed, a.draws, bound) == chacha8_below(b.seed, b.draws, bound),
        a.after(Draw::U32) == b.after(Draw::U32),
{
}

/// A number in `[0, 1)` is the one nearest to the upper 24 bits of the next 32-bit number, divided by
/// `2^24`.
pub proof fn law_units_come_from_the_upper_bits(v: RngView)
    requires
        v.unit().finite(),
    ensures
        number_laws::is_nearest(
            v.unit(),
            power2::pow2(125) * ((chacha8_u32(v.seed, v.draws) / 256) * power2::pow2(149)),
            power2::pow2(149),
        ),
{
    let step = F32(UNIT_STEP_BITS);
    let k = (chacha8_u32(v.seed, v.draws) / 256) as nat;
    exact_laws::lemma_of_int(k);
    assert(step.magnitude() == 0x3380_0000 && !step.negative());
    assert(step.units() == 0x80_0000 * power2::pow2(102));
    power2::lemma_pow2_adds(23, 102);
    power2::lemma2_to64();
    number_laws::law_products_are_nearest(step, F32::of_int(k));
}

} // verus!
