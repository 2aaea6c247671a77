//! The source of chance that the generators draw from.
//!
//! Nothing is assumed of what a draw gives but its range: every generator
//! is verified for whatever the dice may give. What is known besides is
//! that the dice are a machine: the state that they are in decides each
//! draw and the state after it, so that dice made from one seed replay the
//! same draws.

use rand::rngs::StdRng;
use rand::rngs::ThreadRng;
use rand::seq::IndexedRandom;
use rand::seq::SliceRandom;
use rand::Rng;
use rand::SeedableRng;
use vstd::prelude::*;

verus! {

/// The standard generator of `rand`, carried through as it is.
#[verifier::external_type_specification]
#[verifier::external_body]
pub struct ExStdRng(StdRng);

/// What the standard generator of `rand` holds: the bytes of its state,
/// from which alone it computes what it gives out and how it goes on.
pub uninterp spec fn rng_state(rng: StdRng) -> Seq<u8>;

/// The state of the standard generator that `SeedableRng::seed_from_u64` of
/// `rand` makes of a seed. The seed alone decides it: the bytes of the
/// generator's key are computed from the seed, and the generator is set up
/// from that key.
pub uninterp spec fn seeded_state(seed: u64) -> Seq<u8>;

/// Calls `SeedableRng::seed_from_u64` of `rand` for its standard generator:
/// the generator that comes back is in the state that the seed decides.
#[verifier::external_body]
fn rng_from_seed(seed: u64) -> (rng: StdRng)
    ensures
        rng_state(rng) == seeded_state(seed),
{
    StdRng::seed_from_u64(seed)
}

/// The handle on the generator of the thread that `rand` hands out,
/// carried through as it is.
#[verifier::external_type_specification]
#[verifier::external_body]
pub struct ExThreadRng(ThreadRng);

/// Calls `rand::rng`, which hands out the generator of the thread. Nothing
/// is claimed of it.
#[verifier::external_body]
fn thread_rng() -> ThreadRng {
    rand::rng()
}

/// Calls `SeedableRng::from_rng` of `rand` for its standard generator, which
/// seeds it with bytes drawn from `source`. Nothing is claimed of the
/// generator that comes back.
#[verifier::external_body]
fn rng_from_thread(source: &mut ThreadRng) -> StdRng {
    StdRng::from_rng(source)
}

/// What `Rng::random_range` of `rand` draws in the range `0..bound` from a
/// standard generator in the given state, and the state in which the draw
/// leaves the generator. The generator computes its output from its state
/// alone, and the number is computed from that output and the bound.
pub uninterp spec fn range_draw(state: Seq<u8>, bound: usize) -> (usize, Seq<u8>);

/// Calls `Rng::random_range` of `rand` with the range `0..bound`. The range
/// must not be empty, or the call panics; the number drawn lies in it. The
/// state of the generator and the bound decide the number and the state
/// afterwards.
#[verifier::external_body]
fn draw_below(rng: &mut StdRng, bound: usize) -> (drawn: usize)
    requires
        bound > 0,
    ensures
        drawn < bound,
        drawn == range_draw(rng_state(*old(rng)), bound).0,
        rng_state(*final(rng)) == range_draw(rng_state(*old(rng)), bound).1,
{
    rng.random_range(0..bound)
}

/// What `Rng::random_ratio` of `rand` draws with the chance of `numerator`
/// in `denominator` from a standard generator in the given state, and the
/// state in which the draw leaves the generator.
pub uninterp spec fn ratio_draw(state: Seq<u8>, numerator: u32, denominator: u32) -> (
    bool,
    Seq<u8>,
);

/// Calls `Rng::random_ratio` of `rand`, which panics where the denominator
/// is zero or the numerator exceeds it. A chance of all in all always
/// comes true, and a chance of none in any never does. The state of the
/// generator and the ratio decide the outcome and the state afterwards;
/// nothing else is claimed of the outcome.
#[verifier::external_body]
fn draw_ratio(rng: &mut StdRng, numerator: u32, denominator: u32) -> (drawn: bool)
    requires
        denominator > 0,
        numerator <= denominator,
    ensures
        numerator == denominator ==> drawn,
        numerator == 0 ==> !drawn,
        drawn == ratio_draw(rng_state(*old(rng)), numerator, denominator).0,
        rng_state(*final(rng)) == ratio_draw(rng_state(*old(rng)), numerator, denominator).1,
{
    rng.random_ratio(numerator, denominator)
}

/// The place in a slice of `len` items, `len` positive, of the item that
/// `IndexedRandom::choose` of `rand` takes with a standard generator in the
/// given state, and the state in which that leaves the generator. The place
/// is drawn from the generator with the length as the bound, whatever the
/// items are.
pub uninterp spec fn choice_draw(state: Seq<u8>, len: nat) -> (int, Seq<u8>);

/// Calls `IndexedRandom::choose` of `rand` on a slice. For an empty slice
/// it gives `None` and leaves the generator alone. Else it gives the item
/// at a place in the slice that the state of the generator and the length
/// of the slice decide, as they decide the state afterwards.
#[verifier::external_body]
fn draw_item(rng: &mut StdRng, items: &Vec<usize>) -> (drawn: Option<usize>)
    ensures
        items@.len() == 0 ==> drawn is None && rng_state(*final(rng)) == rng_state(*old(rng)),
        items@.len() > 0 ==> 0 <= choice_draw(rng_state(*old(rng)), items@.len()).0 < items@.len()
            && drawn == Some(items@[choice_draw(rng_state(*old(rng)), items@.len()).0]),
        items@.len() > 0 ==> rng_state(*final(rng)) == choice_draw(
            rng_state(*old(rng)),
            items@.len(),
        ).1,
{
    items.as_slice().choose(rng).copied()
}

/// The order in which `SliceRandom::shuffle` of `rand` leaves a slice of
/// `len` items with a standard generator in the given state: for each
/// place, the place that its item came from; and the state in which the
/// shuffle leaves the generator. The items are swapped by places drawn from
/// the generator, whatever they are.
pub uninterp spec fn shuffle_draw(state: Seq<u8>, len: nat) -> (Seq<int>, Seq<u8>);

/// Calls `SliceRandom::shuffle` of `rand`, which permutes the slice in
/// place: the same items, each as often as before, in an order that the
/// state of the generator and the length of the slice decide, as they
/// decide the state afterwards.
#[verifier::external_body]
fn shuffle_items<T>(rng: &mut StdRng, items: &mut Vec<T>)
    ensures
        final(items)@.to_multiset() == old(items)@.to_multiset(),
        final(items)@.len() == old(items)@.len(),
        forall|i: int|
            0 <= i < old(items)@.len() ==> 0 <= #[trigger] shuffle_draw(
                rng_state(*old(rng)),
                old(items)@.len(),
            ).0[i] < old(items)@.len() && final(items)@[i] == old(items)@[shuffle_draw(
                rng_state(*old(rng)),
                old(items)@.len(),
            ).0[i]],
        rng_state(*final(rng)) == shuffle_draw(rng_state(*old(rng)), old(items)@.len()).1,
{
    items.as_mut_slice().shuffle(rng)
}

/// A pseudo-random generator. Two dice made from the same seed give the same
/// draws in the same order.
pub struct Dice {
    rng: StdRng,
}

impl Dice {
    /// The state of the generator that the dice draw from.
    pub closed spec fn state(&self) -> Seq<u8> {
        rng_state(self.rng)
    }

    /// Dice that replay the same draws for the same seed: they are in the
    /// state that the seed decides.
    pub fn seeded(seed: u64) -> (dice: Dice)
        ensures
            dice.state() == seeded_state(seed),
    {
        Dice { rng: rng_from_seed(seed) }
    }

    /// Dice seeded from the thread's own source of randomness.
    pub fn fresh() -> Dice {
        let mut source = thread_rng();
        Dice { rng: rng_from_thread(&mut source) }
    }

    /// What `below` draws from dice that hold `state`.
    pub open spec fn below_of(state: Seq<u8>, bound: usize) -> usize {
        range_draw(state, bound).0
    }

    /// What dice that hold `state` hold after `below`.
    pub open spec fn after_below(state: Seq<u8>, bound: usize) -> Seq<u8> {
        range_draw(state, bound).1
    }

    /// A number below `bound`: the one that the dice as they stand give
    /// for that bound.
    pub fn below(&mut self, bound: usize) -> (drawn: usize)
        requires
            bound > 0,
        ensures
            drawn < bound,
            drawn == Self::below_of(old(self).state(), bound),
            final(self).state() == Self::after_below(old(self).state(), bound),
    {
        draw_below(&mut self.rng, bound)
    }

    /// What `coin` draws from dice that hold `state`.
    pub open spec fn coin_of(state: Seq<u8>) -> bool {
        ratio_draw(state, 1, 2).0
    }

    /// What dice that hold `state` hold after `coin`.
    pub open spec fn after_coin(state: Seq<u8>) -> Seq<u8> {
        ratio_draw(state, 1, 2).1
    }

    /// Heads or tails, each as likely as the other: the side that the dice
    /// as they stand give.
    pub fn coin(&mut self) -> (drawn: bool)
        ensures
            drawn == Self::coin_of(old(self).state()),
            final(self).state() == Self::after_coin(old(self).state()),
    {
        draw_ratio(&mut self.rng, 1, 2)
    }

    /// The order in which `shuffle` leaves `len` items with dice that hold
    /// `state`: for each place, the place that its item came from.
    pub open spec fn order_of(state: Seq<u8>, len: nat) -> Seq<int> {
        shuffle_draw(state, len).0
    }

    /// What dice that hold `state` hold after `shuffle` of `len` items.
    pub open spec fn after_shuffle(state: Seq<u8>, len: nat) -> Seq<u8> {
        shuffle_draw(state, len).1
    }

    /// Puts `items` in a random order: the one that the dice as they stand
    /// give for that many items.
    pub fn shuffle<T>(&mut self, items: &mut Vec<T>)
        ensures
            final(items)@.to_multiset() == old(items)@.to_multiset(),
            final(items)@.len() == old(items)@.len(),
            forall|i: int|
                0 <= i < old(items)@.len() ==> {
                    let from = #[trigger] Self::order_of(old(self).state(), old(items)@.len())[i];
                    0 <= from < old(items)@.len() && final(items)@[i] == old(items)@[from]
                },
            final(self).state() == Self::after_shuffle(old(self).state(), old(items)@.len()),
    {
        shuffle_items(&mut self.rng, items)
    }

    /// What `pick` draws among `items` from dice that hold `state`.
    pub open spec fn pick_of(state: Seq<u8>, items: Seq<usize>) -> Option<usize> {
        if items.len() == 0 {
            None
        } else {
            Some(items[choice_draw(state, items.len()).0])
        }
    }

    /// What dice that hold `state` hold after `pick` among `len` items.
    pub open spec fn after_pick(state: Seq<u8>, len: nat) -> Seq<u8> {
        if len == 0 {
            state
        } else {
            choice_draw(state, len).1
        }
    }

    /// One of `items`, or `None` if there is none: the one that the dice as
    /// they stand give for that many items.
    pub fn pick(&mut self, items: &Vec<usize>) -> (drawn: Option<usize>)
        ensures
            items@.len() == 0 ==> drawn is None,
            items@.len() > 0 ==> drawn is Some && items@.contains(drawn->0),
            drawn == Self::pick_of(old(self).state(), items@),
            final(self).state() == Self::after_pick(old(self).state(), items@.len()),
    {
        draw_item(&mut self.rng, items)
    }
}

} // verus!
