//! Sources of random numbers.

use rand::{Rng, SeedableRng, StdRng};
use vstd::prelude::*;

verus! {

/// A source of random numbers (not necessarily cryptographically secure).
/// Every draw moves the source on.
pub trait Random {
    /// Draws a number from zero up to, but not including, `limit`.
    fn next_modulo(&mut self, limit: u64) -> (value: u64)
        requires
            limit > 0,
        ensures
            value < limit,
    ;
}

/// `StdRng` of `rand`, the generator behind the default source. Nothing of
/// its state is visible here; it is only carried along.
#[verifier::external_type_specification]
#[verifier::external_body]
pub struct ExStdRng(rand::StdRng);

/// `SeedableRng::from_seed` of `rand`, for `StdRng` and a seed of one word:
/// a generator whose stream is set by `seed`. Nothing is claimed of the
/// generator.
#[verifier::external_body]
fn seeded_generator(seed: usize) -> (generator: StdRng) {
    let seed_slice: &[usize] = &[seed];
    SeedableRng::from_seed(seed_slice)
}

/// `Rng::gen::<u64>` of `rand`: the generator's next number. Nothing is
/// claimed of the number.
#[verifier::external_body]
fn next_number(generator: &mut StdRng) -> (number: u64) {
    generator.gen::<u64>()
}

/// The default source: a seeded pseudo-random generator. Beside the
/// generator it keeps the books of what the generator was made from and of
/// what has been taken from it.
pub struct RandomImpl {
    generator: StdRng,
    seed: Ghost<usize>,
    numbers: Ghost<Seq<u64>>,
}

impl RandomImpl {
    /// The seed that the generator was made from.
    pub closed spec fn spec_seed(&self) -> usize {
        self.seed@
    }

    /// The numbers taken from the generator so far, oldest first.
    pub closed spec fn numbers(&self) -> Seq<u64> {
        self.numbers@
    }

    /// A source whose stream is set by `seed`, and from which nothing has
    /// been taken yet.
    pub fn create(seed: usize) -> (source: Self)
        ensures
            source.spec_seed() == seed,
            source.numbers() == Seq::<u64>::empty(),
    {
        RandomImpl {
            generator: seeded_generator(seed),
            seed: Ghost(seed),
            numbers: Ghost(Seq::empty()),
        }
    }

    /// A new source, seeded with the next number of this one, cut to the
    /// width of a seed. Nothing has been taken from the new source yet.
    pub fn new_child(&mut self) -> (child: Self)
        ensures
            final(self).spec_seed() == old(self).spec_seed(),
            final(self).numbers().len() == old(self).numbers().len() + 1,
            final(self).numbers().drop_last() == old(self).numbers(),
            child.spec_seed() == final(self).numbers().last() as usize,
            child.numbers() == Seq::<u64>::empty(),
    {
        let seed = self.next();
        assert(self.numbers().drop_last() == old(self).numbers());
        RandomImpl::create(#[verifier::truncate] (seed as usize))
    }

    /// Takes the next number of the stream.
    fn next(&mut self) -> (number: u64)
        ensures
            final(self).spec_seed() == old(self).spec_seed(),
            final(self).numbers() == old(self).numbers().push(number),
    {
        let number = next_number(&mut self.generator);
        self.numbers = Ghost(self.numbers@.push(number));
        number
    }
}

impl Random for RandomImpl {
    /// Takes the next number of the stream and returns what is left of it
    /// when it is divided by `limit`.
    fn next_modulo(&mut self, limit: u64) -> (value: u64)
        ensures
            final(self).spec_seed() == old(self).spec_seed(),
            final(self).numbers().len() == old(self).numbers().len() + 1,
            final(self).numbers().drop_last() == old(self).numbers(),
            value == final(self).numbers().last() % limit,
    {
        let number = self.next();
        assert(self.numbers().drop_last() == old(self).numbers());
        number % limit
    }
}

} // verus!
