use vstd::prelude::*;
use rand::rngs::StdRng;
use rand::seq::SliceRandom;
use rand::Rng;
use rand::SeedableRng;

verus! {

#[verifier::external_type_specification]
#[verifier::external_body]
pub struct ExStdRng(StdRng);

/// The source of every random choice a build makes: start cells,
/// orientation offsets, reversals, fill letters and the order of candidates.
pub struct Dice {
    rng: StdRng,
}

/// Relies on `SeedableRng::seed_from_u64`: a generator whose stream is fixed by the seed.
#[verifier::external_body]
fn rng_from_seed(seed: u64) -> StdRng {
    StdRng::seed_from_u64(seed)
}

/// Relies on `Rng::gen_range` over `0..n`: a value below `n`; it panics only on an
/// empty range, which `requires` leaves out.
#[verifier::external_body]
fn rng_below(rng: &mut StdRng, n: usize) -> (r: usize)
    requires
        n > 0,
    ensures
        r < n,
{
    rng.gen_range(0..n)
}

/// Relies on `SliceRandom::shuffle`: it only swaps elements, so the result is a
/// permutation of what was there.
#[verifier::external_body]
fn rng_shuffle(rng: &mut StdRng, v: &mut Vec<String>)
    ensures
        final(v)@.to_multiset() == old(v)@.to_multiset(),
        final(v)@.len() == old(v)@.len(),
{
    v.shuffle(rng)
}

impl Dice {
    /// Dice whose throws are fixed by `seed`.
    pub fn seeded(seed: u64) -> Dice {
        Dice { rng: rng_from_seed(seed) }
    }

    /// A value drawn from `0..n`.
    pub fn below(&mut self, n: usize) -> (r: usize)
        requires
            n > 0,
        ensures
            r < n,
    {
        rng_below(&mut self.rng, n)
    }

    /// Puts `v` in a random order.
    pub fn shuffle(&mut self, v: &mut Vec<String>)
        ensures
            final(v)@.to_multiset() == old(v)@.to_multiset(),
            final(v)@.len() == old(v)@.len(),
    {
        rng_shuffle(&mut self.rng, v)
    }
}

} // verus!
