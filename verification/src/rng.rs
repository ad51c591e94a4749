//! The seeded ChaCha8 generator. Its fields are private to this module, which
//! holds nothing but the calls into `rand_chacha` and `rand`: the seed and
//! the history that proofs speak of are set only where the generator itself
//! is made or asked, so they always describe the wrapped generator.
use vstd::prelude::*;
use rand::{RngExt, SeedableRng};

use rand_chacha::ChaCha8Rng;
use crate::shuffle::chacha8_upto;

verus! {

/// The generator of `rand_chacha`; opaque to proofs.
#[verifier::external_type_specification]
#[verifier::external_body]
pub struct ExChaCha8Rng(ChaCha8Rng);

/// A ChaCha8 generator seeded from a `u64`, with what it has been asked so
/// far: the seed and the upper bounds of the draws made from it, in order.
pub struct SeededRng {
    rng: ChaCha8Rng,
    seed: Ghost<u64>,
    asked: Ghost<Seq<usize>>,
}

impl SeededRng {
    /// The seed the wrapped generator was made from.
    pub closed spec fn seed(&self) -> u64 {
        self.seed@
    }

    /// The upper bounds of the draws made so far from the wrapped generator,
    /// in order.
    pub closed spec fn asked(&self) -> Seq<usize> {
        self.asked@
    }

    /// `ChaCha8Rng::seed_from_u64(seed)`: a generator with nothing asked yet.
    #[verifier::external_body]
    pub(crate) fn seed_from_u64(seed: u64) -> (r: SeededRng)
        ensures
            r.seed() == seed,
            r.asked() == Seq::<usize>::empty(),
    {
        SeededRng { rng: ChaCha8Rng::seed_from_u64(seed), seed: Ghost(seed), asked: Ghost(Seq::empty()) }
    }

    /// `RngExt::random_range(0..=hi)`: the draw `chacha8_upto` names for this
    /// generator's seed and history, within `0..=hi` (the range is never empty,
    /// so the call does not panic); `hi` joins the history.
    #[verifier::external_body]
    pub(crate) fn random_upto(&mut self, hi: usize) -> (r: usize)
        ensures
            r == chacha8_upto(old(self).seed(), old(self).asked(), hi),
            r <= hi,
            final(self).seed() == old(self).seed(),
            final(self).asked() == old(self).asked().push(hi),
    {
        self.rng.random_range(0..=hi)
    }
}

} // verus!
