//! Seeded randomness for the generator.
//!
//! Every random decision is drawn from one explicitly threaded generator,
//! seeded from 32 bytes. The generator is deterministic: what it returns is
//! a function of the seed and of the sequence of requests made so far,
//! which the ghost `history` records. The names `draw_of` and `draw_any_of`
//! stand for those functions; nothing more is assumed about the values than
//! their range.

use vstd::prelude::*;

use rand::Rng;
use rand::SeedableRng;

verus! {

#[verifier::external_type_specification]
#[verifier::external_body]
pub struct ExChaCha20Rng(rand_chacha::ChaCha20Rng);

/// The value the generator seeded with `seed` returns for a request of a
/// uniform value in `[lo, hi)` made after the requests in `history`.
pub uninterp spec fn draw_of(seed: Seq<u8>, history: Seq<(int, int)>, lo: int, hi: int) -> int;

/// The value the generator seeded with `seed` returns for a request of an
/// unbounded value made after the requests in `history`.
pub uninterp spec fn draw_any_of(seed: Seq<u8>, history: Seq<(int, int)>) -> int;

/// A seeded pseudo-random generator. An unbounded request is recorded in
/// the history as the pair `(0, 0)`, which no bounded request produces.
pub struct SeededRng {
    rng: rand_chacha::ChaCha20Rng,
    seed: Ghost<Seq<u8>>,
    history: Ghost<Seq<(int, int)>>,
}

impl SeededRng {
    /// The seed this generator was built from.
    pub closed spec fn spec_seed(self) -> Seq<u8> {
        self.seed@
    }

    /// The requests made of this generator so far.
    pub closed spec fn spec_history(self) -> Seq<(int, int)> {
        self.history@
    }

    /// Relies on rand_chacha's `ChaCha20Rng::from_seed`: a deterministic,
    /// portable generator built from the 32 seed bytes alone.
    #[verifier::external_body]
    pub fn from_seed(seed: [u8; 32]) -> (r: SeededRng)
        ensures
            r.spec_seed() == seed@,
            r.spec_history() == Seq::<(int, int)>::empty(),
    {
        SeededRng {
            rng: rand_chacha::ChaCha20Rng::from_seed(seed),
            seed: Ghost(seed@),
            history: Ghost(Seq::empty()),
        }
    }

    /// Relies on rand's `Rng::gen_range` at type `i64`: a uniform value in
    /// `[lo, hi)`, deterministic given the generator's state; it panics
    /// unless `lo < hi`.
    #[verifier::external_body]
    pub fn gen_range_i64(&mut self, lo: i64, hi: i64) -> (r: i64)
        requires
            lo < hi,
        ensures
            lo <= r < hi,
            r == draw_of(old(self).spec_seed(), old(self).spec_history(), lo as int, hi as int),
            final(self).spec_seed() == old(self).spec_seed(),
            final(self).spec_history() == old(self).spec_history().push((lo as int, hi as int)),
    {
        self.rng.gen_range(lo, hi)
    }

    /// Relies on rand's `Rng::gen` at type `u64`: a value deterministic
    /// given the generator's state.
    #[verifier::external_body]
    pub fn gen_u64(&mut self) -> (r: u64)
        ensures
            r == draw_any_of(old(self).spec_seed(), old(self).spec_history()),
            final(self).spec_seed() == old(self).spec_seed(),
            final(self).spec_history() == old(self).spec_history().push((0int, 0int)),
    {
        self.rng.gen()
    }

    /// A uniform value in `[lo, hi)` at type `isize`.
    pub fn gen_range_isize(&mut self, lo: isize, hi: isize) -> (r: isize)
        requires
            lo < hi,
        ensures
            lo <= r < hi,
            r == draw_of(old(self).spec_seed(), old(self).spec_history(), lo as int, hi as int),
            final(self).spec_seed() == old(self).spec_seed(),
            final(self).spec_history() == old(self).spec_history().push((lo as int, hi as int)),
    {
        let v = self.gen_range_i64(lo as i64, hi as i64);
        v as isize
    }
}

} // verus!
