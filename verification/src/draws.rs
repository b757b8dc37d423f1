use vstd::prelude::*;
use crate::game::{after_draw, chance_drawn, Chance};
use crate::rng::{draw_at, key_of_seed, seed_key, system_key};

verus! {

/// The random draws of a match: one ChaCha8 stream, read on from a word
/// position. The match draws its end and its noise from it, and a strategy
/// that chooses at random draws from it too, so that a seed fixes them all.
pub struct Draws {
    key: [u8; 32],
    position: u128,
}

impl Draws {
    /// The key of the stream.
    pub closed spec fn key(&self) -> Seq<u8> {
        self.key@
    }

    /// The word position that the next draw reads.
    pub closed spec fn position(&self) -> int {
        self.position as int
    }

    /// The draws of a generator seeded with `seed`, from the start.
    pub fn seeded(seed: u64) -> (r: Draws)
        ensures
            r.key() == key_of_seed(seed),
            r.position() == 0,
    {
        Draws { key: seed_key(seed), position: 0 }
    }

    /// The draws of a generator seeded from the operating system, from the
    /// start.
    pub fn from_system() -> (r: Draws)
        ensures
            r.position() == 0,
    {
        Draws { key: system_key(), position: 0 }
    }

    /// Whether an event of chance `c` happens, drawn at the current
    /// position; moves past the words the draw used.
    pub fn chance(&mut self, c: Chance) -> (r: bool)
        requires
            c.valid(),
        ensures
            r == chance_drawn(old(self).key(), old(self).position(), c),
            final(self).key() == old(self).key(),
            final(self).position() == after_draw(old(self).position(), c),
    {
        let r = draw_at(&self.key, self.position, c.numerator, c.denominator);
        if c.numerator != c.denominator {
            self.position = self.position.wrapping_add(2);
        }
        r
    }
}

} // verus!
