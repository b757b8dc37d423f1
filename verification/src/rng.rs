use vstd::prelude::*;
use rand::{Rng, SeedableRng};
use rand_chacha::ChaCha8Rng;

verus! {

/// The 32-byte key of the generator that `ChaCha8Rng::seed_from_u64(seed)`
/// makes: a function of `seed` alone.
pub uninterp spec fn key_of_seed(seed: u64) -> Seq<u8>;

/// Calls `ChaCha8Rng::seed_from_u64` and `get_seed`: the key of the
/// generator seeded with `seed`, as `key_of_seed` names it.
#[verifier::external_body]
pub(crate) fn seed_key(seed: u64) -> (r: [u8; 32])
    ensures
        r@ == key_of_seed(seed),
{
    ChaCha8Rng::seed_from_u64(seed).get_seed()
}

/// Calls `ChaCha8Rng::from_os_rng` and `get_seed`: the key of a generator
/// seeded from the operating system. Nothing is stated of it.
#[verifier::external_body]
pub(crate) fn system_key() -> [u8; 32] {
    ChaCha8Rng::from_os_rng().get_seed()
}

/// Whether `Rng::random_ratio(numerator, denominator)` gives `true` on the
/// ChaCha8 stream with key `key`, drawn at the word position `position`:
/// a function of these alone.
pub uninterp spec fn ratio_draw(key: Seq<u8>, position: u128, numerator: u32, denominator: u32) -> bool;

/// Calls `ChaCha8Rng::from_seed(key)`, `set_word_pos(position)` and
/// `Rng::random_ratio(numerator, denominator)`: whether an event of that
/// probability happens, drawn from the stream of `key` at that position,
/// as `ratio_draw` names it. rand samples
/// `Bernoulli::from_ratio(numerator, denominator)`, the distribution that
/// `Rng::random_bool` uses for the same probability: a numerator of zero
/// never gives `true`, a numerator equal to the denominator always does.
/// The call panics on a zero denominator or a numerator above it.
#[verifier::external_body]
pub(crate) fn draw_at(key: &[u8; 32], position: u128, numerator: u32, denominator: u32) -> (r: bool)
    requires
        0 < denominator,
        numerator <= denominator,
    ensures
        numerator == 0 ==> !r,
        numerator == denominator ==> r,
        r == ratio_draw(key@, position, numerator, denominator),
{
    let mut rng = ChaCha8Rng::from_seed(*key);
    rng.set_word_pos(position);
    rng.random_ratio(numerator, denominator)
}

/// Calls `rand::rng()` and `Rng::random_ratio(numerator, denominator)`:
/// whether an event of that probability happens, drawn by the thread's
/// generator, which is seeded from the system. rand samples
/// `Bernoulli::from_ratio(numerator, denominator)`: a numerator of zero never
/// gives `true`, a numerator equal to the denominator always does; otherwise
/// the outcome depends on the generator's state, and nothing more is
/// stated. The call panics on a zero denominator or a numerator above it.
#[verifier::external_body]
pub(crate) fn thread_happens(numerator: u32, denominator: u32) -> (r: bool)
    requires
        0 < denominator,
        numerator <= denominator,
    ensures
        numerator == 0 ==> !r,
        numerator == denominator ==> r,
{
    rand::rng().random_ratio(numerator, denominator)
}

/// The index that `Rng::random_range(0..n)` draws from the ChaCha8 stream
/// with key `key` at the word position `position`, and the word position
/// after the draw: a function of these alone.
pub uninterp spec fn index_draw(key: Seq<u8>, position: u128, n: usize) -> (usize, u128);

/// Calls `ChaCha8Rng::from_seed(key)`, `set_word_pos(position)`,
/// `Rng::random_range(0..n)` and `get_word_pos`: an index below `n` drawn
/// from the stream of `key` at that position, and the position after it,
/// as `index_draw` names them. The draw panics on an empty range, so `n`
/// must be positive.
#[verifier::external_body]
pub(crate) fn index_at(key: &[u8; 32], position: u128, n: usize) -> (r: (usize, u128))
    requires
        n > 0,
    ensures
        r.0 < n,
        r == index_draw(key@, position, n),
{
    let mut rng = ChaCha8Rng::from_seed(*key);
    rng.set_word_pos(position);
    let i = rng.random_range(0..n);
    (i, rng.get_word_pos())
}

} // verus!
