//! The seeded random number generator of `rand`, and the few calls that the
//! library makes into it.

use vstd::prelude::*;
use rand::distributions::Bernoulli;
use rand::rngs::StdRng;
use rand::seq::SliceRandom;
use rand::Rng;
use rand::SeedableRng;

verus! {

/// `a` holds the same items as `b`, each as many times: `a` is a
/// rearrangement of `b`.
pub open spec fn is_permutation_of(a: Seq<usize>, b: Seq<usize>) -> bool {
    a.to_multiset() == b.to_multiset()
}

// The order in which `SliceRandom::shuffle` leaves `items` when it is driven
// by a `StdRng` made by `seed_from_u64(seed)`.
pub uninterp spec fn seeded_shuffle(items: Seq<usize>, seed: u64) -> Seq<usize>;

/// Wraps `SliceRandom::shuffle` on a vector of indices, driven by a fresh
/// `StdRng` made by `SeedableRng::seed_from_u64(seed)`. The generator's
/// documentation calls its algorithm deterministic, and the shuffle's source
/// (a Fisher-Yates pass of swaps) draws each index with 32-bit sampling so
/// that 32-bit and 64-bit platforms agree: with the version this crate is
/// built with, the result is a function of `items` and `seed`, named
/// `seeded_shuffle`, and it is a rearrangement of `items`. Which
/// rearrangement is left unsaid.
#[verifier::external_body]
pub(crate) fn shuffle_with_seed(items: &mut Vec<usize>, seed: u64)
    ensures
        final(items)@ == seeded_shuffle(old(items)@, seed),
        is_permutation_of(final(items)@, old(items)@),
{
    let mut rng = StdRng::seed_from_u64(seed);
    items.shuffle(&mut rng);
}

// The first `count` values that a `StdRng` made by `seed_from_u64(seed)`
// yields for the distribution `Bernoulli::from_ratio(numerator, denominator)`,
// the one that `Rng::gen_ratio(numerator, denominator)` samples once per call.
pub uninterp spec fn seeded_ratio_draws(seed: u64, numerator: u32, denominator: u32, count: usize) -> Seq<bool>;

/// Wraps `Rng::sample_iter` with `Bernoulli::from_ratio(numerator,
/// denominator)` on a fresh `StdRng` made by `seed_from_u64(seed)`, taking
/// the first `count` values: the coins that `count` successive calls of
/// `gen_ratio(numerator, denominator)` on that generator give. Each value
/// compares one `u64` of the generator (a ChaCha stream fixed by the seed)
/// with a threshold fixed by the ratio, so with the version this crate is
/// built with the result is a function of the arguments, named
/// `seeded_ratio_draws`. `from_ratio` fails only on a zero denominator or a
/// numerator above it; its documentation promises `false` for a zero
/// numerator and `true` when numerator and denominator are equal. Which
/// values come out otherwise is left unsaid.
#[verifier::external_body]
pub(crate) fn coins_with_seed(seed: u64, numerator: u32, denominator: u32, count: usize) -> (draws: Vec<bool>)
    requires
        0 < denominator,
        numerator <= denominator,
    ensures
        draws@ == seeded_ratio_draws(seed, numerator, denominator, count),
        draws@.len() == count,
        numerator == 0 ==> forall|k: int| 0 <= k < count ==> !#[trigger] draws@[k],
        numerator == denominator ==> forall|k: int| 0 <= k < count ==> #[trigger] draws@[k],
{
    let coin = Bernoulli::from_ratio(numerator, denominator).unwrap();
    StdRng::seed_from_u64(seed).sample_iter(coin).take(count).collect()
}

// The value that `Rng::gen_range(low..=high)` draws first from a `StdRng`
// made by `seed_from_u64(seed)`, on a platform whose `usize` has `bits` bits.
pub uninterp spec fn seeded_usize_in_range(seed: u64, low: usize, high: usize, bits: u32) -> usize;

/// Wraps `Rng::gen_range` on the inclusive range `low..=high` of `usize`,
/// drawn from a fresh `StdRng` made by `SeedableRng::seed_from_u64(seed)`.
/// It panics on an empty range and otherwise returns a value of the range.
/// The uniform sampler for `usize` draws words as wide as `usize`, from a
/// ChaCha stream fixed by the seed, so with the version this crate is built
/// with the value is a function of the seed, the range and the width of
/// `usize`, named `seeded_usize_in_range`. Which value is left unsaid.
#[verifier::external_body]
pub(crate) fn random_in_range_seeded(seed: u64, low: usize, high: usize) -> (r: usize)
    requires
        low <= high,
    ensures
        low <= r <= high,
        r == seeded_usize_in_range(seed, low, high, usize::BITS),
{
    StdRng::seed_from_u64(seed).gen_range(low..=high)
}

} // verus!
