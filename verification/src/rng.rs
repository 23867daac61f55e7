//! Trusted interface to bracket_lib's dice-oriented random number
//! generator, the randomness source of dungeon generation and entity
//! spawning.

use vstd::prelude::*;
use bracket_lib::random::RandomNumberGenerator;

verus! {

#[verifier::external_type_specification]
#[verifier::external_body]
pub struct ExRandomNumberGenerator(RandomNumberGenerator);

/// Relies on RandomNumberGenerator::new: an RNG seeded from the machine;
/// nothing is promised of the values it yields.
pub assume_specification[ RandomNumberGenerator::new ]() -> (r: RandomNumberGenerator);

/// Relies on RandomNumberGenerator::seeded: an RNG derived from the given
/// seed; nothing is promised of the values it yields.
pub assume_specification[ RandomNumberGenerator::seeded ](seed: u64) -> (r: RandomNumberGenerator);

/// Relies on RandomNumberGenerator::range: a value drawn uniformly from
/// [min, max), inclusive of `min` and exclusive of `max`.
#[verifier::external_body]
pub fn rng_range(rng: &mut RandomNumberGenerator, min: i32, max: i32) -> (r: i32)
    requires
        min < max,
    ensures
        min <= r < max,
{
    rng.range(min, max)
}

/// Relies on RandomNumberGenerator::roll_dice: the sum of `n` dice each
/// drawn from [1, die_type].
#[verifier::external_body]
pub fn rng_roll_dice(rng: &mut RandomNumberGenerator, n: i32, die_type: i32) -> (r: i32)
    requires
        1 <= n,
        1 <= die_type < i32::MAX,
        n * die_type <= i32::MAX,
    ensures
        n <= r <= n * die_type,
{
    rng.roll_dice(n, die_type)
}

} // verus!
