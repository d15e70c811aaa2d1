//! Combat arithmetic: hit chance from range and cover, and the seeded dice.
//!
//! Probabilities are held exactly as multiples of 2^-28 (`CHANCE_ONE` is certainty):
//! every hit chance the rules produce is a single-precision value that is such a multiple.

use vstd::prelude::*;

use rand::{Rng, RngCore, SeedableRng};
use rand_chacha::ChaCha8Rng;

verus! {

#[verifier::external_type_specification]
#[verifier::external_body]
pub struct ExChaCha8Rng(ChaCha8Rng);

/// Probability one, in units of 2^-28.
pub const CHANCE_ONE: u32 = 0x1000_0000;

/// The single-precision value of `0.9 - 0.04 * distance`, clamped to `[0.1, 0.95]`,
/// in units of 2^-28. From distance 21 on the floor of 0.1 applies.
pub open spec fn base_chance(distance: int) -> u32 {
    if distance <= 0 {
        241591904
    } else if distance == 1 {
        230854480
    } else if distance == 2 {
        220117072
    } else if distance == 3 {
        209379648
    } else if distance == 4 {
        198642240
    } else if distance == 5 {
        187904816
    } else if distance == 6 {
        177167392
    } else if distance == 7 {
        166429984
    } else if distance == 8 {
        155692560
    } else if distance == 9 {
        144955136
    } else if distance == 10 {
        134217728
    } else if distance == 11 {
        123480304
    } else if distance == 12 {
        112742888
    } else if distance == 13 {
        102005472
    } else if distance == 14 {
        91268048
    } else if distance == 15 {
        80530640
    } else if distance == 16 {
        69793216
    } else if distance == 17 {
        59055792
    } else if distance == 18 {
        48318384
    } else if distance == 19 {
        37580960
    } else if distance == 20 {
        26843552
    } else {
        26843546
    }
}

/// Probability of a shot landing, in units of 2^-28: 0.9 point blank, −0.04 per cell,
/// floor 0.1, halved by cover, and zero at a negative distance or beyond the range.
pub open spec fn chance_of_hit(distance: int, range: int, in_cover: bool) -> u32 {
    if distance < 0 || distance > range {
        0
    } else if in_cover {
        (base_chance(distance) / 2) as u32
    } else {
        base_chance(distance)
    }
}

fn base_chance_exec(distance: i32) -> (c: u32)
    ensures
        c == base_chance(distance as int),
{
    if distance <= 0 {
        241591904
    } else if distance == 1 {
        230854480
    } else if distance == 2 {
        220117072
    } else if distance == 3 {
        209379648
    } else if distance == 4 {
        198642240
    } else if distance == 5 {
        187904816
    } else if distance == 6 {
        177167392
    } else if distance == 7 {
        166429984
    } else if distance == 8 {
        155692560
    } else if distance == 9 {
        144955136
    } else if distance == 10 {
        134217728
    } else if distance == 11 {
        123480304
    } else if distance == 12 {
        112742888
    } else if distance == 13 {
        102005472
    } else if distance == 14 {
        91268048
    } else if distance == 15 {
        80530640
    } else if distance == 16 {
        69793216
    } else if distance == 17 {
        59055792
    } else if distance == 18 {
        48318384
    } else if distance == 19 {
        37580960
    } else if distance == 20 {
        26843552
    } else {
        26843546
    }
}

/// Probability (in units of 2^-28) of a shot landing. 0.9 point blank, −0.04 per cell,
/// floor 0.1, halved by cover.
pub fn hit_chance(distance: i32, range: i32, in_cover: bool) -> (c: u32)
    ensures
        c == chance_of_hit(distance as int, range as int, in_cover),
{
    if distance < 0 || distance > range {
        return 0;
    }
    let base = base_chance_exec(distance);
    if in_cover {
        base / 2
    } else {
        base
    }
}

/// The laws of the hit chance: zero out of range, 0.9 point blank, never below the floor
/// of 0.1 in range, never rising with distance, exactly halved by cover.
pub proof fn law_hit_chance(d1: int, d2: int, range: int)
    ensures
        d1 > range ==> chance_of_hit(d1, range, false) == 0 && chance_of_hit(d1, range, true)
            == 0,
        0 <= range ==> chance_of_hit(0, range, false) == 241591904,
        0 <= d1 <= range ==> chance_of_hit(d1, range, false) >= 26843546,
        0 <= d1 <= d2 <= range ==> chance_of_hit(d2, range, false) <= chance_of_hit(
            d1,
            range,
            false,
        ),
        0 <= d1 < d2 <= range && d1 < 21 ==> chance_of_hit(d2, range, false) < chance_of_hit(
            d1,
            range,
            false,
        ),
        chance_of_hit(d1, range, true) * 2 == chance_of_hit(d1, range, false),
{
}

/// The hit chance in the open is 0.9 at point blank, 0.04 less per cell of distance, and
/// 0.1 from distance 21 on, each to within 16 units of 2^-28 (the rounding of
/// single-precision arithmetic), as long as the target is in range.
pub proof fn law_hit_chance_formula(d: int, range: int)
    ensures
        0 <= d <= 20 && d <= range ==> -1600 <= 100 * chance_of_hit(d, range, false) - (90 - 4 * d)
            * CHANCE_ONE <= 1600,
        21 <= d <= range ==> -1600 <= 100 * chance_of_hit(d, range, false) - 10 * CHANCE_ONE <= 1600,
{
}

/// What a ChaCha8 generator seeded from `seed` (through `SeedableRng::seed_from_u64`)
/// yields as its `index`-th 32-bit output word.
pub uninterp spec fn chacha8_word(seed: u64, index: nat) -> u32;

/// What `Rng::random_range(low..=high)` returns on a ChaCha8 generator seeded from `seed`
/// that has already yielded `index` words, together with the number of words yielded after it.
pub uninterp spec fn chacha8_range_draw(seed: u64, index: nat, low: i32, high: i32) -> (i32, nat);

/// The battle's random number generator: a ChaCha8 stream. Its view is the seed and the
/// number of 32-bit words drawn so far, which determine every later draw. Only the trusted
/// items below make a generator or draw from it, and each keeps the seed and count it
/// records equal to the stream's.
pub struct GameRng {
    rng: ChaCha8Rng,
    seed: Ghost<u64>,
    drawn: Ghost<nat>,
}

impl View for GameRng {
    type V = (u64, nat);

    closed spec fn view(&self) -> (u64, nat) {
        (self.seed@, self.drawn@)
    }
}

/// Calls `rand_chacha::ChaCha8Rng::seed_from_u64` and records the seed beside the result.
/// Claimed: the generator is the ChaCha8 stream that `seed_from_u64` makes of `seed`, with
/// no word drawn yet; every later draw is then fixed by the seed and the words drawn before.
#[verifier::external_body]
fn chacha8_from_seed(seed: u64) -> (r: GameRng)
    ensures
        r@ == (seed, 0nat),
{
    GameRng { rng: ChaCha8Rng::seed_from_u64(seed), seed: Ghost(seed), drawn: Ghost(0) }
}

/// Calls `RngCore::next_u32` on the generator. Claimed: the word is the next word of the
/// generator's stream, fixed by its seed and the number of words drawn before.
#[verifier::external_body]
fn next_word(rng: &mut GameRng) -> (w: u32)
    ensures
        w == chacha8_word(old(rng)@.0, old(rng)@.1),
        final(rng)@ == (old(rng)@.0, old(rng)@.1 + 1),
{
    rng.rng.next_u32()
}

/// Calls `Rng::random_range(low..=high)`, which panics on an empty range. Claimed, as the
/// crate documents it: the value lies in `low..=high`; value and words consumed are fixed
/// by the seed, the words drawn before and the bounds.
#[verifier::external_body]
fn draw_range(rng: &mut GameRng, low: i32, high: i32) -> (r: i32)
    requires
        low <= high,
    ensures
        low <= r <= high,
        (r, final(rng)@.1) == chacha8_range_draw(old(rng)@.0, old(rng)@.1, low, high),
        final(rng)@.0 == old(rng)@.0,
{
    rng.rng.random_range(low..=high)
}

/// Calls `Clone::clone` on the generator (derived by `rand_chacha`: the clone holds the
/// same key, counter and buffered words) and records the same seed and count beside it.
/// Claimed: the clone continues the same stream from the same point.
#[verifier::external_body]
fn clone_generator(rng: &GameRng) -> (r: GameRng)
    ensures
        r@ == rng@,
{
    GameRng { rng: rng.rng.clone(), seed: Ghost(rng.seed@), drawn: Ghost(rng.drawn@) }
}

impl Clone for GameRng {
    fn clone(&self) -> (r: GameRng)
        ensures
            r@ == self@,
    {
        clone_generator(self)
    }
}

impl GameRng {
    /// A generator at the start of the stream for `seed`.
    pub fn seeded(seed: u64) -> (r: GameRng)
        ensures
            r@ == (seed, 0nat),
    {
        chacha8_from_seed(seed)
    }
}

/// The outcome of a hit roll against `chance` from generator state `r`, and the state after.
/// A zero chance misses without drawing; otherwise the top 24 bits of the next word, read
/// as a fraction of one (as `rand` samples an `f32`), must fall below the chance.
pub open spec fn roll_hit_result(r: (u64, nat), chance: u32) -> (bool, (u64, nat)) {
    if chance == 0 {
        (false, r)
    } else {
        let w = chacha8_word(r.0, r.1);
        ((w >> 8u32) * 16 < chance, (r.0, r.1 + 1))
    }
}

/// The outcome of a damage roll in `min..=max` from generator state `r`, and the state after.
pub open spec fn roll_damage_result(r: (u64, nat), min: i32, max: i32) -> (i32, (u64, nat)) {
    let (v, n) = chacha8_range_draw(r.0, r.1, min, max);
    (v, (r.0, n))
}

/// Rolls a hit against `chance` (units of 2^-28): a chance of 0 never hits and draws
/// nothing; otherwise one word is drawn, and a chance of one or more always hits.
pub fn roll_hit(rng: &mut GameRng, chance: u32) -> (hit: bool)
    ensures
        (hit, final(rng)@) == roll_hit_result(old(rng)@, chance),
        chance == 0 ==> !hit && final(rng)@ == old(rng)@,
        chance > 0 ==> final(rng)@ == (old(rng)@.0, old(rng)@.1 + 1),
        chance >= CHANCE_ONE ==> hit,
{
    if chance == 0 {
        return false;
    }
    let w = next_word(rng);
    assert((w >> 8u32) * 16 < CHANCE_ONE) by (bit_vector);
    (w >> 8) * 16 < chance
}

/// Rolls damage in `min..=max`.
pub fn roll_damage(rng: &mut GameRng, min: i32, max: i32) -> (d: i32)
    requires
        min <= max,
    ensures
        (d, final(rng)@) == roll_damage_result(old(rng)@, min, max),
        min <= d <= max,
{
    draw_range(rng, min, max)
}

} // verus!
