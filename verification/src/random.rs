//! The seeded random source that places new nodes.
//!
//! The source is counter-based: a graph remembers its seed and how many
//! words it has drawn, and each word is a function of those two numbers
//! alone. Equal seeds therefore give equal placements.

use crate::fixed::UNIT;
use rand::RngCore;
use rand::SeedableRng;
use vstd::prelude::*;

verus! {

/// The `index`-th 32-bit output (counted from zero) of the `rand_pcg`
/// generator `Pcg32` seeded with `seed`.
pub uninterp spec fn pcg32_output(seed: u64, index: u64) -> u32;

/// Calls `rand_pcg`: seeds a `Pcg32` with `SeedableRng::seed_from_u64`, skips
/// `index` outputs with `Lcg64Xsh32::advance`, and returns the next one from
/// `RngCore::next_u32`. The contract only names that word: the generator is
/// documented to give the same sequence for the same seed on every run and
/// machine. None of the three calls can panic.
#[verifier::external_body]
fn pcg32_word(seed: u64, index: u64) -> (word: u32)
    ensures
        word == pcg32_output(seed, index),
{
    let mut rng = rand_pcg::Pcg32::seed_from_u64(seed);
    rng.advance(index);
    rng.next_u32()
}

/// The coordinate in `[0, UNIT)` that a random word stands for: the word is
/// read as a fraction of `2^32`, and the fraction of a length unit is rounded
/// down to millionths.
pub open spec fn unit_fraction(word: u32) -> int {
    (word as int * UNIT) / 0x1_0000_0000
}

/// Every random word stands for a coordinate in `[0, UNIT)`, and the
/// coordinates grow with the words.
pub proof fn lemma_unit_fraction(word: u32, other: u32)
    ensures
        0 <= unit_fraction(word) < UNIT,
        word <= other ==> unit_fraction(word) <= unit_fraction(other),
{
}

/// Maps a random word to a coordinate in `[0, UNIT)`.
pub fn scale_word(word: u32) -> (c: i64)
    ensures
        c == unit_fraction(word),
        0 <= c < UNIT,
{
    let wide: u64 = word as u64 * 1_000_000;
    (wide / 0x1_0000_0000) as i64
}

/// The counter `count` places after `index`; the stream has period `2^64`,
/// so the counter wraps.
pub open spec fn counter_after(index: u64, count: int) -> u64 {
    ((index as int + count) % 0x1_0000_0000_0000_0000) as u64
}

/// The coordinate drawn at place `index + offset` of the stream of `seed`.
pub open spec fn coordinate_at(seed: u64, index: u64, offset: int) -> int {
    unit_fraction(pcg32_output(seed, counter_after(index, offset)))
}

/// Draws the coordinate at place `index + offset` of the stream of `seed`.
pub fn draw_coordinate(seed: u64, index: u64, offset: u64) -> (c: i64)
    ensures
        c == coordinate_at(seed, index, offset as int),
        0 <= c < UNIT,
{
    let place: u64 = index.wrapping_add(offset);
    scale_word(pcg32_word(seed, place))
}

} // verus!
