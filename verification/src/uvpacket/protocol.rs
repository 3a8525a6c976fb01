//! Constants of the tone modem that all modes share.

use super::puncture::Mode;
use vstd::prelude::*;

verus! {

/// Tones.
pub const NTONES: usize = 4;

/// Channel bits per tone.
pub const BITS_PER_SYMBOL: usize = 2;

/// Samples per tone: 1200 tones a second at 12 kHz.
pub const NSPS: usize = 10;

/// Tones of an unpunctured block.
pub const N_DATA: usize = 120;

/// Known tones of a block.
pub const N_SYNC: usize = 4;

/// All tones of an unpunctured block.
pub const N_SYMBOLS: usize = 124;

/// Gray map from a pair of bits to a tone.
pub const GRAY_4: [u8; 4] = [0, 1, 3, 2];

/// Tones that carry the bits of one block.
pub fn data_symbols_per_block(mode: Mode) -> (n: usize)
    ensures
        2 * n == mode.channel_bits(),
{
    mode.ch_bits_per_block() / BITS_PER_SYMBOL
}

/// Pairs of bits whose tones are neighbours differ in one bit: a confusion of
/// neighbouring tones costs a single bit.
pub proof fn law_gray_neighbours_differ_in_one_bit(a: int, b: int)
    requires
        0 <= a < 4,
        0 <= b < 4,
        GRAY_4@[a] + 1 == GRAY_4@[b],
    ensures
        (a / 2 == b / 2) != (a % 2 == b % 2),
{
    if a == 0 {
    } else if a == 1 {
    } else if a == 2 {
    } else {
    }
}

} // verus!
