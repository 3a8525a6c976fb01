//! Frame-head preamble and pilots.
//!
//! The preamble is a maximum-length sequence of 31 chips from the shift
//! register with polynomial x^5 + x^2 + 1, started with a single one. Its
//! cyclic autocorrelation is minus one at every shift but nought.

use vstd::prelude::*;

verus! {

/// Chips of the preamble.
pub const PREAMBLE_LEN: usize = 31;

/// The preamble in sending order: `true` is sent as -1, `false` as +1.
pub const UVPACKET_PREAMBLE_BPSK_BITS: [bool; 31] = [
    true, false, false, false, false, true, false, false, true, false, true, true, false, false,
    true, true, true, true, true, false, false, false, true, true, false, true, true, true, false,
    true, false,
];

/// Every so many symbols after the preamble one is a known pilot.
pub const PILOT_SYMBOL_INTERVAL: usize = 32;

/// Constellation point of a pilot.
pub const PILOT_QPSK_POINT: u8 = 0;

/// The tones that stand before each block and after the last one.
pub const UVPACKET_COSTAS: [u8; 4] = [0, 1, 3, 2];

/// A run of known tones in a frame.
#[derive(Clone, Copy, Debug)]
pub struct SyncBlock {
    pub start_symbol: u32,
    pub pattern: [u8; 4],
}

/// The known tones of one block: the Costas array at its start.
pub fn uvpacket_sync_block() -> (block: SyncBlock)
    ensures
        block.start_symbol == 0,
        block.pattern@ == UVPACKET_COSTAS@,
{
    SyncBlock { start_symbol: 0, pattern: UVPACKET_COSTAS }
}

/// The register after one step: it moves right, and the sum of its first and
/// third bit enters at the left.
pub open spec fn register_step(state: int) -> int {
    state / 2 + 16 * ((state / 4 + state) % 2)
}

/// The register after `i` steps from a single one.
pub open spec fn register_after(i: nat) -> int
    decreases i,
{
    if i == 0 {
        1
    } else {
        register_step(register_after((i - 1) as nat))
    }
}

/// The chip that the register puts out after `i` steps.
pub open spec fn register_chip(i: nat) -> bool {
    register_after(i) % 2 == 1
}

/// Number of ones among the first `i` chips.
pub open spec fn ones_among(i: nat) -> nat
    decreases i,
{
    if i == 0 {
        0
    } else {
        ones_among((i - 1) as nat) + (if UVPACKET_PREAMBLE_BPSK_BITS@[i - 1] {
            1nat
        } else {
            0nat
        })
    }
}

/// A chip as sent.
pub open spec fn chip_level(i: int) -> int {
    if UVPACKET_PREAMBLE_BPSK_BITS@[i] {
        -1
    } else {
        1
    }
}

/// The first `i` terms of the cyclic correlation at a shift.
pub open spec fn correlation(shift: int, i: nat) -> int
    decreases i,
{
    if i == 0 {
        0
    } else {
        correlation(shift, (i - 1) as nat) + chip_level(i - 1) * chip_level((i - 1 + shift) % 31)
    }
}

/// The preamble is what the shift register puts out, and the register is back
/// at its start after 31 steps.
pub proof fn law_preamble_is_the_register_output(i: nat)
    requires
        i < 31,
    ensures
        UVPACKET_PREAMBLE_BPSK_BITS@[i as int] == register_chip(i),
        register_after(31) == 1,
{
    assert(register_after(0) == 1);
    assert(register_after(1) == 16);
    assert(register_after(2) == 8);
    assert(register_after(3) == 4);
    assert(register_after(4) == 18);
    assert(register_after(5) == 9);
    assert(register_after(6) == 20);
    assert(register_after(7) == 26);
    assert(register_after(8) == 13);
    assert(register_after(9) == 6);
    assert(register_after(10) == 19);
    assert(register_after(11) == 25);
    assert(register_after(12) == 28);
    assert(register_after(13) == 30);
    assert(register_after(14) == 31);
    assert(register_after(15) == 15);
    assert(register_after(16) == 7);
    assert(register_after(17) == 3);
    assert(register_after(18) == 17);
    assert(register_after(19) == 24);
    assert(register_after(20) == 12);
    assert(register_after(21) == 22);
    assert(register_after(22) == 27);
    assert(register_after(23) == 29);
    assert(register_after(24) == 14);
    assert(register_after(25) == 23);
    assert(register_after(26) == 11);
    assert(register_after(27) == 21);
    assert(register_after(28) == 10);
    assert(register_after(29) == 5);
    assert(register_after(30) == 2);
    assert(register_after(31) == 1);
}

/// The preamble is balanced as well as an odd length allows: sixteen ones and
/// fifteen zeros.
pub proof fn law_preamble_is_balanced()
    ensures
        ones_among(31) == 16,
{
    reveal_with_fuel(ones_among, 32);
}

/// The cyclic autocorrelation of the preamble is 31 at no shift and minus one
/// at every other.
#[verifier::spinoff_prover]
pub proof fn law_preamble_autocorrelation(shift: int)
    requires
        0 <= shift < 31,
    ensures
        correlation(shift, 31) == (if shift == 0 {
            31int
        } else {
            -1
        }),
{
    if shift == 0 {
        assert(correlation(0, 31) == 31) by {
            reveal_with_fuel(correlation, 32);
        }
    }
    if shift == 1 {
        assert(correlation(1, 31) == -1) by {
            reveal_with_fuel(correlation, 32);
        }
    }
    if shift == 2 {
        assert(correlation(2, 31) == -1) by {
            reveal_with_fuel(correlation, 32);
        }
    }
    if shift == 3 {
        assert(correlation(3, 31) == -1) by {
            reveal_with_fuel(correlation, 32);
        }
    }
    if shift == 4 {
        assert(correlation(4, 31) == -1) by {
            reveal_with_fuel(correlation, 32);
        }
    }
    if shift == 5 {
        assert(correlation(5, 31) == -1) by {
            reveal_with_fuel(correlation, 32);
        }
    }
    if shift == 6 {
        assert(correlation(6, 31) == -1) by {
            reveal_with_fuel(correlation, 32);
        }
    }
    if shift == 7 {
        assert(correlation(7, 31) == -1) by {
            reveal_with_fuel(correlation, 32);
        }
    }
    if shift == 8 {
        assert(correlation(8, 31) == -1) by {
            reveal_with_fuel(correlation, 32);
        }
    }
    if shift == 9 {
        assert(correlation(9, 31) == -1) by {
            reveal_with_fuel(correlation, 32);
        }
    }
    if shift == 10 {
        assert(correlation(10, 31) == -1) by {
            reveal_with_fuel(correlation, 32);
        }
    }
    if shift == 11 {
        assert(correlation(11, 31) == -1) by {
            reveal_with_fuel(correlation, 32);
        }
    }
    if shift == 12 {
        assert(correlation(12, 31) == -1) by {
            reveal_with_fuel(correlation, 32);
        }
    }
    if shift == 13 {
        assert(correlation(13, 31) == -1) by {
            reveal_with_fuel(correlation, 32);
        }
    }
    if shift == 14 {
        assert(correlation(14, 31) == -1) by {
            reveal_with_fuel(correlation, 32);
        }
    }
    if shift == 15 {
        assert(correlation(15, 31) == -1) by {
            reveal_with_fuel(correlation, 32);
        }
    }
    if shift == 16 {
        assert(correlation(16, 31) == -1) by {
            reveal_with_fuel(correlation, 32);
        }
    }
    if shift == 17 {
        assert(correlation(17, 31) == -1) by {
            reveal_with_fuel(correlation, 32);
        }
    }
    if shift == 18 {
        assert(correlation(18, 31) == -1) by {
            reveal_with_fuel(correlation, 32);
        }
    }
    if shift == 19 {
        assert(correlation(19, 31) == -1) by {
            reveal_with_fuel(correlation, 32);
        }
    }
    if shift == 20 {
        assert(correlation(20, 31) == -1) by {
            reveal_with_fuel(correlation, 32);
        }
    }
    if shift == 21 {
        assert(correlation(21, 31) == -1) by {
            reveal_with_fuel(correlation, 32);
        }
    }
    if shift == 22 {
        assert(correlation(22, 31) == -1) by {
            reveal_with_fuel(correlation, 32);
        }
    }
    if shift == 23 {
        assert(correlation(23, 31) == -1) by {
            reveal_with_fuel(correlation, 32);
        }
    }
    if shift == 24 {
        assert(correlation(24, 31) == -1) by {
            reveal_with_fuel(correlation, 32);
        }
    }
    if shift == 25 {
        assert(correlation(25, 31) == -1) by {
            reveal_with_fuel(correlation, 32);
        }
    }
    if shift == 26 {
        assert(correlation(26, 31) == -1) by {
            reveal_with_fuel(correlation, 32);
        }
    }
    if shift == 27 {
        assert(correlation(27, 31) == -1) by {
            reveal_with_fuel(correlation, 32);
        }
    }
    if shift == 28 {
        assert(correlation(28, 31) == -1) by {
            reveal_with_fuel(correlation, 32);
        }
    }
    if shift == 29 {
        assert(correlation(29, 31) == -1) by {
            reveal_with_fuel(correlation, 32);
        }
    }
    if shift == 30 {
        assert(correlation(30, 31) == -1) by {
            reveal_with_fuel(correlation, 32);
        }
    }
}

} // verus!
