//! Numbers of the FT8 mode.

use vstd::prelude::*;

verus! {

/// Samples per tone at 12 kHz.
pub const NSPS: usize = 1920;

/// Samples from one spectrum to the next: half a tone.
pub const NSTEP: usize = 960;

/// Samples of a slot.
pub const NMAX: usize = 180000;

/// Tones of a transmission.
pub const NN: usize = 79;

/// Frequencies that a tone may have.
pub const NTONES: usize = 8;

/// Points of a spectrum.
pub const NFFT_SPEC: usize = 4096;

/// Spectra of a slot.
pub const N_TIME: usize = 184;

/// Pairs of spectra of a slot.
pub const N_PAIRS: usize = 92;

/// The Costas array.
pub const COSTAS: [usize; 7] = [3, 1, 4, 0, 6, 5, 2];

/// Where the three Costas arrays start.
pub const COSTAS_POS: [usize; 3] = [0, 36, 72];

/// Bits of a codeword.
pub const LDPC_N: usize = 174;

/// Iterations granted to belief propagation.
pub const BP_MAX_ITER: u32 = 30;

/// The Costas array has every difference at most once: of two distinct pairs
/// of tones equally far apart in time, the steps in frequency differ.
pub proof fn law_costas_property(i: int, j: int, d: int)
    requires
        0 <= i < j,
        1 <= d,
        j + d < 7,
    ensures
        COSTAS@[i + d] - COSTAS@[i] != COSTAS@[j + d] - COSTAS@[j],
{
    let c = COSTAS@;
    assert(c[0] == 3 && c[1] == 1 && c[2] == 4 && c[3] == 0 && c[4] == 6 && c[5] == 5 && c[6] == 2);
    assert(i == 0 || i == 1 || i == 2 || i == 3 || i == 4);
    assert(j == 1 || j == 2 || j == 3 || j == 4 || j == 5);
    assert(d == 1 || d == 2 || d == 3 || d == 4 || d == 5);
}

} // verus!
