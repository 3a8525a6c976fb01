//! The sync threshold of the JT9 decoder and its report of time.

use super::softsym;
use vstd::prelude::*;

verus! {

/// Order key of the sync score that a candidate has to reach: one and a half.
pub const SYNC_MIN_KEY: u32 = 0xBFC0_0000;

/// Order key of infinity: keys from here on are no finite scores.
pub const INFINITE_KEY: u32 = 0xFF80_0000;

/// Whether a candidate's sync score is finite and good enough.
pub fn reaches_sync(score_key: u32) -> (pass: bool)
    ensures
        pass == (SYNC_MIN_KEY <= score_key < INFINITE_KEY),
{
    score_key >= SYNC_MIN_KEY && score_key < INFINITE_KEY
}

/// Sample of the audio at which the first symbol of a frame starts that was
/// found at a lag of the baseband; nought where it lies before the audio.
pub fn lag_to_audio_sample(lagpk: i64) -> (sample: usize)
    requires
        lagpk <= 9000000,
    ensures
        sample == 432 * (if softsym::slice_start(lagpk as int) < 0 {
            0
        } else {
            softsym::slice_start(lagpk as int)
        }),
{
    if lagpk < 95 {
        0
    } else {
        (lagpk - 95) as usize * softsym::NDOWN
    }
}

/// A decoded frame.
pub struct Jt9Decode<M> {
    pub message: M,
    /// Sample of the audio at which it starts.
    pub start_sample: usize,
}

/// Decode the frame of one candidate: `peak` is its lag and the order key of
/// its sync score, `decode` what is read at a lag, and whether it has the
/// standard form. Nothing else is taken for a message.
pub fn decode_at_baseband_with_fft<M, D: Fn(i64) -> Option<(M, bool)>>(
    peak: (i64, u32),
    decode: &D,
) -> (found: Option<Jt9Decode<M>>)
    requires
        softsym::LAG1 <= peak.0 <= softsym::LAG2,
        call_requires(*decode, (peak.0,)),
    ensures
        !(SYNC_MIN_KEY <= peak.1 < INFINITE_KEY) ==> found is None,
        SYNC_MIN_KEY <= peak.1 < INFINITE_KEY ==> exists|read: Option<(M, bool)>|
            {
                &&& #[trigger] call_ensures(*decode, (peak.0,), read)
                &&& match read {
                    Some((message, true)) => found matches Some(d) && d.message == message
                        && d.start_sample == 432 * (if softsym::slice_start(peak.0 as int) < 0 {
                        0
                    } else {
                        softsym::slice_start(peak.0 as int)
                    }),
                    _ => found is None,
                }
            },
{
    if !reaches_sync(peak.1) {
        return None;
    }
    let read: Option<(M, bool)> = decode(peak.0);
    let ghost what = read;
    assert(call_ensures(*decode, (peak.0,), what));
    match read {
        Some((message, standard)) => {
            if standard {
                Some(Jt9Decode { message, start_sample: lag_to_audio_sample(peak.0) })
            } else {
                None
            }
        },
        None => None,
    }
}

} // verus!
