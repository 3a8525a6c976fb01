//! What a WSPR scan decides: where to search, what it has seen before, when
//! another pass is worth its while.

use crate::select;
use vstd::prelude::*;

verus! {

/// Samples by which two sightings of one transmission may differ: one symbol.
pub const TIME_DEDUP_SAMPLES: u64 = 8192;

/// Passes of a scan that subtracts what it has found.
pub const NPASSES: usize = 2;

/// Start times of the alignment grid: steps of `step` from `radius` before
/// `start` to `radius` after it, without those before the audio.
pub open spec fn grid_times(start: int, radius: int, step: int, from: int) -> Seq<int>
    decreases radius + step - from,
{
    if step <= 0 || from > radius {
        Seq::empty()
    } else {
        let rest = grid_times(start, radius, step, from + step);
        if start + from < 0 {
            rest
        } else {
            seq![start + from] + rest
        }
    }
}

/// The start times of the alignment grid, in ascending order.
pub fn refine_times(start_sample: usize, radius: i64, step: i64) -> (times: Vec<usize>)
    requires
        i64::MIN < radius,
        0 < step,
        radius + step <= i64::MAX,
        start_sample <= i64::MAX,
        start_sample + radius <= i64::MAX,
        start_sample + radius <= usize::MAX,
    ensures
        times@.map_values(|t: usize| t as int) == grid_times(
            start_sample as int,
            radius as int,
            step as int,
            -radius,
        ),
{
    let mut times: Vec<usize> = Vec::new();
    let mut dt: i64 = -radius;
    let ghost whole = grid_times(start_sample as int, radius as int, step as int, -radius);
    while dt <= radius
        invariant
            i64::MIN < radius,
            0 < step,
            radius + step <= i64::MAX,
            start_sample <= i64::MAX,
            start_sample + radius <= i64::MAX,
            start_sample + radius <= usize::MAX,
            -radius <= dt,
            dt == -radius || dt <= radius + step,
            times@.map_values(|t: usize| t as int) + grid_times(
                start_sample as int,
                radius as int,
                step as int,
                dt as int,
            ) == whole,
        decreases radius + step - dt,
    {
        let s: i64 = start_sample as i64 + dt;
        let ghost before = times@.map_values(|t: usize| t as int);
        let ghost rest = grid_times(
            start_sample as int,
            radius as int,
            step as int,
            dt + step,
        );
        if s >= 0 {
            times.push(s as usize);
            assert(times@.map_values(|t: usize| t as int) =~= before.push(s as int));
            assert(before.push(s as int) + rest =~= before + (seq![s as int] + rest));
        }
        dt = dt + step;
    }
    assert(times@.map_values(|t: usize| t as int) =~= whole);
    times
}

/// The alignment with the best sync score: `keys` in the order of the grid,
/// `base_key` for the alignment that the search started from, which only a
/// better one displaces.
pub fn best_alignment(base_key: u32, keys: &[u32]) -> (best: Option<usize>)
    ensures
        match best {
            Some(at) => select::is_first_peak(keys@, at as int) && keys@[at as int] > base_key,
            None => forall|i: int| 0 <= i < keys@.len() ==> #[trigger] keys@[i] <= base_key,
        },
{
    select::first_peak_above(keys, base_key)
}

/// A start time in the caller's audio.
#[derive(Clone, Copy, Debug, PartialEq, Eq, Structural)]
pub struct CallerTime {
    /// Samples from the start of the audio; nought where it lies before.
    pub start_sample: usize,
    /// The same, with its sign.
    pub signed: i64,
}

/// A start time in audio with `pad` samples of silence in front, as the caller
/// sees it.
pub fn caller_time(start: usize, pad: usize) -> (time: CallerTime)
    requires
        start <= i64::MAX,
        pad <= i64::MAX,
    ensures
        time.signed == start - pad,
        time.start_sample == (if start < pad {
            0
        } else {
            start - pad
        }),
{
    CallerTime { start_sample: start.saturating_sub(pad), signed: start as i64 - pad as i64 }
}

/// An earlier decode, compared with a new one.
#[derive(Clone, Copy, Debug, PartialEq, Eq, Structural)]
pub struct Sighting {
    pub same_message: bool,
    /// Within five hertz of each other.
    pub near_frequency: bool,
    pub start_sample: usize,
}

impl Sighting {
    /// Whether this is the transmission that starts at `start`.
    pub open spec fn repeats(self, start: int) -> bool {
        &&& self.same_message
        &&& self.near_frequency
        &&& -(TIME_DEDUP_SAMPLES as int) <= self.start_sample - start <= TIME_DEDUP_SAMPLES
    }
}

/// Whether a new decode that starts at `start` was seen before.
pub fn is_duplicate(seen: &[Sighting], start: usize) -> (dup: bool)
    ensures
        dup == exists|i: int| 0 <= i < seen@.len() && (#[trigger] seen@[i]).repeats(start as int),
{
    for i in 0..seen.len()
        invariant
            forall|q: int| 0 <= q < i ==> !(#[trigger] seen@[q]).repeats(start as int),
    {
        let prev: Sighting = seen[i];
        let apart: usize = if prev.start_sample < start {
            start - prev.start_sample
        } else {
            prev.start_sample - start
        };
        if prev.same_message && prev.near_frequency && apart as u64 <= TIME_DEDUP_SAMPLES {
            assert(seen@[i as int].repeats(start as int));
            return true;
        }
    }
    false
}

/// Whether to go on after pass number `pass`, which decoded `decoded` messages
/// and added `added` new ones.
pub fn another_pass(pass: usize, decoded: usize, added: usize) -> (again: bool)
    ensures
        again == (decoded > 0 && added > 0 && pass + 1 < NPASSES),
{
    decoded > 0 && added > 0 && pass < NPASSES - 1
}

} // verus!
