//! Fine refinement of time and frequency in three stages.
//!
//! The sync power is measured by the caller, at 200 samples a second, and
//! handed over as order keys. First the time is searched around the candidate,
//! then the frequency, then the time once more at the better frequency.

use crate::select;
use vstd::prelude::*;

verus! {

/// Samples of a downsampled slot.
pub const CD0_LEN: usize = 3200;

/// Downsampled samples of one tone.
pub const DS_SPB: i64 = 32;

/// First symbol of each Costas array.
pub const BLOCK_OFFSETS: [i64; 3] = [0, 36, 72];

/// Tones of a Costas array.
pub const ICOS7: [u8; 7] = [3, 1, 4, 0, 6, 5, 2];

/// Shifts of the time to either side in the first stage.
pub const STAGE_A_RADIUS: i32 = 10;

/// Half-hertz steps to either side in the second stage.
pub const STAGE_B_RADIUS: i32 = 5;

/// Shifts of the time to either side in the third stage.
pub const STAGE_C_RADIUS: i32 = 4;

/// Order key of the most negative finite number: what is not above it is no
/// measurement.
pub const LOWEST_KEY: u32 = 0x0080_0000;

/// First sample of tone `k` of Costas array `block` of a transmission that
/// starts at sample `i`.
pub open spec fn tone_start(i: int, block: int, k: int) -> int {
    i + 32 * (36 * block + k)
}

/// Where tone `k` of a Costas array lies in a slot of `np2` samples, unless a
/// part of it lies outside: it then adds nothing to the sync power.
pub fn costas_window(i: i32, block: usize, k: usize, np2: usize) -> (start: Option<usize>)
    requires
        block < 3,
        k < 7,
    ensures
        start == (if 0 <= tone_start(i as int, block as int, k as int) && tone_start(
            i as int,
            block as int,
            k as int,
        ) + 32 <= np2 {
            Some(tone_start(i as int, block as int, k as int) as usize)
        } else {
            None
        }),
{
    let start: i64 = i as i64 + BLOCK_OFFSETS[block] * DS_SPB + (k as i64) * DS_SPB;
    assert(start == tone_start(i as int, block as int, k as int));
    if start < 0 {
        return None;
    }
    let start: u64 = start as u64;
    if start + 32 > np2 as u64 {
        None
    } else {
        Some(start as usize)
    }
}

/// The shift with the most sync power, the earliest of equal ones: `keys`
/// belong to the shifts from `-radius` up to `radius`. Without any measurement
/// the centre stays.
pub open spec fn is_best_shift(keys: Seq<u32>, radius: int, shift: int) -> bool {
    ||| select::is_first_peak(keys, shift + radius) && keys[shift + radius] > LOWEST_KEY
    ||| shift == 0 && forall|i: int| 0 <= i < keys.len() ==> #[trigger] keys[i] <= LOWEST_KEY
}

/// Search the time around `center`.
pub fn best_time(center: i32, radius: i32, keys: &[u32]) -> (best: i32)
    requires
        0 <= radius,
        keys@.len() == 2 * radius + 1,
        i32::MIN <= center - radius,
        center + radius <= i32::MAX,
    ensures
        is_best_shift(keys@, radius as int, best - center),
{
    match select::first_peak_above(keys, LOWEST_KEY) {
        Some(at) => (center as i64 - radius as i64 + at as i64) as i32,
        None => center,
    }
}

/// How far a step is from the middle of the sweep.
pub open spec fn distance(step: int) -> int {
    if step < 0 {
        -step
    } else {
        step
    }
}

/// Frequency step `a` is preferred to step `b`: it has more sync power, or as
/// much and is nearer to the original frequency, or as near and comes first.
pub open spec fn preferred(keys: Seq<u32>, a: int, b: int) -> bool {
    let r = STAGE_B_RADIUS as int;
    ||| keys[a + r] > keys[b + r]
    ||| keys[a + r] == keys[b + r] && distance(a) < distance(b)
    ||| keys[a + r] == keys[b + r] && distance(a) == distance(b) && a <= b
}

/// Search the frequency: `keys` belong to the half-hertz steps from -5 to 5.
/// Equal sync power favours the step nearer to the original frequency.
pub fn best_frequency(keys: &[u32]) -> (step: i32)
    requires
        keys@.len() == 11,
    ensures
        -5 <= step <= 5,
        forall|other: int| -5 <= other <= 5 ==> #[trigger] preferred(keys@, step as int, other),
{
    let mut best: i32 = 0;
    for n in 0..11usize
        invariant
            keys@.len() == 11,
            -5 <= best <= 5,
            best == 0 || best < n - 5,
            preferred(keys@, best as int, 0),
            forall|other: int|
                -5 <= other < n - 5 ==> #[trigger] preferred(keys@, best as int, other),
    {
        let step: i32 = n as i32 - STAGE_B_RADIUS;
        let size: i32 = if step < 0 {
            -step
        } else {
            step
        };
        let best_size: i32 = if best < 0 {
            -best
        } else {
            best
        };
        let key: u32 = keys[n];
        let best_key: u32 = keys[(best + STAGE_B_RADIUS) as usize];
        let ghost before = best as int;
        if key > best_key || (key == best_key && size < best_size) {
            best = step;
        }
        assert forall|other: int| -5 <= other < n + 1 - 5 implies #[trigger] preferred(
            keys@,
            best as int,
            other,
        ) by {
            if other < n - 5 {
                assert(preferred(keys@, before, other));
            }
        }
        assert(preferred(keys@, before, 0));
    }
    best
}

/// The original frequency is left only for more sync power.
pub proof fn law_original_frequency_wins_ties(keys: Seq<u32>, step: int)
    requires
        keys.len() == 11,
        -5 <= step <= 5,
        forall|other: int| -5 <= other <= 5 ==> #[trigger] preferred(keys, step, other),
    ensures
        step != 0 ==> keys[step + 5] > keys[5],
{
    assert(preferred(keys, step, 0));
}

/// Where a candidate was found after all.
#[derive(Clone, Copy, Debug, PartialEq, Eq, Structural)]
pub struct FineRefine {
    /// Start of the transmission, in downsampled samples.
    pub start: i32,
    /// Frequency, in half-hertz steps from the candidate's.
    pub step: i32,
    /// Order key of the sync power there.
    pub key: u32,
}

/// Sync powers at the starts around `center`, at one frequency.
pub open spec fn powers<W: Fn(i32, i32) -> u32>(
    power: W,
    center: int,
    radius: int,
    step: i32,
    keys: Seq<u32>,
) -> bool {
    &&& keys.len() == 2 * radius + 1
    &&& forall|n: int|
        0 <= n < keys.len() ==> call_ensures(
            power,
            ((center - radius + n) as i32, step),
            #[trigger] keys[n],
        )
}

/// Sync powers at the frequencies around the candidate's, at one start.
pub open spec fn sweep<W: Fn(i32, i32) -> u32>(power: W, start: i32, keys: Seq<u32>) -> bool {
    &&& keys.len() == 11
    &&& forall|n: int|
        0 <= n < 11 ==> call_ensures(power, (start, (n - 5) as i32), #[trigger] keys[n])
}

/// Measure the sync power around a start.
fn measure<W: Fn(i32, i32) -> u32>(power: &W, center: i32, radius: i32, step: i32) -> (keys: Vec<
    u32,
>)
    requires
        0 <= radius,
        i32::MIN <= center - radius,
        center + radius <= i32::MAX,
        forall|i: i32|
            center - radius <= i <= center + radius ==> #[trigger] call_requires(
                *power,
                (i, step),
            ),
    ensures
        powers(*power, center as int, radius as int, step, keys@),
{
    let mut keys: Vec<u32> = Vec::new();
    for n in 0..2 * radius as i64 + 1
        invariant
            0 <= radius,
            i32::MIN <= center - radius,
            center + radius <= i32::MAX,
            forall|i: i32|
                center - radius <= i <= center + radius ==> #[trigger] call_requires(
                    *power,
                    (i, step),
                ),
            keys@.len() == n,
            forall|q: int|
                0 <= q < n ==> call_ensures(
                    *power,
                    ((center - radius + q) as i32, step),
                    #[trigger] keys@[q],
                ),
    {
        let i: i32 = (center as i64 - radius as i64 + n) as i32;
        let key: u32 = power(i, step);
        assert(call_ensures(*power, ((center - radius + (n as int)) as i32, step), key));
        keys.push(key);
    }
    keys
}

/// The three stages: the best start `ibest` among `a`, the best frequency among
/// `b`, the best start among `c`.
pub open spec fn refined<W: Fn(i32, i32) -> u32>(
    power: W,
    i0: i32,
    ibest: i32,
    a: Seq<u32>,
    b: Seq<u32>,
    c: Seq<u32>,
    r: FineRefine,
) -> bool {
    &&& powers(power, i0 as int, 10, 0, a)
    &&& is_best_shift(a, 10, ibest - i0)
    &&& sweep(power, ibest, b)
    &&& forall|other: int| -5 <= other <= 5 ==> #[trigger] preferred(b, r.step as int, other)
    &&& powers(power, ibest as int, 4, r.step, c)
    &&& is_best_shift(c, 4, r.start - ibest)
    &&& r.key == c[r.start - ibest + 4]
}

/// Refine a candidate that starts at `i0`: the time, the frequency, and the
/// time once more. `power` measures the sync power at a start and a frequency
/// step.
pub fn fine_refine_3stage<W: Fn(i32, i32) -> u32>(power: &W, i0: i32) -> (r: FineRefine)
    requires
        i32::MIN + 14 <= i0 <= i32::MAX - 14,
        forall|i: i32, s: i32|
            i0 - 14 <= i <= i0 + 14 && -5 <= s <= 5 ==> #[trigger] call_requires(*power, (i, s)),
    ensures
        exists|ibest: i32, a: Seq<u32>, b: Seq<u32>, c: Seq<u32>| #[trigger]
            refined(*power, i0, ibest, a, b, c, r),
        -5 <= r.step <= 5,
        i0 - 14 <= r.start <= i0 + 14,
{
    let a: Vec<u32> = measure(power, i0, STAGE_A_RADIUS, 0);
    let ibest: i32 = best_time(i0, STAGE_A_RADIUS, &a);
    assert(i0 - 10 <= ibest <= i0 + 10);
    let mut b: Vec<u32> = Vec::new();
    for n in 0..11i32
        invariant
            i0 - 10 <= ibest <= i0 + 10,
            forall|i: i32, s: i32|
                i0 - 14 <= i <= i0 + 14 && -5 <= s <= 5 ==> #[trigger] call_requires(
                    *power,
                    (i, s),
                ),
            b@.len() == n,
            forall|q: int|
                0 <= q < n ==> call_ensures(*power, (ibest, (q - 5) as i32), #[trigger] b@[q]),
    {
        let key: u32 = power(ibest, n - STAGE_B_RADIUS);
        assert(call_ensures(*power, (ibest, ((n as int) - 5) as i32), key));
        b.push(key);
    }
    assert(sweep(*power, ibest, b@));
    let step: i32 = best_frequency(&b);
    let c: Vec<u32> = measure(power, ibest, STAGE_C_RADIUS, step);
    let start: i32 = best_time(ibest, STAGE_C_RADIUS, &c);
    assert(ibest - 4 <= start <= ibest + 4);
    let r: FineRefine = FineRefine {
        start,
        step,
        key: c[(start - ibest + STAGE_C_RADIUS) as usize],
    };
    assert(refined(*power, i0, ibest, a@, b@, c@, r));
    r
}

} // verus!
