//! The soft demodulator's reading of spectrum, baseband and symbols.
//!
//! The transforms and the power sums are the caller's; what is moved where,
//! and which of several measurements wins, is decided here.

use crate::select;
use vstd::prelude::*;

verus! {

/// Points of the transform of a whole slot.
pub const NFFT1: usize = 653184;

/// Points of the baseband of one candidate.
pub const NFFT2: usize = 1512;

/// Baseband samples of one symbol.
pub const NSPSD: usize = 16;

/// Baseband samples of a frame.
pub const NZ3: usize = 1360;

/// Audio samples of one baseband sample.
pub const NDOWN: usize = 432;

/// Symbols of a frame.
pub const N_SYMBOLS: usize = 85;

/// Symbols of a frame that carry data.
pub const N_DATA: usize = 69;

/// Lag that is reported where no lag could be measured.
pub const LAG0: i64 = 123;

/// First and last lag of the search.
pub const LAG1: i64 = 39;

pub const LAG2: i64 = 291;

/// Samples of silence in front of the symbol powers: five symbols.
pub const FRONT: usize = 80;

/// Symbol powers, with the silence in front.
pub const N_POWERS: usize = 1592;

/// Order key of minus infinity: what is not above it is no measurement.
pub const NO_SCORE_KEY: u32 = 0x007F_FFFF;

/// The decimation is exact.
pub proof fn law_decimation_is_exact()
    ensures
        NFFT1 == NFFT2 * NDOWN,
        NZ3 == N_SYMBOLS * NSPSD,
        N_POWERS == NFFT2 + FRONT,
{
}

/// Bin of the slot's spectrum that becomes bin `i` of the baseband around bin
/// `i0`: the upper half of the baseband lies below the centre.
pub open spec fn source_bin(i0: int, i: int) -> int {
    if i > 756 {
        i0 + i - 1512
    } else {
        i0 + i
    }
}

/// Select the baseband's bins from the slot's spectrum; bins that it does not
/// have are `silence`.
pub fn select_bins<T: Copy>(c1: &[T], i0: i64, silence: T) -> (c2: Vec<T>)
    ensures
        c2@.len() == 1512,
        forall|i: int|
            0 <= i < 1512 ==> #[trigger] c2@[i] == (if 0 <= source_bin(i0 as int, i) < c1@.len() {
                c1@[source_bin(i0 as int, i)]
            } else {
                silence
            }),
{
    let mut c2: Vec<T> = Vec::with_capacity(NFFT2);
    for i in 0..NFFT2
        invariant
            c2@.len() == i,
            forall|q: int|
                0 <= q < i ==> #[trigger] c2@[q] == (if 0 <= source_bin(i0 as int, q) < c1@.len() {
                    c1@[source_bin(i0 as int, q)]
                } else {
                    silence
                }),
    {
        let mut j: i128 = i0 as i128 + i as i128;
        if i > NFFT2 / 2 {
            j = j - NFFT2 as i128;
        }
        if j >= 0 && j < c1.len() as i128 {
            c2.push(c1[j as usize]);
        } else {
            c2.push(silence);
        }
    }
    c2
}

/// First and last entry of the envelope, at one entry per hertz, in which the
/// noise around `nf` hertz is measured.
pub fn noise_window(nf: i64, envelope_len: usize) -> (w: (usize, usize))
    requires
        2 <= envelope_len,
        -99 <= nf <= envelope_len + 99,
    ensures
        w.0 == (if nf <= 101 {
            1
        } else {
            nf - 100
        }),
        w.1 == (if nf + 100 < envelope_len {
            nf + 100
        } else {
            envelope_len - 1
        }),
        w.0 <= w.1 < envelope_len,
{
    let first: usize = if nf <= 101 {
        1
    } else {
        (nf - 100) as usize
    };
    let end: i128 = nf as i128 + 100;
    let last: usize = if end < envelope_len as i128 {
        end as usize
    } else {
        envelope_len - 1
    };
    (first, last)
}

/// The noise level: the entry two fifths up the sorted window.
pub fn noise_key(window: &[u32]) -> (key: u32)
    requires
        0 < window@.len(),
        window@.len() * 40 <= usize::MAX,
    ensures
        select::is_nth_smallest(window@, window@.len() as int * 40 / 100, key),
{
    let place: usize = window.len() * 40 / 100;
    select::nth_smallest(window, place)
}

/// First sample of the sliding sum that ends at sample `i`.
pub fn window_start(i: usize) -> (lo: usize)
    requires
        i < usize::MAX,
    ensures
        lo == (if i + 1 < 16 {
            0
        } else {
            i + 1 - 16
        }),
{
    (i + 1).saturating_sub(NSPSD)
}

/// The symbols of kind `kind` (one for sync, nought for data) among the first
/// `n` whose power exists at a lag.
pub open spec fn powers_at(isync: Seq<u8>, lag: int, sync: bool, n: int) -> Seq<usize>
    decreases n,
{
    if n <= 0 {
        Seq::empty()
    } else {
        let rest = powers_at(isync, lag, sync, n - 1);
        let idx = 16 * (n - 1) + lag;
        if 0 <= idx < 1592 && (isync[n - 1] == 1) == sync {
            rest.push(idx as usize)
        } else {
            rest
        }
    }
}

/// Each number is that of a symbol power.
pub open spec fn are_powers(places: Seq<usize>) -> bool {
    forall|i: int| 0 <= i < places.len() ==> #[trigger] places[i] < N_POWERS
}

proof fn lemma_powers_exist(isync: Seq<u8>, lag: int, sync: bool, n: int)
    ensures
        are_powers(powers_at(isync, lag, sync, n)),
    decreases n,
{
    if n > 0 {
        lemma_powers_exist(isync, lag, sync, n - 1);
    }
}

/// The symbol powers to sum at a lag: of the sync symbols, and of the others.
pub fn lag_powers(isync: &[u8], lag: i64) -> (idx: (Vec<usize>, Vec<usize>))
    requires
        isync@.len() == 85,
    ensures
        idx.0@ == powers_at(isync@, lag as int, true, 85),
        idx.1@ == powers_at(isync@, lag as int, false, 85),
{
    let mut sync: Vec<usize> = Vec::new();
    let mut data: Vec<usize> = Vec::new();
    for sym in 0..N_SYMBOLS
        invariant
            isync@.len() == 85,
            sync@ == powers_at(isync@, lag as int, true, sym as int),
            data@ == powers_at(isync@, lag as int, false, sym as int),
    {
        let idx: i128 = (sym * NSPSD) as i128 + lag as i128;
        if idx >= 0 && idx < N_POWERS as i128 {
            if isync[sym] == 1 {
                sync.push(idx as usize);
            } else {
                data.push(idx as usize);
            }
        }
    }
    (sync, data)
}

/// Baseband sample at which the frame starts that was found at a lag.
pub open spec fn slice_start(lagpk: int) -> int {
    lagpk - 80 - 16 + 1
}

/// Cut a frame out of the baseband; what lies outside is `silence`.
pub fn cut_frame<T: Copy>(c2: &[T], lagpk: i64, silence: T) -> (c3: Vec<T>)
    requires
        c2@.len() == 1512,
    ensures
        c3@.len() == 1360,
        forall|i: int|
            0 <= i < 1360 ==> #[trigger] c3@[i] == (if 0 <= slice_start(lagpk as int) + i < 1512 {
                c2@[slice_start(lagpk as int) + i]
            } else {
                silence
            }),
{
    let mut c3: Vec<T> = Vec::with_capacity(NZ3);
    for i in 0..NZ3
        invariant
            c2@.len() == 1512,
            c3@.len() == i,
            forall|q: int|
                0 <= q < i ==> #[trigger] c3@[q] == (if 0 <= slice_start(lagpk as int) + q < 1512 {
                    c2@[slice_start(lagpk as int) + q]
                } else {
                    silence
                }),
    {
        let j: i128 = i as i128 + lagpk as i128 - FRONT as i128 - NSPSD as i128 + 1;
        if j >= 0 && j < NFFT2 as i128 {
            c3.push(c2[j as usize]);
        } else {
            c3.push(silence);
        }
    }
    c3
}

/// The data symbols among the first `n`.
pub open spec fn data_symbols(isync: Seq<u8>, n: int) -> Seq<usize>
    decreases n,
{
    if n <= 0 {
        Seq::empty()
    } else {
        let rest = data_symbols(isync, n - 1);
        if isync[n - 1] == 0 {
            rest.push((n - 1) as usize)
        } else {
            rest
        }
    }
}

/// Drop the sync symbols from a row of symbol powers.
pub fn data_powers<T: Copy>(isync: &[u8], row: &[T]) -> (data: Vec<T>)
    requires
        isync@.len() == 85,
        row@.len() == 85,
    ensures
        data@ == data_symbols(isync@, 85).map_values(|s: usize| row@[s as int]),
{
    let mut data: Vec<T> = Vec::new();
    assert(data@ =~= data_symbols(isync@, 0).map_values(|s: usize| row@[s as int]));
    for j in 0..N_SYMBOLS
        invariant
            isync@.len() == 85,
            row@.len() == 85,
            data@ == data_symbols(isync@, j as int).map_values(|s: usize| row@[s as int]),
    {
        if isync[j] == 0 {
            data.push(row[j]);
        }
        assert(data@ =~= data_symbols(isync@, j + 1).map_values(|s: usize| row@[s as int]));
    }
    data
}

/// The tones with which a symbol carries a one in bit `m`, and those with
/// which it carries a nought.
pub fn bit_tones(m: usize) -> (tones: ([usize; 4], [usize; 4]))
    requires
        m < 3,
    ensures
        m == 2 ==> tones.0@ == seq![4usize, 5, 6, 7] && tones.1@ == seq![0usize, 1, 2, 3],
        m == 1 ==> tones.0@ == seq![2usize, 3, 4, 5] && tones.1@ == seq![0usize, 1, 6, 7],
        m == 0 ==> tones.0@ == seq![1usize, 2, 4, 7] && tones.1@ == seq![0usize, 3, 5, 6],
{
    let tones: ([usize; 4], [usize; 4]) = if m == 2 {
        ([4, 5, 6, 7], [0, 1, 2, 3])
    } else if m == 1 {
        ([2, 3, 4, 5], [0, 1, 6, 7])
    } else {
        ([1, 2, 4, 7], [0, 3, 5, 6])
    };
    assert(tones.0@ =~= seq![tones.0@[0], tones.0@[1], tones.0@[2], tones.0@[3]]);
    assert(tones.1@ =~= seq![tones.1@[0], tones.1@[1], tones.1@[2], tones.1@[3]]);
    tones
}

/// The three bits that tone `tone` carries.
pub open spec fn tone_bits(tone: u8) -> u8 {
    tone ^ tone >> 1 ^ tone >> 2
}

/// Every tone carries a one or a nought in every bit, and the three bits name
/// the tone whose Gray code is the tone's number.
pub proof fn law_tones_carry_gray_bits(tone: u8)
    requires
        tone < 8,
    ensures
        seq![4usize, 5, 6, 7].contains(tone as usize) <==> tone_bits(tone) & 4 == 4,
        seq![2usize, 3, 4, 5].contains(tone as usize) <==> tone_bits(tone) & 2 == 2,
        seq![1usize, 2, 4, 7].contains(tone as usize) <==> tone_bits(tone) & 1 == 1,
        tone_bits(tone) ^ tone_bits(tone) >> 1 == tone,
{
    let b = tone_bits(tone);
    assert(b == tone ^ tone >> 1 ^ tone >> 2);
    assert((b & 4 == 4) == (tone >= 4)) by (bit_vector)
        requires
            tone < 8,
            b == tone ^ tone >> 1 ^ tone >> 2,
    ;
    assert((b & 2 == 2) == (2 <= tone && tone <= 5)) by (bit_vector)
        requires
            tone < 8,
            b == tone ^ tone >> 1 ^ tone >> 2,
    ;
    assert((b & 1 == 1) == (tone == 1 || tone == 2 || tone == 4 || tone == 7)) by (bit_vector)
        requires
            tone < 8,
            b == tone ^ tone >> 1 ^ tone >> 2,
    ;
    assert(b ^ b >> 1 == tone) by (bit_vector)
        requires
            tone < 8,
            b == tone ^ tone >> 1 ^ tone >> 2,
    ;
    let four = seq![4usize, 5, 6, 7];
    let two = seq![2usize, 3, 4, 5];
    let one = seq![1usize, 2, 4, 7];
    if tone >= 4 {
        assert(four[tone - 4] == tone);
    }
    if 2 <= tone <= 5 {
        assert(two[tone - 2] == tone);
    }
    if tone == 1 {
        assert(one[0] == tone);
    } else if tone == 2 {
        assert(one[1] == tone);
    } else if tone == 4 {
        assert(one[2] == tone);
    } else if tone == 7 {
        assert(one[3] == tone);
    }
}

/// Drop the padding after the 206 code bits.
pub fn drop_padding<T: Copy>(s207: &[T; 207]) -> (s206: [T; 206])
    ensures
        forall|i: int| 0 <= i < 206 ==> #[trigger] s206@[i] == s207@[i],
{
    let mut s206: [T; 206] = [s207[0]; 206];
    for i in 0..206usize
        invariant
            forall|q: int| 0 <= q < i ==> #[trigger] s206@[q] == s207@[q],
    {
        s206[i] = s207[i];
    }
    s206
}

/// A mixing offset, and what a finer estimate needs.
#[derive(Clone, Copy, Debug, PartialEq, Eq)]
pub struct MixingOffset {
    /// Tenths of the tone spacing, at most one spacing either way.
    pub tenths: i32,
    /// Order keys of the sync power a tenth below, here, and a tenth above; all
    /// the same at the ends of the search.
    pub around: (u32, u32, u32),
}

/// The keys beside number `at` of 21.
pub open spec fn beside(keys: Seq<u32>, at: int) -> (u32, u32, u32) {
    if 0 < at < 20 {
        (keys[at - 1], keys[at], keys[at + 1])
    } else {
        (keys[at], keys[at], keys[at])
    }
}

/// The mixing offset with the most sync power, the first of equal ones: `keys`
/// belong to the offsets from -10 to 10 tenths of the tone spacing. Without any
/// measurement there is none.
pub open spec fn is_best_offset(keys: Seq<u32>, best: MixingOffset) -> bool {
    &&& -10 <= best.tenths <= 10
    &&& best.around == beside(keys, best.tenths + 10)
    &&& (select::is_first_peak(keys, best.tenths + 10) && keys[best.tenths + 10] > NO_SCORE_KEY)
        || (best.tenths == 0 && forall|i: int|
        0 <= i < keys.len() ==> #[trigger] keys[i] <= NO_SCORE_KEY)
}

/// Find the mixing offset with the most sync power.
pub fn best_offset(keys: &[u32]) -> (best: MixingOffset)
    requires
        keys@.len() == 21,
    ensures
        is_best_offset(keys@, best),
{
    let at: usize = match select::first_peak_above(keys, NO_SCORE_KEY) {
        Some(at) => at,
        None => 10,
    };
    let here: u32 = keys[at];
    let around: (u32, u32, u32) = if at > 0 && at < 20 {
        (keys[at - 1], here, keys[at + 1])
    } else {
        (here, here, here)
    };
    MixingOffset { tenths: at as i32 - 10, around }
}

/// Scores of the lags, from the first to the last of the search.
pub open spec fn lag_scores<W: Fn(&Vec<usize>, &Vec<usize>) -> u32>(
    score: W,
    isync: Seq<u8>,
    keys: Seq<u32>,
) -> bool {
    &&& keys.len() == 253
    &&& forall|n: int|
        0 <= n < 253 ==> scores_lag(score, isync, LAG1 + n, #[trigger] keys[n])
}

/// The score of a lag, given the powers to sum.
pub open spec fn scores_lag<W: Fn(&Vec<usize>, &Vec<usize>) -> u32>(
    score: W,
    isync: Seq<u8>,
    lag: int,
    key: u32,
) -> bool {
    exists|sync: &Vec<usize>, data: &Vec<usize>|
        sync@ == powers_at(isync, lag, true, 85) && data@ == powers_at(isync, lag, false, 85)
            && #[trigger] call_ensures(score, (sync, data), key)
}

/// Search the lag of a frame. `score` gives the order key of the score that
/// the powers of sync and data symbols make up, nought where there is none.
pub fn peakdt9<W: Fn(&Vec<usize>, &Vec<usize>) -> u32>(score: &W, isync: &[u8]) -> (peak: (i64, u32))
    requires
        isync@.len() == 85,
        forall|s: &Vec<usize>, d: &Vec<usize>|
            are_powers(s@) && are_powers(d@) ==> #[trigger] call_requires(*score, (s, d)),
    ensures
        exists|keys: Seq<u32>|
            {
                &&& #[trigger] lag_scores(*score, isync@, keys)
                &&& ({
                    ||| select::is_first_peak(keys, peak.0 - LAG1) && keys[peak.0 - LAG1]
                        > NO_SCORE_KEY && peak.1 == keys[peak.0 - LAG1]
                    ||| peak.0 == LAG0 && peak.1 == NO_SCORE_KEY && forall|i: int|
                        0 <= i < keys.len() ==> #[trigger] keys[i] <= NO_SCORE_KEY
                })
            },
        LAG1 <= peak.0 <= LAG2,
{
    let mut keys: Vec<u32> = Vec::new();
    for n in 0..253usize
        invariant
            isync@.len() == 85,
            forall|s: &Vec<usize>, d: &Vec<usize>|
                are_powers(s@) && are_powers(d@) ==> #[trigger] call_requires(*score, (s, d)),
            keys@.len() == n,
            forall|q: int|
                0 <= q < n ==> scores_lag(*score, isync@, LAG1 + q, #[trigger] keys@[q]),
    {
        let lag: i64 = LAG1 + n as i64;
        let (sync, data): (Vec<usize>, Vec<usize>) = lag_powers(isync, lag);
        proof {
            lemma_powers_exist(isync@, lag as int, true, 85);
            lemma_powers_exist(isync@, lag as int, false, 85);
        }
        let key: u32 = score(&sync, &data);
        assert(call_ensures(*score, (&sync, &data), key));
        assert(scores_lag(*score, isync@, LAG1 + (n as int), key));
        keys.push(key);
    }
    assert(lag_scores(*score, isync@, keys@));
    match select::first_peak_above(&keys, NO_SCORE_KEY) {
        Some(at) => (LAG1 + at as i64, keys[at]),
        None => (LAG0, NO_SCORE_KEY),
    }
}

/// Each number is that of a data tone.
pub open spec fn are_tones(tones: [usize; 4]) -> bool {
    forall|i: int| 0 <= i < 4 ==> #[trigger] tones@[i] < 8
}

/// The soft value of bit `m` of symbol `j`, given the tones of both values.
pub open spec fn soft_bit<T, W: Fn(usize, [usize; 4], [usize; 4]) -> T>(
    soft: W,
    j: int,
    m: int,
    v: T,
) -> bool {
    exists|ones: [usize; 4], zeros: [usize; 4]|
        {
            &&& m == 2 ==> ones@ == seq![4usize, 5, 6, 7] && zeros@ == seq![0usize, 1, 2, 3]
            &&& m == 1 ==> ones@ == seq![2usize, 3, 4, 5] && zeros@ == seq![0usize, 1, 6, 7]
            &&& m == 0 ==> ones@ == seq![1usize, 2, 4, 7] && zeros@ == seq![0usize, 3, 5, 6]
            &&& #[trigger] call_ensures(soft, (j as usize, ones, zeros), v)
        }
}

/// The soft values of all data symbols, three for each, the highest bit first.
/// `soft` compares a symbol's strongest tones for one and nought.
pub fn symspec2<T, W: Fn(usize, [usize; 4], [usize; 4]) -> T>(soft: &W) -> (llrs: Vec<T>)
    requires
        forall|j: usize, ones: [usize; 4], zeros: [usize; 4]|
            j < 69 && are_tones(ones) && are_tones(zeros) ==> #[trigger] call_requires(
                *soft,
                (j, ones, zeros),
            ),
    ensures
        llrs@.len() == 207,
        forall|j: int, m: int|
            0 <= j < 69 && 0 <= m < 3 ==> soft_bit(*soft, j, m, #[trigger] llrs@[3 * j + 2 - m]),
{
    let mut llrs: Vec<T> = Vec::new();
    for j in 0..N_DATA
        invariant
            forall|j: usize, ones: [usize; 4], zeros: [usize; 4]|
                j < 69 && are_tones(ones) && are_tones(zeros) ==> #[trigger] call_requires(
                    *soft,
                    (j, ones, zeros),
                ),
            llrs@.len() == 3 * j,
            forall|q: int, m: int|
                0 <= q < j && 0 <= m < 3 ==> soft_bit(*soft, q, m, #[trigger] llrs@[3 * q + 2 - m]),
    {
        for n in 0..3usize
            invariant
                j < 69,
                forall|j: usize, ones: [usize; 4], zeros: [usize; 4]|
                    j < 69 && are_tones(ones) && are_tones(zeros) ==> #[trigger] call_requires(
                        *soft,
                        (j, ones, zeros),
                    ),
                llrs@.len() == 3 * j + n,
                forall|q: int, m: int|
                    0 <= m < 3 && (0 <= q < j || q == j && 2 - m < n) ==> soft_bit(
                        *soft,
                        q,
                        m,
                        #[trigger] llrs@[3 * q + 2 - m],
                    ),
        {
            let (ones, zeros): ([usize; 4], [usize; 4]) = bit_tones(2 - n);
            let v: T = soft(j, ones, zeros);
            assert(call_ensures(*soft, ((j as int) as usize, ones, zeros), v));
            assert(soft_bit(*soft, j as int, 2 - n, v));
            llrs.push(v);
        }
    }
    llrs
}

/// Search the mixing offset, up to one tone spacing either way. `power` gives
/// the order key of the sync power after mixing by so many tenths of the
/// spacing.
pub fn afc_simple<W: Fn(i32) -> u32>(power: &W) -> (best: MixingOffset)
    requires
        forall|t: i32| -10 <= t <= 10 ==> #[trigger] call_requires(*power, (t,)),
    ensures
        exists|keys: Seq<u32>| #[trigger]
            offset_powers(*power, keys) && is_best_offset(keys, best),
        -10 <= best.tenths <= 10,
{
    let mut keys: Vec<u32> = Vec::new();
    for n in 0..21i32
        invariant
            forall|t: i32| -10 <= t <= 10 ==> #[trigger] call_requires(*power, (t,)),
            keys@.len() == n,
            forall|q: int|
                0 <= q < n ==> call_ensures(*power, ((q - 10) as i32,), #[trigger] keys@[q]),
    {
        let key: u32 = power(n - 10);
        assert(call_ensures(*power, (((n as int) - 10) as i32,), key));
        keys.push(key);
    }
    assert(offset_powers(*power, keys@));
    best_offset(&keys)
}

/// Sync powers after mixing by -10 to 10 tenths.
pub open spec fn offset_powers<W: Fn(i32) -> u32>(power: W, keys: Seq<u32>) -> bool {
    &&& keys.len() == 21
    &&& forall|n: int| 0 <= n < 21 ==> call_ensures(power, ((n - 10) as i32,), #[trigger] keys[n])
}

} // verus!
