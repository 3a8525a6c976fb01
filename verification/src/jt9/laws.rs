//! What the demodulator promises of a frame in the spectrum.

use super::decode;
use super::decode::Jt9Decode;
use super::softsym;
use super::softsym::MixingOffset;
use vstd::prelude::*;

verus! {

/// The baseband is the spectrum around its centre: what lies `d` bins from bin
/// `i0`, above or below, becomes bin `d` of the baseband, counted around its end
/// where `d` is negative.
pub proof fn law_the_baseband_lies_around_its_centre<T: Copy>(
    c1: &[T],
    i0: i64,
    silence: T,
    c2: Vec<T>,
    d: int,
)
    requires
        -755 <= d <= 756,
        call_ensures(softsym::select_bins::<T>, (c1, i0, silence), c2),
    ensures
        c2@.len() == 1512,
        c2@[(if d < 0 {
            d + 1512
        } else {
            d
        })] == (if 0 <= i0 + d < c1@.len() {
            c1@[i0 + d]
        } else {
            silence
        }),
{
    let i = if d < 0 {
        d + 1512
    } else {
        d
    };
    assert(softsym::source_bin(i0 as int, i) == i0 + d);
}

/// A shift of the spectrum is a shift of the centre.
pub proof fn law_a_shift_moves_the_centre<T: Copy>(
    low: &[T],
    high: &[T],
    i0: i64,
    j0: i64,
    silence: T,
    a: Vec<T>,
    b: Vec<T>,
)
    requires
        forall|f: int|
            #[trigger] bin_or(high@, silence, f) == bin_or(low@, silence, f - (j0 - i0)),
        call_ensures(softsym::select_bins::<T>, (low, i0, silence), a),
        call_ensures(softsym::select_bins::<T>, (high, j0, silence), b),
    ensures
        a@ == b@,
{
    assert forall|i: int| 0 <= i < 1512 implies #[trigger] a@[i] == b@[i] by {
        let d = if i > 756 {
            i - 1512
        } else {
            i
        };
        assert(softsym::source_bin(i0 as int, i) == i0 + d);
        assert(softsym::source_bin(j0 as int, i) == j0 + d);
        assert(bin_or(high@, silence, j0 + d) == bin_or(low@, silence, j0 + d - (j0 - i0)));
        assert(a@[i] == bin_or(low@, silence, i0 + d));
        assert(b@[i] == bin_or(high@, silence, j0 + d));
    }
    assert(a@ =~= b@);
}

/// A bin of a spectrum, or silence where it has none.
pub open spec fn bin_or<T>(c: Seq<T>, silence: T, f: int) -> T {
    if 0 <= f < c.len() {
        c[f]
    } else {
        silence
    }
}

/// The powers summed at a lag: that of symbol `s` stands at `16 s + lag`, with
/// the sync symbols in one list and the others in the other, both in ascending
/// order.
pub proof fn law_which_powers_are_summed(
    isync: &[u8],
    lag: i64,
    idx: (Vec<usize>, Vec<usize>),
    x: usize,
)
    requires
        isync@.len() == 85,
        call_ensures(softsym::lag_powers, (isync, lag), idx),
    ensures
        idx.0@.contains(x) <==> exists|s: int|
            0 <= s < 85 && #[trigger] isync@[s] == 1 && x == 16 * s + lag && x < 1592,
        idx.1@.contains(x) <==> exists|s: int|
            0 <= s < 85 && #[trigger] isync@[s] != 1 && x == 16 * s + lag && x < 1592,
        forall|i: int, j: int|
            0 <= i < j < idx.0@.len() ==> #[trigger] idx.0@[i] < #[trigger] idx.0@[j],
        forall|i: int, j: int|
            0 <= i < j < idx.1@.len() ==> #[trigger] idx.1@[i] < #[trigger] idx.1@[j],
{
    lemma_powers(isync@, lag as int, true, 85, x);
    lemma_powers(isync@, lag as int, false, 85, x);
}

proof fn lemma_powers(isync: Seq<u8>, lag: int, sync: bool, n: int, x: usize)
    requires
        0 <= n <= isync.len(),
    ensures
        ({
            let list = softsym::powers_at(isync, lag, sync, n);
            &&& list.contains(x) <==> exists|s: int|
                0 <= s < n && (#[trigger] isync[s] == 1) == sync && x == 16 * s + lag && x < 1592
            &&& forall|i: int| 0 <= i < list.len() ==> #[trigger] list[i] < 16 * n + lag
            &&& forall|i: int, j: int|
                0 <= i < j < list.len() ==> #[trigger] list[i] < #[trigger] list[j]
        }),
    decreases n,
{
    if n > 0 {
        lemma_powers(isync, lag, sync, n - 1, x);
        let rest = softsym::powers_at(isync, lag, sync, n - 1);
        let list = softsym::powers_at(isync, lag, sync, n);
        let idx = 16 * (n - 1) + lag;
        if rest.contains(x) {
            let i = choose|i: int| 0 <= i < rest.len() && rest[i] == x;
            assert(list[i] == x);
        }
        if 0 <= idx < 1592 && (isync[n - 1] == 1) == sync {
            assert(list[rest.len() as int] == idx);
            if x == idx {
                assert(list.contains(x));
                assert((isync[n - 1] == 1) == sync);
            } else if list.contains(x) {
                let i = choose|i: int| 0 <= i < list.len() && list[i] == x;
                assert(rest[i] == x);
                assert(rest.contains(x));
            }
        } else {
            assert(list == rest);
        }
        if exists|s: int|
            0 <= s < n && (#[trigger] isync[s] == 1) == sync && x == 16 * s + lag && x < 1592 {
            let s = choose|s: int|
                0 <= s < n && (#[trigger] isync[s] == 1) == sync && x == 16 * s + lag && x < 1592;
            if s < n - 1 {
                assert(rest.contains(x));
            } else {
                assert(x == idx);
            }
        }
    }
}

/// The frame of a lag is cut from 95 samples before it on, and is reported to
/// start there, at 432 samples of the audio to one of the baseband.
pub proof fn law_a_frame_is_cut_where_it_starts<T: Copy>(
    c2: &[T],
    lagpk: i64,
    silence: T,
    c3: Vec<T>,
    sample: usize,
    i: int,
)
    requires
        c2@.len() == 1512,
        0 <= i < 1360,
        call_ensures(softsym::cut_frame::<T>, (c2, lagpk, silence), c3),
        call_ensures(decode::lag_to_audio_sample, (lagpk,), sample),
    ensures
        c3@.len() == 1360,
        c3@[i] == (if 0 <= lagpk - 95 + i < 1512 {
            c2@[lagpk - 95 + i]
        } else {
            silence
        }),
        sample == (if lagpk < 95 {
            0
        } else {
            432 * (lagpk - 95)
        }),
{
}

/// The data symbols come out in their order, and the sync symbols not at all:
/// `place` counts the data symbols before symbol `s`.
pub proof fn law_data_symbols_keep_their_order<T: Copy>(
    isync: &[u8],
    row: &[T],
    data: Vec<T>,
    s: int,
)
    requires
        isync@.len() == 85,
        row@.len() == 85,
        0 <= s < 85,
        isync@[s] == 0,
        call_ensures(softsym::data_powers::<T>, (isync, row), data),
    ensures
        data@.len() == data_before(isync@, 85),
        0 <= data_before(isync@, s) < data@.len(),
        data@[data_before(isync@, s)] == row@[s],
{
    lemma_data_places(isync@, 85, s);
}

/// The data symbols among the first `n`.
pub open spec fn data_before(isync: Seq<u8>, n: int) -> int
    decreases n,
{
    if n <= 0 {
        0
    } else {
        data_before(isync, n - 1) + (if isync[n - 1] == 0 {
            1int
        } else {
            0
        })
    }
}

proof fn lemma_data_places(isync: Seq<u8>, n: int, s: int)
    requires
        0 <= n <= isync.len(),
        isync.len() == 85,
        0 <= s,
        s < n ==> isync[s] == 0,
    ensures
        softsym::data_symbols(isync, n).len() == data_before(isync, n),
        s < n ==> 0 <= data_before(isync, s) < data_before(isync, n) && softsym::data_symbols(
            isync,
            n,
        )[data_before(isync, s)] == s,
    decreases n,
{
    if n > 0 {
        lemma_data_places(isync, n - 1, s);
    }
}

/// The lag of a frame is found: where the score of one lag of the search, from 39
/// to 291, is a measurement and above those of all others, that lag is the peak.
pub proof fn law_the_best_lag_is_found<W: Fn(&Vec<usize>, &Vec<usize>) -> u32>(
    score: &W,
    isync: &[u8],
    lag: int,
    key: u32,
    peak: (i64, u32),
)
    requires
        isync@.len() == 85,
        39 <= lag <= 291,
        key > 0x007F_FFFF,
        forall|l: int, k: u32| #[trigger]
            softsym::scores_lag(*score, isync@, l, k) ==> (if l == lag {
                k == key
            } else {
                k < key
            }),
        call_ensures(softsym::peakdt9::<W>, (score, isync), peak),
    ensures
        peak.0 == lag,
        peak.1 == key,
{
    let keys = choose|keys: Seq<u32>|
        {
            &&& #[trigger] softsym::lag_scores(*score, isync@, keys)
            &&& ({
                ||| crate::select::is_first_peak(keys, peak.0 - softsym::LAG1) && keys[peak.0
                    - softsym::LAG1] > softsym::NO_SCORE_KEY && peak.1 == keys[peak.0
                    - softsym::LAG1]
                ||| peak.0 == softsym::LAG0 && peak.1 == softsym::NO_SCORE_KEY && forall|i: int|
                    0 <= i < keys.len() ==> #[trigger] keys[i] <= softsym::NO_SCORE_KEY
            })
        };
    let n = lag - 39;
    assert(softsym::scores_lag(*score, isync@, 39 + n, keys[n]));
    assert(keys[n] == key);
    let at = peak.0 - 39;
    if crate::select::is_first_peak(keys, at) {
        assert(softsym::scores_lag(*score, isync@, 39 + at, keys[at]));
        assert(keys[n] <= keys[at]);
    }
}

/// The mixing offset of a frame is found: where the sync power at one of the 21
/// offsets is a measurement and above those at all others, that offset is the
/// best, and the powers beside it are those a tenth below and above.
pub proof fn law_the_best_mixing_offset_is_found<W: Fn(i32) -> u32>(
    power: &W,
    tenths: i32,
    keys: spec_fn(int) -> u32,
    best: MixingOffset,
)
    requires
        -10 <= tenths <= 10,
        keys(tenths as int) > 0x007F_FFFF,
        forall|t: i32, k: u32| #[trigger]
            call_ensures(*power, (t,), k) ==> k == keys(t as int),
        forall|t: int|
            -10 <= t <= 10 && t != tenths ==> #[trigger] keys(t) < keys(tenths as int),
        call_ensures(softsym::afc_simple::<W>, (power,), best),
    ensures
        best.tenths == tenths,
        -10 < tenths < 10 ==> best.around == (
            keys(tenths - 1),
            keys(tenths as int),
            keys(tenths + 1),
        ),
        tenths == -10 || tenths == 10 ==> best.around == (
            keys(tenths as int),
            keys(tenths as int),
            keys(tenths as int),
        ),
{
    let list = choose|list: Seq<u32>| #[trigger]
        softsym::offset_powers(*power, list) && softsym::is_best_offset(list, best);
    assert forall|n: int| 0 <= n < 21 implies #[trigger] list[n] == keys(n - 10) by {
        assert(call_ensures(*power, ((n - 10) as i32,), list[n]));
    }
    let n = tenths + 10;
    assert(list[n] == keys(tenths as int));
    let at = best.tenths + 10;
    assert(list[at] == keys(best.tenths as int));
    if crate::select::is_first_peak(list, at) {
        assert(list[n] <= list[at]);
    }
}

/// A frame is decoded exactly when its sync score reaches one and a half and is
/// finite and what is read at its lag has the standard form; it is then what was
/// read, at the start of its lag.
pub proof fn law_when_a_frame_is_decoded<M, D: Fn(i64) -> Option<(M, bool)>>(
    peak: (i64, u32),
    decode: &D,
    read: Option<(M, bool)>,
    found: Option<Jt9Decode<M>>,
)
    requires
        39 <= peak.0 <= 291,
        forall|other: Option<(M, bool)>| #[trigger]
            call_ensures(*decode, (peak.0,), other) ==> other == read,
        call_ensures(
            decode::decode_at_baseband_with_fft::<M, D>,
            (peak, decode),
            found,
        ),
    ensures
        match read {
            Some((message, true)) if 0xBFC0_0000 <= peak.1 < 0xFF80_0000 => found matches Some(d)
                && d.message == message && d.start_sample == (if peak.0 < 95 {
                0
            } else {
                432 * (peak.0 - 95)
            }),
            _ => found is None,
        },
{
    if 0xBFC0_0000 <= peak.1 < 0xFF80_0000 {
        let other = choose|other: Option<(M, bool)>|
            {
                &&& #[trigger] call_ensures(*decode, (peak.0,), other)
                &&& match other {
                    Some((message, true)) => found matches Some(d) && d.message == message
                        && d.start_sample == 432 * (if softsym::slice_start(peak.0 as int) < 0 {
                        0
                    } else {
                        softsym::slice_start(peak.0 as int)
                    }),
                    _ => found is None,
                }
            };
        assert(call_ensures(*decode, (peak.0,), other));
    }
}

/// Where no lag can be measured the peak is lag 123, with the score of none.
pub proof fn law_without_a_measurement_the_lag_is_nominal<
    W: Fn(&Vec<usize>, &Vec<usize>) -> u32,
>(score: &W, isync: &[u8], peak: (i64, u32))
    requires
        isync@.len() == 85,
        forall|l: int, k: u32| #[trigger]
            softsym::scores_lag(*score, isync@, l, k) ==> k <= 0x007F_FFFF,
        call_ensures(softsym::peakdt9::<W>, (score, isync), peak),
    ensures
        peak.0 == 123,
        peak.1 == 0x007F_FFFF,
{
    let keys = choose|keys: Seq<u32>|
        {
            &&& #[trigger] softsym::lag_scores(*score, isync@, keys)
            &&& ({
                ||| crate::select::is_first_peak(keys, peak.0 - softsym::LAG1) && keys[peak.0
                    - softsym::LAG1] > softsym::NO_SCORE_KEY && peak.1 == keys[peak.0
                    - softsym::LAG1]
                ||| peak.0 == softsym::LAG0 && peak.1 == softsym::NO_SCORE_KEY && forall|i: int|
                    0 <= i < keys.len() ==> #[trigger] keys[i] <= softsym::NO_SCORE_KEY
            })
        };
    let at = peak.0 - 39;
    if crate::select::is_first_peak(keys, at) {
        assert(softsym::scores_lag(*score, isync@, 39 + at, keys[at]));
    }
}

/// How often a tone's bits from bit `m` on are one.
pub open spec fn ones_from(t: int, m: int) -> int {
    (if m <= 0 {
        t % 2
    } else {
        0
    }) + (if m <= 1 {
        t / 2 % 2
    } else {
        0
    }) + t / 4 % 2
}

/// The soft values of a symbol set the tones of one and nought against each
/// other: bit `m`, the highest one first, is one in the tones in which an odd
/// number of the bits from `m` on are one, and nought in the others.
pub proof fn law_a_soft_value_weighs_all_tones<T, W: Fn(usize, [usize; 4], [usize; 4]) -> T>(
    soft: &W,
    llrs: Vec<T>,
    j: int,
    m: int,
) -> (sides: ([usize; 4], [usize; 4]))
    requires
        call_ensures(softsym::symspec2::<T, W>, (soft,), llrs),
        0 <= j < 69,
        0 <= m < 3,
    ensures
        llrs@.len() == 207,
        call_ensures(*soft, (j as usize, sides.0, sides.1), llrs@[3 * j + 2 - m]),
        forall|t: usize|
            t < 8 ==> (#[trigger] sides.0@.contains(t) <==> ones_from(t as int, m) % 2 == 1),
        forall|t: usize|
            t < 8 ==> (#[trigger] sides.1@.contains(t) <==> ones_from(t as int, m) % 2 == 0),
{
    let v = llrs@[3 * j + 2 - m];
    assert(softsym::soft_bit(*soft, j, m, v));
    let (ones, zeros) = choose|ones: [usize; 4], zeros: [usize; 4]|
        {
            &&& m == 2 ==> ones@ == seq![4usize, 5, 6, 7] && zeros@ == seq![0usize, 1, 2, 3]
            &&& m == 1 ==> ones@ == seq![2usize, 3, 4, 5] && zeros@ == seq![0usize, 1, 6, 7]
            &&& m == 0 ==> ones@ == seq![1usize, 2, 4, 7] && zeros@ == seq![0usize, 3, 5, 6]
            &&& #[trigger] call_ensures(*soft, (j as usize, ones, zeros), v)
        };
    assert forall|t: usize| t < 8 implies (#[trigger] ones@.contains(t) <==> ones_from(t as int, m)
        % 2 == 1) by {
        lemma_four(ones@, t);
    }
    assert forall|t: usize| t < 8 implies (#[trigger] zeros@.contains(t) <==> ones_from(
        t as int,
        m,
    ) % 2 == 0) by {
        lemma_four(zeros@, t);
    }
    (ones, zeros)
}

/// What four entries hold.
proof fn lemma_four(s: Seq<usize>, t: usize)
    requires
        s.len() == 4,
    ensures
        s.contains(t) <==> s[0] == t || s[1] == t || s[2] == t || s[3] == t,
{
    if s.contains(t) {
        let i = choose|i: int| 0 <= i < s.len() && s[i] == t;
        assert(i == 0 || i == 1 || i == 2 || i == 3);
    }
}

} // verus!
