//! What the spectra, the tone sums and the refinement promise of a signal.

use super::refine_fine;
use super::refine_fine::FineRefine;
use super::spectrogram;
use super::spectrogram::{AudioSample, Fft16, Iq, Spectrogram};
use super::symbols;
use super::symbols::{SymMask, ToneSum};
use vstd::prelude::*;

verus! {

/// At a tone of the transmission this frequency is the strongest, the last one
/// of equals.
pub open spec fn is_strongest(keys: Seq<[u32; 8]>, sym: int, tone: int) -> bool {
    &&& forall|u: int| 0 <= u < 8 ==> #[trigger] keys[sym]@[u] <= keys[sym]@[tone]
    &&& forall|u: int| tone < u < 8 ==> #[trigger] keys[sym]@[u] < keys[sym]@[tone]
}

/// One if the frequency is the strongest, nought otherwise.
pub open spec fn hit(keys: Seq<[u32; 8]>, sym: int, tone: int) -> int {
    if is_strongest(keys, sym, tone) {
        1
    } else {
        0
    }
}

/// The hits in the Costas array 3, 1, 4, 0, 6, 5, 2 from tone `from` on.
pub open spec fn array_hits(keys: Seq<[u32; 8]>, from: int) -> int {
    hit(keys, from, 3) + hit(keys, from + 1, 1) + hit(keys, from + 2, 4) + hit(keys, from + 3, 0)
        + hit(keys, from + 4, 6) + hit(keys, from + 5, 5) + hit(keys, from + 6, 2)
}

/// Sync quality counts the hits in the Costas arrays at tones 0, 36 and 72; of
/// the first one alone, those at tone 0.
pub proof fn law_sync_quality_counts_hits(keys: &Vec<[u32; 8]>, q: u32, q0: u32)
    requires
        call_ensures(symbols::sync_quality, (keys,), q),
        call_ensures(symbols::sync_quality_block0, (keys,), q0),
    ensures
        q == array_hits(keys@, 0) + array_hits(keys@, 36) + array_hits(keys@, 72),
        q0 == array_hits(keys@, 0),
{
    lemma_array_hits(keys@, 0);
    lemma_array_hits(keys@, 36);
    lemma_array_hits(keys@, 72);
}

proof fn lemma_array_hits(keys: Seq<[u32; 8]>, from: int)
    ensures
        symbols::costas_hits(keys, from, 7) == array_hits(keys, from),
{
    reveal_with_fuel(symbols::costas_hits, 8);
    let a = super::params::COSTAS@;
    assert(a[0] == 3 && a[1] == 1 && a[2] == 4 && a[3] == 0 && a[4] == 6 && a[5] == 5 && a[6] == 2);
}

/// A sample of the audio, nought before and after it.
pub open spec fn heard<S: AudioSample>(audio: Seq<S>, i: int) -> int {
    if 0 <= i < audio.len() {
        audio[i].level()
    } else {
        0
    }
}

/// A transmission that starts later has the same tones: where the audio is
/// delayed by `d` samples and so is the start, every tone under the mask has the
/// same sums.
pub proof fn law_a_delay_keeps_the_tones<S: AudioSample>(
    early: Seq<S>,
    late: Seq<S>,
    i0: int,
    d: int,
    rot: Seq<(i32, i32)>,
    mask: SymMask,
    a: (Seq<[ToneSum; 8]>, Seq<[ToneSum; 8]>),
    b: (Seq<[ToneSum; 8]>, Seq<[ToneSum; 8]>),
    sym: int,
    tone: int,
)
    requires
        forall|i: int| #[trigger] heard(late, i) == heard(early, i - d),
        symbols::is_filled(a.0, early, i0, rot, mask, a.1),
        symbols::is_filled(b.0, late, i0 + d, rot, mask, b.1),
        0 <= sym < 79,
        0 <= tone < 8,
        mask.includes(sym),
    ensures
        a.1[sym]@[tone] == b.1[sym]@[tone],
{
    let x = symbols::symbol_samples(early, i0, sym);
    let y = symbols::symbol_samples(late, i0 + d, sym);
    assert forall|k: int| 0 <= k < 1920 implies x[k] == y[k] by {
        let idx = i0 + 1920 * sym + k;
        assert(heard(late, idx + d) == heard(early, idx + d - d));
    }
    assert(x =~= y);
}

/// The tones follow each other 1920 samples apart: tone `sym + 1` of a
/// transmission is tone `sym` of one that starts 1920 samples later.
pub proof fn law_tones_are_1920_samples_apart<S: AudioSample>(
    audio: Seq<S>,
    i0: int,
    rot: Seq<(i32, i32)>,
    mask: SymMask,
    a: (Seq<[ToneSum; 8]>, Seq<[ToneSum; 8]>),
    b: (Seq<[ToneSum; 8]>, Seq<[ToneSum; 8]>),
    sym: int,
    tone: int,
)
    requires
        symbols::is_filled(a.0, audio, i0, rot, mask, a.1),
        symbols::is_filled(b.0, audio, i0 + 1920, rot, mask, b.1),
        0 <= sym < 78,
        0 <= tone < 8,
        mask.includes(sym),
        mask.includes(sym + 1),
    ensures
        a.1[sym + 1]@[tone] == b.1[sym]@[tone],
{
    let x = symbols::symbol_samples(audio, i0, sym + 1);
    let y = symbols::symbol_samples(audio, i0 + 1920, sym);
    assert forall|k: int| 0 <= k < 1920 implies x[k] == y[k] by {
        assert(i0 + 1920 * (sym + 1) + k == i0 + 1920 + 1920 * sym + k);
    }
    assert(x =~= y);
}

/// The first tone of a transmission is made of the 1920 samples from its start
/// on, in their order.
pub proof fn law_the_first_tone_starts_with_the_transmission<S: AudioSample>(
    audio: Seq<S>,
    i0: int,
    k: int,
)
    requires
        0 <= k < 1920,
        -32768 <= heard(audio, i0 + k) <= 32767,
    ensures
        symbols::symbol_samples(audio, i0, 0).len() == 1920,
        symbols::symbol_samples(audio, i0, 0)[k] == heard(audio, i0 + k),
{
}

/// An oscillator that does not turn stands still.
pub proof fn law_a_still_oscillator(k: nat)
    ensures
        symbols::oscillator(32768, 0, k).re == 32767,
        symbols::oscillator(32768, 0, k).im == 0,
    decreases k,
{
    if k > 0 {
        law_a_still_oscillator((k - 1) as nat);
    }
}

/// An oscillator that turns by a quarter of a circle with every sample runs
/// through the four axes, the positive imaginary one first.
pub proof fn law_quarter_turns(k: nat)
    ensures
        ({
            let o = symbols::oscillator(0, 32768, k);
            &&& k % 4 == 0 ==> o.re == 32767 && o.im == 0
            &&& k % 4 == 1 ==> o.re == 0 && o.im == 32767
            &&& k % 4 == 2 ==> o.re == -32767 && o.im == 0
            &&& k % 4 == 3 ==> o.re == 0 && o.im == -32767
        }),
    decreases k,
{
    if k > 0 {
        law_quarter_turns((k - 1) as nat);
    }
}

/// An oscillator that turns the other way is the mirror image of it, after one
/// sample and after all quarter turns.
pub proof fn law_backward_quarter_turns(k: nat)
    ensures
        symbols::oscillator(0, -32768, k).re == symbols::oscillator(0, 32768, k).re,
        symbols::oscillator(0, -32768, k).im == -symbols::oscillator(0, 32768, k).im,
    decreases k,
{
    if k > 0 {
        law_backward_quarter_turns((k - 1) as nat);
        law_quarter_turns((k - 1) as nat);
    }
}

/// Two spectra that were computed at once come apart. The transform of two real
/// slices, one in the real and one in the imaginary parts, is the first slice's
/// spectrum plus the imaginary unit times the second's; from a bin and its
/// mirror image each slice's power is read as if it had been transformed alone.
pub proof fn law_two_spectra_come_apart(
    out: &Vec<Iq>,
    k: usize,
    a: (int, int),
    b: (int, int),
    cells: (u16, u16),
)
    requires
        out@.len() == 4096,
        k < 4096,
        out@[k as int].re == a.0 - b.1,
        out@[k as int].im == a.1 + b.0,
        out@[(4096 - k) % 4096].re == a.0 + b.1,
        out@[(4096 - k) % 4096].im == b.0 - a.1,
        call_ensures(spectrogram::split_pair, (out, k), cells),
    ensures
        cells.0 == spectrogram::cell(a.0, a.1),
        cells.1 == spectrogram::cell(b.0, b.1),
{
    let y = out@[k as int];
    let n = out@[(4096 - k) % 4096];
    assert((y.re + n.re) / 2 == a.0);
    assert((y.im - n.im) / 2 == a.1);
    assert((y.im + n.im) / 2 == b.0);
    assert((n.re - y.re) / 2 == b.1);
}

/// A cell is the power of its bin in units of 4096, rounded down, as long as it
/// stays below 65536 units.
pub proof fn law_a_cell_is_the_power_of_its_bin(re: i32, im: i32, v: u16)
    requires
        re * re + im * im < 4096 * 65536,
        call_ensures(spectrogram::cell_power, (re, im), v),
    ensures
        4096 * v <= re * re + im * im < 4096 * (v + 1),
{
    assert(0 <= re * re + im * im) by (nonlinear_arith);
}

/// The left shift brings a peak to at least 16384 but not to twice that,
/// unless it is more than eight places away from there or already beyond.
pub proof fn law_the_gain_brings_a_peak_up(peak: i32, shift: u32)
    requires
        1 <= peak <= 32768,
        call_ensures(spectrogram::gain_shift, (peak,), shift),
    ensures
        1 <= shift <= 8,
        shift == 1 ==> peak >= 8192,
        shift == 2 ==> 8192 <= 2 * peak < 16384,
        shift == 3 ==> 8192 <= 4 * peak < 16384,
        shift == 4 ==> 8192 <= 8 * peak < 16384,
        shift == 5 ==> 8192 <= 16 * peak < 16384,
        shift == 6 ==> 8192 <= 32 * peak < 16384,
        shift == 7 ==> 8192 <= 64 * peak < 16384,
        shift == 8 ==> 64 * peak < 8192,
{
    reveal_with_fuel(spectrogram::doublings, 10);
}

/// A sample that the gain does not take out of range is scaled by two to the
/// shift and by the weight, in units of 1/32768, and rounded down.
pub proof fn law_a_sample_is_scaled_and_weighted(raw: i16, shift: u32, weight: i16, v: i16)
    requires
        shift <= 8,
        0 <= weight,
        -32768 <= raw * vstd::arithmetic::power2::pow2(shift as nat) <= 32767,
        call_ensures(spectrogram::weight_sample, (raw, shift, weight), v),
    ensures
        ({
            let scaled = raw * vstd::arithmetic::power2::pow2(shift as nat);
            32768 * v <= scaled * weight < 32768 * (v + 1)
        }),
{
    lemma_power_of_two(shift as nat);
}

proof fn lemma_power_of_two(s: nat)
    ensures
        spectrogram::power_of_two(s) == vstd::arithmetic::power2::pow2(s),
    decreases s,
{
    if s == 0 {
        vstd::arithmetic::power2::lemma2_to64();
    } else {
        lemma_power_of_two((s - 1) as nat);
        vstd::arithmetic::power2::lemma_pow2_unfold(s);
    }
}

/// Silence in front of the audio delays its spectra: with `960 d` samples of it,
/// spectrum `j + d` is what spectrum `j` was.
pub proof fn law_silence_delays_the_spectra<S: AudioSample, F: Fft16>(
    early: Seq<S>,
    silence: Seq<S>,
    d: int,
    n_freq: int,
    window: Seq<i16>,
    fft: &F,
    here: &Spectrogram,
    there: &Spectrogram,
    bin: int,
    j: int,
)
    requires
        0 <= d,
        silence.len() == 960 * d,
        forall|i: int| 0 <= i < silence.len() ==> (#[trigger] silence[i]).level() == 0,
        early.len() + silence.len() <= 180000,
        spectrogram::is_slot_spectra(here, early, n_freq, window, fft),
        spectrogram::is_slot_spectra(there, silence + early, n_freq, window, fft),
        0 <= bin < n_freq,
        0 <= j,
        j + d < 184,
    ensures
        there.at(bin, j + d) == here.at(bin, j),
{
    let late = silence + early;
    lemma_silent_peak(silence, silence.len() as int);
    lemma_peak_behind(silence, early, early.len() as int);
    let shift = spectrogram::gain(spectrogram::peak_size(early, early.len() as int));
    assert(spectrogram::peak_size(late, late.len() as int) == spectrogram::peak_size(
        early,
        early.len() as int,
    ));
    let x = spectrogram::single_frame(early, 960 * j, shift as nat, window);
    let y = spectrogram::single_frame(late, 960 * (j + d), shift as nat, window);
    assert forall|k: int| 0 <= k < 4096 implies x[k] == y[k] by {
        assert(960 * (j + d) + k == 960 * d + (960 * j + k));
        if k < 1920 && 960 * j + k < early.len() {
            assert(late[960 * (j + d) + k] == early[960 * j + k]);
        }
    }
    assert(x =~= y);
    assert(here.at(bin, j) == spectrogram::cell(
        fft.transform(x)[bin].re as int,
        fft.transform(x)[bin].im as int,
    ));
    assert(there.at(bin, j + d) == spectrogram::cell(
        fft.transform(y)[bin].re as int,
        fft.transform(y)[bin].im as int,
    ));
}

proof fn lemma_silent_peak<S: AudioSample>(silence: Seq<S>, n: int)
    requires
        0 <= n <= silence.len(),
        forall|i: int| 0 <= i < silence.len() ==> (#[trigger] silence[i]).level() == 0,
    ensures
        spectrogram::peak_size(silence, n) == 1,
    decreases n,
{
    if n > 0 {
        lemma_silent_peak(silence, n - 1);
        assert(silence[n - 1].level() == 0);
    }
}

proof fn lemma_peak_prefix<S: AudioSample>(front: Seq<S>, back: Seq<S>, n: int)
    requires
        0 <= n <= front.len(),
    ensures
        spectrogram::peak_size(front + back, n) == spectrogram::peak_size(front, n),
    decreases n,
{
    if n > 0 {
        lemma_peak_prefix(front, back, n - 1);
        assert((front + back)[n - 1] == front[n - 1]);
    }
}

proof fn lemma_peak_behind<S: AudioSample>(front: Seq<S>, back: Seq<S>, n: int)
    requires
        0 <= n <= back.len(),
        spectrogram::peak_size(front, front.len() as int) == 1,
    ensures
        spectrogram::peak_size(front + back, front.len() + n) == spectrogram::peak_size(back, n),
    decreases n,
{
    if n > 0 {
        lemma_peak_behind(front, back, n - 1);
        assert((front + back)[front.len() + n - 1] == back[n - 1]);
    } else {
        lemma_peak_prefix(front, back, front.len() as int);
    }
}

/// The tones of the Costas arrays lie 32 samples apart, the arrays 1152, all
/// from the start of the transmission on; a tone that does not lie wholly in the
/// slot has no place.
pub proof fn law_where_the_costas_tones_lie(
    i: i32,
    block: usize,
    k: usize,
    np2: usize,
    start: Option<usize>,
)
    requires
        block < 3,
        k < 7,
        call_ensures(refine_fine::costas_window, (i, block, k, np2), start),
    ensures
        ({
            let at = i + 1152 * block + 32 * k;
            &&& start is Some <==> 0 <= at && at + 32 <= np2
            &&& start matches Some(s) ==> s == at
        }),
{
}

/// A measure of sync power that gives one answer at a place.
pub open spec fn is_measure<W: Fn(i32, i32) -> u32>(power: W) -> bool {
    forall|i: i32, s: i32, a: u32, b: u32| #[trigger]
        call_ensures(power, (i, s), a) && #[trigger] call_ensures(power, (i, s), b) ==> a == b
}

/// Refinement loses no sync power: what it reports was measured at the place
/// that it reports, and is at least what was measured anywhere within ten
/// samples of the candidate's start at its frequency. Keys up to that of the
/// most negative finite number are no measurements.
pub proof fn law_refinement_loses_no_power<W: Fn(i32, i32) -> u32>(
    power: &W,
    i0: i32,
    r: FineRefine,
    d: int,
    key: u32,
)
    requires
        i32::MIN + 14 <= i0 <= i32::MAX - 14,
        is_measure(*power),
        call_ensures(refine_fine::fine_refine_3stage::<W>, (power, i0), r),
        -10 <= d <= 10,
        call_ensures(*power, ((i0 + d) as i32, 0), key),
        key > 0x0080_0000,
    ensures
        call_ensures(*power, (r.start, r.step), r.key),
        key <= r.key,
        i0 - 14 <= r.start <= i0 + 14,
        -5 <= r.step <= 5,
{
    let (ibest, a, b, c) = choose|ibest: i32, a: Seq<u32>, b: Seq<u32>, c: Seq<u32>| #[trigger]
        refine_fine::refined(*power, i0, ibest, a, b, c, r);
    let at = ibest - i0 + 10;
    assert(0 <= at <= 20);
    assert(call_ensures(*power, ((i0 - 10 + (d + 10)) as i32, 0), a[d + 10]));
    assert(a[d + 10] == key);
    assert(a[d + 10] <= a[at]);
    assert(call_ensures(*power, ((i0 - 10 + at) as i32, 0), a[at]));
    assert(call_ensures(*power, (ibest, (5 - 5) as i32), b[5]));
    assert(a[at] == b[5]);
    assert(refine_fine::preferred(b, r.step as int, 0));
    assert(b[5] <= b[r.step + 5]);
    assert(call_ensures(*power, (ibest, (r.step + 5 - 5) as i32), b[r.step + 5]));
    assert(call_ensures(*power, ((ibest - 4 + 4) as i32, r.step), c[4]));
    assert(b[r.step + 5] == c[4]);
    let to = r.start - ibest + 4;
    assert(c[4] <= c[to]);
    assert(call_ensures(*power, ((ibest - 4 + to) as i32, r.step), c[to]));
}

/// The strongest place is found: where the sync power at one start, within ten
/// samples of the candidate's, is above that of all others at its frequency, at
/// that start one of the eleven frequencies above all others, and at that
/// frequency that start above those within four samples, refinement ends there.
pub proof fn law_refinement_finds_the_peak<W: Fn(i32, i32) -> u32>(
    power: &W,
    level: spec_fn(int, int) -> u32,
    i0: i32,
    start: i32,
    step: i32,
    r: FineRefine,
)
    requires
        i32::MIN + 14 <= i0 <= i32::MAX - 14,
        forall|i: i32, s: i32, k: u32| #[trigger]
            call_ensures(*power, (i, s), k) ==> k == level(i as int, s as int),
        i0 - 10 <= start <= i0 + 10,
        -5 <= step <= 5,
        level(start as int, 0) > 0x0080_0000,
        forall|i: int|
            i0 - 10 <= i <= i0 + 10 && i != start ==> #[trigger] level(i, 0) < level(
                start as int,
                0,
            ),
        forall|s: int|
            -5 <= s <= 5 && s != step ==> #[trigger] level(start as int, s) < level(
                start as int,
                step as int,
            ),
        forall|i: int|
            start - 4 <= i <= start + 4 && i != start ==> #[trigger] level(i, step as int) < level(
                start as int,
                step as int,
            ),
        call_ensures(refine_fine::fine_refine_3stage::<W>, (power, i0), r),
    ensures
        r.start == start,
        r.step == step,
        r.key == level(start as int, step as int),
{
    let (ibest, a, b, c) = choose|ibest: i32, a: Seq<u32>, b: Seq<u32>, c: Seq<u32>| #[trigger]
        refine_fine::refined(*power, i0, ibest, a, b, c, r);
    assert forall|n: int| 0 <= n < 21 implies #[trigger] a[n] == level(i0 - 10 + n, 0) by {
        assert(call_ensures(*power, ((i0 - 10 + n) as i32, 0), a[n]));
    }
    let at = start - i0 + 10;
    assert(a[at] == level(start as int, 0));
    let bt = ibest - i0 + 10;
    assert(0 <= bt <= 20);
    assert(a[bt] == level(ibest as int, 0));
    assert(a[at] <= a[bt]);
    assert(ibest == start);
    assert forall|n: int| 0 <= n < 11 implies #[trigger] b[n] == level(start as int, n - 5) by {
        assert(call_ensures(*power, (ibest, (n - 5) as i32), b[n]));
    }
    assert(refine_fine::preferred(b, r.step as int, step as int));
    assert(b[r.step + 5] == level(start as int, r.step as int));
    assert(b[step + 5] == level(start as int, step as int));
    assert(r.step == step);
    assert forall|n: int| 0 <= n < 9 implies #[trigger] c[n] == level(
        start - 4 + n,
        step as int,
    ) by {
        assert(call_ensures(*power, ((ibest - 4 + n) as i32, r.step), c[n]));
    }
    let ct = r.start - ibest + 4;
    assert(0 <= ct <= 8);
    assert(c[4] == level(start as int, step as int));
    assert(c[ct] == level(r.start as int, step as int));
    assert(b[5] == level(start as int, 0));
    assert(c[4] >= b[5]) by {
        if step != 0 {
            assert(level(start as int, 0) < level(start as int, step as int));
        }
    }
    assert(c[4] <= c[ct]);
}

/// Spectrum `j` is made of the 1920 samples from sample `960 j` on: audio that is
/// the same there, and as loud, has the same spectrum.
pub proof fn law_a_spectrum_is_of_its_own_samples<S: AudioSample, F: Fft16>(
    x: Seq<S>,
    y: Seq<S>,
    n_freq: int,
    window: Seq<i16>,
    fft: &F,
    a: &Spectrogram,
    b: &Spectrogram,
    bin: int,
    j: int,
)
    requires
        x.len() <= 180000,
        y.len() == x.len(),
        spectrogram::peak_size(x, x.len() as int) == spectrogram::peak_size(y, y.len() as int),
        forall|i: int|
            960 * j <= i < 960 * j + 1920 && i < x.len() ==> #[trigger] x[i].level()
                == y[i].level(),
        spectrogram::is_slot_spectra(a, x, n_freq, window, fft),
        spectrogram::is_slot_spectra(b, y, n_freq, window, fft),
        0 <= bin < n_freq,
        0 <= j < 184,
    ensures
        a.at(bin, j) == b.at(bin, j),
{
    let shift = spectrogram::gain(spectrogram::peak_size(x, x.len() as int));
    let p = spectrogram::single_frame(x, 960 * j, shift as nat, window);
    let q = spectrogram::single_frame(y, 960 * j, shift as nat, window);
    assert forall|k: int| 0 <= k < 4096 implies p[k] == q[k] by {
        if k < 1920 && 960 * j + k < x.len() {
            assert(x[960 * j + k].level() == y[960 * j + k].level());
        }
    }
    assert(p =~= q);
    assert(a.at(bin, j) == spectrogram::cell(
        fft.transform(p)[bin].re as int,
        fft.transform(p)[bin].im as int,
    ));
    assert(b.at(bin, j) == spectrogram::cell(
        fft.transform(q)[bin].re as int,
        fft.transform(q)[bin].im as int,
    ));
}

/// No sample is larger than the peak size. It is the size of one of the samples,
/// or 1 where none is larger than that.
pub proof fn law_the_peak_is_the_loudest_sample<S: AudioSample>(audio: Seq<S>, n: int, i: int)
    requires
        0 <= i < n <= audio.len(),
    ensures
        spectrogram::peak_size(audio, n) >= 1,
        -spectrogram::peak_size(audio, n) <= audio[i].level() <= spectrogram::peak_size(audio, n),
        spectrogram::peak_size(audio, n) == 1 || exists|k: int|
            0 <= k < n && (#[trigger] audio[k].level() == spectrogram::peak_size(audio, n)
                || audio[k].level() == -spectrogram::peak_size(audio, n)),
    decreases n,
{
    let before = spectrogram::peak_size(audio, n - 1);
    if n > 1 {
        let k = if i < n - 1 {
            i
        } else {
            0
        };
        law_the_peak_is_the_loudest_sample(audio, n - 1, k);
        if spectrogram::size_of_level(audio[n - 1].level()) > before {
            assert(audio[n - 1].level() == spectrogram::peak_size(audio, n) || audio[n - 1].level()
                == -spectrogram::peak_size(audio, n));
        } else if before != 1 {
            let w = choose|w: int|
                0 <= w < n - 1 && (#[trigger] audio[w].level() == before || audio[w].level()
                    == -before);
            assert(audio[w].level() == before || audio[w].level() == -before);
        }
    } else {
        assert(spectrogram::peak_size(audio, 0) == 1);
        if spectrogram::size_of_level(audio[0].level()) > 1 {
            assert(audio[0].level() == spectrogram::peak_size(audio, n) || audio[0].level()
                == -spectrogram::peak_size(audio, n));
        }
    }
}

/// The sync tones are the first seven of every 36. One mask picks them and one the
/// others; of the last two, one picks the first seven tones and one all after them.
pub proof fn law_which_tones_are_masked(sym: int)
    requires
        0 <= sym < 79,
    ensures
        SymMask::SyncOnly.includes(sym) <==> sym % 36 < 7,
        SymMask::DataOnly.includes(sym) <==> sym % 36 >= 7,
        SymMask::SyncBlock0.includes(sym) <==> sym < 7,
        SymMask::NotBlock0.includes(sym) <==> sym >= 7,
{
}

} // verus!
