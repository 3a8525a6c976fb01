//! Power spectra of a slot in fixed point.
//!
//! Samples are scaled up so that the transform keeps enough digits, weighted
//! by a window, and transformed 4096 points at a time. A cell holds the power
//! of a bin, shifted right by twelve places.

use super::params;
use crate::scalar;
use vstd::prelude::*;

verus! {

/// A complex sample.
#[derive(Clone, Copy, Debug, PartialEq, Eq, Structural)]
pub struct Iq {
    pub re: i16,
    pub im: i16,
}

/// Audio samples that the decoder takes.
pub trait AudioSample: Copy {
    /// The sample on the sixteen bit scale.
    spec fn level(self) -> int;

    fn to_i16(self) -> (v: i16)
        ensures
            v == self.level(),
    ;
}

impl AudioSample for i16 {
    open spec fn level(self) -> int {
        self as int
    }

    fn to_i16(self) -> (v: i16) {
        self
    }
}

impl AudioSample for i8 {
    /// Eight bit samples fill the upper byte.
    open spec fn level(self) -> int {
        self * 256
    }

    fn to_i16(self) -> (v: i16) {
        (self as i16) * 256
    }
}

/// In-place transform of complex samples, to be supplied by the platform.
pub trait Fft16 {
    /// The transform can be run.
    spec fn ready(&self) -> bool;

    /// What the transform makes of a buffer.
    spec fn transform(&self, buf: Seq<Iq>) -> Seq<Iq>;

    fn process(&self, buf: &mut Vec<Iq>)
        requires
            self.ready(),
        ensures
            final(buf)@ == self.transform(old(buf)@),
            final(buf)@.len() == old(buf)@.len(),
    ;
}

/// A transform given as a function.
pub struct FnFft<F> {
    pub f: F,
}

impl<F: Fn(Vec<Iq>) -> Vec<Iq>> FnFft<F> {
    /// The function may make `output` of `input`.
    pub open spec fn maps(&self, input: Seq<Iq>, output: Seq<Iq>) -> bool {
        exists|a: Vec<Iq>, b: Vec<Iq>|
            a@ == input && b@ == output && #[trigger] call_ensures(self.f, (a,), b)
    }
}

impl<F: Fn(Vec<Iq>) -> Vec<Iq>> Fft16 for FnFft<F> {
    /// The function takes every buffer, keeps its length, and makes the same
    /// of the same.
    open spec fn ready(&self) -> bool {
        &&& forall|a: Vec<Iq>| #[trigger] call_requires(self.f, (a,))
        &&& forall|a: Vec<Iq>, b: Vec<Iq>| #[trigger]
            call_ensures(self.f, (a,), b) ==> b@.len() == a@.len()
        &&& forall|i: Seq<Iq>, x: Seq<Iq>, y: Seq<Iq>| #[trigger]
            self.maps(i, x) && #[trigger] self.maps(i, y) ==> x == y
    }

    open spec fn transform(&self, buf: Seq<Iq>) -> Seq<Iq> {
        choose|output: Seq<Iq>| self.maps(buf, output)
    }

    fn process(&self, buf: &mut Vec<Iq>) {
        let mut input: Vec<Iq> = Vec::new();
        std::mem::swap(buf, &mut input);
        let ghost before = input;
        let output: Vec<Iq> = (self.f)(input);
        assert(call_ensures(self.f, (before,), output));
        assert(self.maps(before@, output@));
        *buf = output;
    }
}

/// Distance from nought.
pub open spec fn size_of_level(v: int) -> int {
    if v < 0 {
        -v
    } else {
        v
    }
}

/// The largest size among the first `n` samples, and at least one.
pub open spec fn peak_size<S: AudioSample>(audio: Seq<S>, n: int) -> int
    decreases n,
{
    if n <= 0 {
        1
    } else {
        let before = peak_size(audio, n - 1);
        let now = size_of_level(audio[n - 1].level());
        if now > before {
            now
        } else {
            before
        }
    }
}

/// How often a peak can be doubled until it reaches 8192, eight times at most.
pub open spec fn doublings(peak: int, s: nat) -> nat
    decreases 8 - s,
{
    if s >= 8 || peak >= 8192 {
        s
    } else {
        doublings(2 * peak, s + 1)
    }
}

/// The left shift for a peak: once more than the doublings, to make up for
/// what the window takes away, but no more than eight.
pub open spec fn gain(peak: int) -> int {
    let d = doublings(peak, 0) as int;
    if d + 1 > 8 {
        8
    } else {
        d + 1
    }
}

/// The largest size among samples, and at least one.
pub fn peak_abs<S: AudioSample>(audio: &[S]) -> (peak: i32)
    ensures
        peak == peak_size(audio@, if audio@.len() < 180000 {
            audio@.len() as int
        } else {
            180000
        }),
        1 <= peak <= 32768,
{
    let n: usize = if audio.len() < params::NMAX {
        audio.len()
    } else {
        params::NMAX
    };
    let mut peak: i32 = 1;
    for k in 0..n
        invariant
            n <= audio@.len(),
            1 <= peak <= 32768,
            peak == peak_size(audio@, k as int),
    {
        let v: i32 = audio[k].to_i16() as i32;
        let size: i32 = if v < 0 {
            -v
        } else {
            v
        };
        if size > peak {
            peak = size;
        }
    }
    peak
}

/// The left shift for a peak.
pub fn gain_shift(peak: i32) -> (shift: u32)
    requires
        1 <= peak <= 32768,
    ensures
        shift == gain(peak as int),
        1 <= shift <= 8,
{
    let mut raised: i32 = peak;
    let mut shift: u32 = 0;
    while raised < 8192 && shift < 8
        invariant
            1 <= raised <= 32768,
            shift <= 8,
            doublings(peak as int, 0) == doublings(raised as int, shift as nat),
        decreases 8 - shift,
    {
        raised = 2 * raised;
        shift = shift + 1;
    }
    if shift + 1 > 8 {
        8
    } else {
        shift + 1
    }
}

/// A power of two.
pub open spec fn power_of_two(s: nat) -> int
    decreases s,
{
    if s == 0 {
        1
    } else {
        2 * power_of_two((s - 1) as nat)
    }
}

/// A sample scaled up by `2^shift`, saturated, and weighted by the window.
pub open spec fn weighted(level: int, shift: nat, weight: i16) -> int {
    (scalar::clamp_i16(level * power_of_two(shift)) * weight) / 32768
}

/// Scale a sample up and weight it.
pub fn weight_sample(raw: i16, shift: u32, weight: i16) -> (v: i16)
    requires
        shift <= 8,
        0 <= weight,
    ensures
        v == weighted(raw as int, shift as nat, weight),
{
    let mut scaled: i32 = raw as i32;
    proof {
        reveal_with_fuel(power_of_two, 10);
    }
    for s in 0..shift
        invariant
            shift <= 8,
            scaled == raw * power_of_two(s as nat),
            -32768 * power_of_two(s as nat) <= scaled <= 32768 * power_of_two(s as nat),
            1 <= power_of_two(s as nat),
            s == 0 ==> power_of_two(s as nat) == 1,
            power_of_two(s as nat) <= power_of_two(8),
            power_of_two(8) == 256,
    {
        proof {
            reveal_with_fuel(power_of_two, 10);
            let p = power_of_two(s as nat);
            assert(s == 0 || s == 1 || s == 2 || s == 3 || s == 4 || s == 5 || s == 6 || s == 7);
            assert(2 * (raw * p) == raw * (2 * p)) by (nonlinear_arith);
        }
        scaled = 2 * scaled;
    }
    let held: i32 = if scaled < -32768 {
        -32768
    } else if scaled > 32767 {
        32767
    } else {
        scaled
    };
    let ghost h = held as int;
    assert(-32768 * 32768 < h * weight < 32768 * 32768) by (nonlinear_arith)
        requires
            -32768 <= h <= 32767,
            0 <= weight <= 32767,
    ;
    let product: i32 = held * (weight as i32);
    proof {
        scalar::lemma_shift_15(product);
    }
    (product >> 15) as i16
}

/// Sample `k` of the windowed slice of the audio from `start` on: nought past
/// the window and past the audio.
pub open spec fn frame_sample<S: AudioSample>(
    audio: Seq<S>,
    start: int,
    shift: nat,
    window: Seq<i16>,
    k: int,
) -> int {
    if k < 1920 && start + k < audio.len() {
        weighted(audio[start + k].level(), shift, window[k])
    } else {
        0
    }
}

/// A window of non-negative weights.
pub open spec fn is_window(window: Seq<i16>) -> bool {
    &&& window.len() == 1920
    &&& forall|k: int| 0 <= k < 1920 ==> 0 <= #[trigger] window[k]
}

/// One windowed sample.
fn load_sample<S: AudioSample>(
    audio: &[S],
    start: usize,
    shift: u32,
    window: &[i16],
    k: usize,
) -> (v: i16)
    requires
        shift <= 8,
        is_window(window@),
        start <= usize::MAX - 4096,
        k < 4096,
    ensures
        v == frame_sample(audio@, start as int, shift as nat, window@, k as int),
{
    if k < params::NSPS && start + k < audio.len() {
        assert(0 <= window@[k as int]);
        weight_sample(audio[start + k].to_i16(), shift, window[k])
    } else {
        0
    }
}

/// The transform's input for one spectrum.
pub open spec fn single_frame<S: AudioSample>(
    audio: Seq<S>,
    start: int,
    shift: nat,
    window: Seq<i16>,
) -> Seq<Iq> {
    Seq::new(
        4096,
        |k: int| Iq { re: frame_sample(audio, start, shift, window, k) as i16, im: 0 },
    )
}

/// The transform's input for two spectra at once: one slice in the real, one
/// in the imaginary parts.
pub open spec fn paired_frame<S: AudioSample>(
    audio: Seq<S>,
    first: int,
    second: int,
    shift: nat,
    window: Seq<i16>,
) -> Seq<Iq> {
    Seq::new(
        4096,
        |k: int|
            Iq {
                re: frame_sample(audio, first, shift, window, k) as i16,
                im: frame_sample(audio, second, shift, window, k) as i16,
            },
    )
}

/// Load the transform's input for one spectrum.
pub fn load_single<S: AudioSample>(audio: &[S], start: usize, shift: u32, window: &[i16]) -> (buf:
    Vec<Iq>)
    requires
        shift <= 8,
        is_window(window@),
        start <= usize::MAX - 4096,
    ensures
        buf@ == single_frame(audio@, start as int, shift as nat, window@),
{
    let mut buf: Vec<Iq> = Vec::with_capacity(params::NFFT_SPEC);
    for k in 0..params::NFFT_SPEC
        invariant
            shift <= 8,
            is_window(window@),
            start <= usize::MAX - 4096,
            buf@.len() == k,
            forall|q: int|
                0 <= q < k ==> #[trigger] buf@[q] == single_frame(
                    audio@,
                    start as int,
                    shift as nat,
                    window@,
                )[q],
    {
        let re: i16 = load_sample(audio, start, shift, window, k);
        buf.push(Iq { re, im: 0 });
    }
    assert(buf@ =~= single_frame(audio@, start as int, shift as nat, window@));
    buf
}

/// Load the transform's input for two spectra.
pub fn load_pair<S: AudioSample>(
    audio: &[S],
    first: usize,
    second: usize,
    shift: u32,
    window: &[i16],
) -> (buf: Vec<Iq>)
    requires
        shift <= 8,
        is_window(window@),
        first <= usize::MAX - 4096,
        second <= usize::MAX - 4096,
    ensures
        buf@ == paired_frame(audio@, first as int, second as int, shift as nat, window@),
{
    let mut buf: Vec<Iq> = Vec::with_capacity(params::NFFT_SPEC);
    for k in 0..params::NFFT_SPEC
        invariant
            shift <= 8,
            is_window(window@),
            first <= usize::MAX - 4096,
            second <= usize::MAX - 4096,
            buf@.len() == k,
            forall|q: int|
                0 <= q < k ==> #[trigger] buf@[q] == paired_frame(
                    audio@,
                    first as int,
                    second as int,
                    shift as nat,
                    window@,
                )[q],
    {
        let re: i16 = load_sample(audio, first, shift, window, k);
        let im: i16 = load_sample(audio, second, shift, window, k);
        buf.push(Iq { re, im });
    }
    assert(buf@ =~= paired_frame(audio@, first as int, second as int, shift as nat, window@));
    buf
}

/// The cell of a bin: its power without the last twelve binary places, of
/// which sixteen places are kept.
pub open spec fn cell(re: int, im: int) -> int {
    ((re * re + im * im) / 4096) % 65536
}

/// The cell of a bin.
pub fn cell_power(re: i32, im: i32) -> (v: u16)
    requires
        -32768 <= re <= 32768,
        -32768 <= im <= 32768,
    ensures
        v == cell(re as int, im as int),
{
    assert(0 <= re * re <= 1073741824) by (nonlinear_arith)
        requires
            -32768 <= re <= 32768,
    ;
    assert(0 <= im * im <= 1073741824) by (nonlinear_arith)
        requires
            -32768 <= im <= 32768,
    ;
    let a: u32 = (re * re) as u32;
    let b: u32 = (im * im) as u32;
    (((a + b) / 4096) % 65536) as u16
}

/// The two cells of bin `k` of a pair of spectra. The spectra of the real and
/// of the imaginary parts are the even and the odd parts of the transform,
/// taken from bin `k` and its mirror image.
pub open spec fn pair_cells(out: Seq<Iq>, k: int) -> (int, int) {
    let y = out[k];
    let n = out[(4096 - k) % 4096];
    (
        cell((y.re + n.re) / 2, (y.im - n.im) / 2),
        cell((y.im + n.im) / 2, (n.re - y.re) / 2),
    )
}

/// Halving by a right shift rounds down.
fn half(v: i32) -> (h: i32)
    requires
        -65536 <= v <= 65536,
    ensures
        h == (v as int) / 2,
{
    if v >= 0 {
        v / 2
    } else {
        -((1 - v) / 2)
    }
}

/// The two cells of bin `k` of a pair of spectra.
pub fn split_pair(out: &Vec<Iq>, k: usize) -> (cells: (u16, u16))
    requires
        out@.len() == 4096,
        k < 4096,
    ensures
        cells.0 == pair_cells(out@, k as int).0,
        cells.1 == pair_cells(out@, k as int).1,
{
    let mirror: usize = (params::NFFT_SPEC - k) % params::NFFT_SPEC;
    let y: Iq = out[k];
    let n: Iq = out[mirror];
    let a_re: i32 = half(y.re as i32 + n.re as i32);
    let a_im: i32 = half(y.im as i32 - n.im as i32);
    let b_re: i32 = half(y.im as i32 + n.im as i32);
    let b_im: i32 = half(n.re as i32 - y.re as i32);
    (cell_power(a_re, a_im), cell_power(b_re, b_im))
}

/// Power spectra, one after the other: cell `i` of spectrum `j` stands at
/// `j n_freq + i`.
pub struct Spectrogram {
    /// Bins kept of each spectrum.
    pub n_freq: usize,
    /// Spectra.
    pub n_time: usize,
    pub data: Vec<u16>,
}

impl Spectrogram {
    pub open spec fn well_formed(&self) -> bool {
        self.data@.len() == self.n_freq * self.n_time
    }

    /// The cell of a bin in a spectrum.
    pub open spec fn at(&self, freq_bin: int, time: int) -> u16 {
        self.data@[time * self.n_freq + freq_bin]
    }

    /// Spectra from their parts.
    pub fn from_parts(n_freq: usize, n_time: usize, data: Vec<u16>) -> (s: Spectrogram)
        requires
            data@.len() == n_freq * n_time,
        ensures
            s.well_formed(),
            s.n_freq == n_freq,
            s.n_time == n_time,
            s.data == data,
    {
        Spectrogram { n_freq, n_time, data }
    }

    /// The cell of a bin in a spectrum.
    pub fn power(&self, freq_bin: usize, time: usize) -> (v: u16)
        requires
            self.well_formed(),
            freq_bin < self.n_freq,
            time < self.n_time,
        ensures
            v == self.at(freq_bin as int, time as int),
    {
        let size: usize = self.data.len();
        proof {
            lemma_cell_index(self.n_freq as int, self.n_time as int, freq_bin as int, time as int);
        }
        self.data[time * self.n_freq + freq_bin]
    }
}

/// Cells of one spectrum stand together, and cells of different spectra apart.
pub proof fn lemma_cell_index(n_freq: int, n_time: int, freq_bin: int, time: int)
    requires
        0 <= freq_bin < n_freq,
        0 <= time < n_time,
    ensures
        0 <= time * n_freq,
        time * n_freq + freq_bin < n_freq * n_time,
        (time + 1) * n_freq <= n_freq * n_time,
        (time + 1) * n_freq == time * n_freq + n_freq,
{
    assert(0 <= time * n_freq && time * n_freq + freq_bin < n_freq * n_time && (time + 1) * n_freq
        <= n_freq * n_time && (time + 1) * n_freq == time * n_freq + n_freq) by (nonlinear_arith)
        requires
            0 <= freq_bin < n_freq,
            0 <= time <= n_time - 1,
    ;
}

/// The spectra of some audio: 184 of them, with `n_freq` bins each, one
/// transform for each; the gain follows from the loudest sample.
pub open spec fn is_slot_spectra<S: AudioSample, F: Fft16>(
    spec: &Spectrogram,
    audio: Seq<S>,
    n_freq: int,
    window: Seq<i16>,
    fft: &F,
) -> bool {
    let shift = gain(
        peak_size(audio, if audio.len() < 180000 {
            audio.len() as int
        } else {
            180000
        }),
    );
    &&& spec.well_formed()
    &&& spec.n_freq == n_freq
    &&& spec.n_time == 184
    &&& forall|j: int, i: int|
        0 <= j < 184 && 0 <= i < n_freq ==> #[trigger] spec.at(i, j) == cell(
            fft.transform(single_frame(audio, 960 * j, shift as nat, window))[i].re as int,
            fft.transform(single_frame(audio, 960 * j, shift as nat, window))[i].im as int,
        )
}

/// The spectra of a slot, one transform for each.
///
/// `n_freq` bins are kept; the gain follows from the loudest sample.
pub fn compute_spectrogram<S: AudioSample, F: Fft16>(
    audio: &[S],
    n_freq: usize,
    window: &[i16],
    fft: &F,
) -> (spec: Spectrogram)
    requires
        n_freq <= 2048,
        is_window(window@),
        fft.ready(),
    ensures
        is_slot_spectra(&spec, audio@, n_freq as int, window@, fft),
{
    let shift: u32 = gain_shift(peak_abs(audio));
    let mut data: Vec<u16> = Vec::new();
    assert(0 * n_freq == 0) by (nonlinear_arith);
    for j in 0..params::N_TIME
        invariant
            shift <= 8,
            n_freq <= 2048,
            is_window(window@),
            fft.ready(),
            data@.len() == j * n_freq,
            forall|q: int, i: int|
                0 <= q < j && 0 <= i < n_freq ==> #[trigger] data@[q * n_freq + i] == cell(
                    fft.transform(single_frame(audio@, 960 * q, shift as nat, window@))[i].re
                        as int,
                    fft.transform(single_frame(audio@, 960 * q, shift as nat, window@))[i].im
                        as int,
                ),
    {
        let mut buf: Vec<Iq> = load_single(audio, j * params::NSTEP, shift, window);
        let ghost input = buf@;
        fft.process(&mut buf);
        let ghost before = data@;
        for i in 0..n_freq
            invariant
                n_freq <= 2048,
                buf@.len() == 4096,
                before.len() == j * n_freq,
                data@.len() == j * n_freq + i,
                forall|x: int| 0 <= x < before.len() ==> #[trigger] data@[x] == before[x],
                forall|q: int|
                    0 <= q < i ==> #[trigger] data@[j * n_freq + q] == cell(
                        buf@[q].re as int,
                        buf@[q].im as int,
                    ),
        {
            data.push(cell_power(buf[i].re as i32, buf[i].im as i32));
        }
        assert((j + 1) * n_freq == j * n_freq + n_freq) by (nonlinear_arith);
        assert forall|q: int, i: int| 0 <= q < j + 1 && 0 <= i < n_freq implies #[trigger] data@[q
            * n_freq + i] == cell(
            fft.transform(single_frame(audio@, 960 * q, shift as nat, window@))[i].re as int,
            fft.transform(single_frame(audio@, 960 * q, shift as nat, window@))[i].im as int,
        ) by {
            if q < j {
                lemma_cell_index(n_freq as int, j as int, i, q);
                assert(q * n_freq + i < j * n_freq) by (nonlinear_arith)
                    requires
                        q <= j - 1,
                        0 <= i < n_freq,
                ;
                assert(data@[q * n_freq + i] == before[q * n_freq + i]);
            } else {
                assert(data@[j * n_freq + i] == cell(buf@[i].re as int, buf@[i].im as int));
            }
        }
    }
    let spec: Spectrogram = Spectrogram { n_freq, n_time: params::N_TIME, data };
    assert(184 * n_freq == n_freq * 184);
    spec
}

} // verus!
