//! Tone spectra of one candidate in fixed point.
//!
//! The samples of each tone of the transmission are set against eight pairs of
//! oscillators, one for each frequency. The oscillators are run up once per
//! candidate by repeated rotation; the sums are dot products.

use super::params;
use super::spectrogram::AudioSample;
use crate::dotprod;
use crate::scalar;
use crate::select;
use vstd::prelude::*;

verus! {

/// Samples of the oscillators of all eight frequencies.
pub const BASIS_SCRATCH_LEN: usize = 15360;

/// Which of the 79 tones are computed.
#[derive(Clone, Copy, Debug, PartialEq, Eq, Structural)]
pub enum SymMask {
    /// The 21 tones of the Costas arrays.
    SyncOnly,
    /// The seven tones of the first Costas array.
    SyncBlock0,
    /// All but the first Costas array.
    NotBlock0,
    /// The 58 tones that carry data.
    DataOnly,
}

/// Whether a tone belongs to a Costas array.
pub open spec fn is_sync(sym: int) -> bool {
    0 <= sym < 7 || 36 <= sym < 43 || 72 <= sym < 79
}

impl SymMask {
    /// Whether a tone is computed.
    pub open spec fn includes(self, sym: int) -> bool {
        match self {
            SymMask::SyncOnly => is_sync(sym),
            SymMask::SyncBlock0 => 0 <= sym < 7,
            SymMask::NotBlock0 => !(0 <= sym < 7),
            SymMask::DataOnly => !is_sync(sym),
        }
    }
}

/// Whether a tone is computed under a mask.
pub fn sym_in_mask(sym: usize, mask: SymMask) -> (yes: bool)
    ensures
        yes == mask.includes(sym as int),
{
    let first: bool = sym < 7;
    let second: bool = sym >= 36 && sym < 43;
    let third: bool = sym >= 72 && sym < 79;
    let sync: bool = first || second || third;
    match mask {
        SymMask::SyncOnly => sync,
        SymMask::SyncBlock0 => first,
        SymMask::NotBlock0 => !first,
        SymMask::DataOnly => !sync,
    }
}

/// The two ways to compute all tones in two steps both do: every tone is in
/// exactly one of the two masks.
pub proof fn law_masks_complement_each_other(sym: int)
    requires
        0 <= sym < 79,
    ensures
        SymMask::SyncOnly.includes(sym) != SymMask::DataOnly.includes(sym),
        SymMask::SyncBlock0.includes(sym) != SymMask::NotBlock0.includes(sym),
{
}

/// An oscillator state.
pub struct Osc {
    pub re: int,
    pub im: int,
}

/// The oscillator after `k` rotations from the positive real axis; each
/// rotation rounds down.
pub open spec fn oscillator(rot_re: int, rot_im: int, k: nat) -> Osc
    decreases k,
{
    if k == 0 {
        Osc { re: 32767, im: 0 }
    } else {
        let o = oscillator(rot_re, rot_im, (k - 1) as nat);
        Osc {
            re: (o.re * rot_re - o.im * rot_im) / 32768,
            im: (o.re * rot_im + o.im * rot_re) / 32768,
        }
    }
}

/// A rotation that does not lengthen.
pub open spec fn is_rotation(rot_re: int, rot_im: int) -> bool {
    &&& -32768 <= rot_re <= 32768
    &&& -32768 <= rot_im <= 32768
    &&& rot_re * rot_re + rot_im * rot_im <= 32768 * 32768
}

/// A product of sums of two squares is a sum of two squares.
proof fn lemma_two_squares(x: int, y: int, c: int, s: int)
    ensures
        (x * c - y * s) * (x * c - y * s) + (x * s + y * c) * (x * s + y * c) == (x * x + y * y) * (
        c * c + s * s),
{
    let xc = x * c;
    let ys = y * s;
    let xs = x * s;
    let yc = y * c;
    assert((xc - ys) * (xc - ys) == xc * xc - 2 * (xc * ys) + ys * ys) by (nonlinear_arith);
    assert((xs + yc) * (xs + yc) == xs * xs + 2 * (xs * yc) + yc * yc) by (nonlinear_arith);
    assert((x * c) * (y * s) == (x * s) * (y * c)) by (nonlinear_arith);
    assert((x * c) * (x * c) == (x * x) * (c * c)) by (nonlinear_arith);
    assert((y * s) * (y * s) == (y * y) * (s * s)) by (nonlinear_arith);
    assert((x * s) * (x * s) == (x * x) * (s * s)) by (nonlinear_arith);
    assert((y * c) * (y * c) == (y * y) * (c * c)) by (nonlinear_arith);
    let a = x * x;
    let b = y * y;
    let d = c * c;
    let e = s * s;
    assert((a + b) * (d + e) == a * d + a * e + b * d + b * e) by (nonlinear_arith);
}

/// One rotation lengthens an oscillator by less than two units.
proof fn lemma_rotation(x: int, y: int, c: int, s: int, bound: int)
    requires
        is_rotation(c, s),
        0 <= bound <= 40000,
        x * x + y * y <= bound * bound,
    ensures
        -bound <= x <= bound,
        -bound <= y <= bound,
        -bound * 32768 <= x * c - y * s <= bound * 32768,
        -bound * 32768 <= x * s + y * c <= bound * 32768,
        ({
            let a = (x * c - y * s) / 32768;
            let b = (x * s + y * c) / 32768;
            a * a + b * b <= (bound + 2) * (bound + 2)
        }),
{
    let u = x * c - y * s;
    let v = x * s + y * c;
    assert(-bound <= x <= bound && -bound <= y <= bound) by (nonlinear_arith)
        requires
            x * x + y * y <= bound * bound,
            0 <= bound,
    ;
    // the rotated vector is no longer than the product of the lengths
    lemma_two_squares(x, y, c, s);
    let xx = x * x + y * y;
    let cc = c * c + s * s;
    assert(0 <= xx && 0 <= cc) by (nonlinear_arith)
        requires
            xx == x * x + y * y,
            cc == c * c + s * s,
    ;
    assert(xx * cc <= (bound * bound) * (32768 * 32768)) by (nonlinear_arith)
        requires
            0 <= xx <= bound * bound,
            0 <= cc <= 32768 * 32768,
    ;
    let len = bound * 32768;
    assert((bound * bound) * (32768 * 32768) == len * len) by (nonlinear_arith)
        requires
            len == bound * 32768,
    ;
    assert(-len <= u <= len && -len <= v <= len) by (nonlinear_arith)
        requires
            u * u + v * v <= len * len,
            0 <= len,
    ;
    // rounding down takes away less than a unit from each part
    let a = u / 32768;
    let b = v / 32768;
    let r = u % 32768;
    let t = v % 32768;
    assert(u == 32768 * a + r && v == 32768 * b + t);
    let cross = u * r + v * t;
    let other = v * r - u * t;
    lemma_two_squares(u, v, r, -t);
    assert(u * r - v * (-t) == cross && u * (-t) + v * r == other && (-t) * (-t) == t * t)
        by (nonlinear_arith)
        requires
            cross == u * r + v * t,
            other == v * r - u * t,
    ;
    assert(0 <= other * other) by (nonlinear_arith);
    let short = 49152int;
    assert(r * r + t * t <= short * short) by (nonlinear_arith)
        requires
            0 <= r < 32768,
            0 <= t < 32768,
            short == 49152,
    ;
    let uu = u * u + v * v;
    let rr = r * r + t * t;
    assert(0 <= uu && 0 <= rr) by (nonlinear_arith)
        requires
            uu == u * u + v * v,
            rr == r * r + t * t,
    ;
    assert(uu * rr <= (len * len) * (short * short)) by (nonlinear_arith)
        requires
            0 <= uu <= len * len,
            0 <= rr <= short * short,
    ;
    let prod = len * short;
    assert((len * len) * (short * short) == prod * prod) by (nonlinear_arith)
        requires
            prod == len * short,
    ;
    assert(0 <= prod) by (nonlinear_arith)
        requires
            prod == len * short,
            len >= 0,
            short >= 0,
    ;
    assert(-prod <= cross) by (nonlinear_arith)
        requires
            cross * cross <= prod * prod,
            0 <= prod,
    ;
    let p = 32768 * a;
    let q = 32768 * b;
    assert(p * p + q * q == uu - 2 * cross + rr) by (nonlinear_arith)
        requires
            p == u - r,
            q == v - t,
            uu == u * u + v * v,
            rr == r * r + t * t,
            cross == u * r + v * t,
    ;
    let sum = len + short;
    assert(p * p + q * q <= sum * sum) by (nonlinear_arith)
        requires
            p * p + q * q == uu - 2 * cross + rr,
            uu <= len * len,
            rr <= short * short,
            -(len * short) <= cross,
            sum == len + short,
    ;
    let m = bound + 2;
    let wide = m * 32768;
    assert(sum <= wide && 0 <= sum);
    assert(sum * sum <= wide * wide) by (nonlinear_arith)
        requires
            0 <= sum <= wide,
    ;
    assert(a * a + b * b <= m * m) by (nonlinear_arith)
        requires
            p * p + q * q <= wide * wide,
            p == 32768 * a,
            q == 32768 * b,
            wide == m * 32768,
    ;
}

/// Fill in the oscillator of one frequency. `rot_re` and `rot_im` are cosine
/// and sine of the step from sample to sample, times 32767.
fn fill_oscillator(
    basis_re: &mut Vec<i16>,
    basis_im: &mut Vec<i16>,
    base: usize,
    rot_re: i32,
    rot_im: i32,
)
    requires
        is_rotation(rot_re as int, rot_im as int),
        base + 1920 <= old(basis_re)@.len(),
        base + 1920 <= old(basis_im)@.len(),
        base <= 100000,
    ensures
        final(basis_re)@.len() == old(basis_re)@.len(),
        final(basis_im)@.len() == old(basis_im)@.len(),
        forall|k: int|
            0 <= k < 1920 ==> #[trigger] final(basis_re)@[base + k] == oscillator(
                rot_re as int,
                rot_im as int,
                k as nat,
            ).re as i16,
        forall|k: int|
            0 <= k < 1920 ==> #[trigger] final(basis_im)@[base + k] == oscillator(
                rot_re as int,
                rot_im as int,
                k as nat,
            ).im as i16,
        forall|x: int|
            0 <= x < old(basis_re)@.len() && !(base <= x < base + 1920)
                ==> #[trigger] final(basis_re)@[x] == old(basis_re)@[x],
        forall|x: int|
            0 <= x < old(basis_im)@.len() && !(base <= x < base + 1920)
                ==> #[trigger] final(basis_im)@[x] == old(basis_im)@[x],
{
    let ghost start_re = basis_re@;
    let ghost start_im = basis_im@;
    let mut osc_re: i32 = 32767;
    let mut osc_im: i32 = 0;
    for k in 0..params::NSPS
        invariant
            is_rotation(rot_re as int, rot_im as int),
            base <= 100000,
            basis_re@.len() == start_re.len(),
            basis_im@.len() == start_im.len(),
            base + 1920 <= start_re.len(),
            base + 1920 <= start_im.len(),
            osc_re == oscillator(rot_re as int, rot_im as int, k as nat).re,
            osc_im == oscillator(rot_re as int, rot_im as int, k as nat).im,
            osc_re * osc_re + osc_im * osc_im <= (32767 + 2 * k) * (32767 + 2 * k),
            forall|q: int|
                0 <= q < k ==> #[trigger] basis_re@[base + q] == oscillator(
                    rot_re as int,
                    rot_im as int,
                    q as nat,
                ).re as i16,
            forall|q: int|
                0 <= q < k ==> #[trigger] basis_im@[base + q] == oscillator(
                    rot_re as int,
                    rot_im as int,
                    q as nat,
                ).im as i16,
            forall|x: int|
                0 <= x < start_re.len() && !(base <= x < base + 1920) ==> #[trigger] basis_re@[x]
                    == start_re[x],
            forall|x: int|
                0 <= x < start_im.len() && !(base <= x < base + 1920) ==> #[trigger] basis_im@[x]
                    == start_im[x],
    {
        basis_re.set(base + k, #[verifier::truncate] (osc_re as i16));
        basis_im.set(base + k, #[verifier::truncate] (osc_im as i16));
        proof {
            let x = osc_re as int;
            let y = osc_im as int;
            let c = rot_re as int;
            let s = rot_im as int;
            lemma_rotation(x, y, c, s, 32767 + 2 * k);
            assert(-1342177280 <= x * c <= 1342177280) by (nonlinear_arith)
                requires
                    -40960 <= x <= 40960,
                    -32768 <= c <= 32768,
            ;
            assert(-1342177280 <= y * s <= 1342177280) by (nonlinear_arith)
                requires
                    -40960 <= y <= 40960,
                    -32768 <= s <= 32768,
            ;
            assert(-1342177280 <= x * s <= 1342177280) by (nonlinear_arith)
                requires
                    -40960 <= x <= 40960,
                    -32768 <= s <= 32768,
            ;
            assert(-1342177280 <= y * c <= 1342177280) by (nonlinear_arith)
                requires
                    -40960 <= y <= 40960,
                    -32768 <= c <= 32768,
            ;
        }
        let turned_re: i32 = osc_re * rot_re - osc_im * rot_im;
        let turned_im: i32 = osc_re * rot_im + osc_im * rot_re;
        proof {
            scalar::lemma_shift_15(turned_re);
            scalar::lemma_shift_15(turned_im);
        }
        osc_re = turned_re >> 15;
        osc_im = turned_im >> 15;
    }
}

/// The rotations of the eight frequencies.
pub open spec fn are_rotations(rot: Seq<(i32, i32)>) -> bool {
    &&& rot.len() == 8
    &&& forall|tone: int|
        0 <= tone < 8 ==> is_rotation((#[trigger] rot[tone]).0 as int, rot[tone].1 as int)
}

/// Sample `k` of the oscillator of a frequency.
pub open spec fn basis_re_at(rot: Seq<(i32, i32)>, tone: int, k: int) -> i16 {
    oscillator(rot[tone].0 as int, rot[tone].1 as int, k as nat).re as i16
}

/// Sample `k` of the oscillator of a frequency, a quarter turn on.
pub open spec fn basis_im_at(rot: Seq<(i32, i32)>, tone: int, k: int) -> i16 {
    oscillator(rot[tone].0 as int, rot[tone].1 as int, k as nat).im as i16
}

/// The oscillators of all frequencies, one after the other.
pub open spec fn basis_of(rot: Seq<(i32, i32)>, tone: int) -> (Seq<i16>, Seq<i16>) {
    (
        Seq::new(1920, |k: int| basis_re_at(rot, tone, k)),
        Seq::new(1920, |k: int| basis_im_at(rot, tone, k)),
    )
}

/// A sum over one tone of the transmission.
#[derive(Clone, Copy, Debug, PartialEq, Eq, Structural)]
pub struct ToneSum {
    pub re: i32,
    pub im: i32,
}

/// The samples of tone `sym` of a transmission that starts at `i0`: nought
/// before and after the audio.
pub open spec fn symbol_samples<S: AudioSample>(audio: Seq<S>, i0: int, sym: int) -> Seq<i16> {
    Seq::new(
        1920,
        |k: int|
            {
                let idx = i0 + 1920 * sym + k;
                if 0 <= idx < audio.len() {
                    audio[idx].level() as i16
                } else {
                    0i16
                }
            },
    )
}

/// The samples of one tone.
fn load_symbol<S: AudioSample>(audio: &[S], i0: i64, sym: usize) -> (buf: Vec<i16>)
    requires
        sym < 79,
    ensures
        buf@ == symbol_samples(audio@, i0 as int, sym as int),
{
    let start: i128 = i0 as i128 + (sym as i128) * 1920;
    let mut buf: Vec<i16> = Vec::with_capacity(params::NSPS);
    for k in 0..params::NSPS
        invariant
            sym < 79,
            start == i0 + 1920 * sym,
            buf@.len() == k,
            forall|q: int|
                0 <= q < k ==> #[trigger] buf@[q] == symbol_samples(
                    audio@,
                    i0 as int,
                    sym as int,
                )[q],
    {
        let idx: i128 = start + k as i128;
        if idx >= 0 && idx < audio.len() as i128 {
            buf.push(audio[idx as usize].to_i16());
        } else {
            buf.push(0);
        }
    }
    assert(buf@ =~= symbol_samples(audio@, i0 as int, sym as int));
    buf
}

/// The sum of tone `sym` at frequency `tone`.
pub open spec fn tone_sum<S: AudioSample>(
    audio: Seq<S>,
    i0: int,
    rot: Seq<(i32, i32)>,
    sym: int,
    tone: int,
) -> (int, int) {
    let samples = symbol_samples(audio, i0, sym);
    let (re, im) = basis_of(rot, tone);
    (dotprod::dot(samples, re), dotprod::dot(samples, im))
}

/// The sums after the tones under a mask have been computed; the others are as
/// they were.
pub open spec fn is_filled<S: AudioSample>(
    before: Seq<[ToneSum; 8]>,
    audio: Seq<S>,
    i0: int,
    rot: Seq<(i32, i32)>,
    mask: SymMask,
    after: Seq<[ToneSum; 8]>,
) -> bool {
    &&& after.len() == 79
    &&& forall|sym: int, tone: int|
        0 <= sym < 79 && 0 <= tone < 8 ==> #[trigger] after[sym]@[tone] == (if mask.includes(sym) {
            ToneSum {
                re: tone_sum(audio, i0, rot, sym, tone).0 as i32,
                im: tone_sum(audio, i0, rot, sym, tone).1 as i32,
            }
        } else {
            before[sym]@[tone]
        })
}

/// The first Costas array and then the rest, or the sync symbols and then the
/// data: either way all tones are computed, whatever stood there before.
pub proof fn law_masked_fills_agree<S: AudioSample>(
    audio: Seq<S>,
    i0: int,
    rot: Seq<(i32, i32)>,
    a: (Seq<[ToneSum; 8]>, Seq<[ToneSum; 8]>, Seq<[ToneSum; 8]>),
    b: (Seq<[ToneSum; 8]>, Seq<[ToneSum; 8]>, Seq<[ToneSum; 8]>),
)
    requires
        is_filled(a.0, audio, i0, rot, SymMask::SyncBlock0, a.1),
        is_filled(a.1, audio, i0, rot, SymMask::NotBlock0, a.2),
        is_filled(b.0, audio, i0, rot, SymMask::SyncOnly, b.1),
        is_filled(b.1, audio, i0, rot, SymMask::DataOnly, b.2),
    ensures
        a.2.len() == 79,
        b.2.len() == 79,
        forall|sym: int, tone: int|
            0 <= sym < 79 && 0 <= tone < 8 ==> #[trigger] a.2[sym]@[tone] == b.2[sym]@[tone],
{
    assert forall|sym: int, tone: int| 0 <= sym < 79 && 0 <= tone < 8 implies #[trigger] a.2[sym]@[
    tone] == b.2[sym]@[tone] by {
        assert(a.1[sym]@[tone] == a.1[sym]@[tone] && b.1[sym]@[tone] == b.1[sym]@[tone]);
        assert(b.2[sym]@[tone] == b.2[sym]@[tone]);
    }
}

/// Compute the sums of the tones under a mask for a transmission that starts
/// at sample `i0` of the audio, and leave the others as they are. `rot` holds
/// cosine and sine of the step of each frequency, times 32767.
pub fn fill_symbol_spectra_into<S: AudioSample>(
    out: &mut Vec<[ToneSum; 8]>,
    audio: &[S],
    i0: i64,
    rot: &Vec<(i32, i32)>,
    mask: SymMask,
    basis_re: &mut Vec<i16>,
    basis_im: &mut Vec<i16>,
)
    requires
        old(out)@.len() == 79,
        are_rotations(rot@),
        old(basis_re)@.len() >= 15360,
        old(basis_im)@.len() >= 15360,
    ensures
        is_filled(old(out)@, audio@, i0 as int, rot@, mask, final(out)@),
        final(basis_re)@.len() == old(basis_re)@.len(),
        final(basis_im)@.len() == old(basis_im)@.len(),
{
    let ghost start = out@;
    for tone in 0..params::NTONES
        invariant
            are_rotations(rot@),
            basis_re@.len() >= 15360,
            basis_im@.len() >= 15360,
            basis_re@.len() == old(basis_re)@.len(),
            basis_im@.len() == old(basis_im)@.len(),
            forall|t: int, k: int|
                0 <= t < tone && 0 <= k < 1920 ==> #[trigger] basis_re@[1920 * t + k]
                    == basis_re_at(rot@, t, k),
            forall|t: int, k: int|
                0 <= t < tone && 0 <= k < 1920 ==> #[trigger] basis_im@[1920 * t + k]
                    == basis_im_at(rot@, t, k),
    {
        let (rot_re, rot_im): (i32, i32) = rot[tone];
        assert(is_rotation(rot@[tone as int].0 as int, rot@[tone as int].1 as int));
        let ghost before_re = basis_re@;
        let ghost before_im = basis_im@;
        fill_oscillator(basis_re, basis_im, tone * params::NSPS, rot_re, rot_im);
        assert forall|t: int, k: int| 0 <= t < tone + 1 && 0 <= k < 1920 implies #[trigger] basis_re@[
        1920 * t + k] == basis_re_at(rot@, t, k) by {
            if t < tone {
                assert(basis_re@[1920 * t + k] == before_re[1920 * t + k]);
            }
        }
        assert forall|t: int, k: int| 0 <= t < tone + 1 && 0 <= k < 1920 implies #[trigger] basis_im@[
        1920 * t + k] == basis_im_at(rot@, t, k) by {
            if t < tone {
                assert(basis_im@[1920 * t + k] == before_im[1920 * t + k]);
            }
        }
    }
    for sym in 0..params::NN
        invariant
            start == old(out)@,
            start.len() == 79,
            out@.len() == 79,
            basis_re@.len() >= 15360,
            basis_im@.len() >= 15360,
            basis_re@.len() == old(basis_re)@.len(),
            basis_im@.len() == old(basis_im)@.len(),
            forall|t: int, k: int|
                0 <= t < 8 && 0 <= k < 1920 ==> #[trigger] basis_re@[1920 * t + k] == basis_re_at(
                    rot@,
                    t,
                    k,
                ),
            forall|t: int, k: int|
                0 <= t < 8 && 0 <= k < 1920 ==> #[trigger] basis_im@[1920 * t + k] == basis_im_at(
                    rot@,
                    t,
                    k,
                ),
            forall|q: int| sym <= q < 79 ==> #[trigger] out@[q] == start[q],
            forall|q: int, t: int|
                0 <= q < sym && 0 <= t < 8 ==> #[trigger] out@[q]@[t] == (if mask.includes(q) {
                    ToneSum {
                        re: tone_sum(audio@, i0 as int, rot@, q, t).0 as i32,
                        im: tone_sum(audio@, i0 as int, rot@, q, t).1 as i32,
                    }
                } else {
                    start[q]@[t]
                }),
    {
        let ghost before = out@;
        if sym_in_mask(sym, mask) {
            let samples: Vec<i16> = load_symbol(audio, i0, sym);
            let mut row: [ToneSum; 8] = out[sym];
            for tone in 0..params::NTONES
                invariant
                    sym < 79,
                    samples@ == symbol_samples(audio@, i0 as int, sym as int),
                    basis_re@.len() >= 15360,
                    basis_im@.len() >= 15360,
                    forall|t: int, k: int|
                        0 <= t < 8 && 0 <= k < 1920 ==> #[trigger] basis_re@[1920 * t + k]
                            == basis_re_at(rot@, t, k),
                    forall|t: int, k: int|
                        0 <= t < 8 && 0 <= k < 1920 ==> #[trigger] basis_im@[1920 * t + k]
                            == basis_im_at(rot@, t, k),
                    forall|t: int|
                        0 <= t < tone ==> #[trigger] row@[t] == (ToneSum {
                            re: tone_sum(audio@, i0 as int, rot@, sym as int, t).0 as i32,
                            im: tone_sum(audio@, i0 as int, rot@, sym as int, t).1 as i32,
                        }),
            {
                let base: usize = tone * params::NSPS;
                let re_slice: &[i16] = vstd::slice::slice_subrange(
                    basis_re.as_slice(),
                    base,
                    base + params::NSPS,
                );
                let im_slice: &[i16] = vstd::slice::slice_subrange(
                    basis_im.as_slice(),
                    base,
                    base + params::NSPS,
                );
                proof {
                    let (re, im) = basis_of(rot@, tone as int);
                    assert forall|k: int| 0 <= k < 1920 implies re_slice@[k] == re[k] by {
                        assert(basis_re@[1920 * tone + k] == basis_re_at(rot@, tone as int, k));
                    }
                    assert forall|k: int| 0 <= k < 1920 implies im_slice@[k] == im[k] by {
                        assert(basis_im@[1920 * tone + k] == basis_im_at(rot@, tone as int, k));
                    }
                    assert(re_slice@ =~= re);
                    assert(im_slice@ =~= im);
                    dotprod::law_short_vectors_fit(samples@, re_slice@);
                    dotprod::law_short_vectors_fit(samples@, im_slice@);
                }
                let re: i32 = dotprod::dot_q15_i32(&samples, re_slice);
                let im: i32 = dotprod::dot_q15_i32(&samples, im_slice);
                row[tone] = ToneSum { re, im };
            }
            out.set(sym, row);
        }
        assert forall|q: int, t: int| 0 <= q < sym + 1 && 0 <= t < 8 implies #[trigger] out@[q]@[t]
            == (if mask.includes(q) {
            ToneSum {
                re: tone_sum(audio@, i0 as int, rot@, q, t).0 as i32,
                im: tone_sum(audio@, i0 as int, rot@, q, t).1 as i32,
            }
        } else {
            start[q]@[t]
        }) by {
            if q < sym {
                assert(out@[q] == before[q]);
                assert(before[q]@[t] == out@[q]@[t]);
            }
        }
    }
}

/// Number of the first `t` tones of a Costas array, from tone `from` of the
/// transmission on, at which the strongest frequency is the array's. `keys`
/// holds the strengths as order keys; the last of equal ones counts.
pub open spec fn costas_hits(keys: Seq<[u32; 8]>, from: int, t: int) -> nat
    decreases t,
{
    if t <= 0 {
        0
    } else {
        costas_hits(keys, from, t - 1) + (if select::is_last_peak(
            keys[from + t - 1]@,
            params::COSTAS@[t - 1] as int,
        ) {
            1nat
        } else {
            0nat
        })
    }
}

/// Count the hits in one Costas array.
fn count_hits(keys: &Vec<[u32; 8]>, from: usize) -> (count: u32)
    requires
        from + 7 <= keys@.len(),
        from <= 72,
    ensures
        count == costas_hits(keys@, from as int, 7),
        count <= 7,
{
    let mut count: u32 = 0;
    for t in 0..7usize
        invariant
            from + 7 <= keys@.len(),
            from <= 72,
            count == costas_hits(keys@, from as int, t as int),
            count <= t,
    {
        let row: [u32; 8] = keys[from + t];
        let best: usize = select::last_peak(row.as_slice());
        proof {
            lemma_last_peak_unique(row@, best as int, params::COSTAS@[t as int] as int);
        }
        if best == params::COSTAS[t] {
            count = count + 1;
        }
    }
    count
}

proof fn lemma_last_peak_unique(keys: Seq<u32>, a: int, b: int)
    requires
        select::is_last_peak(keys, a),
    ensures
        select::is_last_peak(keys, b) <==> a == b,
{
    if select::is_last_peak(keys, b) && a != b {
        if a < b {
            assert(keys[b] < keys[a]);
            assert(keys[a] <= keys[b]);
        } else {
            assert(keys[a] < keys[b]);
            assert(keys[b] <= keys[a]);
        }
    }
}

/// Sync quality of the first Costas array: nought to seven.
pub fn sync_quality_block0(keys: &Vec<[u32; 8]>) -> (q: u32)
    requires
        keys@.len() == 79,
    ensures
        q == costas_hits(keys@, 0, 7),
        q <= 7,
{
    count_hits(keys, 0)
}

/// Sync quality of all three Costas arrays: nought to 21.
pub fn sync_quality(keys: &Vec<[u32; 8]>) -> (q: u32)
    requires
        keys@.len() == 79,
    ensures
        q == costas_hits(keys@, 0, 7) + costas_hits(keys@, 36, 7) + costas_hits(keys@, 72, 7),
        q <= 21,
{
    count_hits(keys, 0) + count_hits(keys, 36) + count_hits(keys, 72)
}

} // verus!
