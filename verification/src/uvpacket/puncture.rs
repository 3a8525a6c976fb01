//! Puncturing of the (240, 101) code.
//!
//! The 101 information bits are always sent. Of the 139 parity bits a mode
//! sends an evenly spread subset; the receiver puts an erasure where a bit was
//! not sent.
//!
//! | Mode     | parity bits sent | channel bits |
//! |----------|-----------------:|-------------:|
//! | Robust   | 139              | 240          |
//! | Standard | 101              | 202          |
//! | Fast     | 51               | 152          |

use vstd::prelude::*;

verus! {

/// Codeword length.
pub const N: usize = 240;

/// Information bits of a codeword.
pub const K_INFO: usize = 101;

/// Parity bits of a codeword.
pub const N_PARITY: usize = 139;

/// Rate of a frame.
#[derive(Clone, Copy, Debug, PartialEq, Eq, Structural)]
pub enum Mode {
    /// Nothing punctured: for weak signals and deep fading.
    Robust,
    /// Rate one half.
    Standard,
    /// Rate two thirds: for strong signals.
    Fast,
}

impl Mode {
    /// The two bit code of a mode in a frame header.
    pub open spec fn code(self) -> u8 {
        match self {
            Mode::Robust => 0,
            Mode::Standard => 1,
            Mode::Fast => 2,
        }
    }

    /// The mode of a header code; the remaining codes are reserved.
    pub open spec fn of_code(code: u8) -> Option<Mode> {
        if code == 0 {
            Some(Mode::Robust)
        } else if code == 1 {
            Some(Mode::Standard)
        } else if code == 2 {
            Some(Mode::Fast)
        } else {
            None
        }
    }

    /// Channel bits of one block.
    pub open spec fn channel_bits(self) -> int {
        match self {
            Mode::Robust => 240,
            Mode::Standard => 202,
            Mode::Fast => 152,
        }
    }

    /// Two bit code for the frame header.
    pub fn header_code(self) -> (code: u8)
        ensures
            code == self.code(),
            code < 3,
    {
        match self {
            Mode::Robust => 0,
            Mode::Standard => 1,
            Mode::Fast => 2,
        }
    }

    /// Inverse of [`Self::header_code`]; `None` for reserved codes.
    pub fn from_header_code(code: u8) -> (mode: Option<Mode>)
        ensures
            mode == Mode::of_code(code),
    {
        match code {
            0 => Some(Mode::Robust),
            1 => Some(Mode::Standard),
            2 => Some(Mode::Fast),
            _ => None,
        }
    }

    /// Channel bits sent per block.
    pub fn ch_bits_per_block(self) -> (bits: usize)
        ensures
            bits == self.channel_bits(),
    {
        match self {
            Mode::Robust => 240,
            Mode::Standard => 202,
            Mode::Fast => 152,
        }
    }

    /// Parity bits sent per block.
    pub fn parity_kept(self) -> (bits: usize)
        ensures
            bits == self.channel_bits() - 101,
    {
        self.ch_bits_per_block() - K_INFO
    }
}

/// A header code names its mode again.
pub proof fn law_header_code_roundtrip(mode: Mode)
    ensures
        Mode::of_code(mode.code()) == Some(mode),
{
}

/// Parity bit `p` is sent when the share of bits sent so far grows past a
/// whole number at it.
pub open spec fn parity_is_kept(mode: Mode, p: int) -> bool {
    ((p + 1) * (mode.channel_bits() - 101)) / 139 > (p * (mode.channel_bits() - 101)) / 139
}

/// The codeword positions that a mode sends.
pub open spec fn is_kept(mode: Mode, i: int) -> bool {
    0 <= i < 101 || (101 <= i < 240 && parity_is_kept(mode, i - 101))
}

/// The positions below `end` that a mode sends, in ascending order.
pub open spec fn kept_below(mode: Mode, end: int) -> Seq<usize>
    decreases end,
{
    if end <= 0 {
        Seq::empty()
    } else if is_kept(mode, end - 1) {
        kept_below(mode, end - 1).push((end - 1) as usize)
    } else {
        kept_below(mode, end - 1)
    }
}

/// All positions that a mode sends, in ascending order.
pub open spec fn kept(mode: Mode) -> Seq<usize> {
    kept_below(mode, 240)
}

proof fn lemma_info_prefix(mode: Mode, end: int)
    requires
        0 <= end <= 101,
    ensures
        kept_below(mode, end) == Seq::new(end as nat, |i: int| i as usize),
    decreases end,
{
    if end > 0 {
        lemma_info_prefix(mode, end - 1);
        assert(kept_below(mode, end) =~= Seq::new(end as nat, |i: int| i as usize));
    } else {
        assert(kept_below(mode, 0) =~= Seq::new(0, |i: int| i as usize));
    }
}

/// The share of sent parity bits grows by at most one from bit to bit.
pub proof fn lemma_share_step(keep: int, p: int)
    requires
        0 <= keep <= 139,
        0 <= p < 139,
    ensures
        (p * keep) / 139 <= ((p + 1) * keep) / 139 <= (p * keep) / 139 + 1,
{
    assert((p + 1) * keep == p * keep + keep) by (nonlinear_arith);
    assert(0 <= p * keep) by (nonlinear_arith)
        requires
            0 <= p,
            0 <= keep,
    ;
}

proof fn lemma_kept_below(mode: Mode, end: int)
    requires
        0 <= end <= 240,
    ensures
        end >= 101 ==> kept_below(mode, end).len() == 101 + ((end - 101) * (mode.channel_bits()
            - 101)) / 139,
        end < 101 ==> kept_below(mode, end).len() == end,
        forall|t: int|
            0 <= t < kept_below(mode, end).len() ==> #[trigger] kept_below(mode, end)[t] < end
                && is_kept(mode, kept_below(mode, end)[t] as int),
        forall|a: int, b: int|
            0 <= a < b < kept_below(mode, end).len() ==> kept_below(mode, end)[a] < kept_below(
                mode,
                end,
            )[b],
        forall|i: int|
            0 <= i < end && #[trigger] is_kept(mode, i) ==> kept_below(mode, end).contains(
                i as usize,
            ),
    decreases end,
{
    if end > 0 {
        lemma_kept_below(mode, end - 1);
        let before = kept_below(mode, end - 1);
        let now = kept_below(mode, end);
        let keep = mode.channel_bits() - 101;
        if end > 101 {
            lemma_share_step(keep, end - 102);
        } else {
            assert(end == 101 ==> ((end - 101) * keep) / 139 == 0) by (nonlinear_arith);
        }
        assert forall|i: int| 0 <= i < end && #[trigger] is_kept(mode, i) implies now.contains(
            i as usize,
        ) by {
            if i == end - 1 {
                assert(now[now.len() - 1] == i);
            } else {
                let t = choose|t: int| 0 <= t < before.len() && before[t] == i as usize;
                assert(now[t] == i as usize);
            }
        }
    }
}

/// The positions sent by a mode: as many as its channel bits, ascending
/// without repetition, the information bits first, and exactly the kept ones.
pub proof fn law_kept_positions(mode: Mode)
    ensures
        kept(mode).len() == mode.channel_bits(),
        forall|t: int| 0 <= t < 101 ==> #[trigger] kept(mode)[t] == t,
        forall|a: int, b: int|
            0 <= a < b < kept(mode).len() ==> #[trigger] kept(mode)[a] < #[trigger] kept(mode)[b],
        forall|t: int| 0 <= t < kept(mode).len() ==> #[trigger] kept(mode)[t] < 240,
        forall|i: int|
            0 <= i < 240 ==> (#[trigger] is_kept(mode, i) <==> kept(mode).contains(i as usize)),
{
    lemma_kept_below(mode, 240);
    lemma_prefix(mode, 240);
    lemma_info_prefix(mode, 101);
    assert forall|t: int| 0 <= t < 101 implies #[trigger] kept(mode)[t] == t by {
        assert(kept_below(mode, 240).take(101)[t] == kept_below(mode, 101)[t]);
    }
    assert forall|i: int| 0 <= i < 240 implies (#[trigger] is_kept(mode, i) <==> kept(
        mode,
    ).contains(i as usize)) by {
        if kept(mode).contains(i as usize) {
            let t = choose|t: int| 0 <= t < kept(mode).len() && kept(mode)[t] == i as usize;
            assert(is_kept(mode, kept_below(mode, 240)[t] as int));
        }
    }
}

proof fn lemma_prefix(mode: Mode, end: int)
    requires
        101 <= end <= 240,
    ensures
        kept_below(mode, end).len() >= 101,
        kept_below(mode, end).take(101) == kept_below(mode, 101),
    decreases end,
{
    lemma_kept_below(mode, 101);
    if end > 101 {
        lemma_prefix(mode, end - 1);
        assert(kept_below(mode, end).take(101) =~= kept_below(mode, end - 1).take(101));
    } else {
        assert(kept_below(mode, 101).take(101) =~= kept_below(mode, 101));
    }
}

/// The list of codeword positions that a mode sends, in ascending order.
pub fn keep_indices(mode: Mode) -> (keep: Vec<usize>)
    ensures
        keep@ == kept(mode),
        keep@.len() == mode.channel_bits(),
{
    let mut keep: Vec<usize> = Vec::with_capacity(mode.ch_bits_per_block());
    for i in 0..K_INFO
        invariant
            keep@ == kept_below(mode, i as int),
    {
        keep.push(i);
    }
    let n_keep: usize = mode.parity_kept();
    for p in 0..N_PARITY
        invariant
            n_keep == mode.channel_bits() - 101,
            n_keep <= 139,
            keep@ == kept_below(mode, 101 + p),
    {
        assert((p + 1) * n_keep <= 139 * 139) by (nonlinear_arith)
            requires
                p < 139,
                n_keep <= 139,
        ;
        assert(p * n_keep <= 139 * 139) by (nonlinear_arith)
            requires
                p < 139,
                n_keep <= 139,
        ;
        let cur: usize = ((p + 1) * n_keep) / N_PARITY;
        let prev: usize = (p * n_keep) / N_PARITY;
        if cur > prev {
            keep.push(K_INFO + p);
        }
    }
    proof {
        law_kept_positions(mode);
    }
    keep
}

/// The channel bits of a codeword.
pub open spec fn punctured<T>(codeword: Seq<T>, mode: Mode) -> Seq<T> {
    Seq::new(kept(mode).len(), |t: int| codeword[kept(mode)[t] as int])
}

/// Drop the bits of a codeword that the mode does not send.
pub fn puncture(codeword: &[u8], mode: Mode) -> (out: Vec<u8>)
    requires
        codeword@.len() == 240,
    ensures
        out@ == punctured(codeword@, mode),
        out@.len() == mode.channel_bits(),
{
    let keep: Vec<usize> = keep_indices(mode);
    proof {
        law_kept_positions(mode);
    }
    let mut out: Vec<u8> = Vec::with_capacity(keep.len());
    for t in 0..keep.len()
        invariant
            codeword@.len() == 240,
            keep@ == kept(mode),
            forall|t: int| 0 <= t < kept(mode).len() ==> #[trigger] kept(mode)[t] < 240,
            out@.len() == t,
            forall|q: int| 0 <= q < t ==> #[trigger] out@[q] == punctured(codeword@, mode)[q],
    {
        assert(kept(mode)[t as int] < 240);
        out.push(codeword[keep[t]]);
    }
    assert(out@ =~= punctured(codeword@, mode));
    out
}

/// The codeword values that channel values stand for: `erasure` where nothing
/// was sent.
pub open spec fn restored<T>(channel: Seq<T>, mode: Mode, erasure: T, out: Seq<T>) -> bool {
    &&& out.len() == 240
    &&& forall|t: int|
        0 <= t < kept(mode).len() ==> out[#[trigger] kept(mode)[t] as int] == channel[t]
    &&& forall|i: int| 0 <= i < 240 && !(#[trigger] is_kept(mode, i)) ==> out[i] == erasure
}

/// Inverse of [`puncture`] on received values: each channel value goes back to
/// its codeword position and `erasure` to the positions that were not sent.
pub fn de_puncture_llr<T: Copy>(channel_llrs: &[T], mode: Mode, erasure: T) -> (out: Vec<T>)
    requires
        channel_llrs@.len() == mode.channel_bits(),
    ensures
        restored(channel_llrs@, mode, erasure, out@),
{
    let keep: Vec<usize> = keep_indices(mode);
    proof {
        law_kept_positions(mode);
    }
    let mut out: Vec<T> = Vec::with_capacity(N);
    for i in 0..N
        invariant
            out@.len() == i,
            forall|q: int| 0 <= q < i ==> #[trigger] out@[q] == erasure,
    {
        out.push(erasure);
    }
    for t in 0..keep.len()
        invariant
            keep@ == kept(mode),
            channel_llrs@.len() == kept(mode).len(),
            out@.len() == 240,
            forall|q: int| 0 <= q < kept(mode).len() ==> #[trigger] kept(mode)[q] < 240,
            forall|a: int, b: int|
                0 <= a < b < kept(mode).len() ==> #[trigger] kept(mode)[a]
                    < #[trigger] kept(mode)[b],
            forall|q: int|
                0 <= q < t ==> out@[#[trigger] kept(mode)[q] as int] == channel_llrs@[q],
            forall|i: int|
                0 <= i < 240 && !kept(mode).contains(i as usize) ==> #[trigger] out@[i] == erasure,
    {
        assert(kept(mode)[t as int] < 240);
        out.set(keep[t], channel_llrs[t]);
        assert(kept(mode).contains(keep@[t as int]));
    }
    out
}

/// Puncturing and restoring gives every bit that was sent back in its place,
/// and the erasure everywhere else.
pub proof fn law_puncture_roundtrip<T>(codeword: Seq<T>, mode: Mode, erasure: T, out: Seq<T>)
    requires
        codeword.len() == 240,
        restored(punctured(codeword, mode), mode, erasure, out),
    ensures
        out.len() == 240,
        forall|i: int|
            0 <= i < 240 ==> #[trigger] out[i] == (if is_kept(mode, i) {
                codeword[i]
            } else {
                erasure
            }),
{
    law_kept_positions(mode);
    assert forall|i: int| 0 <= i < 240 implies #[trigger] out[i] == (if is_kept(mode, i) {
        codeword[i]
    } else {
        erasure
    }) by {
        if is_kept(mode, i) {
            let t = choose|t: int| 0 <= t < kept(mode).len() && kept(mode)[t] == i as usize;
            assert(out[kept(mode)[t] as int] == punctured(codeword, mode)[t]);
        }
    }
}

/// The mode that sends most keeps every position.
pub proof fn law_robust_keeps_everything(i: int)
    requires
        0 <= i < 240,
    ensures
        is_kept(Mode::Robust, i),
        kept(Mode::Robust)[i] == i,
{
    lemma_robust(240);
    assert(is_kept(Mode::Robust, i));
}

proof fn lemma_robust_share(p: int)
    ensures
        parity_is_kept(Mode::Robust, p),
{
    let keep = Mode::Robust.channel_bits() - 101;
    assert(((p + 1) * keep) / 139 == p + 1 && (p * keep) / 139 == p) by (nonlinear_arith)
        requires
            keep == 139,
    ;
}

proof fn lemma_robust(end: int)
    requires
        0 <= end <= 240,
    ensures
        kept_below(Mode::Robust, end).len() == end,
        forall|i: int| 0 <= i < end ==> #[trigger] is_kept(Mode::Robust, i),
        forall|i: int| 0 <= i < end ==> #[trigger] kept_below(Mode::Robust, end)[i] == i,
    decreases end,
{
    if end > 0 {
        lemma_robust(end - 1);
        if end > 101 {
            lemma_robust_share(end - 102);
        }
        assert(is_kept(Mode::Robust, end - 1));
        assert forall|i: int| 0 <= i < end implies #[trigger] kept_below(Mode::Robust, end)[i]
            == i by {
            if i < end - 1 {
                assert(kept_below(Mode::Robust, end - 1)[i] == i);
            }
        }
    }
}

} // verus!
