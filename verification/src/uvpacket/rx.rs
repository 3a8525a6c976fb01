//! Receive path: what is decided between the demodulator and the frame.
//!
//! The demodulator turns samples into soft bits and correlation scores; the
//! functions here say which samples it needs, what the decoded bits mean, and
//! which peaks of the correlation are decoded at all.
//!
//! A frame is a preamble, one unpunctured header block and the payload
//! blocks. The header block tells the number of payload blocks; the check in
//! it covers the payload as well.

use super::framing;
use super::framing::UnpackError;
use super::interleaver;
use super::puncture;
use super::puncture::Mode;
use crate::bits;
use crate::fec::FecOpts;
use vstd::prelude::*;

verus! {

/// Chips of the long preamble that tells the mode.
pub const PREAMBLE_LEN: usize = 127;

/// Symbols of the header block.
pub const HEADER_BLOCK_SYMS: usize = 120;

/// Samples per symbol.
pub const NSPS: usize = 10;

/// Samples of the pulse.
pub const RRC_LEN: usize = 61;

/// Where in the filter output the first symbol peaks.
pub const SYM_PEAK_OFFSET: usize = 60;

/// Taps of the equaliser on either side of its centre.
pub const EQ_TAP_HALF: usize = 4;

/// Taps of the equaliser.
pub const EQ_N_TAPS: usize = 9;

/// Samples that preamble and header block take.
pub const HEADER_SPAN: usize = 2531;

/// Why a frame could not be decoded.
#[derive(Clone, Copy, Debug, PartialEq, Eq, Structural)]
pub enum DecodeError {
    /// The audio ends before preamble and header block do.
    Truncated,
    /// The audio ends before the payload blocks do.
    PayloadTruncated { needed_samples: usize },
    /// The header block could not be decoded or its reserved bits are set.
    HeaderFecFailed,
    /// A payload block could not be decoded.
    PayloadFecFailed,
    /// The reassembled frame failed its check.
    Crc(UnpackError),
}

/// A decoded frame.
#[derive(Debug)]
pub struct DecodedFrame {
    pub app_type: u8,
    pub sequence: u8,
    pub mode: Mode,
    pub block_count: u8,
    pub payload: Vec<u8>,
}

/// What the payload of a frame needs.
#[derive(Clone, Copy, Debug, PartialEq, Eq, Structural)]
pub struct PayloadPlan {
    /// Payload blocks.
    pub n_blocks: usize,
    /// Symbols of the payload.
    pub payload_syms: usize,
    /// Symbols of the frame.
    pub total_syms: usize,
    /// Samples of the frame.
    pub needed_samples: usize,
}

/// Decoding options when the caller has none: fifty iterations and
/// second-order reprocessing.
pub fn default_fec_opts() -> (opts: FecOpts)
    ensures
        opts.bp_max_iter == 50,
        opts.osd_depth == 2,
        opts.ap_mask is None,
        !opts.verify_info,
{
    FecOpts { bp_max_iter: 50, osd_depth: 2, ap_mask: None, verify_info: false }
}

/// Whether preamble and header block of a frame at `sample_offset` lie in the
/// audio.
pub fn check_header_span(sample_offset: usize, audio_len: usize) -> (r: Result<(), DecodeError>)
    ensures
        r is Ok <==> sample_offset + 2531 <= audio_len,
        r is Err ==> r->Err_0 == DecodeError::Truncated,
{
    if audio_len < HEADER_SPAN || sample_offset > audio_len - HEADER_SPAN {
        Err(DecodeError::Truncated)
    } else {
        Ok(())
    }
}

/// Bytes of a bit string, eight bits to the byte, most significant first; a
/// remainder of fewer than eight bits is dropped.
pub fn bits_to_bytes_msb(bits_in: &[u8]) -> (out: Vec<u8>)
    ensures
        out@.len() == bits_in@.len() / 8,
        forall|i: int|
            0 <= i < 8 * out@.len() ==> #[trigger] bits::bits_of_bytes(out@)[i] == (bits_in@[i]
                != 0),
{
    let total: usize = bits_in.len();
    let n_bytes: usize = total / 8;
    let mut out: Vec<u8> = Vec::with_capacity(n_bytes);
    for b in 0..n_bytes
        invariant
            8 * n_bytes <= total,
            total == bits_in@.len(),
            out@.len() == b,
            forall|i: int|
                0 <= i < 8 * b ==> bits::msb_bit(#[trigger] out@[i / 8], i % 8) == (bits_in@[i]
                    != 0),
    {
        let mut byte: u8 = 0;
        proof {
            bits::lemma_zero_byte();
        }
        for k in 0..8usize
            invariant
                b < n_bytes,
                8 * n_bytes <= total,
                total == bits_in@.len(),
                forall|j: int|
                    0 <= j < 8 ==> #[trigger] bits::msb_bit(byte, j) == (j < k && bits_in@[8 * b
                        + j] != 0),
        {
            if bits_in[b * 8 + k] != 0 {
                byte = bits::with_bit(byte, k);
            }
        }
        out.push(byte);
        assert forall|i: int| 0 <= i < 8 * (b + 1) implies bits::msb_bit(
            #[trigger] out@[i / 8],
            i % 8,
        ) == (bits_in@[i] != 0) by {
            if i >= 8 * b {
                assert(i / 8 == b);
                assert(i == 8 * b + i % 8);
            }
        }
    }
    out
}

/// What the header bytes say, before the check is known: block count,
/// application type and sequence.
pub open spec fn peeked(header_info: Seq<u8>) -> Result<(u8, u8, u8), DecodeError> {
    if header_info.len() < 4 {
        Err(DecodeError::HeaderFecFailed)
    } else {
        let word = framing::be_value(header_info[0], header_info[1]);
        if word % 4 != 0 {
            Err(DecodeError::HeaderFecFailed)
        } else {
            Ok(
                (
                    (word / 2048 + 1) as u8,
                    ((word / 128) % 16) as u8,
                    ((word / 4) % 32) as u8,
                ),
            )
        }
    }
}

/// Read block count, application type and sequence from the header bytes.
///
/// The check covers the payload and is verified later; the block count is
/// needed to find the payload at all.
pub fn peek_header_block_count(header_info: &[u8]) -> (r: Result<(u8, u8, u8), DecodeError>)
    ensures
        r == peeked(header_info@),
{
    if header_info.len() < framing::HEADER_BYTES {
        return Err(DecodeError::HeaderFecFailed);
    }
    let word: u16 = (header_info[0] as u16) * 256 + (header_info[1] as u16);
    if word % 4 != 0 {
        return Err(DecodeError::HeaderFecFailed);
    }
    Ok(((word / 2048 + 1) as u8, ((word / 128) % 16) as u8, ((word / 4) % 32) as u8))
}

/// The plan for a payload of `n` blocks.
pub open spec fn plan_for(n: int, mode: Mode) -> PayloadPlan {
    let payload = n * mode.channel_bits() / 2;
    PayloadPlan {
        n_blocks: n as usize,
        payload_syms: payload as usize,
        total_syms: (247 + payload) as usize,
        needed_samples: ((247 + payload) * 10 + 61) as usize,
    }
}

/// What follows from the decoded header block: the plan for the payload, or
/// why there is none. `header_bits` is `None` when the block did not decode.
pub open spec fn header_outcome(
    header_bits: Option<Seq<u8>>,
    header_bytes: Seq<u8>,
    mode: Mode,
    sample_offset: int,
    audio_len: int,
) -> Result<PayloadPlan, DecodeError> {
    match header_bits {
        None => Err(DecodeError::HeaderFecFailed),
        Some(_) => match peeked(header_bytes) {
            Err(e) => Err(e),
            Ok((n, _, _)) => {
                let plan = plan_for(n as int, mode);
                if sample_offset + plan.needed_samples > audio_len {
                    Err(DecodeError::PayloadTruncated { needed_samples: plan.needed_samples })
                } else {
                    Ok(plan)
                }
            },
        },
    }
}

/// The bytes whose bits are the first 96 of a decoded block.
pub open spec fn carried(info: Seq<u8>, bytes: Seq<u8>) -> bool {
    &&& bytes.len() == 12
    &&& forall|i: int|
        0 <= i < 96 ==> #[trigger] bits::bits_of_bytes(bytes)[i] == (info[i] != 0)
}

/// The twelve bytes that a decoded block carries.
pub fn carried_bytes(info: &[u8]) -> (bytes: Vec<u8>)
    requires
        info@.len() >= 96,
    ensures
        carried(info@, bytes@),
{
    let (front, _): (&[u8], &[u8]) = info.split_at(96);
    let bytes: Vec<u8> = bits_to_bytes_msb(front);
    assert forall|i: int| 0 <= i < 96 implies #[trigger] bits::bits_of_bytes(bytes@)[i] == (info@[i]
        != 0) by {
        assert(front@[i] == info@[i]);
    }
    bytes
}

/// Second step of a decode: from the decoded header block to the plan for the
/// payload. Gives the header bytes along with the plan.
pub fn plan_payload(
    header_info: Option<&[u8]>,
    mode: Mode,
    sample_offset: usize,
    audio_len: usize,
) -> (r: Result<(Vec<u8>, PayloadPlan), DecodeError>)
    requires
        header_info is Some ==> header_info->0@.len() >= 96,
    ensures
        header_info is None ==> r == Err::<(Vec<u8>, PayloadPlan), DecodeError>(
            DecodeError::HeaderFecFailed,
        ),
        header_info matches Some(info) ==> exists|bytes: Seq<u8>|
            #[trigger] carried(info@, bytes) && match header_outcome(
                Some(info@),
                bytes,
                mode,
                sample_offset as int,
                audio_len as int,
            ) {
                Ok(plan) => r matches Ok((b, p)) && b@ == bytes && p == plan,
                Err(e) => r matches Err(f) && f == e,
            },
{
    let info: &[u8] = match header_info {
        Some(info) => info,
        None => return Err(DecodeError::HeaderFecFailed),
    };
    let bytes: Vec<u8> = carried_bytes(info);
    assert(carried(info@, bytes@));
    let (n, _, _): (u8, u8, u8) = match peek_header_block_count(&bytes) {
        Ok(fields) => fields,
        Err(e) => return Err(e),
    };
    let len: usize = mode.ch_bits_per_block();
    let n_blocks: usize = n as usize;
    assert(n_blocks * len <= 255 * 240) by (nonlinear_arith)
        requires
            n_blocks <= 255,
            len <= 240,
    ;
    let payload_syms: usize = n_blocks * len / 2;
    let total_syms: usize = PREAMBLE_LEN + HEADER_BLOCK_SYMS + payload_syms;
    let needed_samples: usize = total_syms * NSPS + RRC_LEN;
    if audio_len < needed_samples || sample_offset > audio_len - needed_samples {
        return Err(DecodeError::PayloadTruncated { needed_samples });
    }
    Ok((bytes, PayloadPlan { n_blocks, payload_syms, total_syms, needed_samples }))
}

/// `block` holds the soft bits of block `b` in codeword order: the soft bit
/// that travelled at its channel position where a bit was sent, and the
/// erasure elsewhere.
pub open spec fn is_payload_block<T>(
    llrs: Seq<T>,
    mode: Mode,
    n_blocks: int,
    erasure: T,
    b: int,
    block: Seq<T>,
) -> bool {
    &&& block.len() == 240
    &&& forall|t: int|
        0 <= t < mode.channel_bits() ==> block[#[trigger] puncture::kept(mode)[t] as int]
            == llrs[t * n_blocks + b]
    &&& forall|i: int|
        0 <= i < 240 && !(#[trigger] puncture::is_kept(mode, i)) ==> block[i] == erasure
}

/// Sort the soft bits of a payload back into codewords, with an erasure where
/// the mode sends nothing.
pub fn split_payload<T: Copy>(llrs: &[T], mode: Mode, n_blocks: usize, erasure: T) -> (out: Vec<
    Vec<T>,
>)
    requires
        0 < n_blocks,
        llrs@.len() == n_blocks * mode.channel_bits(),
    ensures
        out@.len() == n_blocks,
        forall|b: int|
            0 <= b < n_blocks ==> is_payload_block(
                llrs@,
                mode,
                n_blocks as int,
                erasure,
                b,
                (#[trigger] out@[b])@,
            ),
{
    let len: usize = mode.ch_bits_per_block();
    let total: usize = llrs.len();
    proof {
        assert(n_blocks * len == total);
        vstd::arithmetic::div_mod::lemma_mod_multiples_basic(len as int, n_blocks as int);
        assert((len * n_blocks) % (n_blocks as int) == 0);
        assert(len * n_blocks == n_blocks * len) by (nonlinear_arith);
        vstd::arithmetic::div_mod::lemma_div_multiples_vanish(len as int, n_blocks as int);
        assert(total as int / n_blocks as int == len);
        puncture::law_kept_positions(mode);
    }
    let perm: Vec<usize> = interleaver::build_permutation(n_blocks, len);
    let blocks: Vec<Vec<T>> = interleaver::deinterleave_llr(llrs, &perm, n_blocks);
    let mut out: Vec<Vec<T>> = Vec::with_capacity(n_blocks);
    for b in 0..n_blocks
        invariant
            len == mode.channel_bits(),
            total == llrs@.len(),
            total as int / n_blocks as int == len,
            puncture::kept(mode).len() == len,
            n_blocks * len == total,
            perm@ == interleaver::permutation(n_blocks as nat, len as nat),
            interleaver::deinterleaved(llrs@, perm@, n_blocks as int, blocks@),
            out@.len() == b,
            forall|c: int|
                0 <= c < b ==> is_payload_block(
                    llrs@,
                    mode,
                    n_blocks as int,
                    erasure,
                    c,
                    (#[trigger] out@[c])@,
                ),
    {
        assert(blocks@[b as int]@.len() == len);
        let restored: Vec<T> = puncture::de_puncture_llr(&blocks[b], mode, erasure);
        assert forall|t: int| 0 <= t < len implies restored@[#[trigger] puncture::kept(
            mode,
        )[t] as int] == llrs@[t * n_blocks + b] by {
            let j = t * n_blocks + b;
            interleaver::lemma_channel_position(n_blocks as int, len as int, b as int, t);
            assert(perm@[j] == b * len + t);
            vstd::arithmetic::div_mod::lemma_fundamental_div_mod_converse(
                b * len + t,
                len as int,
                b as int,
                t,
            );
            assert(blocks@[perm@[j] as int / len as int]@[perm@[j] as int % len as int]
                == llrs@[j]);
        }
        assert(is_payload_block(llrs@, mode, n_blocks as int, erasure, b as int, restored@));
        out.push(restored);
    }
    out
}

/// What the decoded blocks make of a frame: the header bytes and twelve bytes
/// of every block, unpacked.
pub open spec fn assembled(header_bytes: Seq<u8>, body: Seq<u8>, mode: Mode) -> Result<
    (framing::FrameHeader, Seq<u8>),
    DecodeError,
> {
    match framing::unpacked_header(header_bytes.take(4) + body, mode) {
        Ok(frame) => Ok(frame),
        Err(e) => Err(DecodeError::Crc(e)),
    }
}

/// `body` holds the twelve bytes of each decoded block.
pub open spec fn carries_blocks(blocks: Seq<Option<Vec<u8>>>, body: Seq<u8>) -> bool {
    &&& body.len() == 12 * blocks.len()
    &&& forall|b: int|
        0 <= b < blocks.len() ==> (#[trigger] blocks[b]) is Some && carried(
            blocks[b]->0@,
            body.subrange(12 * b, 12 * b + 12),
        )
}

/// Last step of a decode: from the decoded payload blocks to the frame.
/// `None` stands for a block that did not decode.
pub fn finish_frame(header_bytes: &Vec<u8>, blocks: &Vec<Option<Vec<u8>>>, mode: Mode) -> (r: Result<
    DecodedFrame,
    DecodeError,
>)
    requires
        header_bytes@.len() >= 4,
        blocks@.len() <= 32,
        forall|b: int|
            0 <= b < blocks@.len() ==> (#[trigger] blocks@[b] matches Some(info) ==> info@.len()
                >= 96),
    ensures
        (exists|b: int| 0 <= b < blocks@.len() && (#[trigger] blocks@[b]) is None) ==> r is Err
            && r->Err_0 == DecodeError::PayloadFecFailed,
        (forall|b: int| 0 <= b < blocks@.len() ==> (#[trigger] blocks@[b]) is Some)
            ==> exists|body: Seq<u8>|
            #[trigger] carries_blocks(blocks@, body) && match assembled(
                header_bytes@,
                body,
                mode,
            ) {
                Ok((header, payload)) => r matches Ok(f) && f.app_type == header.app_type
                    && f.sequence == header.sequence && f.mode == mode && f.block_count
                    == header.block_count && f.payload@ == payload,
                Err(e) => r matches Err(f) && f == e,
            },
{
    let mut all: Vec<u8> = Vec::new();
    all.push(header_bytes[0]);
    all.push(header_bytes[1]);
    all.push(header_bytes[2]);
    all.push(header_bytes[3]);
    let ghost mut body: Seq<u8> = Seq::empty();
    assert(all@ =~= header_bytes@.take(4) + body);
    for b in 0..blocks.len()
        invariant
            header_bytes@.len() >= 4,
            blocks@.len() <= 32,
            forall|b: int|
                0 <= b < blocks@.len() ==> (#[trigger] blocks@[b] matches Some(info)
                    ==> info@.len() >= 96),
            all@ == header_bytes@.take(4) + body,
            body.len() == 12 * b,
            forall|c: int|
                0 <= c < b ==> (#[trigger] blocks@[c]) is Some && carried(
                    blocks@[c]->0@,
                    body.subrange(12 * c, 12 * c + 12),
                ),
    {
        match &blocks[b] {
            None => {
                assert(blocks@[b as int] is None);
                return Err(DecodeError::PayloadFecFailed);
            },
            Some(info) => {
                let bytes: Vec<u8> = carried_bytes(info);
                let ghost before = body;
                all.extend_from_slice(&bytes);
                proof {
                    body = body + bytes@;
                }
                assert(all@ =~= header_bytes@.take(4) + body);
                assert forall|c: int| 0 <= c < b + 1 implies (#[trigger] blocks@[c]) is Some
                    && carried(blocks@[c]->0@, body.subrange(12 * c, 12 * c + 12)) by {
                    if c < b {
                        assert(body.subrange(12 * c, 12 * c + 12) =~= before.subrange(
                            12 * c,
                            12 * c + 12,
                        ));
                    } else {
                        assert(body.subrange(12 * c, 12 * c + 12) =~= bytes@);
                    }
                }
            },
        }
    }
    assert(carries_blocks(blocks@, body));
    match framing::unpack_header(&all, mode) {
        Err(e) => Err(DecodeError::Crc(e)),
        Ok((header, payload)) => {
            let mut copy: Vec<u8> = Vec::with_capacity(payload.len());
            copy.extend_from_slice(payload);
            assert(copy@ =~= payload@);
            Ok(
                DecodedFrame {
                    app_type: header.app_type,
                    sequence: header.sequence,
                    mode,
                    block_count: header.block_count,
                    payload: copy,
                },
            )
        },
    }
}

} // verus!
