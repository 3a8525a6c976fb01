//! What the transmit and the receive path promise of each other.

use super::framing;
use super::framing::{FrameHeader, PackError, UnpackError};
use super::interleaver;
use super::puncture;
use super::puncture::Mode;
use super::receive;
use super::receive::RxFront;
use super::rx;
use super::rx::{DecodeError, DecodedFrame};
use super::sync;
use super::sync::Peak;
use super::tx;
use crate::bits;
use crate::fec::ldpc::code::SystematicEncoder;
use crate::select;
use crate::select::Near;
use vstd::prelude::*;

verus! {

/// Over an undisturbed channel every bit that a mode sends comes back in its
/// place in its codeword, and an erasure everywhere else.
pub proof fn law_channel_gives_codewords_back(
    fec: &SystematicEncoder,
    frame: Seq<u8>,
    mode: Mode,
    n: nat,
    b: int,
    erasure: u8,
    block: Seq<u8>,
    i: int,
)
    requires
        fec.n() == 240,
        n * mode.channel_bits() <= usize::MAX,
        0 <= b < n,
        0 <= i < 240,
        rx::is_payload_block(
            interleaver::interleaved(
                tx::all_channel(fec, frame, mode, n),
                interleaver::permutation(n, mode.channel_bits() as nat),
            ),
            mode,
            n as int,
            erasure,
            b,
            block,
        ),
    ensures
        block[i] == (if puncture::is_kept(mode, i) {
            fec.codeword(tx::block_info(frame, b))[i]
        } else {
            erasure
        }),
{
    puncture::law_kept_positions(mode);
    if puncture::is_kept(mode, i) {
        let len = mode.channel_bits();
        let kept = puncture::kept(mode);
        let t = choose|t: int| 0 <= t < kept.len() && kept[t] == i as usize;
        assert(block[kept[t] as int] == interleaver::interleaved(
            tx::all_channel(fec, frame, mode, n),
            interleaver::permutation(n, len as nat),
        )[t * n + b]);
        interleaver::lemma_channel_position(n as int, len, b, t);
        let x = b * len + t;
        assert(0 <= x < n * len) by (nonlinear_arith)
            requires
                0 <= b <= n - 1,
                0 <= t < len,
                x == b * len + t,
        ;
        vstd::arithmetic::div_mod::lemma_fundamental_div_mod_converse(x, len, b, t);
    }
}

/// Over an undisturbed channel a receiver reads from block `b` the twelve
/// bytes that the transmitter put into it, whatever the mode: the information
/// bits are always sent.
pub proof fn law_channel_gives_bytes_back(
    fec: &SystematicEncoder,
    frame: Seq<u8>,
    mode: Mode,
    n: nat,
    b: int,
    erasure: u8,
    block: Seq<u8>,
    bytes: Seq<u8>,
    p: int,
)
    requires
        fec.k == 101,
        fec.n() == 240,
        n * mode.channel_bits() <= usize::MAX,
        0 <= b < n,
        frame.len() == 12 * n,
        rx::is_payload_block(
            interleaver::interleaved(
                tx::all_channel(fec, frame, mode, n),
                interleaver::permutation(n, mode.channel_bits() as nat),
            ),
            mode,
            n as int,
            erasure,
            b,
            block,
        ),
        rx::carried(block, bytes),
        0 <= p < 12,
    ensures
        bytes[p] == frame[12 * b + p],
{
    assert forall|j: int| 0 <= j < 8 implies #[trigger] bits::msb_bit(bytes[p], j)
        == bits::msb_bit(frame[12 * b + p], j) by {
        let i = 8 * p + j;
        law_channel_gives_codewords_back(fec, frame, mode, n, b, erasure, block, i);
        assert(bits::bits_of_bytes(bytes)[i] == (block[i] != 0));
        assert(block[i] == tx::block_info(frame, b)[i]);
        assert(i / 8 == p && i % 8 == j);
        assert((96 * b + i) / 8 == 12 * b + p && (96 * b + i) % 8 == j);
    }
    bits::law_bits_determine_byte(bytes[p], frame[12 * b + p]);
}

/// The receiver reads from the first two bytes of a header what the sender put
/// there: five bits of block count less one, four of application type, five of
/// sequence, and two zeros.
pub proof fn law_header_fields_are_read_back(
    header: FrameHeader,
    bytes: &[u8],
    r: Result<(u8, u8, u8), DecodeError>,
)
    requires
        1 <= header.block_count <= 32,
        header.app_type < 16,
        header.sequence < 32,
        bytes@.len() >= 4,
        256 * bytes@[0] + bytes@[1] == 2048 * (header.block_count - 1) + 128 * header.app_type + 4
            * header.sequence,
        call_ensures(rx::peek_header_block_count, (bytes,), r),
    ensures
        r == Ok::<(u8, u8, u8), DecodeError>(
            (header.block_count, header.app_type, header.sequence),
        ),
{
    let w = 256 * bytes@[0] + bytes@[1];
    let b = header.block_count - 1;
    let c = header.app_type as int;
    let d = header.sequence as int;
    assert(framing::be_value(bytes@[0], bytes@[1]) == w);
    framing::lemma_quotient(w, 2048, b, 128 * c + 4 * d);
    framing::lemma_quotient(w, 128, 16 * b + c, 4 * d);
    framing::lemma_quotient(16 * b + c, 16, b, c);
    framing::lemma_quotient(w, 4, 512 * b + 32 * c + d, 0);
    framing::lemma_quotient(512 * b + 32 * c + d, 32, 16 * b + c, d);
}

/// What the receiver reads from a header before it knows the check is what
/// unpacking finds in it once the check holds, and it is a number of blocks that
/// a frame can have.
pub proof fn law_header_is_read_alike_before_and_after_the_check(
    bytes: &[u8],
    mode: Mode,
    r: Result<(u8, u8, u8), DecodeError>,
    frame: Result<(FrameHeader, &[u8]), UnpackError>,
)
    requires
        call_ensures(rx::peek_header_block_count, (bytes,), r),
        call_ensures(framing::unpack_header, (bytes, mode), frame),
        frame is Ok,
    ensures
        ({
            let header = frame->Ok_0.0;
            &&& r == Ok::<(u8, u8, u8), DecodeError>(
                (header.block_count, header.app_type, header.sequence),
            )
            &&& header.mode == mode
            &&& 1 <= header.block_count <= 32
            &&& header.app_type < 16
            &&& header.sequence < 32
        }),
{
}

/// The soft values of a codeword with an erasure where the mode sends nothing.
pub open spec fn with_erasures<T>(word: Seq<T>, mode: Mode, erasure: T) -> Seq<T> {
    Seq::new(
        240,
        |i: int|
            if puncture::is_kept(mode, i) {
                word[i]
            } else {
                erasure
            },
    )
}

/// The surroundings of a receiver to which a sealed frame comes undisturbed.
///
/// The header block decodes to the first four bytes of the sealed frame. The
/// payload arrives as the first soft value of every codeword, then the second of
/// every codeword, and so on; codeword `b` decodes to bytes `12 b` and up of the
/// payload.
pub open spec fn is_undisturbed<T, H, L, C>(
    front: &RxFront<H, L, C>,
    offset: usize,
    erasure: T,
    header: FrameHeader,
    body: Seq<u8>,
    words: Seq<Seq<T>>,
) -> bool where
    H: Fn(usize, Mode) -> Option<Vec<u8>>,
    L: Fn(usize, Mode, usize) -> Vec<T>,
    C: Fn(&Vec<T>) -> Option<Vec<u8>>,
 {
    &&& 1 <= header.block_count <= 32
    &&& header.app_type < 16
    &&& header.sequence < 32
    &&& body.len() == 12 * header.block_count
    &&& words.len() == header.block_count
    &&& forall|info: Option<Vec<u8>>| #[trigger]
        call_ensures(front.header, (offset, header.mode), info) ==> info is Some
            && info->0@.len() >= 96 && forall|q: int|
            0 <= q < 32 ==> (#[trigger] info->0@[q] != 0) == bits::bits_of_bytes(
                framing::sealed(
                    2048 * (header.block_count - 1) + 128 * header.app_type + 4
                        * header.sequence,
                    body,
                ),
            )[q]
    &&& forall|syms: usize, v: Vec<T>| #[trigger]
        call_ensures(front.soft, (offset, header.mode, syms), v) ==> 2 * syms
            == header.block_count * header.mode.channel_bits() ==> v@.len() == 2 * syms
            && forall|b: int, t: int|
            0 <= b < header.block_count && 0 <= t < header.mode.channel_bits()
                ==> #[trigger] v@[t * header.block_count + b] == words[b][puncture::kept(
                header.mode,
            )[t] as int]
    &&& forall|b: int, block: &Vec<T>, info: Option<Vec<u8>>|
        0 <= b < header.block_count && block@ == with_erasures(
            #[trigger] words[b],
            header.mode,
            erasure,
        ) && #[trigger] call_ensures(front.fec, (block,), info) ==> info is Some
            && info->0@.len() >= 96 && forall|q: int|
            0 <= q < 96 ==> (#[trigger] info->0@[q] != 0) == bits::bits_of_bytes(body)[96 * b
                + q]
}

/// Over an undisturbed channel a frame comes back as it was sealed, whatever its
/// number of blocks: header fields and payload alike.
pub proof fn law_undisturbed_frames_are_decoded<T: Copy, H, L, C>(
    front: &RxFront<H, L, C>,
    audio_len: usize,
    offset: usize,
    erasure: T,
    header: FrameHeader,
    body: Seq<u8>,
    words: Seq<Seq<T>>,
    r: Result<DecodedFrame, DecodeError>,
) where
    H: Fn(usize, Mode) -> Option<Vec<u8>>,
    L: Fn(usize, Mode, usize) -> Vec<T>,
    C: Fn(&Vec<T>) -> Option<Vec<u8>>,

    requires
        is_undisturbed(front, offset, erasure, header, body, words),
        offset + 10 * (247 + header.block_count * header.mode.channel_bits() / 2) + 61 <= audio_len,
        call_ensures(
            receive::decode_known_layout::<T, H, L, C>,
            (front, audio_len, offset, header.mode, erasure),
            r,
        ),
    ensures
        r matches Ok(frame) && frame.mode == header.mode && frame.block_count == header.block_count
            && frame.app_type == header.app_type && frame.sequence == header.sequence
            && frame.payload@ == body,
{
    lemma_undisturbed_frame(front, audio_len, offset, erasure, header, body, words, r);
}

proof fn lemma_undisturbed_frame<T: Copy, H, L, C>(
    front: &RxFront<H, L, C>,
    audio_len: usize,
    offset: usize,
    erasure: T,
    header: FrameHeader,
    body: Seq<u8>,
    words: Seq<Seq<T>>,
    r: Result<DecodedFrame, DecodeError>,
) where
    H: Fn(usize, Mode) -> Option<Vec<u8>>,
    L: Fn(usize, Mode, usize) -> Vec<T>,
    C: Fn(&Vec<T>) -> Option<Vec<u8>>,

    requires
        is_undisturbed(front, offset, erasure, header, body, words),
        offset + 10 * (247 + header.block_count * header.mode.channel_bits() / 2) + 61 <= audio_len,
        front.reads(audio_len as int, offset, header.mode, erasure, r),
    ensures
        r matches Ok(frame) && frame.mode == header.mode && frame.block_count == header.block_count
            && frame.app_type == header.app_type && frame.sequence == header.sequence
            && frame.payload@ == body,
{
    let mode = header.mode;
    let n = header.block_count as int;
    let len = mode.channel_bits();
    let word = 2048 * (header.block_count - 1) + 128 * header.app_type + 4 * header.sequence;
    let frame = framing::sealed(word, body);
    assert(word == header.short_word());
    framing::law_unpack_header_inverts_seal(header, body);
    assert(n * len >= 152) by (nonlinear_arith)
        requires
            n >= 1,
            len >= 152,
    ;
    assert(n * len % 2 == 0) by (nonlinear_arith)
        requires
            len == 240 || len == 202 || len == 152,
    ;
    assert(front.reads(audio_len as int, offset, mode, erasure, r));
    let info = choose|info: Option<Vec<u8>>|
        {
            &&& #[trigger] call_ensures(front.header, (offset, mode), info)
            &&& match info {
                None => receive::fails(r, DecodeError::HeaderFecFailed),
                Some(i) => front.goes_on(i@, audio_len as int, offset, mode, erasure, r),
            }
        };
    let i = info->0@;
    assert(front.goes_on(i, audio_len as int, offset, mode, erasure, r));
    let bytes = choose|bytes: Seq<u8>|
        {
            &&& #[trigger] rx::carried(i, bytes)
            &&& match rx::header_outcome(Some(i), bytes, mode, offset as int, audio_len as int) {
                Err(e) => receive::fails(r, e),
                Ok(plan) => exists|llrs: Vec<T>|
                    {
                        &&& #[trigger] call_ensures(
                            front.soft,
                            (offset, mode, plan.payload_syms),
                            llrs,
                        )
                        &&& front.finishes(llrs@, plan.n_blocks as int, mode, erasure, bytes, r)
                    },
            }
        };
    assert forall|p: int| 0 <= p < 4 implies #[trigger] bytes[p] == frame[p] by {
        assert forall|j: int| 0 <= j < 8 implies #[trigger] bits::msb_bit(bytes[p], j)
            == bits::msb_bit(frame[p], j) by {
            let q = 8 * p + j;
            assert(q / 8 == p && q % 8 == j);
            assert(bits::bits_of_bytes(bytes)[q] == (i[q] != 0));
            assert((i[q] != 0) == bits::bits_of_bytes(frame)[q]);
        }
        bits::law_bits_determine_byte(bytes[p], frame[p]);
    }
    assert(bytes.take(4) + body =~= frame) by {
        assert(frame.skip(4) =~= body);
        assert forall|p: int| 4 <= p < frame.len() implies frame[p] == body[p - 4] by {
            assert(frame.skip(4)[p - 4] == frame[p]);
        }
    }
    assert(framing::be_value(bytes[0], bytes[1]) == word);
    assert(rx::peeked(bytes) == Ok::<(u8, u8, u8), DecodeError>(
        (header.block_count, header.app_type, header.sequence),
    ));
    let plan = rx::plan_for(n, mode);
    assert(n * len <= 7680) by (nonlinear_arith)
        requires
            n <= 32,
            len <= 240,
            n >= 0,
    ;
    assert(plan.n_blocks == n);
    assert(2 * plan.payload_syms == n * len);
    let llrs = choose|llrs: Vec<T>|
        {
            &&& #[trigger] call_ensures(front.soft, (offset, mode, plan.payload_syms), llrs)
            &&& front.finishes(llrs@, plan.n_blocks as int, mode, erasure, bytes, r)
        };
    lemma_undisturbed_blocks(front, llrs@, erasure, header, body, words, bytes, r);
}

/// The payload of an undisturbed frame.
proof fn lemma_undisturbed_blocks<T: Copy, H, L, C>(
    front: &RxFront<H, L, C>,
    llrs: Seq<T>,
    erasure: T,
    header: FrameHeader,
    body: Seq<u8>,
    words: Seq<Seq<T>>,
    bytes: Seq<u8>,
    r: Result<DecodedFrame, DecodeError>,
) where
    H: Fn(usize, Mode) -> Option<Vec<u8>>,
    L: Fn(usize, Mode, usize) -> Vec<T>,
    C: Fn(&Vec<T>) -> Option<Vec<u8>>,

    requires
        1 <= header.block_count <= 32,
        body.len() == 12 * header.block_count,
        words.len() == header.block_count,
        llrs.len() == header.block_count * header.mode.channel_bits(),
        forall|b: int, t: int|
            0 <= b < header.block_count && 0 <= t < header.mode.channel_bits() ==> #[trigger] llrs[t
                * header.block_count + b] == words[b][puncture::kept(header.mode)[t] as int],
        forall|b: int, block: &Vec<T>, info: Option<Vec<u8>>|
            0 <= b < header.block_count && block@ == with_erasures(
                #[trigger] words[b],
                header.mode,
                erasure,
            ) && #[trigger] call_ensures(front.fec, (block,), info) ==> info is Some
                && info->0@.len() >= 96 && forall|q: int|
                0 <= q < 96 ==> (#[trigger] info->0@[q] != 0) == bits::bits_of_bytes(body)[96 * b
                    + q],
        front.finishes(llrs, header.block_count as int, header.mode, erasure, bytes, r),
        framing::unpacked_header(bytes.take(4) + body, header.mode) == Ok::<
            (FrameHeader, Seq<u8>),
            UnpackError,
        >((header, body)),
    ensures
        r matches Ok(frame) && frame.mode == header.mode && frame.block_count == header.block_count
            && frame.app_type == header.app_type && frame.sequence == header.sequence
            && frame.payload@ == body,
{
    let mode = header.mode;
    let n = header.block_count as int;
    puncture::law_kept_positions(mode);
    let (blocks, infos) = choose|blocks: Seq<Vec<T>>, infos: Seq<Option<Vec<u8>>>|
        {
            &&& blocks.len() == n
            &&& forall|b: int|
                0 <= b < n ==> rx::is_payload_block(
                    llrs,
                    mode,
                    n,
                    erasure,
                    b,
                    (#[trigger] blocks[b])@,
                )
            &&& #[trigger] front.decodes(blocks, infos)
            &&& forall|b: int| 0 <= b < infos.len() - 1 ==> (#[trigger] infos[b]) is Some
            &&& if infos.len() > 0 && infos.last() is None {
                receive::fails(r, DecodeError::PayloadFecFailed)
            } else {
                &&& infos.len() == n
                &&& exists|body: Seq<u8>| #[trigger]
                    rx::carries_blocks(infos, body) && receive::assembles(bytes, body, mode, r)
            }
        };
    assert forall|b: int| 0 <= b < infos.len() implies (#[trigger] infos[b]) is Some
        && infos[b]->0@.len() >= 96 && forall|q: int|
        0 <= q < 96 ==> (#[trigger] infos[b]->0@[q] != 0) == bits::bits_of_bytes(body)[96 * b
            + q] by {
        let block = blocks[b]@;
        assert(rx::is_payload_block(llrs, mode, n, erasure, b, blocks[b]@));
        assert forall|i: int| 0 <= i < 240 implies block[i] == with_erasures(
            words[b],
            mode,
            erasure,
        )[i] by {
            if puncture::is_kept(mode, i) {
                let t = choose|t: int|
                    0 <= t < puncture::kept(mode).len() && puncture::kept(mode)[t] == i as usize;
                assert(block[puncture::kept(mode)[t] as int] == llrs[t * n + b]);
            }
        }
        assert(block =~= with_erasures(words[b], mode, erasure));
        assert(call_ensures(front.fec, (&blocks[b],), infos[b]));
    }
    if infos.len() > 0 {
        assert(infos[infos.len() - 1] is Some);
    }
    let got = choose|got: Seq<u8>| #[trigger]
        rx::carries_blocks(infos, got) && receive::assembles(bytes, got, mode, r);
    assert forall|x: int| 0 <= x < body.len() implies #[trigger] got[x] == body[x] by {
        let b = x / 12;
        let p = x % 12;
        assert(infos[b] is Some);
        let part = got.subrange(12 * b, 12 * b + 12);
        assert(rx::carried(infos[b]->0@, part));
        assert(part[p] == got[x]);
        assert forall|j: int| 0 <= j < 8 implies #[trigger] bits::msb_bit(part[p], j)
            == bits::msb_bit(body[x], j) by {
            let q = 8 * p + j;
            assert(q / 8 == p && q % 8 == j);
            assert((96 * b + q) / 8 == x && (96 * b + q) % 8 == j);
            assert(bits::bits_of_bytes(part)[q] == (infos[b]->0@[q] != 0));
            assert((infos[b]->0@[q] != 0) == bits::bits_of_bytes(body)[96 * b + q]);
        }
        bits::law_bits_determine_byte(part[p], body[x]);
    }
    assert(got =~= body);
}

/// Channel bit `x` as a receiver of the tones reads it. Every block of tones has
/// four known ones and then two channel bits to a tone: tones 2 and 3 have a one
/// first, tones 1 and 2 have a one second.
pub open spec fn heard_bit(tones: Seq<u8>, bits_per_block: int, x: int) -> bool {
    let tone = tones[(x / bits_per_block) * (4 + bits_per_block / 2) + 4 + (x % bits_per_block)
        / 2];
    if x % 2 == 0 {
        tone == 2 || tone == 3
    } else {
        tone == 1 || tone == 2
    }
}

/// The bytes of a frame: a header and a payload filled up with zeros, which
/// unpack to themselves.
pub open spec fn frame_of(header: FrameHeader, payload: Seq<u8>) -> Seq<u8> {
    framing::packed(header, framing::padded(payload, 12 * header.block_count - 4))
}

/// A frame is encoded exactly when its header fields are in range and its
/// payload fits behind the header.
pub proof fn law_what_fits_is_encoded(
    fec: &SystematicEncoder,
    header: &FrameHeader,
    payload: &[u8],
    tones: Result<Vec<u8>, PackError>,
)
    requires
        call_ensures(tx::encode, (fec, header, payload), tones),
    ensures
        tones is Ok <==> 1 <= header.block_count <= 32 && header.app_type < 16 && header.sequence
            < 32 && payload@.len() + 4 <= 12 * header.block_count,
{
}

/// Both bits of a pair are read from its tone.
proof fn lemma_tone_names_its_pair(tones: Seq<u8>, stream: Seq<u8>, mode: Mode, n: int, x: int)
    requires
        0 <= x < n * mode.channel_bits(),
        tones.len() == n * tx::block_tones(mode) + 4,
        forall|s: int|
            0 <= s < tones.len() ==> #[trigger] tones[s] == tx::tone_at(stream, mode, s),
        forall|y: int|
            0 <= y < n * mode.channel_bits() ==> #[trigger] stream[y] == 0 || stream[y] == 1,
    ensures
        heard_bit(tones, mode.channel_bits(), x) == (stream[x] == 1),
{
    let len = mode.channel_bits();
    let per = tx::block_tones(mode);
    let blk = x / len;
    let rr = x % len;
    vstd::arithmetic::div_mod::lemma_fundamental_div_mod(x, len);
    assert(0 <= rr < len);
    assert(0 <= blk < n) by (nonlinear_arith)
        requires
            x == len * blk + rr,
            0 <= rr < len,
            0 <= x < n * len,
            len > 0,
    ;
    let r = 4 + rr / 2;
    let s = blk * per + r;
    assert(0 <= r < per);
    vstd::arithmetic::div_mod::lemma_fundamental_div_mod_converse(s, per, blk, r);
    assert(0 <= s < n * per + 4) by (nonlinear_arith)
        requires
            s == blk * per + r,
            0 <= blk <= n - 1,
            0 <= r < per,
    ;
    assert(tones[s] == tx::tone_at(stream, mode, s));
    let y = blk * len + 2 * (rr / 2);
    assert(blk * len == len * blk) by (nonlinear_arith);
    assert(blk * len % 2 == 0) by (nonlinear_arith)
        requires
            len == 240 || len == 202 || len == 152,
    ;
    assert(y == x || y + 1 == x);
    assert(y == x <==> x % 2 == 0);
    assert(y + 1 < n * len) by (nonlinear_arith)
        requires
            y == blk * len + 2 * (rr / 2),
            2 * (rr / 2) + 1 < len,
            0 <= blk <= n - 1,
            len > 0,
    ;
    assert(0 <= y) by (nonlinear_arith)
        requires
            y == blk * len + 2 * (rr / 2),
            0 <= blk,
            0 <= rr,
            len > 0,
    ;
    let g = super::protocol::GRAY_4@;
    assert(g[0] == 0 && g[1] == 1 && g[2] == 3 && g[3] == 2);
    assert(stream[y] == 0 || stream[y] == 1);
    assert(stream[y + 1] == 0 || stream[y + 1] == 1);
}

proof fn lemma_heard_bit(
    fec: &SystematicEncoder,
    header: &FrameHeader,
    payload: &[u8],
    tones: Vec<u8>,
    b: int,
    t: int,
)
    requires
        fec.k == 101,
        fec.n() == 240,
        call_ensures(tx::encode, (fec, header, payload), Ok::<Vec<u8>, PackError>(tones)),
        0 <= b < header.block_count,
        0 <= t < header.mode.channel_bits(),
    ensures
        heard_bit(tones@, header.mode.channel_bits(), t * header.block_count + b) == (fec.codeword(
            tx::block_info(frame_of(*header, payload@), b),
        )[puncture::kept(header.mode)[t] as int] == 1),
{
    let n = header.block_count as int;
    let mode = header.mode;
    let len = mode.channel_bits();
    let frame = frame_of(*header, payload@);
    let stream = interleaver::interleaved(
        tx::all_channel(fec, frame, mode, n as nat),
        interleaver::permutation(n as nat, len as nat),
    );
    assert(tones@ == tx::frame_tones(fec, frame, mode, n as nat));
    assert(n * len <= 7680) by (nonlinear_arith)
        requires
            0 <= n <= 32,
            0 <= len <= 240,
    ;
    tx::law_frame_length(fec, frame, mode, n as nat);
    assert forall|y: int| 0 <= y < n * len implies #[trigger] stream[y] == 0 || stream[y] == 1 by {
        lemma_stream_bit(fec, frame, mode, n, y);
    }
    interleaver::lemma_channel_position(n, len, b, t);
    lemma_tone_names_its_pair(tones@, stream, mode, n, t * n + b);
    lemma_stream_place(fec, frame, mode, n, b, t);
}

/// Where a sent bit of a codeword stands in the interleaved stream.
proof fn lemma_stream_place(
    fec: &SystematicEncoder,
    frame: Seq<u8>,
    mode: Mode,
    n: int,
    b: int,
    t: int,
)
    requires
        fec.k == 101,
        fec.n() == 240,
        0 <= b < n <= 32,
        0 <= t < mode.channel_bits(),
    ensures
        interleaver::interleaved(
            tx::all_channel(fec, frame, mode, n as nat),
            interleaver::permutation(n as nat, mode.channel_bits() as nat),
        )[t * n + b] == fec.codeword(tx::block_info(frame, b))[puncture::kept(mode)[t] as int],
{
    let len = mode.channel_bits();
    assert(n * len <= 7680) by (nonlinear_arith)
        requires
            0 <= n <= 32,
            0 <= len <= 240,
    ;
    puncture::law_kept_positions(mode);
    interleaver::lemma_channel_position(n, len, b, t);
    vstd::arithmetic::div_mod::lemma_fundamental_div_mod_converse(b * len + t, len, b, t);
    assert(0 <= b * len + t < n * len) by (nonlinear_arith)
        requires
            0 <= b <= n - 1,
            0 <= t < len,
    ;
    assert(n as nat * len as nat == n * len);
}

/// Every bit of the interleaved stream is a nought or a one.
proof fn lemma_stream_bit(fec: &SystematicEncoder, frame: Seq<u8>, mode: Mode, n: int, y: int)
    requires
        fec.k == 101,
        fec.n() == 240,
        0 <= n,
        0 <= y < n * mode.channel_bits(),
        n * mode.channel_bits() <= usize::MAX,
    ensures
        interleaver::interleaved(
            tx::all_channel(fec, frame, mode, n as nat),
            interleaver::permutation(n as nat, mode.channel_bits() as nat),
        )[y] <= 1,
{
    let len = mode.channel_bits();
    interleaver::law_interleaver_is_a_permutation(n as nat, len as nat);
    let perm = interleaver::permutation(n as nat, len as nat);
    assert(n as nat * len as nat == n * len);
    let z = perm[y] as int;
    assert(0 <= z < n * len);
    assert(0 <= z % len < len);
    tx::lemma_channel_bits_are_bits(fec, frame, mode, z / len, z % len);
}

/// The tones give the channel bits back: bit `t` that a mode sends of the
/// codeword of block `b` is read from the tones at channel position
/// `t * block_count + b`.
pub proof fn law_tones_give_the_channel_bits_back(
    fec: &SystematicEncoder,
    header: &FrameHeader,
    payload: &[u8],
    tones: Vec<u8>,
)
    requires
        fec.k == 101,
        fec.n() == 240,
        call_ensures(tx::encode, (fec, header, payload), Ok::<Vec<u8>, PackError>(tones)),
    ensures
        forall|b: int, t: int|
            0 <= b < header.block_count && 0 <= t < header.mode.channel_bits()
                ==> #[trigger] heard_bit(
                tones@,
                header.mode.channel_bits(),
                t * header.block_count + b,
            ) == (fec.codeword(
                tx::block_info(frame_of(*header, payload@), b),
            )[puncture::kept(header.mode)[t] as int] == 1),
{
    assert forall|b: int, t: int|
        0 <= b < header.block_count && 0 <= t
            < header.mode.channel_bits() implies #[trigger] heard_bit(
        tones@,
        header.mode.channel_bits(),
        t * header.block_count + b,
    ) == (fec.codeword(tx::block_info(frame_of(*header, payload@), b))[puncture::kept(
        header.mode,
    )[t] as int] == 1) by {
        lemma_heard_bit(fec, header, payload, tones, b, t);
    }
}

/// The tones carry the frame: bit `i` of the twelve bytes of block `b` is read
/// from the tones at channel position `i * block_count + b`, behind them stand
/// five bits of the header, and the bytes read in this way unpack to the header
/// and to the payload with zeros behind it.
pub proof fn law_tones_carry_the_frame(
    fec: &SystematicEncoder,
    header: &FrameHeader,
    payload: &[u8],
    tones: Vec<u8>,
    frame: Seq<u8>,
)
    requires
        fec.k == 101,
        fec.n() == 240,
        call_ensures(tx::encode, (fec, header, payload), Ok::<Vec<u8>, PackError>(tones)),
        frame.len() == 12 * header.block_count,
        forall|b: int, i: int|
            0 <= b < header.block_count && 0 <= i < 96 ==> #[trigger] bits::bits_of_bytes(
                frame,
            )[96 * b + i] == heard_bit(
                tones@,
                header.mode.channel_bits(),
                i * header.block_count + b,
            ),
    ensures
        frame[0] * 256 + frame[1] == (match header.mode {
            Mode::Robust => 0int,
            Mode::Standard => 16384,
            Mode::Fast => 32768,
        }) + 512 * (header.block_count - 1) + 32 * header.app_type + header.sequence,
        framing::unpacked(frame) matches Some((h, body)) && h == *header && body.len() == 12
            * header.block_count - 4 && forall|i: int|
            0 <= i < body.len() ==> #[trigger] body[i] == (if i < payload@.len() {
                payload@[i]
            } else {
                0
            }),
        forall|b: int, c: int|
            0 <= b < header.block_count && 0 <= c < 5 && 5 * (b % 7) + c < 32
                ==> #[trigger] heard_bit(
                tones@,
                header.mode.channel_bits(),
                (96 + c) * header.block_count + b,
            ) == bits::bits_of_bytes(frame)[5 * (b % 7) + c],
{
    let n = header.block_count as int;
    let sent = frame_of(*header, payload@);
    law_what_fits_is_encoded(fec, header, payload, Ok(tones));
    puncture::law_kept_positions(header.mode);
    framing::law_unpack_inverts_pack(*header, framing::padded(payload@, 12 * n - 4));
    assert(sent.len() == 12 * n);
    assert forall|x: int| 0 <= x < 12 * n implies #[trigger] frame[x] == sent[x] by {
        let b = x / 12;
        let p = x % 12;
        assert forall|j: int| 0 <= j < 8 implies #[trigger] bits::msb_bit(frame[x], j)
            == bits::msb_bit(sent[x], j) by {
            let i = 8 * p + j;
            assert((96 * b + i) / 8 == x && (96 * b + i) % 8 == j);
            assert(bits::bits_of_bytes(frame)[96 * b + i] == heard_bit(
                tones@,
                header.mode.channel_bits(),
                i * header.block_count + b,
            ));
            lemma_heard_bit(fec, header, payload, tones, b, i);
            assert(puncture::kept(header.mode)[i] == i);
        }
        bits::law_bits_determine_byte(frame[x], sent[x]);
    }
    assert(frame =~= sent);
    assert forall|b: int, c: int|
        0 <= b < header.block_count && 0 <= c < 5 && 5 * (b % 7) + c
            < 32 implies #[trigger] heard_bit(
        tones@,
        header.mode.channel_bits(),
        (96 + c) * header.block_count + b,
    ) == bits::bits_of_bytes(frame)[5 * (b % 7) + c] by {
        lemma_heard_bit(fec, header, payload, tones, b, 96 + c);
        assert(puncture::kept(header.mode)[96 + c] == 96 + c);
    }
}

/// Known tones 0, 1, 3, 2 stand before every block and behind the last one.
pub proof fn law_known_tones_frame_every_block(
    fec: &SystematicEncoder,
    header: &FrameHeader,
    payload: &[u8],
    tones: Vec<u8>,
    b: int,
)
    requires
        fec.k == 101,
        fec.n() == 240,
        call_ensures(tx::encode, (fec, header, payload), Ok::<Vec<u8>, PackError>(tones)),
        0 <= b <= header.block_count,
    ensures
        ({
            let per = 4 + header.mode.channel_bits() / 2;
            &&& tones@.len() == header.block_count * per + 4
            &&& tones@.subrange(b * per, b * per + 4) == seq![0u8, 1u8, 3u8, 2u8]
        }),
{
    let n = header.block_count as int;
    let per = tx::block_tones(header.mode);
    let frame = frame_of(*header, payload@);
    assert(tones@ == tx::frame_tones(fec, frame, header.mode, n as nat));
    assert(0 <= b * per <= n * per) by (nonlinear_arith)
        requires
            0 <= b <= n,
            per > 0,
    ;
    assert forall|r: int| 0 <= r < 4 implies #[trigger] tones@[b * per + r]
        == super::sync_pattern::UVPACKET_COSTAS@[r] by {
        vstd::arithmetic::div_mod::lemma_fundamental_div_mod_converse(b * per + r, per, b, r);
    }
    let c = super::sync_pattern::UVPACKET_COSTAS@;
    assert(c[0] == 0 && c[1] == 1 && c[2] == 3 && c[3] == 2);
    let got = tones@.subrange(b * per, b * per + 4);
    assert(got[0] == tones@[b * per + 0]);
    assert(got[1] == tones@[b * per + 1]);
    assert(got[2] == tones@[b * per + 2]);
    assert(got[3] == tones@[b * per + 3]);
    assert(got =~= seq![0u8, 1u8, 3u8, 2u8]);
}

/// The parity bits that a mode sends are spread evenly: of the first `p` of the
/// 139, it sends the share that it sends of all, rounded down.
pub proof fn law_parity_bits_are_spread_evenly(mode: Mode, p: int)
    requires
        0 <= p <= 139,
    ensures
        sent_parity(mode, p) == p * (match mode {
            Mode::Robust => 139int,
            Mode::Standard => 101,
            Mode::Fast => 51,
        }) / 139,
    decreases p,
{
    if p > 0 {
        law_parity_bits_are_spread_evenly(mode, p - 1);
        let keep = mode.channel_bits() - 101;
        puncture::lemma_share_step(keep, p - 1);
        puncture::law_kept_positions(mode);
        assert(puncture::is_kept(mode, 101 + p - 1) <==> puncture::kept(mode).contains(
            (101 + p - 1) as usize,
        ));
        assert(puncture::parity_is_kept(mode, p - 1) == ((p * keep) / 139 > ((p - 1) * keep)
            / 139));
        assert(keep == (match mode {
            Mode::Robust => 139int,
            Mode::Standard => 101,
            Mode::Fast => 51,
        }));
    }
}

/// How many of the first `p` parity bits a mode sends.
pub open spec fn sent_parity(mode: Mode, p: int) -> int
    decreases p,
{
    if p <= 0 {
        0
    } else if puncture::kept(mode).contains((101 + p - 1) as usize) {
        sent_parity(mode, p - 1) + 1
    } else {
        sent_parity(mode, p - 1)
    }
}

/// A frame is received: where a single correlation reaches the threshold, the
/// frame behind it comes back as it was sealed, and nothing else does.
///
/// Correlation `3 o + m` is that with preamble `m`, of the modes in their order,
/// at offset `o` of the filter output; the frame starts 60 samples before.
pub proof fn law_a_frame_is_received<T: Copy, H, L, C, W>(
    front: &RxFront<H, L, C>,
    audio_len: usize,
    keys: &[u32],
    threshold: &W,
    erasure: T,
    offset: usize,
    header: FrameHeader,
    body: Seq<u8>,
    words: Seq<Seq<T>>,
    frames: Vec<DecodedFrame>,
) where
    H: Fn(usize, Mode) -> Option<Vec<u8>>,
    L: Fn(usize, Mode, usize) -> Vec<T>,
    C: Fn(&Vec<T>) -> Option<Vec<u8>>,
    W: Fn(u32) -> u32,

    requires
        offset >= 60,
        3 * offset + 2 < keys@.len(),
        is_undisturbed(front, (offset - 60) as usize, erasure, header, body, words),
        offset - 60 + 10 * (247 + header.block_count * header.mode.channel_bits() / 2) + 61
            <= audio_len,
        ({
            let at = 3 * offset + (match header.mode {
                Mode::Robust => 0int,
                Mode::Standard => 1,
                Mode::Fast => 2,
            });
            &&& keys@[at] > 0x8000_0000
            &&& forall|median: u32, least: u32| #[trigger]
                call_ensures(*threshold, (median,), least) ==> keys@[at] >= least && forall|i: int|
                    0 <= i < keys@.len() && i != at ==> #[trigger] keys@[i] < least
        }),
        call_ensures(
            receive::decode::<T, H, L, C, W>,
            (front, audio_len, keys, threshold, erasure),
            frames,
        ),
    ensures
        frames@.len() == 1,
        frames@[0].mode == header.mode,
        frames@[0].block_count == header.block_count,
        frames@[0].app_type == header.app_type,
        frames@[0].sequence == header.sequence,
        frames@[0].payload@ == body,
{
    let mode = header.mode;
    let at = 3 * offset + mode.code();
    let n = header.block_count as int;
    assert(n * mode.channel_bits() >= 152) by (nonlinear_arith)
        requires
            n >= 1,
            mode.channel_bits() >= 152,
    ;
    let heard = select::above(keys@, select::ZERO_KEY);
    let loud = |k: u32| k > select::ZERO_KEY;
    keys@.lemma_filter_contains(loud, at);
    assert(heard == keys@.filter(loud));
    assert(heard.contains(keys@[at]));
    assert(heard.len() > 0);
    let (median, least, picks, steps) = choose|
        median: u32,
        least: u32,
        picks: Seq<(usize, Mode)>,
        steps: Seq<(Seq<DecodedFrame>, int)>,
    |
        {
            &&& select::is_nth_smallest(heard, heard.len() as int / 2, median)
            &&& #[trigger] call_ensures(*threshold, (median,), least)
            &&& #[trigger] sync::is_pick(sync::peaks_of(keys@), least, picks)
            &&& #[trigger] front.listens(audio_len as int, picks, erasure, steps)
            &&& steps.last().0 == frames@
        };
    lemma_single_pick(keys@, least, picks, offset, mode, at);
    assert(front.advances(audio_len as int, picks[0], erasure, steps[0], steps[1]));
    let start = (offset - 60) as usize;
    let r = choose|r: Result<DecodedFrame, DecodeError>|
        {
            &&& #[trigger] front.reads(audio_len as int, start, mode, erasure, r)
            &&& steps[1] == match r {
                Ok(frame) => (
                    steps[0].0.push(frame),
                    start + (247 + frame.block_count * mode.channel_bits() / 2) * 10,
                ),
                Err(_) => steps[0],
            }
        };
    lemma_undisturbed_frame(front, audio_len, start, erasure, header, body, words, r);
    assert(steps.last() == steps[1]);
    assert(frames@ =~= seq![r->Ok_0]);
}

/// A single peak that reaches the threshold is the only one picked.
proof fn lemma_single_pick(
    keys: Seq<u32>,
    least: u32,
    picks: Seq<(usize, Mode)>,
    offset: usize,
    mode: Mode,
    at: int,
)
    requires
        sync::is_pick(sync::peaks_of(keys), least, picks),
        0 <= at < keys.len(),
        at == 3 * offset + mode.code(),
        keys[at] >= least,
        forall|i: int| 0 <= i < keys.len() && i != at ==> #[trigger] keys[i] < least,
    ensures
        picks =~= seq![(offset, mode)],
{
    let peaks = sync::peaks_of(keys);
    assert(at / 3 == offset && at % 3 == mode.code());
    assert(peaks[at].offset == offset && peaks[at].mode == mode && peaks[at].key == keys[at]);
    assert forall|t: int| 0 <= t < picks.len() implies #[trigger] picks[t] == (offset, mode) by {
        let (good, order, sorted) = choose|
            good: &[Peak],
            order: Seq<usize>,
            sorted: Seq<usize>,
        |
            good@ == sync::reaching(peaks, least) && #[trigger] sync::picked_by(
                good,
                order,
                sorted,
                picks,
            );
        let pred = |p: Peak| p.key >= least;
        let peak = good@[sorted[t] as int];
        assert(picks[t] == (peak.offset, peak.mode));
        assert(sorted[t] < good@.len());
        assert(peaks.filter(pred).contains(peak));
        peaks.lemma_filter_contains_rev(pred, peak);
        peaks.lemma_filter_pred(pred, sorted[t] as int);
        let i = choose|i: int| 0 <= i < peaks.len() && peaks[i] == peak;
        assert(keys[i] >= least);
        assert(i == at);
    }
    sync::law_every_peak_is_picked(peaks, least, picks, at);
    if picks.len() >= 2 {
        sync::law_picks_are_apart(peaks, least, picks);
        assert(picks[1].0 - picks[0].0 > 10);
    }
}

/// Frames do not overlap: of two preambles the second is decoded only if its
/// frame starts no sooner than the first one ends, ten samples for each of its
/// symbols. Frames start 60 samples before their peaks.
pub proof fn law_frames_do_not_overlap<T: Copy, H, L, C>(
    front: &RxFront<H, L, C>,
    audio_len: usize,
    picks: &[(usize, Mode)],
    erasure: T,
    first: DecodedFrame,
    second: DecodedFrame,
    frames: Vec<DecodedFrame>,
) where
    H: Fn(usize, Mode) -> Option<Vec<u8>>,
    L: Fn(usize, Mode, usize) -> Vec<T>,
    C: Fn(&Vec<T>) -> Option<Vec<u8>>,

    requires
        picks@.len() == 2,
        60 <= picks@[0].0,
        60 <= picks@[1].0,
        picks@[0].0 - 60 + 2531 <= audio_len,
        picks@[1].0 - 60 + 2531 <= audio_len,
        forall|r: Result<DecodedFrame, DecodeError>| #[trigger]
            front.reads(
                audio_len as int,
                (picks@[0].0 - 60) as usize,
                picks@[0].1,
                erasure,
                r,
            ) ==> r == Ok::<DecodedFrame, DecodeError>(first),
        forall|r: Result<DecodedFrame, DecodeError>| #[trigger]
            front.reads(
                audio_len as int,
                (picks@[1].0 - 60) as usize,
                picks@[1].1,
                erasure,
                r,
            ) ==> r == Ok::<DecodedFrame, DecodeError>(second),
        call_ensures(
            receive::decode_frames::<T, H, L, C>,
            (front, audio_len, picks, erasure),
            frames,
        ),
    ensures
        frames@ == (if picks@[1].0 - picks@[0].0 < 10 * (247 + first.block_count
            * picks@[0].1.channel_bits() / 2) {
            seq![first]
        } else {
            seq![first, second]
        }),
{
    let steps = choose|steps: Seq<(Seq<DecodedFrame>, int)>| #[trigger]
        front.listens(audio_len as int, picks@, erasure, steps) && steps.last().0 == frames@;
    let i: int = 0;
    let j: int = 1;
    assert(front.advances(audio_len as int, picks@[i], erasure, steps[i], steps[i + 1]));
    assert(front.advances(audio_len as int, picks@[j], erasure, steps[j], steps[j + 1]));
    assert(steps[1].0 =~= seq![first]);
    if picks@[1].0 - 60 >= steps[1].1 {
        assert(steps[2].0 =~= seq![first, second]);
    }
    assert(steps.last() == steps[2]);
}

/// A channel's frame is read from 60 samples before its best correlation on and
/// in the mode of its preamble, and reported with the channel's number.
pub proof fn law_a_channel_is_read<P: Near, D: Fn(usize, usize, Mode) -> Option<DecodedFrame>>(
    channels: &[Peak],
    near: &P,
    read: &D,
    audio_len: usize,
    frame: Option<DecodedFrame>,
    frames: Vec<(usize, DecodedFrame)>,
)
    requires
        channels@.len() == 1,
        60 <= channels@[0].offset,
        channels@[0].offset - 60 + 2531 <= audio_len,
        forall|r: Option<DecodedFrame>| #[trigger]
            call_ensures(
                *read,
                (0usize, (channels@[0].offset - 60) as usize, channels@[0].mode),
                r,
            ) ==> r == frame,
        call_ensures(
            receive::decode_multichannel::<P, D>,
            (channels, near, read, audio_len),
            frames,
        ),
    ensures
        frames@ == (match frame {
            Some(f) => seq![(0usize, f)],
            None => Seq::empty(),
        }),
{
    let (order, steps) = choose|order: Seq<usize>, steps: Seq<Seq<(usize, DecodedFrame)>>|
        {
            &&& #[trigger] select::is_ranking(sync::keys_of(channels@), order)
            &&& #[trigger] receive::reads_channels(
                *read,
                audio_len as int,
                channels@,
                select::survivors(near, order, usize::MAX as nat, order.len() as int),
                steps,
            )
            &&& steps.last() == frames@
        };
    let kept = select::survivors(near, order, usize::MAX as nat, order.len() as int);
    assert(order.len() == 1);
    assert(order[0] < 1);
    assert(select::survivors(near, order, usize::MAX as nat, 0) =~= Seq::<usize>::empty());
    assert(!select::crowded(near, Seq::<usize>::empty(), order[0]));
    assert(kept =~= seq![0usize]);
    let i: int = 0;
    assert(receive::reads_channel(
        *read,
        audio_len as int,
        channels@,
        kept[i],
        steps[i],
        steps[i + 1],
    ));
    assert(steps.last() == steps[1]);
    assert(frames@ =~= (match frame {
        Some(f) => seq![(0usize, f)],
        None => Seq::empty(),
    }));
}

/// The channel with the best correlation is read first, whatever its number, and
/// no channel that is read is a neighbour of a better one.
pub proof fn law_the_best_channel_comes_first<P: Near>(
    keys: &[u32],
    near: &P,
    best: usize,
    kept: Vec<usize>,
)
    requires
        best < keys@.len(),
        forall|i: int| 0 <= i < keys@.len() && i != best ==> #[trigger] keys@[i] < keys@[best as int],
        call_ensures(sync::pick_channels::<P>, (keys, near), kept),
    ensures
        kept@.len() >= 1,
        kept@[0] == best,
        forall|p: int, q: int|
            0 <= p < q < kept@.len() ==> !near.near(
                #[trigger] kept@[q] as int,
                #[trigger] kept@[p] as int,
            ),
{
    let order = choose|order: Seq<usize>| #[trigger]
        select::is_ranking(keys@, order) && kept@ == select::survivors(
            near,
            order,
            usize::MAX as nat,
            order.len() as int,
        );
    let n = order.len() as int;
    select::lemma_ranking_names_all(keys@, order, best as int);
    let p = choose|p: int| 0 <= p < order.len() && order[p] == best;
    if p > 0 {
        assert(select::ranks_before(keys@, order[0], order[p]));
        assert(order[0] < keys@.len());
        assert(keys@[order[0] as int] >= keys@[best as int]);
    }
    crate::ft8::search_laws::law_the_first_survives(near, order, usize::MAX as nat, n);
    assert forall|p: int, q: int| 0 <= p < q < kept@.len() implies !near.near(
        #[trigger] kept@[q] as int,
        #[trigger] kept@[p] as int,
    ) by {
        select::law_survivors_are_apart(near, order, usize::MAX as nat, n, p, q);
    }
}

/// A decoded header block leads to the plan of its frame: a preamble of 127
/// symbols, a header of 120 and half the channel bits of all blocks, ten samples
/// each and 61 more. Audio that ends before is refused, and told how many samples
/// were needed.
pub proof fn law_the_plan_follows_from_the_header(
    info: &[u8],
    header: FrameHeader,
    sample_offset: usize,
    audio_len: usize,
    r: Result<(Vec<u8>, rx::PayloadPlan), DecodeError>,
)
    requires
        1 <= header.block_count <= 32,
        header.app_type < 16,
        header.sequence < 32,
        info@.len() >= 96,
        forall|q: int|
            0 <= q < 16 ==> (#[trigger] info@[q] != 0) == bits::bits_of_bytes(
                framing::be_bytes(
                    2048 * (header.block_count - 1) + 128 * header.app_type + 4 * header.sequence,
                ),
            )[q],
        call_ensures(rx::plan_payload, (Some(info), header.mode, sample_offset, audio_len), r),
    ensures
        ({
            let syms = header.block_count * header.mode.channel_bits() / 2;
            let needed = 10 * (127 + 120 + syms) + 61;
            if sample_offset + needed <= audio_len {
                r matches Ok((bytes, plan)) && bytes@.len() == 12 && plan.n_blocks
                    == header.block_count && plan.payload_syms == syms && plan.total_syms == 247
                    + syms && plan.needed_samples == needed
            } else {
                r matches Err(DecodeError::PayloadTruncated { needed_samples }) && needed_samples
                    == needed
            }
        }),
{
    let word = 2048 * (header.block_count - 1) + 128 * header.app_type + 4 * header.sequence;
    let head = framing::be_bytes(word);
    let mode = header.mode;
    let n = header.block_count as int;
    let bytes = choose|bytes: Seq<u8>|
        #[trigger] rx::carried(info@, bytes) && match rx::header_outcome(
            Some(info@),
            bytes,
            mode,
            sample_offset as int,
            audio_len as int,
        ) {
            Ok(plan) => r matches Ok((b, p)) && b@ == bytes && p == plan,
            Err(e) => r matches Err(f) && f == e,
        };
    assert forall|p: int| 0 <= p < 2 implies #[trigger] bytes[p] == head[p] by {
        assert forall|j: int| 0 <= j < 8 implies #[trigger] bits::msb_bit(bytes[p], j)
            == bits::msb_bit(head[p], j) by {
            let q = 8 * p + j;
            assert(q / 8 == p && q % 8 == j);
            assert(bits::bits_of_bytes(bytes)[q] == (info@[q] != 0));
            assert((info@[q] != 0) == bits::bits_of_bytes(head)[q]);
        }
        bits::law_bits_determine_byte(bytes[p], head[p]);
    }
    assert(bytes[0] == head[0] && bytes[1] == head[1]);
    assert(framing::be_value(bytes[0], bytes[1]) == word);
    let b = header.block_count - 1;
    let c = header.app_type as int;
    let d = header.sequence as int;
    framing::lemma_quotient(word, 2048, b, 128 * c + 4 * d);
    framing::lemma_quotient(word, 4, 512 * b + 32 * c + d, 0);
    let len = mode.channel_bits();
    assert(0 <= n * len <= 7680) by (nonlinear_arith)
        requires
            0 <= n <= 32,
            0 <= len <= 240,
    ;
}

/// The least correlation of a frame is what the caller makes of the median of
/// the positive ones: half of them are no greater than it and half no less.
pub proof fn law_the_threshold_follows_the_median<T: Copy, H, L, C, W>(
    front: &RxFront<H, L, C>,
    audio_len: usize,
    keys: &[u32],
    threshold: &W,
    erasure: T,
    frames: Vec<DecodedFrame>,
) -> (set: (u32, u32, Seq<usize>, Seq<usize>)) where
    H: Fn(usize, Mode) -> Option<Vec<u8>>,
    L: Fn(usize, Mode, usize) -> Vec<T>,
    C: Fn(&Vec<T>) -> Option<Vec<u8>>,
    W: Fn(u32) -> u32,

    requires
        frames@.len() > 0,
        call_ensures(
            receive::decode::<T, H, L, C, W>,
            (front, audio_len, keys, threshold, erasure),
            frames,
        ),
    ensures
        ({
            let heard = keys@.filter(|k: u32| k > 0x8000_0000);
            let n = heard.len() as int;
            let (median, least, low, high) = set;
            &&& audio_len >= 1331
            &&& call_ensures(*threshold, (median,), least)
            &&& low.len() == n / 2 + 1
            &&& select::all_within(heard, low, median, true)
            &&& high.len() == n - n / 2
            &&& select::all_within(heard, high, median, false)
        }),
{
    let heard = select::above(keys@, select::ZERO_KEY);
    assert(heard == keys@.filter(|k: u32| k > 0x8000_0000));
    let (median, least, picks, steps) = choose|
        median: u32,
        least: u32,
        picks: Seq<(usize, Mode)>,
        steps: Seq<(Seq<DecodedFrame>, int)>,
    |
        {
            &&& select::is_nth_smallest(heard, heard.len() as int / 2, median)
            &&& #[trigger] call_ensures(*threshold, (median,), least)
            &&& #[trigger] sync::is_pick(sync::peaks_of(keys@), least, picks)
            &&& #[trigger] front.listens(audio_len as int, picks, erasure, steps)
            &&& steps.last().0 == frames@
        };
    let (low, high) = select::law_what_the_nth_smallest_is(heard, heard.len() as int / 2, median);
    (median, least, low, high)
}

/// The best correlation with a preamble is none below any of its own, which are
/// every third, and one of them, or the key of nought where none is above it.
pub proof fn law_the_best_of_each_preamble(keys: &[u32], bests: [u32; 3], m: int, t: int)
    requires
        call_ensures(sync::preamble_bests, (keys,), bests),
        0 <= m < 3,
        0 <= t,
        3 * t + m < keys@.len(),
    ensures
        keys@[3 * t + m] <= bests@[m],
        bests@[m] >= 0x8000_0000,
        bests@[m] == 0x8000_0000 || exists|q: int|
            0 <= q && 3 * q + m < keys@.len() && #[trigger] keys@[3 * q + m] == bests@[m],
{
    assert(bests@[m] == sync::best_of_preamble(keys@, m, keys@.len() as int));
    assert((3 * t + m) % 3 == m);
    lemma_best_of_preamble(keys@, m, keys@.len() as int, 3 * t + m);
    if bests@[m] != 0x8000_0000 {
        let i = lemma_best_is_reached(keys@, m, keys@.len() as int);
        let q = i / 3;
        assert(3 * q + m == i);
        assert(keys@[3 * q + m] == bests@[m]);
    }
}

proof fn lemma_best_of_preamble(keys: Seq<u32>, m: int, n: int, i: int)
    requires
        0 <= n <= keys.len(),
    ensures
        sync::best_of_preamble(keys, m, n) >= 0x8000_0000,
        0 <= i < n && i % 3 == m ==> keys[i] <= sync::best_of_preamble(keys, m, n),
    decreases n,
{
    if n > 0 {
        lemma_best_of_preamble(keys, m, n - 1, i);
    }
}

proof fn lemma_best_is_reached(keys: Seq<u32>, m: int, n: int) -> (i: int)
    requires
        0 <= n <= keys.len(),
        sync::best_of_preamble(keys, m, n) != 0x8000_0000,
    ensures
        0 <= i < n,
        i % 3 == m,
        keys[i] == sync::best_of_preamble(keys, m, n),
    decreases n,
{
    if n <= 0 {
        0
    } else if (n - 1) % 3 == m && keys[n - 1] > sync::best_of_preamble(keys, m, n - 1) {
        n - 1
    } else {
        lemma_best_is_reached(keys, m, n - 1)
    }
}

/// The preamble of a known frame is looked for at the offsets 50 to 70 from which
/// its last chip, ten samples after the one before, is still heard.
pub proof fn law_where_a_preamble_is_looked_for(
    mf_len: usize,
    chips: usize,
    offsets: Vec<usize>,
    at: usize,
)
    requires
        1 <= chips <= 127,
        call_ensures(sync::preamble_offsets, (mf_len, chips), offsets),
    ensures
        offsets@.contains(at) <==> 50 <= at <= 70 && at + 10 * (chips - 1) < mf_len,
{
    if 50 <= at <= 70 && at + 10 * (chips - 1) < mf_len {
        assert(offsets@[at - 50] == at);
    }
    if offsets@.contains(at) {
        let t = choose|t: int| 0 <= t < offsets@.len() && offsets@[t] == at;
        assert(offsets@[t] == 50 + t);
    }
}

} // verus!
