//! Transmit path: from a header and a payload to the tones of a frame.
//!
//! 1. Header and payload are packed and filled up to twelve bytes per block.
//! 2. The 101 information bits of a block are its twelve bytes and five bits
//!    of a spread copy of the header: block `i` carries the header bits from
//!    `5 (i mod 7)` on, so that seven blocks carry the whole header once more.
//! 3. Each block is encoded, punctured, and all blocks are interleaved.
//! 4. Four known tones stand before each block and after the last one; every
//!    pair of channel bits becomes a tone.

use super::framing;
use super::framing::{FrameHeader, PackError};
use super::interleaver;
use super::protocol;
use super::puncture;
use super::puncture::Mode;
use super::sync_pattern;
use crate::bits;
use crate::fec::ldpc::code::SystematicEncoder;
use vstd::prelude::*;

verus! {

/// Bits of a codeword.
pub const N_LDPC: usize = 240;

/// Information bits of a codeword.
pub const K_LDPC: usize = 101;

/// Information bits that carry bytes of the frame.
pub const PAYLOAD_BITS_PER_BLOCK: usize = 96;

/// Information bits that carry the spread header.
pub const HEADER_CHUNK_BITS: usize = 5;

/// Blocks after which the spread header repeats.
pub const HEADER_SPREAD_PERIOD: usize = 7;

/// Bits of the header.
pub const HEADER_BITS: usize = 32;

/// A truth value as a bit.
pub open spec fn bit(b: bool) -> u8 {
    if b {
        1
    } else {
        0
    }
}

/// The frame bytes that a header and a payload give, or why there are none.
pub open spec fn frame_bytes(header: FrameHeader, payload: Seq<u8>) -> Result<Seq<u8>, PackError> {
    let room = 12 * header.block_count - 4;
    if payload.len() > (if room < 0 {
        0
    } else {
        room
    }) {
        Err(PackError::PayloadTooLarge(payload.len() as usize))
    } else {
        framing::packed_to_size(header, payload, 12 * header.block_count)
    }
}

/// The information bits of block `b` of a frame.
pub open spec fn block_info(frame: Seq<u8>, b: int) -> Seq<u8> {
    Seq::new(
        101,
        |i: int|
            if i < 96 {
                bit(bits::bits_of_bytes(frame)[96 * b + i])
            } else if 5 * (b % 7) + i - 96 < 32 {
                bit(bits::bits_of_bytes(frame)[5 * (b % 7) + i - 96])
            } else {
                0
            },
    )
}

/// The channel bits of block `b`.
pub open spec fn block_channel(fec: &SystematicEncoder, frame: Seq<u8>, mode: Mode, b: int) -> Seq<
    u8,
> {
    puncture::punctured(fec.codeword(block_info(frame, b)), mode)
}

/// The channel bits of all blocks, block after block.
pub open spec fn all_channel(fec: &SystematicEncoder, frame: Seq<u8>, mode: Mode, n: nat) -> Seq<
    u8,
> {
    Seq::new(
        n * mode.channel_bits() as nat,
        |x: int|
            block_channel(fec, frame, mode, x / mode.channel_bits())[x % mode.channel_bits()],
    )
}

/// Tones of a block with its known tones.
pub open spec fn block_tones(mode: Mode) -> int {
    4 + mode.channel_bits() / 2
}

/// Tone `s` of a frame whose interleaved channel bits are `stream`.
pub open spec fn tone_at(stream: Seq<u8>, mode: Mode, s: int) -> u8 {
    let b = s / block_tones(mode);
    let r = s % block_tones(mode);
    if r < 4 {
        sync_pattern::UVPACKET_COSTAS@[r]
    } else {
        let x = b * mode.channel_bits() + 2 * (r - 4);
        protocol::GRAY_4@[2 * stream[x] + stream[x + 1]]
    }
}

/// The tones of a frame.
pub open spec fn frame_tones(fec: &SystematicEncoder, frame: Seq<u8>, mode: Mode, n: nat) -> Seq<
    u8,
> {
    let stream = interleaver::interleaved(
        all_channel(fec, frame, mode, n),
        interleaver::permutation(n, mode.channel_bits() as nat),
    );
    Seq::new((n * block_tones(mode) + 4) as nat, |s: int| tone_at(stream, mode, s))
}

/// The information bits of block `b`.
fn build_info(frame: &Vec<u8>, b: usize) -> (info: Vec<u8>)
    requires
        frame@.len() <= 384,
        12 * (b + 1) <= frame@.len(),
    ensures
        info@ == block_info(frame@, b as int),
{
    let ghost all = bits::bits_of_bytes(frame@);
    let mut info: Vec<u8> = Vec::with_capacity(K_LDPC);
    for i in 0..PAYLOAD_BITS_PER_BLOCK
        invariant
            frame@.len() <= 384,
            12 * (b + 1) <= frame@.len(),
            info@.len() == i,
            forall|q: int| 0 <= q < i ==> #[trigger] info@[q] == block_info(frame@, b as int)[q],
    {
        let value: bool = bits::bit_at(frame[12 * b + i / 8], i % 8);
        assert((96 * b + i) / 8 == 12 * b + i / 8 && (96 * b + i) % 8 == i % 8);
        info.push(
            if value {
                1
            } else {
                0
            },
        );
    }
    let offset: usize = HEADER_CHUNK_BITS * (b % HEADER_SPREAD_PERIOD);
    for c in 0..HEADER_CHUNK_BITS
        invariant
            frame@.len() <= 384,
            12 * (b + 1) <= frame@.len(),
            offset == 5 * (b % 7),
            info@.len() == 96 + c,
            forall|q: int|
                0 <= q < 96 + c ==> #[trigger] info@[q] == block_info(frame@, b as int)[q],
    {
        let at: usize = offset + c;
        if at < HEADER_BITS {
            let value: bool = bits::bit_at(frame[at / 8], at % 8);
            info.push(
                if value {
                    1
                } else {
                    0
                },
            );
        } else {
            info.push(0);
        }
    }
    assert(info@ =~= block_info(frame@, b as int));
    info
}

pub proof fn lemma_channel_bits_are_bits(
    fec: &SystematicEncoder,
    frame: Seq<u8>,
    mode: Mode,
    b: int,
    t: int,
)
    requires
        fec.k == 101,
        fec.n() == 240,
        0 <= t < mode.channel_bits(),
    ensures
        block_channel(fec, frame, mode, b).len() == mode.channel_bits(),
        block_channel(fec, frame, mode, b)[t] <= 1,
{
    puncture::law_kept_positions(mode);
    let i = puncture::kept(mode)[t] as int;
    assert(i < 240);
    assert(fec.codeword(block_info(frame, b))[i] <= 1);
}

/// Encode a frame to its tones.
///
/// Fails when the payload exceeds what the blocks of the header hold, or when
/// a header field is out of range.
pub fn encode(fec: &SystematicEncoder, header: &FrameHeader, payload: &[u8]) -> (tones: Result<
    Vec<u8>,
    PackError,
>)
    requires
        fec.well_formed(),
        fec.k == 101,
        fec.n() == 240,
    ensures
        match frame_bytes(*header, payload@) {
            Ok(frame) => tones is Ok && tones->Ok_0@ == frame_tones(
                fec,
                frame,
                header.mode,
                header.block_count as nat,
            ),
            Err(e) => tones is Err && tones->Err_0 == e,
        },
{
    let mode: Mode = header.mode;
    let n: usize = header.block_count as usize;
    let total: usize = n * framing::INFO_BYTES_PER_BLOCK;
    let room: usize = if total < framing::HEADER_BYTES {
        0
    } else {
        total - framing::HEADER_BYTES
    };
    if payload.len() > room {
        return Err(PackError::PayloadTooLarge(payload.len()));
    }
    let frame: Vec<u8> = match framing::pack_to_size(header, payload, total) {
        Ok(bytes) => bytes,
        Err(e) => return Err(e),
    };
    proof {
        let body = framing::padded(payload@, total - 4);
        assert(frame@ == framing::sealed(header.word(), body));
        assert(frame@.len() == 12 * n);
        puncture::law_kept_positions(mode);
    }
    let len: usize = mode.ch_bits_per_block();
    let mut channel: Vec<u8> = Vec::new();
    for b in 0..n
        invariant
            fec.well_formed(),
            fec.k == 101,
            fec.n() == 240,
            n <= 32,
            frame@.len() == 12 * n,
            len == mode.channel_bits(),
            channel@.len() == b * len,
            forall|x: int|
                0 <= x < b * len ==> #[trigger] channel@[x] == all_channel(
                    fec,
                    frame@,
                    mode,
                    n as nat,
                )[x],
    {
        let info: Vec<u8> = build_info(&frame, b);
        let word: Vec<u8> = fec.encode(&info);
        let sent: Vec<u8> = puncture::puncture(&word, mode);
        let ghost before = channel@;
        channel.extend_from_slice(&sent);
        assert(channel@ =~= before + sent@);
        assert((b + 1) * len == b * len + len) by (nonlinear_arith);
        assert((b + 1) * len <= n * len) by (nonlinear_arith)
            requires
                b + 1 <= n,
        ;
        assert forall|x: int| 0 <= x < (b + 1) * len implies #[trigger] channel@[x] == all_channel(
            fec,
            frame@,
            mode,
            n as nat,
        )[x] by {
            if x >= b * len {
                let t = x - b * len;
                vstd::arithmetic::div_mod::lemma_fundamental_div_mod_converse(
                    x,
                    len as int,
                    b as int,
                    t,
                );
            }
        }
    }
    assert(channel@ =~= all_channel(fec, frame@, mode, n as nat));
    assert(n * len <= 32 * 240) by (nonlinear_arith)
        requires
            n <= 32,
            len <= 240,
    ;
    let perm: Vec<usize> = interleaver::build_permutation(n, len);
    let stream: Vec<u8> = interleaver::interleave(&channel, &perm);
    assert forall|x: int| 0 <= x < stream@.len() implies #[trigger] stream@[x] <= 1 by {
        let y = perm@[x] as int;
        assert(perm@[x] < perm@.len());
        assert(stream@[x] == channel@[y]);
        assert(0 <= y % (len as int) < len) by (nonlinear_arith)
            requires
                len > 0,
        ;
        lemma_channel_bits_are_bits(fec, frame@, mode, y / (len as int), y % (len as int));
    }
    let data: usize = protocol::data_symbols_per_block(mode);
    let ghost per = block_tones(mode);
    assert(per == 4 + data);
    let mut tones: Vec<u8> = Vec::new();
    for b in 0..n
        invariant
            n <= 32,
            2 * data == len,
            len == mode.channel_bits(),
            per == 4 + data,
            per == block_tones(mode),
            stream@.len() == n * len,
            forall|x: int| 0 <= x < stream@.len() ==> #[trigger] stream@[x] <= 1,
            tones@.len() == b * per,
            forall|s: int| 0 <= s < b * per ==> #[trigger] tones@[s] == tone_at(stream@, mode, s),
    {
        for r in 0..4usize
            invariant
                b < n,
                per > 4,
                per == block_tones(mode),
                tones@.len() == b * per + r,
                forall|s: int|
                    0 <= s < b * per + r ==> #[trigger] tones@[s] == tone_at(stream@, mode, s),
        {
            proof {
                vstd::arithmetic::div_mod::lemma_fundamental_div_mod_converse(
                    b * per + r,
                    per,
                    b as int,
                    r as int,
                );
            }
            tones.push(sync_pattern::UVPACKET_COSTAS[r]);
        }
        for d in 0..data
            invariant
                b < n,
                n <= 32,
                2 * data == len,
                len == mode.channel_bits(),
                per == 4 + data,
                per == block_tones(mode),
                stream@.len() == n * len,
                forall|x: int| 0 <= x < stream@.len() ==> #[trigger] stream@[x] <= 1,
                tones@.len() == b * per + 4 + d,
                forall|s: int|
                    0 <= s < b * per + 4 + d ==> #[trigger] tones@[s] == tone_at(stream@, mode, s),
        {
            assert(b * len + 2 * d + 1 < n * len && b * len <= n * len) by (nonlinear_arith)
                requires
                    b <= n - 1,
                    2 * d + 1 < len,
            ;
            assert(n * len <= 32 * 240) by (nonlinear_arith)
                requires
                    n <= 32,
                    len <= 240,
            ;
            let x: usize = b * len + 2 * d;
            let first: u8 = stream[x];
            let second: u8 = stream[x + 1];
            assert(stream@[x as int] <= 1 && stream@[x + 1] <= 1);
            proof {
                vstd::arithmetic::div_mod::lemma_fundamental_div_mod_converse(
                    b * per + 4 + d,
                    per,
                    b as int,
                    4 + d,
                );
            }
            tones.push(protocol::GRAY_4[(2 * first + second) as usize]);
        }
        assert((b + 1) * per == b * per + per) by (nonlinear_arith);
    }
    for r in 0..4usize
        invariant
            per > 4,
            per == block_tones(mode),
            tones@.len() == n * per + r,
            forall|s: int|
                0 <= s < n * per + r ==> #[trigger] tones@[s] == tone_at(stream@, mode, s),
    {
        proof {
            vstd::arithmetic::div_mod::lemma_fundamental_div_mod_converse(
                n * per + r,
                per,
                n as int,
                r as int,
            );
        }
        tones.push(sync_pattern::UVPACKET_COSTAS[r]);
    }
    assert(tones@ =~= frame_tones(fec, frame@, mode, n as nat));
    Ok(tones)
}

/// The spread header is complete over seven blocks: header bit `h` stands
/// once more in block `h / 5`, behind the block's bytes.
pub proof fn law_seven_blocks_repeat_the_header(frame: Seq<u8>, h: int)
    requires
        0 <= h < 32,
    ensures
        0 <= h / 5 < 7,
        block_info(frame, h / 5)[96 + h % 5] == bit(bits::bits_of_bytes(frame)[h]),
{
    assert((h / 5) % 7 == h / 5);
    assert(5 * (h / 5) + h % 5 == h);
}

/// A frame has four known tones and half its channel bits for each block, and
/// four more known tones at its end.
pub proof fn law_frame_length(fec: &SystematicEncoder, frame: Seq<u8>, mode: Mode, n: nat)
    ensures
        frame_tones(fec, frame, mode, n).len() == n * (4 + mode.channel_bits() / 2) + 4,
{
    assert(n * block_tones(mode) + 4 >= 0) by (nonlinear_arith)
        requires
            block_tones(mode) >= 0,
            n >= 0,
    ;
}

} // verus!
