//! Frame header and CRC-16.
//!
//! The header is a sixteen bit word, most significant bit first, and a
//! sixteen bit check:
//!
//! ```text
//! mode (2) | block count - 1 (5) | application type (4) | sequence (5) | CRC (16)
//! ```
//!
//! The check covers the header word and everything that follows the header,
//! so that one failure rejects a damaged header and a damaged payload alike.
//! A frame whose mode is known from its preamble carries the shorter word
//!
//! ```text
//! block count - 1 (5) | application type (4) | sequence (5) | zero (2)
//! ```

use super::puncture::Mode;
use crate::bits;
use vstd::prelude::*;

verus! {

/// Bytes of a header: the word and the check.
pub const HEADER_BYTES: usize = 4;

/// Information bytes carried by one block.
pub const INFO_BYTES_PER_BLOCK: usize = 12;

/// Most blocks in a frame.
pub const MAX_BLOCKS_PER_FRAME: usize = 32;

/// Largest payload: what the blocks carry, less the header.
pub const MAX_PAYLOAD_BYTES: usize = 380;

/// Generator polynomial of the check, without its leading term.
pub const CRC16_POLY: u16 = 0x1021;

/// Frame header.
#[derive(Clone, Copy, Debug, PartialEq, Eq, Structural)]
pub struct FrameHeader {
    pub mode: Mode,
    /// Number of blocks, 1 to 32.
    pub block_count: u8,
    /// Application tag, 0 to 15.
    pub app_type: u8,
    /// Sequence number, 0 to 31.
    pub sequence: u8,
}

/// Why a frame cannot be packed.
#[derive(Clone, Copy, Debug, PartialEq, Eq, Structural)]
pub enum PackError {
    /// The payload, whose length is given, exceeds the frame's capacity.
    PayloadTooLarge(usize),
    /// The block count is not in 1 to 32.
    BlockCountOutOfRange(u8),
    /// The application type does not fit in four bits.
    AppTypeOutOfRange(u8),
    /// The sequence number does not fit in five bits.
    SequenceOutOfRange(u8),
}

/// Why the bytes of a frame cannot be unpacked.
#[derive(Clone, Copy, Debug, PartialEq, Eq, Structural)]
pub enum UnpackError {
    /// Fewer bytes than a header.
    TooShort,
    /// The reserved bits of the header word are not zero.
    ReservedBits,
    /// The check does not match.
    CrcMismatch,
}

impl FrameHeader {
    /// Every field fits in its place in the header word.
    pub open spec fn in_range(&self) -> bool {
        &&& 1 <= self.block_count <= 32
        &&& self.app_type < 16
        &&& self.sequence < 32
    }

    /// The header word: two bits of mode, five of block count less one, four
    /// of application type and five of sequence.
    pub open spec fn word(&self) -> int {
        self.mode.code() * 16384 + (self.block_count - 1) * 512 + self.app_type * 32
            + self.sequence
    }

    /// The header that a word stands for, unless its mode code is reserved.
    pub open spec fn of_word(word: int) -> Option<FrameHeader> {
        match Mode::of_code((word / 16384) as u8) {
            Some(mode) => Some(
                FrameHeader {
                    mode,
                    block_count: ((word / 512) % 32 + 1) as u8,
                    app_type: ((word / 32) % 16) as u8,
                    sequence: (word % 32) as u8,
                },
            ),
            None => None,
        }
    }

    /// The shorter word of a frame whose mode is known.
    pub open spec fn short_word(&self) -> int {
        (self.block_count - 1) * 2048 + self.app_type * 128 + self.sequence * 4
    }
}

/// The check register after one more bit.
pub open spec fn crc16_step(crc: u16, bit: bool) -> u16 {
    if ((crc >> 15) & 1 == 1) != bit {
        (crc << 1) ^ 0x1021
    } else {
        crc << 1
    }
}

/// CRC-16 of a bit string, most significant bit first, from a register of
/// ones.
pub open spec fn crc16_bits(bits: Seq<bool>) -> u16
    decreases bits.len(),
{
    if bits.len() == 0 {
        0xFFFF
    } else {
        crc16_step(crc16_bits(bits.drop_last()), bits.last())
    }
}

/// CRC-16 of a byte string.
pub open spec fn crc16_of(bytes: Seq<u8>) -> u16 {
    crc16_bits(bits::bits_of_bytes(bytes))
}

/// A sixteen bit number as two bytes, the more significant one first.
pub open spec fn be_bytes(v: int) -> Seq<u8> {
    seq![(v / 256) as u8, (v % 256) as u8]
}

/// The sixteen bit number of two bytes.
pub open spec fn be_value(a: u8, b: u8) -> int {
    a * 256 + b
}

/// A header word and what follows it, as sent: the word, the check over both,
/// and what follows.
pub open spec fn sealed(word: int, body: Seq<u8>) -> Seq<u8> {
    be_bytes(word) + be_bytes(crc16_of(be_bytes(word) + body) as int) + body
}

/// The bytes that a check covers: all but the check itself.
pub open spec fn covered(bytes: Seq<u8>) -> Seq<u8> {
    bytes.take(2) + bytes.skip(4)
}

/// The check that stands in the bytes matches what it covers.
pub open spec fn seal_holds(bytes: Seq<u8>) -> bool {
    bytes.len() >= 4 && be_value(bytes[2], bytes[3]) == crc16_of(covered(bytes))
}

/// A packed frame.
pub open spec fn packed(header: FrameHeader, payload: Seq<u8>) -> Seq<u8> {
    sealed(header.word(), payload)
}

/// What unpacking yields.
pub open spec fn unpacked(bytes: Seq<u8>) -> Option<(FrameHeader, Seq<u8>)> {
    if !seal_holds(bytes) {
        None
    } else {
        match FrameHeader::of_word(be_value(bytes[0], bytes[1])) {
            Some(header) => Some((header, bytes.skip(4))),
            None => None,
        }
    }
}

/// CRC-16/CCITT-FALSE: polynomial 0x1021, register of ones, nothing reflected
/// and nothing added at the end.
pub fn crc16(bytes: &[u8]) -> (crc: u16)
    ensures
        crc == crc16_of(bytes@),
{
    let ghost all = bits::bits_of_bytes(bytes@);
    let mut crc: u16 = 0xFFFF;
    assert(all.take(0) =~= Seq::<bool>::empty());
    for b in 0..bytes.len()
        invariant
            all == bits::bits_of_bytes(bytes@),
            crc == crc16_bits(all.take(8 * b)),
    {
        let byte: u8 = bytes[b];
        for k in 0..8usize
            invariant
                b < bytes.len(),
                byte == bytes@[b as int],
                all == bits::bits_of_bytes(bytes@),
                crc == crc16_bits(all.take(8 * b + k)),
        {
            let bit: bool = bits::bit_at(byte, k);
            proof {
                let next = all.take(8 * b + k + 1);
                assert(next.drop_last() =~= all.take(8 * b + k));
                assert((8 * b + k) / 8 == b && (8 * b + k) % 8 == k);
            }
            if ((crc >> 15) & 1 == 1) != bit {
                crc = (crc << 1) ^ CRC16_POLY;
            } else {
                crc = crc << 1;
            }
        }
    }
    assert(all.take(8 * bytes@.len() as int) =~= all);
    crc
}

/// A header word and what follows it, as sent.
fn seal(word: u16, body: &[u8]) -> (out: Vec<u8>)
    requires
        body@.len() + 4 <= usize::MAX,
    ensures
        out@ == sealed(word as int, body@),
{
    let high: u8 = (word / 256) as u8;
    let low: u8 = (word % 256) as u8;
    let mut over: Vec<u8> = Vec::with_capacity(body.len() + 2);
    over.push(high);
    over.push(low);
    over.extend_from_slice(body);
    assert(over@ =~= be_bytes(word as int) + body@);
    let crc: u16 = crc16(&over);
    let mut out: Vec<u8> = Vec::with_capacity(body.len() + 4);
    out.push(high);
    out.push(low);
    out.push((crc / 256) as u8);
    out.push((crc % 256) as u8);
    out.extend_from_slice(body);
    assert(out@ =~= sealed(word as int, body@));
    out
}

/// The header word.
fn header_word(header: &FrameHeader) -> (word: u16)
    requires
        header.in_range(),
    ensures
        word == header.word(),
{
    let mode: u16 = header.mode.header_code() as u16;
    let blocks: u16 = (header.block_count - 1) as u16;
    mode * 16384 + blocks * 512 + (header.app_type as u16) * 32 + (header.sequence as u16)
}

/// Pack a header and a payload into the bytes of a frame.
pub fn pack(header: &FrameHeader, payload: &[u8]) -> (out: Vec<u8>)
    requires
        header.in_range(),
        payload@.len() <= MAX_PAYLOAD_BYTES,
    ensures
        out@ == packed(*header, payload@),
{
    seal(header_word(header), payload)
}

/// Whether the check in the bytes matches what it covers.
fn check_seal(bytes: &[u8]) -> (ok: bool)
    requires
        bytes@.len() >= 4,
    ensures
        ok == seal_holds(bytes@),
{
    let mut over: Vec<u8> = Vec::with_capacity(bytes.len() - 2);
    over.push(bytes[0]);
    over.push(bytes[1]);
    let (_, body): (&[u8], &[u8]) = bytes.split_at(4);
    over.extend_from_slice(body);
    assert(over@ =~= covered(bytes@));
    let stored: u16 = (bytes[2] as u16) * 256 + (bytes[3] as u16);
    stored == crc16(&over)
}

/// Inverse of [`pack`]: the header and the payload, or `None` when the bytes
/// are fewer than a header, the check does not match, or the mode code is
/// reserved.
pub fn unpack(bytes: &[u8]) -> (frame: Option<(FrameHeader, &[u8])>)
    ensures
        match unpacked(bytes@) {
            Some((header, payload)) => frame matches Some((h, p)) && h == header && p@ == payload,
            None => frame is None,
        },
{
    if bytes.len() < HEADER_BYTES {
        return None;
    }
    if !check_seal(bytes) {
        return None;
    }
    let word: u16 = (bytes[0] as u16) * 256 + (bytes[1] as u16);
    match Mode::from_header_code((word / 16384) as u8) {
        Some(mode) => {
            let header = FrameHeader {
                mode,
                block_count: ((word / 512) % 32 + 1) as u8,
                app_type: ((word / 32) % 16) as u8,
                sequence: (word % 32) as u8,
            };
            let (_, payload): (&[u8], &[u8]) = bytes.split_at(4);
            assert(payload@ =~= bytes@.skip(4));
            Some((header, payload))
        },
        None => None,
    }
}

/// A payload filled up with zeros.
pub open spec fn padded(payload: Seq<u8>, len: int) -> Seq<u8> {
    payload + Seq::new((len - payload.len()) as nat, |i: int| 0u8)
}

/// The outcome of packing into exactly `total` bytes.
pub open spec fn packed_to_size(header: FrameHeader, payload: Seq<u8>, total: int) -> Result<
    Seq<u8>,
    PackError,
> {
    if !(1 <= header.block_count <= 32) {
        Err(PackError::BlockCountOutOfRange(header.block_count))
    } else if header.app_type >= 16 {
        Err(PackError::AppTypeOutOfRange(header.app_type))
    } else if header.sequence >= 32 {
        Err(PackError::SequenceOutOfRange(header.sequence))
    } else if payload.len() + 4 > total {
        Err(PackError::PayloadTooLarge(payload.len() as usize))
    } else {
        Ok(packed(header, padded(payload, total - 4)))
    }
}

/// Pack a header and a payload into exactly `total` bytes, filling up with
/// zeros. The check covers the zeros too, so that a receiver need not know
/// the length of the payload.
pub fn pack_to_size(header: &FrameHeader, payload: &[u8], total: usize) -> (out: Result<
    Vec<u8>,
    PackError,
>)
    requires
        payload@.len() + 4 <= usize::MAX,
    ensures
        match packed_to_size(*header, payload@, total as int) {
            Ok(bytes) => out is Ok && out->Ok_0@ == bytes,
            Err(e) => out is Err && out->Err_0 == e,
        },
{
    if header.block_count < 1 || header.block_count > 32 {
        return Err(PackError::BlockCountOutOfRange(header.block_count));
    }
    if header.app_type >= 16 {
        return Err(PackError::AppTypeOutOfRange(header.app_type));
    }
    if header.sequence >= 32 {
        return Err(PackError::SequenceOutOfRange(header.sequence));
    }
    if payload.len() + HEADER_BYTES > total {
        return Err(PackError::PayloadTooLarge(payload.len()));
    }
    let mut body: Vec<u8> = Vec::with_capacity(total - HEADER_BYTES);
    body.extend_from_slice(payload);
    assert(body@ =~= padded(payload@, payload@.len() as int));
    while body.len() < total - HEADER_BYTES
        invariant
            4 <= total,
            payload@.len() <= body@.len() <= total - 4,
            body@ == padded(payload@, body@.len() as int),
        decreases total - body@.len(),
    {
        body.push(0);
        assert(body@ =~= padded(payload@, body@.len() as int));
    }
    Ok(seal(header_word(header), &body))
}

/// What unpacking a frame of known mode yields.
pub open spec fn unpacked_header(bytes: Seq<u8>, mode: Mode) -> Result<
    (FrameHeader, Seq<u8>),
    UnpackError,
> {
    if bytes.len() < 4 {
        Err(UnpackError::TooShort)
    } else if be_value(bytes[0], bytes[1]) % 4 != 0 {
        Err(UnpackError::ReservedBits)
    } else if !seal_holds(bytes) {
        Err(UnpackError::CrcMismatch)
    } else {
        let word = be_value(bytes[0], bytes[1]);
        Ok(
            (
                FrameHeader {
                    mode,
                    block_count: (word / 2048 + 1) as u8,
                    app_type: ((word / 128) % 16) as u8,
                    sequence: ((word / 4) % 32) as u8,
                },
                bytes.skip(4),
            ),
        )
    }
}

/// Unpack a frame whose mode is known: the header and what follows it.
pub fn unpack_header(bytes: &[u8], mode: Mode) -> (frame: Result<(FrameHeader, &[u8]), UnpackError>)
    ensures
        match unpacked_header(bytes@, mode) {
            Ok((header, payload)) => frame matches Ok((h, p)) && h == header && p@ == payload,
            Err(e) => frame is Err && frame->Err_0 == e,
        },
{
    if bytes.len() < HEADER_BYTES {
        return Err(UnpackError::TooShort);
    }
    let word: u16 = (bytes[0] as u16) * 256 + (bytes[1] as u16);
    if word % 4 != 0 {
        return Err(UnpackError::ReservedBits);
    }
    if !check_seal(bytes) {
        return Err(UnpackError::CrcMismatch);
    }
    let header = FrameHeader {
        mode,
        block_count: (word / 2048 + 1) as u8,
        app_type: ((word / 128) % 16) as u8,
        sequence: ((word / 4) % 32) as u8,
    };
    let (_, payload): (&[u8], &[u8]) = bytes.split_at(4);
    assert(payload@ =~= bytes@.skip(4));
    Ok((header, payload))
}

proof fn lemma_sealed(word: int, body: Seq<u8>)
    requires
        0 <= word < 65536,
    ensures
        sealed(word, body).len() == body.len() + 4,
        be_value(sealed(word, body)[0], sealed(word, body)[1]) == word,
        seal_holds(sealed(word, body)),
        sealed(word, body).skip(4) == body,
{
    let s = sealed(word, body);
    let c = crc16_of(be_bytes(word) + body) as int;
    assert(s.skip(4) =~= body);
    assert(s.take(2) =~= be_bytes(word));
    assert(be_value(s[2], s[3]) == c);
}

pub proof fn lemma_quotient(w: int, d: int, q: int, r: int)
    requires
        0 < d,
        0 <= r < d,
        w == d * q + r,
    ensures
        w / d == q,
        w % d == r,
{
    assert(d * q == q * d) by (nonlinear_arith);
    vstd::arithmetic::div_mod::lemma_fundamental_div_mod_converse(w, d, q, r);
}

/// Unpacking a packed frame gives the header and the payload back.
pub proof fn law_unpack_inverts_pack(header: FrameHeader, payload: Seq<u8>)
    requires
        header.in_range(),
    ensures
        unpacked(packed(header, payload)) == Some((header, payload)),
{
    let w = header.word();
    let a = header.mode.code() as int;
    let b = header.block_count - 1;
    let c = header.app_type as int;
    let d = header.sequence as int;
    lemma_quotient(w, 16384, a, 512 * b + 32 * c + d);
    lemma_quotient(w, 512, 32 * a + b, 32 * c + d);
    lemma_quotient(32 * a + b, 32, a, b);
    lemma_quotient(w, 32, 512 * a + 16 * b + c, d);
    lemma_quotient(512 * a + 16 * b + c, 16, 32 * a + b, c);
    lemma_sealed(w, payload);
    assert(FrameHeader::of_word(w) == Some(header));
}

proof fn lemma_word_digits(w: int)
    requires
        0 <= w < 65536,
    ensures
        w == (w / 16384) * 16384 + ((w / 512) % 32) * 512 + ((w / 32) % 16) * 32 + w % 32,
        0 <= w / 16384 < 4,
{
    vstd::arithmetic::div_mod::lemma_div_denominator(w, 32, 16);
    vstd::arithmetic::div_mod::lemma_div_denominator(w, 512, 32);
    let q = w / 32;
    let r = w / 512;
    assert(q == 16 * r + q % 16);
    assert(r == 32 * (w / 16384) + r % 32);
}

/// Only packed frames unpack: what unpacking accepts is the packed form of
/// what it returns.
pub proof fn law_only_packed_frames_unpack(bytes: Seq<u8>)
    ensures
        match unpacked(bytes) {
            Some((header, payload)) => header.in_range() && bytes == packed(header, payload),
            None => true,
        },
{
    match unpacked(bytes) {
        Some((header, payload)) => {
            lemma_word_digits(be_value(bytes[0], bytes[1]));
            assert(header.word() == be_value(bytes[0], bytes[1]));
            assert(be_bytes(header.word()) =~= bytes.take(2));
            assert(be_bytes(header.word()) + payload =~= covered(bytes));
            assert(bytes =~= packed(header, payload));
        },
        None => {},
    }
}

/// A frame sealed with the shorter word unpacks to the header and the payload
/// that it was sealed with.
pub proof fn law_unpack_header_inverts_seal(header: FrameHeader, payload: Seq<u8>)
    requires
        header.in_range(),
    ensures
        unpacked_header(sealed(header.short_word(), payload), header.mode) == Ok::<
            (FrameHeader, Seq<u8>),
            UnpackError,
        >((header, payload)),
{
    let w = header.short_word();
    let b = header.block_count - 1;
    let c = header.app_type as int;
    let d = header.sequence as int;
    lemma_quotient(w, 2048, b, 128 * c + 4 * d);
    lemma_quotient(w, 128, 16 * b + c, 4 * d);
    lemma_quotient(16 * b + c, 16, b, c);
    lemma_quotient(w, 4, 512 * b + 32 * c + d, 0);
    lemma_quotient(512 * b + 32 * c + d, 32, 16 * b + c, d);
    lemma_sealed(w, payload);
}

proof fn lemma_crc16_step(s: u16, t: u16, a: bool, b: bool)
    ensures
        s != t ==> crc16_step(s, a) != crc16_step(t, a),
        a != b ==> crc16_step(s, a) != crc16_step(s, b),
{
    assert({
        let sa = if ((s >> 15) & 1 == 1) != a { (s << 1) ^ 0x1021 } else { s << 1 };
        let ta = if ((t >> 15) & 1 == 1) != a { (t << 1) ^ 0x1021 } else { t << 1 };
        let sb = if ((s >> 15) & 1 == 1) != b { (s << 1) ^ 0x1021 } else { s << 1 };
        (s != t ==> sa != ta) && (a != b ==> sa != sb)
    }) by (bit_vector);
}

/// Bit strings that differ in exactly one place have different checks.
proof fn lemma_crc16_one_flip(a: Seq<bool>, b: Seq<bool>, at: int)
    requires
        a.len() == b.len(),
        0 <= at < a.len(),
        forall|i: int| 0 <= i < a.len() ==> ((#[trigger] a[i] == b[i]) <==> i != at),
    ensures
        crc16_bits(a) != crc16_bits(b),
    decreases a.len(),
{
    let fa = a.drop_last();
    let fb = b.drop_last();
    if at == a.len() - 1 {
        assert forall|i: int| 0 <= i < fa.len() implies fa[i] == fb[i] by {
            assert((a[i] == b[i]) <==> i != at);
        }
        assert(fa =~= fb);
        assert((a[at] == b[at]) <==> at != at);
        lemma_crc16_step(crc16_bits(fa), crc16_bits(fa), a.last(), b.last());
    } else {
        assert forall|i: int| 0 <= i < fa.len() implies ((#[trigger] fa[i] == fb[i]) <==> i
            != at) by {
            assert((a[i] == b[i]) <==> i != at);
        }
        lemma_crc16_one_flip(fa, fb, at);
        assert((a[a.len() - 1] == b[a.len() - 1]) <==> a.len() - 1 != at);
        lemma_crc16_step(crc16_bits(fa), crc16_bits(fb), a.last(), b.last());
    }
}

/// No frame survives the flip of one bit, wherever in the header, the check
/// or the payload it happens: the check no longer matches.
pub proof fn law_one_flip_breaks_the_seal(good: Seq<u8>, bad: Seq<u8>, at: int)
    requires
        seal_holds(good),
        bad.len() == good.len(),
        0 <= at < 8 * good.len(),
        forall|i: int|
            0 <= i < 8 * good.len() ==> ((#[trigger] bits::bits_of_bytes(good)[i]
                == bits::bits_of_bytes(bad)[i]) <==> i != at),
    ensures
        !seal_holds(bad),
{
    let g = bits::bits_of_bytes(good);
    let b = bits::bits_of_bytes(bad);
    assert forall|p: int| 0 <= p < good.len() && p != at / 8 implies #[trigger] good[p]
        == bad[p] by {
        assert forall|j: int| 0 <= j < 8 implies #[trigger] bits::msb_bit(good[p], j)
            == bits::msb_bit(bad[p], j) by {
            lemma_quotient(8 * p + j, 8, p, j);
            assert((g[8 * p + j] == b[8 * p + j]) <==> 8 * p + j != at);
        }
        bits::law_bits_determine_byte(good[p], bad[p]);
    }
    let cg = bits::bits_of_bytes(covered(good));
    let cb = bits::bits_of_bytes(covered(bad));
    let byte = at / 8;
    assert(g[at] != b[at]) by {
        assert((g[at] == b[at]) <==> at != at);
    }
    if byte == 2 || byte == 3 {
        assert(covered(good) =~= covered(bad));
        assert(good[byte] != bad[byte]);
        assert(good[5 - byte] == bad[5 - byte]);
    } else {
        assert(good[2] == bad[2] && good[3] == bad[3]);
        let there = if at < 16 {
            at
        } else {
            at - 16
        };
        assert forall|i: int| 0 <= i < cg.len() implies ((#[trigger] cg[i] == cb[i]) <==> i
            != there) by {
            let from = if i < 16 {
                i
            } else {
                i + 16
            };
            assert(cg[i] == g[from]);
            assert(cb[i] == b[from]);
            assert((g[from] == b[from]) <==> from != at);
        }
        lemma_crc16_one_flip(cg, cb, there);
    }
}

} // verus!
