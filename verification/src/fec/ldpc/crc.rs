//! The fourteen bit cyclic redundancy check of the 77-bit messages.

use crate::bits;
use vstd::prelude::*;

verus! {

/// Message bits in an information word.
pub const MESSAGE_BITS: usize = 77;

/// Information bits of the (174, 91) code: the message and its check.
pub const LDPC_K: usize = 91;

/// Generator polynomial without its leading term.
pub const CRC14_POLY: u16 = 0x2757;

/// The check register after one more bit: the register shifts left, the bit
/// enters at the right, and a one that leaves at the left subtracts the
/// generator.
pub open spec fn crc14_step(crc: u16, bit: bool) -> u16 {
    let entered = ((crc << 1) | (if bit {
        1u16
    } else {
        0u16
    })) & 0x3FFF;
    if (crc >> 13) & 1 != 0 {
        entered ^ 0x2757
    } else {
        entered
    }
}

/// The remainder of a bit string, most significant bit first, modulo the
/// generator polynomial.
pub open spec fn crc14_bits(bits: Seq<bool>) -> u16
    decreases bits.len(),
{
    if bits.len() == 0 {
        0
    } else {
        crc14_step(crc14_bits(bits.drop_last()), bits.last())
    }
}

/// The 96 bits over which a message is checked: its 77 bits and zeros.
pub open spec fn checked_bits(info: Seq<u8>) -> Seq<bool> {
    Seq::new(96, |i: int| i < 77 && info[i] % 2 == 1)
}

/// The fourteen check bits that follow a message.
pub open spec fn stored_check(info: Seq<u8>) -> Seq<bool> {
    Seq::new(14, |i: int| info[77 + i] % 2 == 1)
}

/// What it means for an information word to pass its check.
pub open spec fn crc14_passes(info: Seq<u8>) -> bool {
    info.len() == 91 && crc14_bits(checked_bits(info)) == bits::bits_value(stored_check(info))
}

/// CRC-14 over bytes, most significant bit first.
pub fn crc14(data: &[u8]) -> (crc: u16)
    ensures
        crc == crc14_bits(bits::bits_of_bytes(data@)),
{
    let ghost bits = bits::bits_of_bytes(data@);
    let mut crc: u16 = 0;
    assert(bits.take(0) =~= Seq::<bool>::empty());
    for b in 0..data.len()
        invariant
            bits == bits::bits_of_bytes(data@),
            crc == crc14_bits(bits.take(8 * b)),
    {
        let byte: u8 = data[b];
        for k in 0..8usize
            invariant
                b < data.len(),
                byte == data@[b as int],
                bits == bits::bits_of_bytes(data@),
                crc == crc14_bits(bits.take(8 * b + k)),
        {
            let bit: bool = bits::bit_at(byte, k);
            let entering: u16 = if bit {
                1
            } else {
                0
            };
            let leaving: u16 = (crc >> 13) & 1;
            proof {
                let next = bits.take(8 * b + k + 1);
                assert(next.drop_last() =~= bits.take(8 * b + k));
                assert(next.last() == bits[8 * b + k]);
                assert((8 * b + k) / 8 == b && (8 * b + k) % 8 == k);
            }
            crc = ((crc << 1) | entering) & 0x3FFF;
            if leaving != 0 {
                crc = crc ^ CRC14_POLY;
            }
        }
    }
    assert(bits.take(8 * data@.len() as int) =~= bits);
    crc
}

/// Verify the CRC-14 of a 91-bit word: 77 message bits, then fourteen check
/// bits. Words of any other length are rejected.
pub fn check_crc14(decoded: &[u8]) -> (ok: bool)
    ensures
        ok == crc14_passes(decoded@),
{
    if decoded.len() != LDPC_K {
        return false;
    }
    let mut bytes: Vec<u8> = vec![0u8; 12];
    proof {
        bits::lemma_zero_byte();
    }
    for i in 0..77usize
        invariant
            decoded@.len() == 91,
            bytes@.len() == 12,
            forall|p: int|
                0 <= p < 96 ==> bits::msb_bit(#[trigger] bytes@[p / 8], p % 8) == (p < i && decoded@[p]
                    % 2 == 1),
    {
        let bit: u8 = decoded[i] & 1;
        assert(decoded@[i as int] & 1 == decoded@[i as int] % 2) by {
            let x = decoded@[i as int];
            assert(x & 1 == x % 2) by (bit_vector);
        }
        let ghost before = bytes@;
        if bit == 1 {
            let byte: u8 = bits::with_bit(bytes[i / 8], i % 8);
            bytes.set(i / 8, byte);
        }
        assert forall|p: int| 0 <= p < 96 implies bits::msb_bit(#[trigger] bytes@[p / 8], p % 8) == (p < i
            + 1 && decoded@[p] % 2 == 1) by {
            assert(bits::msb_bit(before[p / 8], p % 8) == (p < i && decoded@[p] % 2 == 1));
            if p / 8 == i / 8 && p % 8 == i % 8 {
                assert(p == i);
            }
        }
    }
    assert(bits::bits_of_bytes(bytes@) =~= checked_bits(decoded@));
    let computed: u16 = crc14(&bytes);
    let mut received: u16 = 0;
    let ghost stored = stored_check(decoded@);
    assert(1u16 << 0u16 == 1) by (bit_vector);
    for t in 0..14usize
        invariant
            decoded@.len() == 91,
            stored == stored_check(decoded@),
            received == bits::bits_value(stored.take(t as int)),
            received < (1u16 << (t as u16)),
    {
        let bit: u8 = decoded[77 + t] & 1;
        proof {
            let x = decoded@[77 + t];
            assert(x & 1 == x % 2) by (bit_vector);
            assert(stored.take(t + 1).drop_last() =~= stored.take(t as int));
            let s = t as u16;
            assert(received < (1u16 << s) && s < 14 ==> 2 * received + 1 < (1u16 << ((s + 1)
                as u16)) && (1u16 << s) <= 8192 && (received << 1) == 2 * received && (bit <= 1
                ==> ((received << 1) | (bit as u16)) == 2 * received + bit)) by (bit_vector);
        }
        received = (received << 1) | (bit as u16);
    }
    assert(stored.take(14) =~= stored);
    computed == received
}

/// The bitwise difference of two bit strings of one length.
pub open spec fn difference(a: Seq<bool>, b: Seq<bool>) -> Seq<bool> {
    Seq::new(a.len(), |i: int| a[i] != b[i])
}

proof fn lemma_step(s: u16, t: u16, a: bool, b: bool)
    requires
        s < 0x4000,
        t < 0x4000,
    ensures
        crc14_step(s, a) < 0x4000,
        s ^ t < 0x4000,
        crc14_step(s ^ t, a != b) == crc14_step(s, a) ^ crc14_step(t, b),
        s != 0 ==> crc14_step(s, false) != 0,
{
    assert({
        let sa = ((s << 1) | (if a { 1u16 } else { 0u16 })) & 0x3FFF;
        let ra = if (s >> 13) & 1 != 0 { sa ^ 0x2757 } else { sa };
        let tb = ((t << 1) | (if b { 1u16 } else { 0u16 })) & 0x3FFF;
        let rb = if (t >> 13) & 1 != 0 { tb ^ 0x2757 } else { tb };
        let x = s ^ t;
        let xc = ((x << 1) | (if a != b { 1u16 } else { 0u16 })) & 0x3FFF;
        let rx = if (x >> 13) & 1 != 0 { xc ^ 0x2757 } else { xc };
        let s0 = ((s << 1) | 0u16) & 0x3FFF;
        let r0 = if (s >> 13) & 1 != 0 { s0 ^ 0x2757 } else { s0 };
        ra < 0x4000 && x < 0x4000 && rx == ra ^ rb && (s != 0 ==> r0 != 0)
    }) by (bit_vector)
        requires
            s < 0x4000,
            t < 0x4000,
    ;
}

proof fn lemma_register_width(a: Seq<bool>)
    ensures
        crc14_bits(a) < 0x4000,
    decreases a.len(),
{
    if a.len() > 0 {
        lemma_register_width(a.drop_last());
        lemma_step(crc14_bits(a.drop_last()), 0, a.last(), false);
    }
}

/// The check is linear: the check of the difference of two bit strings is the
/// difference of their checks.
pub proof fn law_crc14_is_linear(a: Seq<bool>, b: Seq<bool>)
    requires
        a.len() == b.len(),
    ensures
        crc14_bits(difference(a, b)) == crc14_bits(a) ^ crc14_bits(b),
    decreases a.len(),
{
    if a.len() == 0 {
        assert(0u16 ^ 0u16 == 0) by (bit_vector);
    } else {
        law_crc14_is_linear(a.drop_last(), b.drop_last());
        lemma_register_width(a.drop_last());
        lemma_register_width(b.drop_last());
        lemma_step(
            crc14_bits(a.drop_last()),
            crc14_bits(b.drop_last()),
            a.last(),
            b.last(),
        );
        assert(difference(a, b).drop_last() =~= difference(a.drop_last(), b.drop_last()));
    }
}

proof fn lemma_zeros(a: Seq<bool>)
    requires
        forall|i: int| 0 <= i < a.len() ==> !(#[trigger] a[i]),
    ensures
        crc14_bits(a) == 0,
    decreases a.len(),
{
    if a.len() > 0 {
        assert forall|i: int| 0 <= i < a.drop_last().len() implies !(#[trigger] a.drop_last()[i]) by {
            assert(!a[i]);
        }
        lemma_zeros(a.drop_last());
        assert((((0u16 << 1) | 0u16) & 0x3FFF) == 0 && (0u16 >> 13) & 1 == 0) by (bit_vector);
    }
}

proof fn lemma_single_one(a: Seq<bool>, at: int)
    requires
        0 <= at < a.len(),
        forall|i: int| 0 <= i < a.len() ==> #[trigger] a[i] == (i == at),
    ensures
        crc14_bits(a) != 0,
    decreases a.len(),
{
    let front = a.drop_last();
    assert forall|i: int| 0 <= i < front.len() implies #[trigger] front[i] == (i == at) by {
        assert(front[i] == a[i]);
    }
    if at == a.len() - 1 {
        lemma_zeros(front);
        assert((((0u16 << 1) | 1u16) & 0x3FFF) == 1 && (0u16 >> 13) & 1 == 0) by (bit_vector);
    } else {
        lemma_single_one(front, at);
        lemma_register_width(front);
        lemma_step(crc14_bits(front), 0, false, false);
        assert(!a.last());
    }
}

proof fn lemma_value_injective(a: Seq<bool>, b: Seq<bool>)
    requires
        a.len() == b.len(),
        bits::bits_value(a) == bits::bits_value(b),
    ensures
        a == b,
    decreases a.len(),
{
    if a.len() > 0 {
        assert(a.last() == b.last());
        lemma_value_injective(a.drop_last(), b.drop_last());
        assert(a =~= a.drop_last().push(a.last()));
        assert(b =~= b.drop_last().push(b.last()));
    } else {
        assert(a =~= b);
    }
}

/// A word that passes its check no longer passes it after any one of its 91
/// bits has been flipped.
pub proof fn law_crc14_detects_one_flip(good: Seq<u8>, bad: Seq<u8>, at: int)
    requires
        crc14_passes(good),
        bad.len() == good.len(),
        0 <= at < good.len(),
        forall|i: int|
            0 <= i < good.len() ==> ((#[trigger] good[i] % 2 == bad[i] % 2) <==> i != at),
    ensures
        !crc14_passes(bad),
{
    let a = checked_bits(good);
    let b = checked_bits(bad);
    let d = difference(a, b);
    if at < 77 {
        assert forall|i: int| 0 <= i < d.len() implies #[trigger] d[i] == (i == at) by {
            if i < 77 {
                assert((good[i] % 2 == bad[i] % 2) <==> i != at);
            }
        }
        lemma_single_one(d, at);
        law_crc14_is_linear(a, b);
        let x = crc14_bits(a);
        let y = crc14_bits(b);
        assert(x == y ==> x ^ y == 0) by (bit_vector);
        assert forall|i: int| 0 <= i < 14 implies #[trigger] stored_check(good)[i] == stored_check(
            bad,
        )[i] by {
            assert((good[77 + i] % 2 == bad[77 + i] % 2) <==> 77 + i != at);
        }
        assert(stored_check(good) =~= stored_check(bad));
    } else {
        assert forall|i: int| 0 <= i < 96 implies #[trigger] a[i] == b[i] by {
            if i < 77 {
                assert((good[i] % 2 == bad[i] % 2) <==> i != at);
            }
        }
        assert(a =~= b);
        if crc14_passes(bad) {
            lemma_value_injective(stored_check(good), stored_check(bad));
            assert(stored_check(good)[at - 77] == stored_check(bad)[at - 77]);
            assert((good[at] % 2 == bad[at] % 2) <==> at != at);
        }
    }
}

} // verus!
