//! Bits of bytes, most significant bit first.

use vstd::prelude::*;

verus! {

/// Bit `k` of a byte, counted from the most significant one.
pub open spec fn msb_bit(byte: u8, k: int) -> bool {
    (byte >> ((7 - k) as u8)) & 1 == 1
}

/// The bits of a byte string, each byte most significant bit first.
pub open spec fn bits_of_bytes(bytes: Seq<u8>) -> Seq<bool> {
    Seq::new(8 * bytes.len(), |i: int| msb_bit(bytes[i / 8], i % 8))
}

/// The number that a bit string spells, most significant bit first.
pub open spec fn bits_value(bits: Seq<bool>) -> nat
    decreases bits.len(),
{
    if bits.len() == 0 {
        0
    } else {
        2 * bits_value(bits.drop_last()) + (if bits.last() {
            1nat
        } else {
            0nat
        })
    }
}

/// Bit `k` of a byte, counted from the most significant one.
pub fn bit_at(byte: u8, k: usize) -> (b: bool)
    requires
        k < 8,
    ensures
        b == msb_bit(byte, k as int),
{
    let shift: u8 = 7 - (k as u8);
    (byte >> shift) & 1 == 1
}

/// The byte with bit `k`, counted from the most significant one, set.
pub fn with_bit(byte: u8, k: usize) -> (r: u8)
    requires
        k < 8,
    ensures
        forall|j: int|
            0 <= j < 8 ==> #[trigger] msb_bit(r, j) == (j == k || msb_bit(byte, j)),
{
    let shift: u8 = 7 - (k as u8);
    let r: u8 = byte | (1u8 << shift);
    assert forall|j: int| 0 <= j < 8 implies #[trigger] msb_bit(r, j) == (j == k || msb_bit(
        byte,
        j,
    )) by {
        let other: u8 = (7 - j) as u8;
        assert(((byte | (1u8 << shift)) >> other) & 1 == 1u8 <==> (other == shift || (byte >> other)
            & 1 == 1u8)) by (bit_vector)
            requires
                shift < 8,
                other < 8,
        ;
    }
    r
}

/// Every bit of the zero byte is clear.
pub proof fn lemma_zero_byte()
    ensures
        forall|j: int| 0 <= j < 8 ==> !(#[trigger] msb_bit(0, j)),
{
    assert forall|j: int| 0 <= j < 8 implies !(#[trigger] msb_bit(0, j)) by {
        let s: u8 = (7 - j) as u8;
        assert((0u8 >> s) & 1 != 1u8) by (bit_vector)
            requires
                s < 8,
        ;
    }
}

/// A byte is determined by its eight bits.
pub proof fn law_bits_determine_byte(a: u8, b: u8)
    requires
        forall|j: int| 0 <= j < 8 ==> #[trigger] msb_bit(a, j) == msb_bit(b, j),
    ensures
        a == b,
{
    assert(msb_bit(a, 0) == msb_bit(b, 0));
    assert(msb_bit(a, 1) == msb_bit(b, 1));
    assert(msb_bit(a, 2) == msb_bit(b, 2));
    assert(msb_bit(a, 3) == msb_bit(b, 3));
    assert(msb_bit(a, 4) == msb_bit(b, 4));
    assert(msb_bit(a, 5) == msb_bit(b, 5));
    assert(msb_bit(a, 6) == msb_bit(b, 6));
    assert(msb_bit(a, 7) == msb_bit(b, 7));
    assert(a == b) by (bit_vector)
        requires
            ((a >> 7u8) & 1 == 1u8) == ((b >> 7u8) & 1 == 1u8),
            ((a >> 6u8) & 1 == 1u8) == ((b >> 6u8) & 1 == 1u8),
            ((a >> 5u8) & 1 == 1u8) == ((b >> 5u8) & 1 == 1u8),
            ((a >> 4u8) & 1 == 1u8) == ((b >> 4u8) & 1 == 1u8),
            ((a >> 3u8) & 1 == 1u8) == ((b >> 3u8) & 1 == 1u8),
            ((a >> 2u8) & 1 == 1u8) == ((b >> 2u8) & 1 == 1u8),
            ((a >> 1u8) & 1 == 1u8) == ((b >> 1u8) & 1 == 1u8),
            ((a >> 0u8) & 1 == 1u8) == ((b >> 0u8) & 1 == 1u8),
    ;
}

/// The bits of a byte spell it, the first one counting 128 and the last one 1.
pub proof fn law_bits_spell_the_byte(b: u8)
    ensures
        b == (if msb_bit(b, 0) {
            128int
        } else {
            0
        }) + (if msb_bit(b, 1) {
            64int
        } else {
            0
        }) + (if msb_bit(b, 2) {
            32int
        } else {
            0
        }) + (if msb_bit(b, 3) {
            16int
        } else {
            0
        }) + (if msb_bit(b, 4) {
            8int
        } else {
            0
        }) + (if msb_bit(b, 5) {
            4int
        } else {
            0
        }) + (if msb_bit(b, 6) {
            2int
        } else {
            0
        }) + (if msb_bit(b, 7) {
            1int
        } else {
            0
        }),
{
    assert(b == 128 * (b >> 7u8 & 1) + 64 * (b >> 6u8 & 1) + 32 * (b >> 5u8 & 1) + 16 * (b >> 4u8
        & 1) + 8 * (b >> 3u8 & 1) + 4 * (b >> 2u8 & 1) + 2 * (b >> 1u8 & 1) + (b >> 0u8 & 1) && (b
        >> 7u8 & 1) <= 1 && (b >> 6u8 & 1) <= 1 && (b >> 5u8 & 1) <= 1 && (b >> 4u8 & 1) <= 1 && (b
        >> 3u8 & 1) <= 1 && (b >> 2u8 & 1) <= 1 && (b >> 1u8 & 1) <= 1 && (b >> 0u8 & 1) <= 1)
        by (bit_vector);
}

} // verus!
