//! The bit-reversal interleaver of the 162 channel symbols.

use vstd::prelude::*;

verus! {

/// Channel symbols of a frame.
pub const N_SYMBOLS: usize = 162;

/// A byte with its bits in reverse order.
pub open spec fn reversed(b: u8) -> u8 {
    (b & 1) << 7 | (b & 2) << 5 | (b & 4) << 3 | (b & 8) << 1 | (b & 16) >> 1 | (b & 32) >> 3 | (b
        & 64) >> 5 | (b & 128) >> 7
}

/// Reverse the bits of a byte by spreading copies of it and gathering one bit
/// from each.
pub fn reverse_bits(b: u8) -> (r: u8)
    ensures
        r == reversed(b),
{
    let wide: u64 = b as u64;
    assert(wide * 0x8020_0802u64 < 0x1_0000_0000_00u64) by (bit_vector)
        requires
            wide < 256,
    ;
    let spread: u64 = wide * 0x8020_0802;
    let picked: u64 = spread & 0x08_8442_2110;
    let gathered: u64 = picked.wrapping_mul(0x01_0101_0101);
    let r: u8 = #[verifier::truncate] ((gathered >> 32) as u8);
    proof {
        let product: u128 = (picked as u128 * 0x01_0101_0101u128) as u128;
        assert(picked as u128 * 0x01_0101_0101u128 == picked * 0x01_0101_0101u64);
        assert(picked <= 0x08_8442_2110) by (bit_vector)
            requires
                picked == spread & 0x08_8442_2110,
        ;
        assert(picked * 0x01_0101_0101u64 <= 0x08_8442_2110 * 0x01_0101_0101) by (nonlinear_arith)
            requires
                picked <= 0x08_8442_2110,
        ;
        assert(product == picked * 0x01_0101_0101u64);
        assert(gathered == product % 0x1_0000_0000_0000_0000u128);
        assert((gathered >> 32) as u8 == reversed(b)) by (bit_vector)
            requires
                wide == b as u64,
                spread == wide * 0x8020_0802,
                picked == spread & 0x08_8442_2110,
                product == picked as u128 * 0x01_0101_0101u128,
                gathered == product % 0x1_0000_0000_0000_0000u128,
        ;
    }
    r
}

/// Reversing twice gives the byte back.
pub proof fn law_reversal_is_an_involution(b: u8)
    ensures
        reversed(reversed(b)) == b,
{
    assert(reversed(reversed(b)) == b) by (bit_vector);
}

/// The reversed numbers below 162 of the first `n` numbers, in their order.
pub open spec fn sources(n: int) -> Seq<u8>
    decreases n,
{
    if n <= 0 {
        Seq::empty()
    } else {
        let rest = sources(n - 1);
        let j = reversed((n - 1) as u8);
        if j < 162 {
            rest.push(j)
        } else {
            rest
        }
    }
}

/// The interleaver as a list: soft value `p` of the deinterleaved frame is
/// soft value `permutation()[p]` of the received one.
pub open spec fn permutation() -> Seq<u8> {
    sources(256)
}

/// What the first `n` numbers contribute.
pub proof fn lemma_sources(n: int)
    requires
        0 <= n <= 256,
    ensures
        forall|p: int| 0 <= p < sources(n).len() ==> #[trigger] sources(n)[p] < 162,
        forall|p: int|
            0 <= p < sources(n).len() ==> reversed(#[trigger] sources(n)[p]) < n,
        forall|p: int, q: int|
            0 <= p < q < sources(n).len() ==> reversed(#[trigger] sources(n)[p]) < reversed(
                #[trigger] sources(n)[q],
            ),
        forall|i: int|
            0 <= i < n && #[trigger] reversed(i as u8) < 162 ==> sources(n).contains(
                reversed(i as u8),
            ),
    decreases n,
{
    if n > 0 {
        lemma_sources(n - 1);
        let rest = sources(n - 1);
        let j = reversed((n - 1) as u8);
        law_reversal_is_an_involution((n - 1) as u8);
        assert forall|i: int| 0 <= i < n && #[trigger] reversed(i as u8) < 162 implies sources(
            n,
        ).contains(reversed(i as u8)) by {
            if i < n - 1 {
                assert(rest.contains(reversed(i as u8)));
                let p = choose|p: int| 0 <= p < rest.len() && rest[p] == reversed(i as u8);
                assert(sources(n)[p] == reversed(i as u8));
            } else {
                assert(sources(n)[rest.len() as int] == j);
            }
        }
    }
}

/// The interleaver moves every one of the 162 values to a place of its own.
pub proof fn law_interleaver_is_a_permutation()
    ensures
        permutation().len() == 162,
        permutation().no_duplicates(),
        forall|p: int| 0 <= p < 162 ==> #[trigger] permutation()[p] < 162,
        forall|j: u8| j < 162 ==> #[trigger] permutation().contains(j),
{
    lemma_sources(256);
    let list = permutation();
    assert(list.no_duplicates());
    assert forall|j: u8| j < 162 implies #[trigger] list.contains(j) by {
        law_reversal_is_an_involution(j);
        let i = reversed(j) as int;
        assert(reversed(i as u8) == j);
    }
    let numbers = list.map_values(|v: u8| v as int);
    assert(numbers.no_duplicates());
    numbers.unique_seq_to_set();
    let range = vstd::set_lib::set_int_range(0, 162);
    vstd::set_lib::lemma_int_range(0, 162);
    assert forall|x: int| range.contains(x) implies numbers.to_set().contains(x) by {
        assert(list.contains(x as u8));
        let p = choose|p: int| 0 <= p < list.len() && list[p] == x as u8;
        assert(numbers[p] == x);
    }
    assert forall|x: int| numbers.to_set().contains(x) implies range.contains(x) by {
        let p = choose|p: int| 0 <= p < numbers.len() && numbers[p] == x;
        assert(list[p] < 162);
    }
    assert(numbers.to_set() =~= range);
}

/// Put 162 received values back into the order of the code.
pub fn deinterleave_llrs<T: Copy>(llrs: &mut [T; 162])
    ensures
        forall|p: int|
            0 <= p < 162 ==> #[trigger] final(llrs)@[p] == old(llrs)@[permutation()[p] as int],
{
    let mut tmp: [T; 162] = *llrs;
    let mut p: usize = 0;
    proof {
        law_interleaver_is_a_permutation();
        lemma_sources(0);
    }
    for i in 0..256usize
        invariant
            p == sources(i as int).len(),
            permutation().len() == 162,
            *llrs == *old(llrs),
            forall|q: int|
                0 <= q < p ==> #[trigger] tmp@[q] == llrs@[sources(i as int)[q] as int],
    {
        let j: usize = reverse_bits(i as u8) as usize;
        proof {
            lemma_sources(i + 1);
            lemma_prefix(i + 1, 256);
        }
        if j < 162 {
            assert(p < sources(i + 1).len());
            tmp[p] = llrs[j];
            p = p + 1;
        }
    }
    *llrs = tmp;
}

/// Fewer numbers contribute fewer entries.
proof fn lemma_prefix(n: int, m: int)
    requires
        0 <= n <= m,
    ensures
        sources(n).len() <= sources(m).len(),
    decreases m - n,
{
    if n < m {
        lemma_prefix(n, m - 1);
    }
}

} // verus!
