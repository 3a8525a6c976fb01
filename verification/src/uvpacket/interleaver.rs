//! Block interleaver across the codewords of a frame.
//!
//! The channel carries the first bit of every codeword, then the second bit of
//! every codeword, and so on, so that a fade hits each codeword only once in a
//! while.

use vstd::prelude::*;

verus! {

/// Where the bit at channel position `j` stands in the concatenated codewords:
/// in codeword `j % n_blocks`, at bit `j / n_blocks`.
pub open spec fn source_of(n_blocks: int, block_len: int, j: int) -> int {
    (j % n_blocks) * block_len + j / n_blocks
}

/// The interleaver as a table of source positions.
pub open spec fn permutation(n_blocks: nat, block_len: nat) -> Seq<usize> {
    Seq::new(
        n_blocks * block_len,
        |j: int| source_of(n_blocks as int, block_len as int, j) as usize,
    )
}

/// A table that names each of its positions exactly once.
pub open spec fn is_permutation(perm: Seq<usize>) -> bool {
    &&& forall|j: int| 0 <= j < perm.len() ==> #[trigger] perm[j] < perm.len()
    &&& forall|a: int, b: int|
        0 <= a < b < perm.len() ==> #[trigger] perm[a] != #[trigger] perm[b]
}

/// A source position lies in its codeword, and gives codeword and bit back.
proof fn lemma_source(n_blocks: int, block_len: int, j: int)
    requires
        n_blocks > 0,
        block_len > 0,
        0 <= j < n_blocks * block_len,
    ensures
        0 <= j / n_blocks < block_len,
        0 <= j % n_blocks < n_blocks,
        0 <= source_of(n_blocks, block_len, j) < n_blocks * block_len,
        source_of(n_blocks, block_len, j) / block_len == j % n_blocks,
        source_of(n_blocks, block_len, j) % block_len == j / n_blocks,
{
    let c = j % n_blocks;
    let k = j / n_blocks;
    vstd::arithmetic::div_mod::lemma_fundamental_div_mod(j, n_blocks);
    assert(k < block_len) by (nonlinear_arith)
        requires
            j == n_blocks * k + c,
            0 <= c,
            j < n_blocks * block_len,
            n_blocks > 0,
    ;
    assert(0 <= c * block_len && c * block_len + k < n_blocks * block_len) by (nonlinear_arith)
        requires
            0 <= c <= n_blocks - 1,
            0 <= k < block_len,
    ;
    vstd::arithmetic::div_mod::lemma_fundamental_div_mod_converse(
        c * block_len + k,
        block_len,
        c,
        k,
    );
}

/// The interleaver table is a permutation.
pub proof fn law_interleaver_is_a_permutation(n_blocks: nat, block_len: nat)
    requires
        n_blocks * block_len <= usize::MAX,
    ensures
        is_permutation(permutation(n_blocks, block_len)),
{
    let perm = permutation(n_blocks, block_len);
    let n = n_blocks as int;
    let l = block_len as int;
    if n * l > 0 {
        assert(n > 0 && l > 0) by (nonlinear_arith)
            requires
                n * l > 0,
                n >= 0,
                l >= 0,
        ;
        assert forall|j: int| 0 <= j < perm.len() implies #[trigger] perm[j] < perm.len() by {
            lemma_source(n, l, j);
        }
        assert forall|a: int, b: int| 0 <= a < b < perm.len() implies #[trigger] perm[a]
            != #[trigger] perm[b] by {
            lemma_source(n, l, a);
            lemma_source(n, l, b);
            vstd::arithmetic::div_mod::lemma_fundamental_div_mod(a, n);
            vstd::arithmetic::div_mod::lemma_fundamental_div_mod(b, n);
        }
    }
}

/// Two channel positions that carry bits of one codeword lie at least as far
/// apart as there are codewords: a burst shorter than that hits no codeword
/// twice.
pub proof fn law_bursts_are_spread(n_blocks: nat, block_len: nat, a: int, b: int)
    requires
        0 <= a < b < n_blocks * block_len,
        n_blocks * block_len <= usize::MAX,
        permutation(n_blocks, block_len)[a] as int / block_len as int == permutation(
            n_blocks,
            block_len,
        )[b] as int / block_len as int,
    ensures
        b - a >= n_blocks,
{
    let n = n_blocks as int;
    let l = block_len as int;
    assert(n > 0 && l > 0) by (nonlinear_arith)
        requires
            n * l > 0,
            n >= 0,
            l >= 0,
    ;
    lemma_source(n, l, a);
    lemma_source(n, l, b);
    vstd::arithmetic::div_mod::lemma_fundamental_div_mod(a, n);
    vstd::arithmetic::div_mod::lemma_fundamental_div_mod(b, n);
    let qa = a / n;
    let qb = b / n;
    assert(b - a == n * (qb - qa)) by (nonlinear_arith)
        requires
            a == n * qa + a % n,
            b == n * qb + b % n,
            a % n == b % n,
    ;
    assert(b - a >= n) by (nonlinear_arith)
        requires
            b - a == n * (qb - qa),
            b - a > 0,
            n > 0,
    ;
}

/// Build the interleaver table for `n_blocks` codewords of `block_len` bits.
pub fn build_permutation(n_blocks: usize, block_len: usize) -> (perm: Vec<usize>)
    requires
        n_blocks * block_len <= usize::MAX,
    ensures
        perm@ == permutation(n_blocks as nat, block_len as nat),
        is_permutation(perm@),
{
    let total: usize = n_blocks * block_len;
    let mut perm: Vec<usize> = Vec::with_capacity(total);
    for j in 0..total
        invariant
            total == n_blocks * block_len,
            perm@.len() == j,
            forall|q: int|
                0 <= q < j ==> #[trigger] perm@[q] == permutation(
                    n_blocks as nat,
                    block_len as nat,
                )[q],
    {
        assert(n_blocks > 0 && block_len > 0) by (nonlinear_arith)
            requires
                n_blocks * block_len > 0,
                n_blocks >= 0,
                block_len >= 0,
        ;
        proof {
            lemma_source(n_blocks as int, block_len as int, j as int);
            let c = (j % n_blocks) as int;
            assert(0 <= c * block_len <= source_of(n_blocks as int, block_len as int, j as int))
                by (nonlinear_arith)
                requires
                    c >= 0,
                    block_len > 0,
                    source_of(n_blocks as int, block_len as int, j as int) == c * block_len + (j
                        as int) / (n_blocks as int),
                    (j as int) / (n_blocks as int) >= 0,
            ;
        }
        perm.push((j % n_blocks) * block_len + j / n_blocks);
    }
    proof {
        law_interleaver_is_a_permutation(n_blocks as nat, block_len as nat);
    }
    assert(perm@ =~= permutation(n_blocks as nat, block_len as nat));
    perm
}

/// The bits of `codewords` in the order that the table gives.
pub open spec fn interleaved<T>(codewords: Seq<T>, perm: Seq<usize>) -> Seq<T> {
    Seq::new(perm.len(), |j: int| codewords[perm[j] as int])
}

/// Put codeword bits into channel order.
pub fn interleave(codewords: &[u8], perm: &[usize]) -> (out: Vec<u8>)
    requires
        forall|j: int| 0 <= j < perm@.len() ==> #[trigger] perm@[j] < codewords@.len(),
    ensures
        out@ == interleaved(codewords@, perm@),
{
    let mut out: Vec<u8> = Vec::with_capacity(perm.len());
    for j in 0..perm.len()
        invariant
            forall|j: int| 0 <= j < perm@.len() ==> #[trigger] perm@[j] < codewords@.len(),
            out@.len() == j,
            forall|q: int| 0 <= q < j ==> #[trigger] out@[q] == interleaved(codewords@, perm@)[q],
    {
        assert(perm@[j as int] < codewords@.len());
        out.push(codewords[perm[j]]);
    }
    assert(out@ =~= interleaved(codewords@, perm@));
    out
}

/// Channel values sorted back into codewords: the value at channel position
/// `j` stands in the codeword and at the bit that the table names.
pub open spec fn deinterleaved<T>(
    llrs: Seq<T>,
    perm: Seq<usize>,
    n_blocks: int,
    out: Seq<Vec<T>>,
) -> bool {
    let len = llrs.len() as int / n_blocks;
    &&& out.len() == n_blocks
    &&& forall|b: int| 0 <= b < n_blocks ==> (#[trigger] out[b])@.len() == len
    &&& forall|j: int|
        0 <= j < llrs.len() ==> out[#[trigger] perm[j] as int / len]@[perm[j] as int % len]
            == llrs[j]
}

/// Put channel values back into one vector per codeword.
pub fn deinterleave_llr<T: Copy>(llrs: &[T], perm: &[usize], n_blocks: usize) -> (out: Vec<Vec<T>>)
    requires
        n_blocks > 0,
        perm@.len() == llrs@.len(),
        llrs@.len() % (n_blocks as nat) == 0,
        is_permutation(perm@),
    ensures
        deinterleaved(llrs@, perm@, n_blocks as int, out@),
{
    let total: usize = llrs.len();
    let block_len: usize = total / n_blocks;
    proof {
        vstd::arithmetic::div_mod::lemma_fundamental_div_mod(total as int, n_blocks as int);
        assert(n_blocks * block_len == total);
    }
    let mut inverse: Vec<usize> = vec![0usize; llrs.len()];
    for j in 0..perm.len()
        invariant
            perm@.len() == llrs@.len(),
            inverse@.len() == llrs@.len(),
            is_permutation(perm@),
            forall|q: int| 0 <= q < inverse@.len() ==> #[trigger] inverse@[q] < llrs@.len(),
            forall|q: int| 0 <= q < j ==> inverse@[#[trigger] perm@[q] as int] == q,
    {
        assert(perm@[j as int] < perm@.len());
        inverse.set(perm[j], j);
    }
    let mut out: Vec<Vec<T>> = Vec::with_capacity(n_blocks);
    for b in 0..n_blocks
        invariant
            n_blocks * block_len == total,
            total == llrs@.len(),
            inverse@.len() == llrs@.len(),
            forall|q: int| 0 <= q < inverse@.len() ==> #[trigger] inverse@[q] < llrs@.len(),
            out@.len() == b,
            forall|c: int| 0 <= c < b ==> (#[trigger] out@[c])@.len() == block_len,
            forall|c: int, k: int|
                0 <= c < b && 0 <= k < block_len ==> #[trigger] out@[c]@[k]
                    == llrs@[inverse@[c * block_len + k] as int],
    {
        let mut block: Vec<T> = Vec::with_capacity(block_len);
        for k in 0..block_len
            invariant
                b < n_blocks,
                n_blocks * block_len == total,
                total == llrs@.len(),
                inverse@.len() == llrs@.len(),
                forall|q: int| 0 <= q < inverse@.len() ==> #[trigger] inverse@[q] < llrs@.len(),
                block@.len() == k,
                forall|q: int|
                    0 <= q < k ==> #[trigger] block@[q] == llrs@[inverse@[b * block_len
                        + q] as int],
        {
            assert(0 <= b * block_len && b * block_len + k < n_blocks * block_len)
                by (nonlinear_arith)
                requires
                    b <= n_blocks - 1,
                    k < block_len,
            ;
            assert(0 <= b * block_len + k < total);
            assert(inverse@[b * block_len + k] < llrs@.len());
            block.push(llrs[inverse[b * block_len + k]]);
        }
        out.push(block);
    }
    assert forall|j: int| 0 <= j < llrs@.len() implies {
        let len = llrs@.len() as int / n_blocks as int;
        out@[#[trigger] perm@[j] as int / len]@[perm@[j] as int % len] == llrs@[j]
    } by {
        let p = perm@[j] as int;
        let len = block_len as int;
        assert(perm@[j] < perm@.len());
        assert(len > 0) by (nonlinear_arith)
            requires
                n_blocks * len == total,
                total > 0,
                n_blocks > 0,
                len >= 0,
        ;
        vstd::arithmetic::div_mod::lemma_fundamental_div_mod(p, len);
        assert(p / len < n_blocks) by (nonlinear_arith)
            requires
                p == len * (p / len) + p % len,
                0 <= p % len,
                p < n_blocks * len,
                len > 0,
        ;
        assert(0 <= p / len) by (nonlinear_arith)
            requires
                p >= 0,
                len > 0,
        ;
        assert(out@[p / len]@[p % len] == llrs@[inverse@[(p / len) * len + p % len] as int]);
        assert((p / len) * len == len * (p / len)) by (nonlinear_arith);
        assert(inverse@[perm@[j] as int] == j);
    }
    out
}

/// Bit `k` of codeword `b` travels at channel position `k n_blocks + b`.
pub proof fn lemma_channel_position(n_blocks: int, block_len: int, b: int, k: int)
    requires
        0 <= b < n_blocks,
        0 <= k < block_len,
        n_blocks * block_len <= usize::MAX,
    ensures
        0 <= k * n_blocks + b < n_blocks * block_len,
        permutation(n_blocks as nat, block_len as nat)[k * n_blocks + b] == b * block_len + k,
{
    let j = k * n_blocks + b;
    assert(0 <= j < n_blocks * block_len) by (nonlinear_arith)
        requires
            0 <= b < n_blocks,
            0 <= k <= block_len - 1,
            j == k * n_blocks + b,
    ;
    vstd::arithmetic::div_mod::lemma_fundamental_div_mod_converse(j, n_blocks, k, b);
    lemma_source(n_blocks, block_len, j);
}

/// Interleaving and sorting back gives every codeword back bit by bit.
pub proof fn law_interleave_roundtrip<T>(
    codewords: Seq<T>,
    n_blocks: nat,
    block_len: nat,
    out: Seq<Vec<T>>,
    b: int,
    k: int,
)
    requires
        codewords.len() == n_blocks * block_len,
        n_blocks * block_len <= usize::MAX,
        deinterleaved(
            interleaved(codewords, permutation(n_blocks, block_len)),
            permutation(n_blocks, block_len),
            n_blocks as int,
            out,
        ),
        0 <= b < n_blocks,
        0 <= k < block_len,
    ensures
        out[b]@.len() == block_len,
        out[b]@[k] == codewords[b * block_len + k],
{
    let n = n_blocks as int;
    let l = block_len as int;
    let j = k * n + b;
    lemma_channel_position(n, l, b, k);
    vstd::arithmetic::div_mod::lemma_fundamental_div_mod_converse(b * l + k, l, b, k);
    vstd::arithmetic::div_mod::lemma_div_multiples_vanish(l, n);
    assert((n * l) / n == l);
    assert(permutation(n_blocks, block_len)[j] == b * l + k);
}

} // verus!
