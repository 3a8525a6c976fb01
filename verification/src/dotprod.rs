//! Dot product of fixed-point vectors with fifteen fractional bits.

use crate::scalar;
use vstd::prelude::*;

verus! {

/// Product of two numbers with fifteen fractional bits, rounded down.
pub open spec fn q15_product(x: i16, y: i16) -> int {
    (x * y) / 32768
}

/// The first `k` terms of the dot product.
pub open spec fn dot_prefix(a: Seq<i16>, b: Seq<i16>, k: int) -> int
    decreases k,
{
    if k <= 0 {
        0
    } else {
        dot_prefix(a, b, k - 1) + q15_product(a[k - 1], b[k - 1])
    }
}

/// The dot product.
pub open spec fn dot(a: Seq<i16>, b: Seq<i16>) -> int {
    dot_prefix(a, b, a.len() as int)
}

/// The running sum never leaves the accumulator.
pub open spec fn dot_fits(a: Seq<i16>, b: Seq<i16>) -> bool {
    forall|k: int| 0 <= k <= a.len() ==> i32::MIN <= #[trigger] dot_prefix(a, b, k) <= i32::MAX
}

proof fn lemma_product_bounds(x: i16, y: i16)
    ensures
        -32768 <= q15_product(x, y) <= 32768,
        i32::MIN <= x * y <= i32::MAX,
{
    assert(-1073741824 <= x * y <= 1073741824) by (nonlinear_arith)
        requires
            -32768 <= x <= 32767,
            -32768 <= y <= 32767,
    ;
}

proof fn lemma_prefix_bounds(a: Seq<i16>, b: Seq<i16>, k: int)
    requires
        0 <= k,
    ensures
        -32768 * k <= dot_prefix(a, b, k) <= 32768 * k,
    decreases k,
{
    if k > 0 {
        lemma_prefix_bounds(a, b, k - 1);
        lemma_product_bounds(a[k - 1], b[k - 1]);
    }
}

/// Vectors of fewer than 65536 samples never overflow the accumulator.
pub proof fn law_short_vectors_fit(a: Seq<i16>, b: Seq<i16>)
    requires
        a.len() < 65536,
    ensures
        dot_fits(a, b),
{
    assert forall|k: int| 0 <= k <= a.len() implies i32::MIN <= #[trigger] dot_prefix(a, b, k)
        <= i32::MAX by {
        lemma_prefix_bounds(a, b, k);
    }
}

/// Dot product of two vectors of one length, each product shifted right by
/// fifteen places before it is added.
pub fn dot_q15_i32(a: &[i16], b: &[i16]) -> (acc: i32)
    requires
        a@.len() == b@.len(),
        dot_fits(a@, b@),
    ensures
        acc == dot(a@, b@),
{
    let mut acc: i32 = 0;
    for i in 0..a.len()
        invariant
            a@.len() == b@.len(),
            dot_fits(a@, b@),
            acc == dot_prefix(a@, b@, i as int),
    {
        proof {
            lemma_product_bounds(a@[i as int], b@[i as int]);
        }
        let product: i32 = (a[i] as i32) * (b[i] as i32);
        proof {
            scalar::lemma_shift_15(product);
            assert(i32::MIN <= dot_prefix(a@, b@, i + 1) <= i32::MAX);
        }
        acc = acc + (product >> 15);
    }
    acc
}

/// A vector of zeros is orthogonal to everything.
pub proof fn law_zero_vector(a: Seq<i16>, b: Seq<i16>, k: int)
    requires
        0 <= k <= a.len(),
        forall|i: int| 0 <= i < a.len() ==> #[trigger] a[i] == 0,
    ensures
        dot_prefix(a, b, k) == 0,
    decreases k,
{
    if k > 0 {
        law_zero_vector(a, b, k - 1);
        assert(a[k - 1] == 0);
        let y = b[k - 1];
        assert(0 * y == 0) by (nonlinear_arith);
    }
}

/// Turning a vector around turns the dot product around, up to one for each
/// term, since products are rounded down.
pub proof fn law_negated_vector(a: Seq<i16>, b: Seq<i16>, minus_b: Seq<i16>, k: int)
    requires
        0 <= k <= a.len(),
        a.len() == b.len(),
        b.len() == minus_b.len(),
        forall|i: int| 0 <= i < b.len() ==> #[trigger] minus_b[i] == -b[i],
    ensures
        -k <= dot_prefix(a, b, k) + dot_prefix(a, minus_b, k) <= 0,
    decreases k,
{
    if k > 0 {
        law_negated_vector(a, b, minus_b, k - 1);
        let x = a[k - 1] as int;
        let y = b[k - 1] as int;
        assert(minus_b[k - 1] == -b[k - 1]);
        assert(x * (-y) == -(x * y)) by (nonlinear_arith);
        let p = x * y;
        assert(-1 <= p / 32768 + (-p) / 32768 <= 0);
    }
}

/// A product in units of 1/32768, rounded down.
pub proof fn law_products_are_rounded_down(x: i16, y: i16)
    ensures
        32768 * q15_product(x, y) <= x * y < 32768 * (q15_product(x, y) + 1),
{
}

/// The dot product of vectors put together is the sum of theirs.
pub proof fn law_dot_products_add_up(a: Seq<i16>, b: Seq<i16>, c: Seq<i16>, d: Seq<i16>, k: int)
    requires
        a.len() == b.len(),
        c.len() == d.len(),
        0 <= k <= c.len(),
    ensures
        dot_prefix(a + c, b + d, a.len() + k) == dot(a, b) + dot_prefix(c, d, k),
    decreases k,
{
    if k > 0 {
        law_dot_products_add_up(a, b, c, d, k - 1);
        assert((a + c)[a.len() + k - 1] == c[k - 1]);
        assert((b + d)[a.len() + k - 1] == d[k - 1]);
    } else {
        lemma_prefix_of_longer(a, b, c, d, a.len() as int);
    }
}

proof fn lemma_prefix_of_longer(a: Seq<i16>, b: Seq<i16>, c: Seq<i16>, d: Seq<i16>, k: int)
    requires
        a.len() == b.len(),
        0 <= k <= a.len(),
    ensures
        dot_prefix(a + c, b + d, k) == dot_prefix(a, b, k),
    decreases k,
{
    if k > 0 {
        lemma_prefix_of_longer(a, b, c, d, k - 1);
        assert((a + c)[k - 1] == a[k - 1]);
        assert((b + d)[k - 1] == b[k - 1]);
    }
}

/// A vector that is nought but for minus one at place `p` picks a sample out and
/// turns it around: both vectors are read from the same place.
pub proof fn law_a_unit_vector_picks_a_sample(a: Seq<i16>, unit: Seq<i16>, p: int, k: int)
    requires
        a.len() == unit.len(),
        0 <= p < a.len(),
        0 <= k <= a.len(),
        forall|i: int| 0 <= i < unit.len() ==> #[trigger] unit[i] == (if i == p {
            -32768i16
        } else {
            0i16
        }),
    ensures
        dot_prefix(a, unit, k) == (if p < k {
            -(a[p] as int)
        } else {
            0
        }),
    decreases k,
{
    if k > 0 {
        law_a_unit_vector_picks_a_sample(a, unit, p, k - 1);
        let x = a[k - 1] as int;
        assert(unit[k - 1] == (if k - 1 == p {
            -32768i16
        } else {
            0i16
        }));
        assert(x * 0 == 0 && x * (-32768) == -32768 * x) by (nonlinear_arith);
    }
}

} // verus!
