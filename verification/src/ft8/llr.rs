//! Shapes of the soft values: 79 rows of eight tones, four sets of 174 bits.

use crate::scalar::LlrScalar;
use vstd::prelude::*;

verus! {

/// Soft values of the 174 code bits in four variants: from single tones, from
/// pairs, from triples, and the normalised combination.
pub struct LlrSet<T: LlrScalar> {
    pub llra: [T; 174],
    pub llrb: [T; 174],
    pub llrc: [T; 174],
    pub llrd: [T; 174],
}

impl<T: LlrScalar> LlrSet<T> {
    /// The variants in the order in which they are tried.
    pub open spec fn variant(&self, v: int) -> Seq<T> {
        if v == 0 {
            self.llra@
        } else if v == 1 {
            self.llrb@
        } else if v == 2 {
            self.llrc@
        } else {
            self.llrd@
        }
    }
}

/// Lay out 79 rows of eight one after the other.
pub fn flatten_cs<T: Copy>(cs: &Vec<[T; 8]>) -> (flat: Vec<T>)
    requires
        cs@.len() == 79,
    ensures
        flat@.len() == 632,
        forall|k: int, t: int|
            0 <= k < 79 && 0 <= t < 8 ==> #[trigger] flat@[8 * k + t] == cs@[k]@[t],
{
    let mut flat: Vec<T> = Vec::with_capacity(632);
    for k in 0..79usize
        invariant
            cs@.len() == 79,
            flat@.len() == 8 * k,
            forall|q: int, t: int|
                0 <= q < k && 0 <= t < 8 ==> #[trigger] flat@[8 * q + t] == cs@[q]@[t],
    {
        for u in 0..8usize
            invariant
                k < 79,
                cs@.len() == 79,
                flat@.len() == 8 * k + u,
                forall|q: int, t: int|
                    0 <= t < 8 && (0 <= q < k || q == k && t < u) ==> #[trigger] flat@[8 * q + t]
                        == cs@[q]@[t],
        {
            flat.push(cs[k][u]);
        }
    }
    flat
}

/// Cut a flat list of tone values into rows of eight.
pub fn rows_of_eight<T: Copy>(flat: &[T]) -> (cs: Vec<[T; 8]>)
    requires
        flat@.len() >= 632,
    ensures
        cs@.len() == 79,
        forall|k: int, t: int|
            0 <= k < 79 && 0 <= t < 8 ==> #[trigger] cs@[k]@[t] == flat@[8 * k + t],
{
    let mut cs: Vec<[T; 8]> = Vec::with_capacity(79);
    for k in 0..79usize
        invariant
            flat@.len() >= 632,
            cs@.len() == k,
            forall|q: int, t: int|
                0 <= q < k && 0 <= t < 8 ==> #[trigger] cs@[q]@[t] == flat@[8 * q + t],
    {
        let mut row: [T; 8] = [flat[8 * k]; 8];
        for u in 0..8usize
            invariant
                k < 79,
                flat@.len() >= 632,
                forall|t: int| 0 <= t < u ==> #[trigger] row@[t] == flat@[8 * k + t],
        {
            row[u] = flat[8 * k + u];
        }
        let ghost before = cs@;
        cs.push(row);
        assert forall|q: int, t: int| 0 <= q < k + 1 && 0 <= t < 8 implies #[trigger] cs@[q]@[t]
            == flat@[8 * q + t] by {
            if q < k {
                assert(cs@[q] == before[q]);
            }
        }
    }
    cs
}

/// Rows cut from the flattened rows are the rows.
pub proof fn law_rows_survive_flattening<T>(cs: Seq<[T; 8]>, flat: Seq<T>, back: Seq<[T; 8]>)
    requires
        cs.len() == 79,
        back.len() == 79,
        forall|k: int, t: int|
            0 <= k < 79 && 0 <= t < 8 ==> #[trigger] flat[8 * k + t] == cs[k]@[t],
        forall|k: int, t: int|
            0 <= k < 79 && 0 <= t < 8 ==> #[trigger] back[k]@[t] == flat[8 * k + t],
    ensures
        forall|k: int| 0 <= k < 79 ==> #[trigger] back[k]@ == cs[k]@,
{
    assert forall|k: int| 0 <= k < 79 implies #[trigger] back[k]@ == cs[k]@ by {
        assert forall|t: int| 0 <= t < 8 implies back[k]@[t] == cs[k]@[t] by {
            assert(flat[8 * k + t] == cs[k]@[t]);
        }
        assert(back[k]@ =~= cs[k]@);
    }
}

/// Fit a list to 174 soft values: what is too long is cut off, what is missing
/// is undecided.
pub fn inflate_llr<T: LlrScalar>(v: &Vec<T>) -> (out: [T; 174])
    ensures
        forall|i: int|
            0 <= i < 174 ==> #[trigger] out@[i] == (if i < v@.len() {
                v@[i]
            } else {
                T::zero_value()
            }),
{
    let zero: T = T::zero();
    let mut out: [T; 174] = [zero; 174];
    let n: usize = if v.len() < 174 {
        v.len()
    } else {
        174
    };
    for i in 0..n
        invariant
            n <= 174,
            n <= v@.len(),
            zero == T::zero_value(),
            forall|q: int| 0 <= q < i ==> #[trigger] out@[q] == v@[q],
            forall|q: int| i <= q < 174 ==> #[trigger] out@[q] == zero,
    {
        out[i] = v[i];
    }
    out
}

} // verus!
