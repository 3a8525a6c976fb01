//! Sparse parity-check codes as tables.

use vstd::prelude::*;

verus! {

/// A parity-check code in which every bit takes part in three checks.
///
/// `rows[j]` lists the bits of check `j`; `columns[i]` lists the checks of
/// bit `i`. The first `k` bits of a codeword are its information.
pub struct LdpcCode {
    /// Codeword length.
    pub n: usize,
    /// Information length.
    pub k: usize,
    pub rows: Vec<Vec<usize>>,
    pub columns: Vec<[usize; 3]>,
}

impl LdpcCode {
    /// The tables index within their bounds and a 77-bit message fits.
    pub open spec fn well_formed(&self) -> bool {
        &&& self.columns@.len() == self.n
        &&& 77 <= self.k <= self.n
        &&& 3 * self.n <= usize::MAX
        &&& self.rows@.len() <= u32::MAX
        &&& self.n <= u32::MAX
        &&& forall|j: int, s: int|
            0 <= j < self.rows@.len() && 0 <= s < self.rows@[j]@.len() ==> #[trigger] self.rows@[j]@[s]
                < self.n
        &&& forall|i: int, c: int|
            0 <= i < self.n && 0 <= c < 3 ==> #[trigger] self.columns@[i]@[c] < self.rows@.len()
    }

    /// Whether the tables make up a code.
    pub fn is_well_formed(&self) -> (yes: bool)
        ensures
            yes == self.well_formed(),
    {
        if self.columns.len() != self.n || self.k < 77 || self.k > self.n || self.n > usize::MAX / 3
            || self.rows.len() as u64 > u32::MAX as u64 || self.n as u64 > u32::MAX as u64 {
            return false;
        }
        for i in 0..self.columns.len()
            invariant
                self.columns@.len() == self.n,
                forall|q: int, c: int|
                    0 <= q < i && 0 <= c < 3 ==> #[trigger] self.columns@[q]@[c]
                        < self.rows@.len(),
        {
            for c in 0..3usize
                invariant
                    i < self.columns@.len(),
                    self.columns@.len() == self.n,
                    forall|q: int|
                        0 <= q < c ==> #[trigger] self.columns@[i as int]@[q] < self.rows@.len(),
            {
                if self.columns[i][c] >= self.rows.len() {
                    assert(self.columns@[i as int]@[c as int] >= self.rows@.len());
                    return false;
                }
            }
        }
        all_below(&self.rows, self.n)
    }

    /// Number of ones among the first `s` bits of a check.
    pub open spec fn ones_in_row(word: Seq<u8>, row: Seq<usize>, s: int) -> nat
        decreases s,
    {
        if s <= 0 {
            0
        } else {
            Self::ones_in_row(word, row, s - 1) + (if word[row[s - 1] as int] == 1 {
                1nat
            } else {
                0nat
            })
        }
    }

    /// A check fails when it covers an odd number of ones.
    pub open spec fn check_fails(&self, word: Seq<u8>, j: int) -> bool {
        Self::ones_in_row(word, self.rows@[j]@, self.rows@[j]@.len() as int) % 2 == 1
    }

    /// Number of failing checks among the first `j`.
    pub open spec fn failing(&self, word: Seq<u8>, j: int) -> nat
        decreases j,
    {
        if j <= 0 {
            0
        } else {
            self.failing(word, j - 1) + (if self.check_fails(word, j - 1) {
                1nat
            } else {
                0nat
            })
        }
    }

    /// A word of zeros and ones that satisfies every check.
    pub open spec fn is_codeword(&self, word: Seq<u8>) -> bool {
        &&& word.len() == self.n
        &&& forall|i: int| 0 <= i < word.len() ==> #[trigger] word[i] <= 1
        &&& forall|j: int| 0 <= j < self.rows@.len() ==> !(#[trigger] self.check_fails(word, j))
    }

    /// No check fails exactly when the count of failing checks is nought.
    pub proof fn lemma_failing_zero(&self, word: Seq<u8>, j: int)
        requires
            0 <= j <= self.rows@.len(),
        ensures
            self.failing(word, j) <= j,
            self.failing(word, j) == 0 <==> (forall|c: int|
                0 <= c < j ==> !(#[trigger] self.check_fails(word, c))),
        decreases j,
    {
        if j > 0 {
            self.lemma_failing_zero(word, j - 1);
            if self.failing(word, j) == 0 {
                assert forall|c: int| 0 <= c < j implies !(#[trigger] self.check_fails(word, c)) by {
                    if c == j - 1 {
                        assert(!self.check_fails(word, j - 1));
                    }
                }
            } else if self.check_fails(word, j - 1) {
            } else {
                let c = choose|c: int| 0 <= c < j - 1 && #[trigger] self.check_fails(word, c);
                assert(self.check_fails(word, c));
            }
        }
    }

    /// Count the checks that a word of zeros and ones fails.
    pub fn count_failing(&self, word: &Vec<u8>) -> (count: u32)
        requires
            self.well_formed(),
            word@.len() == self.n,
            forall|i: int| 0 <= i < word@.len() ==> #[trigger] word@[i] <= 1,
        ensures
            count == self.failing(word@, self.rows@.len() as int),
    {
        let mut count: u32 = 0;
        for j in 0..self.rows.len()
            invariant
                self.well_formed(),
                word@.len() == self.n,
                forall|i: int| 0 <= i < word@.len() ==> #[trigger] word@[i] <= 1,
                count == self.failing(word@, j as int),
                count <= j,
        {
            let row: &Vec<usize> = &self.rows[j];
            let mut odd: bool = false;
            for s in 0..row.len()
                invariant
                    self.well_formed(),
                    word@.len() == self.n,
                    j < self.rows@.len(),
                    row == &self.rows@[j as int],
                    forall|i: int| 0 <= i < word@.len() ==> #[trigger] word@[i] <= 1,
                    odd == (Self::ones_in_row(word@, row@, s as int) % 2 == 1),
            {
                assert(self.rows@[j as int]@[s as int] < self.n);
                if word[row[s]] == 1 {
                    odd = !odd;
                }
            }
            if odd {
                count = count + 1;
            }
        }
        count
    }
}

/// Whether every entry of every list is below a bound.
fn all_below(lists: &Vec<Vec<usize>>, bound: usize) -> (yes: bool)
    ensures
        yes == forall|j: int, s: int|
            0 <= j < lists@.len() && 0 <= s < lists@[j]@.len() ==> #[trigger] lists@[j]@[s] < bound,
{
    for j in 0..lists.len()
        invariant
            forall|q: int, s: int|
                0 <= q < j && 0 <= s < lists@[q]@.len() ==> #[trigger] lists@[q]@[s] < bound,
    {
        let list: &Vec<usize> = &lists[j];
        for s in 0..list.len()
            invariant
                j < lists@.len(),
                list == &lists@[j as int],
                forall|q: int| 0 <= q < s ==> #[trigger] lists@[j as int]@[q] < bound,
        {
            if list[s] >= bound {
                assert(lists@[j as int]@[s as int] >= bound);
                return false;
            }
        }
    }
    true
}

/// A systematic encoder: parity bit `p` is the parity of the information bits
/// that `parity[p]` lists.
pub struct SystematicEncoder {
    /// Information length.
    pub k: usize,
    pub parity: Vec<Vec<usize>>,
}

impl SystematicEncoder {
    pub open spec fn well_formed(&self) -> bool {
        &&& self.k + self.parity@.len() <= usize::MAX
        &&& forall|p: int, s: int|
            0 <= p < self.parity@.len() && 0 <= s < self.parity@[p]@.len() ==> #[trigger] self.parity@[p]@[s]
                < self.k
    }

    /// Whether the table makes up an encoder.
    pub fn is_well_formed(&self) -> (yes: bool)
        ensures
            yes == self.well_formed(),
    {
        self.k <= usize::MAX - self.parity.len() && all_below(&self.parity, self.k)
    }

    /// Codeword length.
    pub open spec fn n(&self) -> nat {
        self.k as nat + self.parity@.len()
    }

    /// Parity bit `p` of an information word.
    pub open spec fn parity_bit(&self, info: Seq<u8>, p: int) -> u8 {
        if LdpcCode::ones_in_row(info, self.parity@[p]@, self.parity@[p]@.len() as int) % 2 == 1 {
            1
        } else {
            0
        }
    }

    /// The codeword of an information word: the word, then its parity bits.
    pub open spec fn codeword(&self, info: Seq<u8>) -> Seq<u8> {
        Seq::new(
            self.n(),
            |i: int|
                if i < self.k {
                    info[i]
                } else {
                    self.parity_bit(info, i - self.k)
                },
        )
    }

    /// Encode an information word.
    pub fn encode(&self, info: &Vec<u8>) -> (word: Vec<u8>)
        requires
            self.well_formed(),
            info@.len() == self.k,
        ensures
            word@ == self.codeword(info@),
    {
        let mut word: Vec<u8> = Vec::with_capacity(self.k + self.parity.len());
        for i in 0..info.len()
            invariant
                info@.len() == self.k,
                word@.len() == i,
                forall|q: int| 0 <= q < i ==> #[trigger] word@[q] == self.codeword(info@)[q],
        {
            word.push(info[i]);
        }
        for p in 0..self.parity.len()
            invariant
                self.well_formed(),
                info@.len() == self.k,
                word@.len() == self.k + p,
                forall|q: int|
                    0 <= q < self.k + p ==> #[trigger] word@[q] == self.codeword(info@)[q],
        {
            let row: &Vec<usize> = &self.parity[p];
            let mut odd: bool = false;
            for s in 0..row.len()
                invariant
                    self.well_formed(),
                    info@.len() == self.k,
                    p < self.parity@.len(),
                    row == &self.parity@[p as int],
                    odd == (LdpcCode::ones_in_row(info@, row@, s as int) % 2 == 1),
            {
                assert(self.parity@[p as int]@[s as int] < self.k);
                if info[row[s]] == 1 {
                    odd = !odd;
                }
            }
            let bit: u8 = if odd {
                1
            } else {
                0
            };
            word.push(bit);
        }
        assert(word@ =~= self.codeword(info@));
        word
    }
}

} // verus!
