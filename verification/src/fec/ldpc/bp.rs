//! Log-domain belief propagation, generic over the scalar, the check-node
//! rule and the integrity check.
//!
//! Positive log-likelihood ratios speak for a one. One iteration adds the
//! incoming messages to each channel value, decides every bit by the sign of
//! its total, and accepts when no check fails and the integrity check agrees.
//! Otherwise every check answers each of its bits with what the other bits of
//! the check say about it. A run that has not reduced the number of failing
//! checks for five iterations in a row gives up early.

use super::code::LdpcCode;
use super::crc;
use crate::scalar::{LlrScalar, Q11i16};
use vstd::prelude::*;

verus! {

/// Iterations without progress after which a run may give up.
pub const STALL_LIMIT: u32 = 5;

/// Iterations that a run is always granted.
pub const STALL_GRACE: u32 = 10;

/// Failing checks below which a run never gives up.
pub const STALL_FLOOR: u32 = 15;

/// Integrity check on the information bits of a candidate codeword.
pub trait InfoCheck {
    /// The check can be asked.
    spec fn ready(&self) -> bool;

    spec fn accepts(&self, info: Seq<u8>) -> bool;

    fn check(&self, info: &[u8]) -> (ok: bool)
        requires
            self.ready(),
        ensures
            ok == self.accepts(info@),
    ;
}

/// Accepts every word: for messages that carry no check of their own.
#[derive(Clone, Copy, Debug)]
pub struct AcceptAll;

/// Accepts the words whose CRC-14 is right.
#[derive(Clone, Copy, Debug)]
pub struct Crc14Check;

impl InfoCheck for AcceptAll {
    open spec fn ready(&self) -> bool {
        true
    }

    open spec fn accepts(&self, info: Seq<u8>) -> bool {
        true
    }

    fn check(&self, info: &[u8]) -> (ok: bool) {
        true
    }
}

impl InfoCheck for Crc14Check {
    open spec fn ready(&self) -> bool {
        true
    }

    open spec fn accepts(&self, info: Seq<u8>) -> bool {
        crc::crc14_passes(info)
    }

    fn check(&self, info: &[u8]) -> (ok: bool) {
        crc::check_crc14(info)
    }
}

/// A check given as a function.
pub struct FnCheck<F> {
    pub f: F,
}

impl<F: Fn(&[u8]) -> bool> FnCheck<F> {
    /// The function may answer `ok`.
    pub open spec fn answers(&self, info: Seq<u8>, ok: bool) -> bool {
        exists|i: &[u8]| i@ == info && #[trigger] call_ensures(self.f, (i,), ok)
    }
}

impl<F: Fn(&[u8]) -> bool> InfoCheck for FnCheck<F> {
    /// The function takes everything and gives one answer.
    open spec fn ready(&self) -> bool {
        &&& forall|i: &[u8]| #[trigger] call_requires(self.f, (i,))
        &&& forall|info: Seq<u8>| #[trigger] self.answers(info, true) ==> !self.answers(info, false)
    }

    open spec fn accepts(&self, info: Seq<u8>) -> bool {
        self.answers(info, true)
    }

    fn check(&self, info: &[u8]) -> (ok: bool) {
        assert(call_requires(self.f, (info,)));
        let ok: bool = (self.f)(info);
        assert(call_ensures(self.f, (info,), ok));
        assert(self.answers(info@, ok));
        ok
    }
}

/// How a check node answers one of its bits.
///
/// A rule first condenses the messages that arrive at the check into a digest
/// and then answers each bit from the digest.
pub trait CheckRule<T: LlrScalar> {
    type Digest;

    /// The rule's parameters are in range.
    spec fn valid(&self) -> bool;

    spec fn digest_of(&self, incoming: Seq<T>) -> Self::Digest;

    spec fn answer_of(
        &self,
        digest: Self::Digest,
        row: Seq<usize>,
        incoming: Seq<T>,
        bit: int,
    ) -> T;

    fn digest(&self, incoming: &Vec<T>) -> (d: Self::Digest)
        ensures
            d == self.digest_of(incoming@),
    ;

    fn answer(
        &self,
        digest: &Self::Digest,
        row: &Vec<usize>,
        incoming: &Vec<T>,
        bit: usize,
    ) -> (reply: T)
        requires
            self.valid(),
            row@.len() == incoming@.len(),
        ensures
            reply == self.answer_of(*digest, row@, incoming@, bit as int),
    ;
}

/// Min-sum check rules: the product of the signs times the smallest magnitude.
pub enum MinSum<T: LlrScalar> {
    /// The magnitude is multiplied by `alpha`.
    Normalized { alpha: T::Alpha },
    /// The magnitude is reduced by `beta`, down to nought.
    Offset { beta: T },
}

/// The two smallest magnitudes at a check, where the first of the smallest
/// ones stands, and whether an odd number of messages is negative.
pub struct RowScan<T> {
    pub smallest: T,
    pub runner_up: T,
    pub at: usize,
    pub odd_negatives: bool,
}

/// The scan of the first `s` messages of a check.
pub open spec fn scan<T: LlrScalar>(incoming: Seq<T>, s: int) -> RowScan<T>
    decreases s,
{
    if s <= 0 {
        RowScan {
            smallest: T::sentinel_value(),
            runner_up: T::sentinel_value(),
            at: 0,
            odd_negatives: false,
        }
    } else {
        let before = scan(incoming, s - 1);
        let v = incoming[s - 1];
        let size = v.magnitude();
        let odd = before.odd_negatives != v.negative();
        if size.below(before.smallest) {
            RowScan {
                smallest: size,
                runner_up: before.smallest,
                at: (s - 1) as usize,
                odd_negatives: odd,
            }
        } else if size.below(before.runner_up) {
            RowScan {
                smallest: before.smallest,
                runner_up: size,
                at: before.at,
                odd_negatives: odd,
            }
        } else {
            RowScan {
                smallest: before.smallest,
                runner_up: before.runner_up,
                at: before.at,
                odd_negatives: odd,
            }
        }
    }
}

/// Where a bit first stands in a check from slot `s` on; the length of the
/// check if it does not.
pub open spec fn slot_of(row: Seq<usize>, bit: int, s: int) -> int
    decreases row.len() - s,
{
    if s >= row.len() {
        row.len() as int
    } else if row[s] == bit {
        s
    } else {
        slot_of(row, bit, s + 1)
    }
}

impl<T: LlrScalar> MinSum<T> {
    /// The magnitude that the rule sends for a minimum.
    pub open spec fn shaped(&self, size: T) -> T {
        match *self {
            MinSum::Normalized { alpha } => size.scaled(alpha),
            MinSum::Offset { beta } => {
                let rest = T::wide_difference(size.wide(), beta.wide());
                if T::wide_positive(rest) {
                    T::narrowed(rest)
                } else {
                    T::zero_value()
                }
            },
        }
    }

    /// Apply the rule's scaling or offset to a minimum.
    pub fn shape(&self, size: T) -> (r: T)
        requires
            self.valid(),
        ensures
            r == self.shaped(size),
    {
        match *self {
            MinSum::Normalized { alpha } => size.mul_alpha(alpha),
            MinSum::Offset { beta } => {
                let rest = T::wide_sub(size.to_wide(), beta.to_wide());
                if T::wide_is_positive(rest) {
                    T::from_wide_sat(rest)
                } else {
                    T::zero()
                }
            },
        }
    }
}

/// A rule given as a function: what a check that covers the bits of `row`
/// answers to one of them, given the messages of all.
pub struct FnRule<F> {
    pub f: F,
}

impl<F> FnRule<F> {
    /// The function may answer `reply`.
    pub open spec fn gives<T: LlrScalar>(
        &self,
        row: Seq<usize>,
        incoming: Seq<T>,
        bit: int,
        reply: T,
    ) -> bool where F: Fn(&Vec<usize>, &Vec<T>, usize) -> T {
        exists|r: &Vec<usize>, m: &Vec<T>|
            r@ == row && m@ == incoming && #[trigger] call_ensures(
                self.f,
                (r, m, bit as usize),
                reply,
            )
    }
}

impl<T: LlrScalar, F: Fn(&Vec<usize>, &Vec<T>, usize) -> T> CheckRule<T> for FnRule<F> {
    type Digest = ();

    /// The function takes everything and gives one answer.
    open spec fn valid(&self) -> bool {
        &&& forall|r: &Vec<usize>, m: &Vec<T>, bit: usize| #[trigger]
            call_requires(self.f, (r, m, bit))
        &&& forall|row: Seq<usize>, incoming: Seq<T>, bit: int, x: T, y: T| #[trigger]
            self.gives(row, incoming, bit, x) && #[trigger] self.gives(row, incoming, bit, y) ==> x
                == y
    }

    open spec fn digest_of(&self, incoming: Seq<T>) -> () {
        ()
    }

    open spec fn answer_of(
        &self,
        digest: (),
        row: Seq<usize>,
        incoming: Seq<T>,
        bit: int,
    ) -> T {
        choose|reply: T| self.gives(row, incoming, bit, reply)
    }

    fn digest(&self, incoming: &Vec<T>) -> (d: ()) {
    }

    fn answer(
        &self,
        digest: &(),
        row: &Vec<usize>,
        incoming: &Vec<T>,
        bit: usize,
    ) -> (reply: T) {
        assert(call_requires(self.f, (row, incoming, bit)));
        let reply: T = (self.f)(row, incoming, bit);
        assert(call_ensures(self.f, (row, incoming, (bit as int) as usize), reply));
        assert(self.gives(row@, incoming@, bit as int, reply));
        reply
    }
}

impl<T: LlrScalar> CheckRule<T> for MinSum<T> {
    type Digest = RowScan<T>;

    open spec fn valid(&self) -> bool {
        match *self {
            MinSum::Normalized { alpha } => T::alpha_fits(alpha),
            MinSum::Offset { .. } => true,
        }
    }

    open spec fn digest_of(&self, incoming: Seq<T>) -> RowScan<T> {
        scan(incoming, incoming.len() as int)
    }

    /// The sign is the product of the other messages' signs, turned once more
    /// at a check of odd size; the magnitude is the smallest of the others.
    open spec fn answer_of(
        &self,
        digest: RowScan<T>,
        row: Seq<usize>,
        incoming: Seq<T>,
        bit: int,
    ) -> T {
        let slot = slot_of(row, bit, 0);
        let found = slot < row.len();
        let own_negative = found && incoming[slot].negative();
        let negative = (digest.odd_negatives != own_negative) != (row.len() % 2 == 1);
        let size = if found && slot == digest.at {
            digest.runner_up
        } else {
            digest.smallest
        };
        let sized = self.shaped(size);
        if negative {
            sized.negated()
        } else {
            sized
        }
    }

    fn digest(&self, incoming: &Vec<T>) -> (d: RowScan<T>) {
        let mut d: RowScan<T> = RowScan {
            smallest: T::pos_inf_like(),
            runner_up: T::pos_inf_like(),
            at: 0,
            odd_negatives: false,
        };
        for s in 0..incoming.len()
            invariant
                d == scan(incoming@, s as int),
        {
            let v: T = incoming[s];
            if v.is_negative() {
                d.odd_negatives = !d.odd_negatives;
            }
            let size: T = v.abs_sat();
            if size.lt_total(d.smallest) {
                d.runner_up = d.smallest;
                d.smallest = size;
                d.at = s;
            } else if size.lt_total(d.runner_up) {
                d.runner_up = size;
            }
        }
        d
    }

    fn answer(
        &self,
        digest: &RowScan<T>,
        row: &Vec<usize>,
        incoming: &Vec<T>,
        bit: usize,
    ) -> (reply: T) {
        let mut slot: usize = 0;
        while slot < row.len() && row[slot] != bit
            invariant
                slot <= row@.len(),
                slot_of(row@, bit as int, 0) == slot_of(row@, bit as int, slot as int),
            decreases row@.len() - slot,
        {
            slot = slot + 1;
        }
        let found: bool = slot < row.len();
        let own_negative: bool = found && incoming[slot].is_negative();
        let negative: bool = (digest.odd_negatives != own_negative) != (row.len() % 2 == 1);
        let size: T = if found && slot == digest.at {
            digest.runner_up
        } else {
            digest.smallest
        };
        let sized: T = self.shape(size);
        if negative {
            sized.neg_sat()
        } else {
            sized
        }
    }
}

/// A bit whose value is known beforehand and is not updated.
pub open spec fn locked(ap_mask: Option<&[bool]>, i: int) -> bool {
    match ap_mask {
        Some(mask) => mask@[i],
        None => false,
    }
}

/// The total of a bit: its channel value and the messages of its three checks.
pub open spec fn total<T: LlrScalar>(
    llr: Seq<T>,
    ap_mask: Option<&[bool]>,
    tov: Seq<T>,
    i: int,
) -> T::Wide {
    if locked(ap_mask, i) {
        llr[i].wide()
    } else {
        T::wide_sum(
            llr[i].wide(),
            T::wide_sum(
                T::wide_sum(
                    T::wide_sum(T::wide_zero_value(), tov[3 * i].wide()),
                    tov[3 * i + 1].wide(),
                ),
                tov[3 * i + 2].wide(),
            ),
        )
    }
}

/// The hard decisions: a bit is one when its total is positive.
pub open spec fn decisions<T: LlrScalar>(
    llr: Seq<T>,
    ap_mask: Option<&[bool]>,
    tov: Seq<T>,
) -> Seq<u8> {
    Seq::new(
        llr.len(),
        |i: int|
            if T::wide_positive(total(llr, ap_mask, tov, i)) {
                1u8
            } else {
                0u8
            },
    )
}

/// A total without the messages that came from check `j`, for the first `c`
/// of the bit's three checks.
pub open spec fn without_check<T: LlrScalar>(
    sum: T::Wide,
    column: [usize; 3],
    tov: Seq<T>,
    i: int,
    j: int,
    c: int,
) -> T::Wide
    decreases c,
{
    if c <= 0 {
        sum
    } else {
        let before = without_check::<T>(sum, column, tov, i, j, c - 1);
        if column@[c - 1] == j {
            T::wide_difference(before, tov[3 * i + c - 1].wide())
        } else {
            before
        }
    }
}

/// The messages that arrive at check `j`.
pub open spec fn arriving<T: LlrScalar>(
    code: &LdpcCode,
    llr: Seq<T>,
    ap_mask: Option<&[bool]>,
    tov: Seq<T>,
    j: int,
) -> Seq<T> {
    Seq::new(
        code.rows@[j]@.len(),
        |s: int|
            {
                let i = code.rows@[j]@[s] as int;
                T::narrowed(
                    without_check::<T>(total(llr, ap_mask, tov, i), code.columns@[i], tov, i, j, 3),
                )
            },
    )
}

/// The messages to the bits after one more exchange, three for each bit.
pub open spec fn next_messages<T: LlrScalar, R: CheckRule<T>>(
    code: &LdpcCode,
    rule: &R,
    llr: Seq<T>,
    ap_mask: Option<&[bool]>,
    tov: Seq<T>,
) -> Seq<T> {
    Seq::new(
        3 * code.n as nat,
        |x: int|
            {
                let j = code.columns@[x / 3]@[x % 3] as int;
                let incoming = arriving(code, llr, ap_mask, tov, j);
                rule.answer_of(rule.digest_of(incoming), code.rows@[j]@, incoming, x / 3)
            },
    )
}

/// The course of a run from iteration `iter` on: the codeword and the
/// iteration in which it was accepted, or nothing.
pub open spec fn course<T: LlrScalar, R: CheckRule<T>, V: InfoCheck>(
    code: &LdpcCode,
    rule: &R,
    verify: &V,
    llr: Seq<T>,
    ap_mask: Option<&[bool]>,
    max_iter: nat,
    iter: nat,
    tov: Seq<T>,
    stalled: nat,
    last: nat,
) -> Option<(Seq<u8>, nat)>
    decreases max_iter + 1 - iter,
{
    if iter > max_iter {
        None
    } else {
        let word = decisions(llr, ap_mask, tov);
        let failing = code.failing(word, code.rows@.len() as int);
        if failing == 0 && verify.accepts(word.take(code.k as int)) {
            Some((word, iter))
        } else {
            let now_stalled = if iter == 0 {
                stalled
            } else if failing < last {
                0
            } else {
                stalled + 1
            };
            if iter > 0 && now_stalled >= STALL_LIMIT && iter >= STALL_GRACE && failing
                > STALL_FLOOR {
                None
            } else {
                course(
                    code,
                    rule,
                    verify,
                    llr,
                    ap_mask,
                    max_iter,
                    iter + 1,
                    next_messages(code, rule, llr, ap_mask, tov),
                    now_stalled,
                    failing,
                )
            }
        }
    }
}

/// The messages before the first iteration.
pub open spec fn silence<T: LlrScalar>(code: &LdpcCode) -> Seq<T> {
    Seq::new(3 * code.n as nat, |x: int| T::zero_value())
}

/// A whole run.
pub open spec fn bp_outcome<T: LlrScalar, R: CheckRule<T>, V: InfoCheck>(
    code: &LdpcCode,
    rule: &R,
    verify: &V,
    llr: Seq<T>,
    ap_mask: Option<&[bool]>,
    max_iter: nat,
) -> Option<(Seq<u8>, nat)> {
    course(code, rule, verify, llr, ap_mask, max_iter, 0, silence(code), 0, 0)
}

/// Number of bits among the first `i` whose value contradicts the sign of
/// their channel value.
pub open spec fn disagreements<T: LlrScalar>(word: Seq<u8>, llr: Seq<T>, i: int) -> nat
    decreases i,
{
    if i <= 0 {
        0
    } else {
        disagreements(word, llr, i - 1) + (if (word[i - 1] == 1) != T::wide_positive(
            llr[i - 1].wide(),
        ) {
            1nat
        } else {
            0nat
        })
    }
}

/// Output of a successful decode.
pub struct BpResult {
    /// The first 77 information bits.
    pub message77: [u8; 77],
    /// All information bits.
    pub info: Vec<u8>,
    /// The whole codeword.
    pub codeword: Vec<u8>,
    /// Bits of the codeword that contradict the sign of their channel value.
    pub hard_errors: u32,
    /// Exchanges of messages before the codeword was accepted.
    pub iterations: u32,
}

impl BpResult {
    /// The result that reports codeword `word`, found in iteration `iter`.
    pub open spec fn reports<T: LlrScalar>(
        &self,
        code: &LdpcCode,
        llr: Seq<T>,
        word: Seq<u8>,
        iter: nat,
    ) -> bool {
        &&& self.codeword@ == word
        &&& self.info@ == word.take(code.k as int)
        &&& self.message77@ == word.take(77)
        &&& self.hard_errors == disagreements(word, llr, word.len() as int)
        &&& self.iterations == iter
    }
}

/// The totals of all bits.
fn totals<T: LlrScalar>(llr: &[T], ap_mask: Option<&[bool]>, tov: &Vec<T>) -> (sums: Vec<T::Wide>)
    requires
        tov@.len() == 3 * llr@.len(),
        3 * llr@.len() <= usize::MAX,
        ap_mask is Some ==> ap_mask->0@.len() == llr@.len(),
    ensures
        sums@.len() == llr@.len(),
        forall|i: int|
            0 <= i < llr@.len() ==> #[trigger] sums@[i] == total(llr@, ap_mask, tov@, i),
{
    let mut sums: Vec<T::Wide> = Vec::with_capacity(llr.len());
    for i in 0..llr.len()
        invariant
            tov@.len() == 3 * llr@.len(),
            3 * llr@.len() <= usize::MAX,
            ap_mask is Some ==> ap_mask->0@.len() == llr@.len(),
            sums@.len() == i,
            forall|q: int| 0 <= q < i ==> #[trigger] sums@[q] == total(llr@, ap_mask, tov@, q),
    {
        let fixed: bool = match ap_mask {
            Some(mask) => mask[i],
            None => false,
        };
        if fixed {
            sums.push(llr[i].to_wide());
        } else {
            let mut sum = T::wide_zero();
            sum = T::wide_add(sum, tov[3 * i].to_wide());
            sum = T::wide_add(sum, tov[3 * i + 1].to_wide());
            sum = T::wide_add(sum, tov[3 * i + 2].to_wide());
            sums.push(T::wide_add(llr[i].to_wide(), sum));
        }
    }
    sums
}

/// One exchange of messages.
fn exchange<T: LlrScalar, R: CheckRule<T>>(
    code: &LdpcCode,
    rule: &R,
    llr: &[T],
    ap_mask: Option<&[bool]>,
    tov: &Vec<T>,
    sums: &Vec<T::Wide>,
) -> (next: Vec<T>)
    requires
        code.well_formed(),
        rule.valid(),
        llr@.len() == code.n,
        tov@.len() == 3 * code.n,
        sums@.len() == code.n,
        forall|i: int|
            0 <= i < code.n ==> #[trigger] sums@[i] == total(llr@, ap_mask, tov@, i),
    ensures
        next@ == next_messages(code, rule, llr@, ap_mask, tov@),
{
    let mut incoming: Vec<Vec<T>> = Vec::with_capacity(code.rows.len());
    let mut digests: Vec<R::Digest> = Vec::with_capacity(code.rows.len());
    for j in 0..code.rows.len()
        invariant
            code.well_formed(),
            llr@.len() == code.n,
            tov@.len() == 3 * code.n,
            sums@.len() == code.n,
            forall|i: int|
                0 <= i < code.n ==> #[trigger] sums@[i] == total(llr@, ap_mask, tov@, i),
            incoming@.len() == j,
            digests@.len() == j,
            forall|q: int|
                0 <= q < j ==> (#[trigger] incoming@[q])@ == arriving(code, llr@, ap_mask, tov@, q),
            forall|q: int|
                0 <= q < j ==> #[trigger] digests@[q] == rule.digest_of(
                    arriving(code, llr@, ap_mask, tov@, q),
                ),
    {
        let row: &Vec<usize> = &code.rows[j];
        let mut messages: Vec<T> = Vec::with_capacity(row.len());
        for s in 0..row.len()
            invariant
                code.well_formed(),
                j < code.rows@.len(),
                row == &code.rows@[j as int],
                llr@.len() == code.n,
                tov@.len() == 3 * code.n,
                sums@.len() == code.n,
                forall|i: int|
                    0 <= i < code.n ==> #[trigger] sums@[i] == total(llr@, ap_mask, tov@, i),
                messages@.len() == s,
                forall|q: int|
                    0 <= q < s ==> #[trigger] messages@[q] == arriving(
                        code,
                        llr@,
                        ap_mask,
                        tov@,
                        j as int,
                    )[q],
        {
            assert(code.rows@[j as int]@[s as int] < code.n);
            let i: usize = row[s];
            let column: [usize; 3] = code.columns[i];
            let mut rest = sums[i];
            let ghost sum = sums@[i as int];
            for c in 0..3usize
                invariant
                    i < code.n,
                    3 * code.n <= usize::MAX,
                    tov@.len() == 3 * code.n,
                    rest == without_check::<T>(sum, column, tov@, i as int, j as int, c as int),
            {
                if column[c] == j {
                    rest = T::wide_sub(rest, tov[3 * i + c].to_wide());
                }
            }
            messages.push(T::from_wide_sat(rest));
        }
        assert(messages@ =~= arriving(code, llr@, ap_mask, tov@, j as int));
        digests.push(rule.digest(&messages));
        incoming.push(messages);
    }
    let mut next: Vec<T> = Vec::with_capacity(tov.len());
    for i in 0..code.n
        invariant
            code.well_formed(),
            rule.valid(),
            incoming@.len() == code.rows@.len(),
            digests@.len() == code.rows@.len(),
            forall|q: int|
                0 <= q < code.rows@.len() ==> (#[trigger] incoming@[q])@ == arriving(
                    code,
                    llr@,
                    ap_mask,
                    tov@,
                    q,
                ),
            forall|q: int|
                0 <= q < code.rows@.len() ==> #[trigger] digests@[q] == rule.digest_of(
                    arriving(code, llr@, ap_mask, tov@, q),
                ),
            next@.len() == 3 * i,
            forall|x: int|
                0 <= x < 3 * i ==> #[trigger] next@[x] == next_messages(
                    code,
                    rule,
                    llr@,
                    ap_mask,
                    tov@,
                )[x],
    {
        for c in 0..3usize
            invariant
                i < code.n,
                code.well_formed(),
                rule.valid(),
                incoming@.len() == code.rows@.len(),
                digests@.len() == code.rows@.len(),
                forall|q: int|
                    0 <= q < code.rows@.len() ==> (#[trigger] incoming@[q])@ == arriving(
                        code,
                        llr@,
                        ap_mask,
                        tov@,
                        q,
                    ),
                forall|q: int|
                    0 <= q < code.rows@.len() ==> #[trigger] digests@[q] == rule.digest_of(
                        arriving(code, llr@, ap_mask, tov@, q),
                    ),
                next@.len() == 3 * i + c,
                forall|x: int|
                    0 <= x < 3 * i + c ==> #[trigger] next@[x] == next_messages(
                        code,
                        rule,
                        llr@,
                        ap_mask,
                        tov@,
                    )[x],
        {
            assert(code.columns@[i as int]@[c as int] < code.rows@.len());
            let j: usize = code.columns[i][c];
            assert(incoming@[j as int]@ == arriving(code, llr@, ap_mask, tov@, j as int));
            let reply: T = rule.answer(&digests[j], &code.rows[j], &incoming[j], i);
            assert((3 * i + c) / 3 == i && (3 * i + c) % 3 == c);
            next.push(reply);
        }
    }
    assert(next@ =~= next_messages(code, rule, llr@, ap_mask, tov@));
    next
}

/// The report on an accepted codeword.
fn report<T: LlrScalar>(code: &LdpcCode, llr: &[T], word: Vec<u8>, info: Vec<u8>, iter: u32) -> (r:
    BpResult)
    requires
        code.well_formed(),
        llr@.len() == code.n,
        word@.len() == code.n,
        info@ == word@.take(code.k as int),
    ensures
        r.reports(code, llr@, word@, iter as nat),
{
    let mut hard_errors: u32 = 0;
    for i in 0..word.len()
        invariant
            word@.len() == llr@.len(),
            word@.len() <= u32::MAX,
            hard_errors == disagreements(word@, llr@, i as int),
            hard_errors <= i,
    {
        if (word[i] == 1) != T::wide_is_positive(llr[i].to_wide()) {
            hard_errors = hard_errors + 1;
        }
    }
    let mut message77: [u8; 77] = [0u8; 77];
    for i in 0..77usize
        invariant
            word@.len() >= 77,
            forall|q: int| 0 <= q < i ==> #[trigger] message77@[q] == word@[q],
    {
        message77[i] = word[i];
    }
    assert(message77@ =~= word@.take(77));
    BpResult { message77, info, codeword: word, hard_errors, iterations: iter }
}

/// Belief propagation with the given check rule.
///
/// Accepts the first word of hard decisions that satisfies every check and
/// the integrity check; a word that satisfies the checks alone does not end
/// the run. The contract follows the run exchange by exchange.
pub fn bp_decode_generic_kind<T: LlrScalar, R: CheckRule<T>, V: InfoCheck>(
    code: &LdpcCode,
    llr: &[T],
    ap_mask: Option<&[bool]>,
    max_iter: u32,
    verify: &V,
    rule: &R,
) -> (result: Option<BpResult>)
    requires
        code.well_formed(),
        verify.ready(),
        rule.valid(),
        llr@.len() == code.n,
        ap_mask is Some ==> ap_mask->0@.len() == code.n,
    ensures
        match bp_outcome(code, rule, verify, llr@, ap_mask, max_iter as nat) {
            Some((word, iter)) => result is Some && result->0.reports(code, llr@, word, iter),
            None => result is None,
        },
{
    let mut tov: Vec<T> = Vec::with_capacity(3 * code.n);
    for x in 0..3 * code.n
        invariant
            tov@.len() == x,
            forall|q: int| 0 <= q < x ==> #[trigger] tov@[q] == T::zero_value(),
    {
        tov.push(T::zero());
    }
    assert(tov@ =~= silence(code));
    let mut stalled: u32 = 0;
    let mut last: u32 = 0;
    let mut iter: u32 = 0;
    loop
        invariant
            code.well_formed(),
            rule.valid(),
            llr@.len() == code.n,
            ap_mask is Some ==> ap_mask->0@.len() == code.n,
            tov@.len() == 3 * code.n,
            iter <= max_iter,
            stalled == 0 || stalled < iter,
            verify.ready(),
            bp_outcome(code, rule, verify, llr@, ap_mask, max_iter as nat) == course(
                code,
                rule,
                verify,
                llr@,
                ap_mask,
                max_iter as nat,
                iter as nat,
                tov@,
                stalled as nat,
                last as nat,
            ),
        decreases max_iter - iter,
    {
        let sums: Vec<T::Wide> = totals(llr, ap_mask, &tov);
        let mut word: Vec<u8> = Vec::with_capacity(code.n);
        for i in 0..code.n
            invariant
                llr@.len() == code.n,
                sums@.len() == code.n,
                forall|q: int|
                    0 <= q < code.n ==> #[trigger] sums@[q] == total(llr@, ap_mask, tov@, q),
                word@.len() == i,
                forall|q: int|
                    0 <= q < i ==> #[trigger] word@[q] == decisions(llr@, ap_mask, tov@)[q],
        {
            let bit: u8 = if T::wide_is_positive(sums[i]) {
                1
            } else {
                0
            };
            word.push(bit);
        }
        assert(word@ =~= decisions(llr@, ap_mask, tov@));
        let failing: u32 = code.count_failing(&word);
        if failing == 0 {
            let mut info: Vec<u8> = Vec::with_capacity(code.k);
            for i in 0..code.k
                invariant
                    code.k <= word@.len(),
                    info@ == word@.take(i as int),
            {
                info.push(word[i]);
                assert(info@ =~= word@.take(i + 1));
            }
            if verify.check(&info) {
                return Some(report(code, llr, word, info, iter));
            }
        }
        if iter > 0 {
            if failing < last {
                stalled = 0;
            } else {
                stalled = stalled + 1;
            }
            if stalled >= STALL_LIMIT && iter >= STALL_GRACE && failing > STALL_FLOOR {
                return None;
            }
        }
        last = failing;
        if iter == max_iter {
            proof {
                reveal_with_fuel(course, 2);
            }
            return None;
        }
        tov = exchange(code, rule, llr, ap_mask, &tov, &sums);
        iter = iter + 1;
    }
}

/// Belief propagation by normalised min-sum.
pub fn bp_decode_nms<T: LlrScalar, V: InfoCheck>(
    code: &LdpcCode,
    llr: &[T],
    ap_mask: Option<&[bool]>,
    max_iter: u32,
    verify: &V,
    alpha: T::Alpha,
) -> (result: Option<BpResult>)
    requires
        code.well_formed(),
        verify.ready(),
        T::alpha_fits(alpha),
        llr@.len() == code.n,
        ap_mask is Some ==> ap_mask->0@.len() == code.n,
    ensures
        match bp_outcome(
            code,
            &MinSum::<T>::Normalized { alpha },
            verify,
            llr@,
            ap_mask,
            max_iter as nat,
        ) {
            Some((word, iter)) => result is Some && result->0.reports(code, llr@, word, iter),
            None => result is None,
        },
{
    let rule: MinSum<T> = MinSum::Normalized { alpha };
    bp_decode_generic_kind(code, llr, ap_mask, max_iter, verify, &rule)
}

/// Belief propagation on a (174, 91) code with the given check rule.
pub fn bp_decode_kind<T: LlrScalar, R: CheckRule<T>, V: InfoCheck>(
    code: &LdpcCode,
    llr: &[T; 174],
    ap_mask: Option<&[bool]>,
    max_iter: u32,
    verify: &V,
    rule: &R,
) -> (result: Option<BpResult>)
    requires
        code.well_formed(),
        verify.ready(),
        code.n == 174,
        code.k == 91,
        rule.valid(),
        ap_mask is Some ==> ap_mask->0@.len() == 174,
    ensures
        match bp_outcome(code, rule, verify, llr@, ap_mask, max_iter as nat) {
            Some((word, iter)) => result is Some && result->0.reports(code, llr@, word, iter),
            None => result is None,
        },
{
    bp_decode_generic_kind(code, llr.as_slice(), ap_mask, max_iter, verify, rule)
}

/// Whatever a run accepts satisfies every check and the integrity check, and
/// was found within the iterations that were granted.
pub proof fn law_accepted_words_are_codewords<T: LlrScalar, R: CheckRule<T>, V: InfoCheck>(
    code: &LdpcCode,
    rule: &R,
    verify: &V,
    llr: Seq<T>,
    ap_mask: Option<&[bool]>,
    max_iter: nat,
)
    requires
        llr.len() == code.n,
    ensures
        match bp_outcome(code, rule, verify, llr, ap_mask, max_iter) {
            Some((word, iter)) => code.is_codeword(word) && verify.accepts(
                word.take(code.k as int),
            ) && iter <= max_iter,
            None => true,
        },
{
    lemma_course_is_sound(code, rule, verify, llr, ap_mask, max_iter, 0, silence(code), 0, 0);
}

proof fn lemma_course_is_sound<T: LlrScalar, R: CheckRule<T>, V: InfoCheck>(
    code: &LdpcCode,
    rule: &R,
    verify: &V,
    llr: Seq<T>,
    ap_mask: Option<&[bool]>,
    max_iter: nat,
    iter: nat,
    tov: Seq<T>,
    stalled: nat,
    last: nat,
)
    requires
        llr.len() == code.n,
    ensures
        match course(code, rule, verify, llr, ap_mask, max_iter, iter, tov, stalled, last) {
            Some((word, found)) => {
                &&& code.is_codeword(word)
                &&& verify.accepts(word.take(code.k as int))
                &&& iter <= found <= max_iter
                &&& forall|i: int|
                    0 <= i < code.n && locked(ap_mask, i) ==> #[trigger] word[i] == (
                    if T::wide_positive(llr[i].wide()) {
                        1u8
                    } else {
                        0u8
                    })
            },
            None => true,
        },
    decreases max_iter + 1 - iter,
{
    if iter <= max_iter {
        let word = decisions(llr, ap_mask, tov);
        let failing = code.failing(word, code.rows@.len() as int);
        code.lemma_failing_zero(word, code.rows@.len() as int);
        let now_stalled = if iter == 0 {
            stalled
        } else if failing < last {
            0
        } else {
            stalled + 1
        };
        lemma_course_is_sound(
            code,
            rule,
            verify,
            llr,
            ap_mask,
            max_iter,
            iter + 1,
            next_messages(code, rule, llr, ap_mask, tov),
            now_stalled,
            failing,
        );
    }
}

/// A bit that is known beforehand comes out as the sign of its channel value.
pub proof fn law_locked_bits_are_kept<T: LlrScalar, R: CheckRule<T>, V: InfoCheck>(
    code: &LdpcCode,
    rule: &R,
    verify: &V,
    llr: Seq<T>,
    ap_mask: Option<&[bool]>,
    max_iter: nat,
    i: int,
)
    requires
        llr.len() == code.n,
        0 <= i < code.n,
        locked(ap_mask, i),
    ensures
        match bp_outcome(code, rule, verify, llr, ap_mask, max_iter) {
            Some((word, _)) => (word[i] == 1) == T::wide_positive(llr[i].wide()),
            None => true,
        },
{
    lemma_course_is_sound(code, rule, verify, llr, ap_mask, max_iter, 0, silence(code), 0, 0);
}

/// Messages of nought change no decision: they sum up to nought, and a value is
/// as positive with them as without.
pub open spec fn zero_is_neutral<T: LlrScalar>() -> bool {
    &&& T::wide_sum(T::wide_zero_value(), T::zero_value().wide()) == T::wide_zero_value()
    &&& forall|x: T| #[trigger]
        T::wide_positive(T::wide_sum(x.wide(), T::wide_zero_value())) == T::wide_positive(x.wide())
}

/// Nought is neutral among the fixed-point values.
pub proof fn law_fixed_point_zero_is_neutral()
    ensures
        zero_is_neutral::<Q11i16>(),
{
}

/// Channel values whose signs already spell an acceptable codeword are
/// decoded to it at once, with no message exchanged and no bit changed.
pub proof fn law_clean_words_decode_at_once<T: LlrScalar, R: CheckRule<T>, V: InfoCheck>(
    code: &LdpcCode,
    rule: &R,
    verify: &V,
    llr: Seq<T>,
    ap_mask: Option<&[bool]>,
    max_iter: nat,
    word: Seq<u8>,
)
    requires
        zero_is_neutral::<T>(),
        llr.len() == code.n,
        code.is_codeword(word),
        verify.accepts(word.take(code.k as int)),
        forall|i: int|
            0 <= i < code.n ==> (#[trigger] word[i] == 1 <==> T::wide_positive(llr[i].wide())),
    ensures
        bp_outcome(code, rule, verify, llr, ap_mask, max_iter) == Some((word, 0nat)),
        disagreements(word, llr, word.len() as int) == 0,
{
    let tov = silence::<T>(code);
    let decided = decisions(llr, ap_mask, tov);
    assert forall|i: int| 0 <= i < code.n implies #[trigger] decided[i] == word[i] by {
        assert(word[i] <= 1);
        assert(word[i] == 1 <==> T::wide_positive(llr[i].wide()));
        assert(tov[3 * i] == T::zero_value());
        assert(tov[3 * i + 1] == T::zero_value());
        assert(tov[3 * i + 2] == T::zero_value());
        assert(T::wide_positive(T::wide_sum(llr[i].wide(), T::wide_zero_value()))
            == T::wide_positive(llr[i].wide()));
    }
    assert(decided =~= word);
    code.lemma_failing_zero(word, code.rows@.len() as int);
    lemma_no_disagreement(word, llr, word.len() as int);
}

proof fn lemma_no_disagreement<T: LlrScalar>(word: Seq<u8>, llr: Seq<T>, n: int)
    requires
        0 <= n <= word.len(),
        word.len() == llr.len(),
        forall|i: int|
            0 <= i < word.len() ==> (#[trigger] word[i] == 1 <==> T::wide_positive(llr[i].wide())),
    ensures
        disagreements(word, llr, n) == 0,
    decreases n,
{
    if n > 0 {
        lemma_no_disagreement(word, llr, n - 1);
        assert(word[n - 1] == 1 <==> T::wide_positive(llr[n - 1].wide()));
    }
}

/// Number of negative messages among the first `s`.
pub open spec fn negatives(incoming: Seq<Q11i16>, s: int) -> nat
    decreases s,
{
    if s <= 0 {
        0
    } else {
        negatives(incoming, s - 1) + (if incoming[s - 1].0 < 0 {
            1nat
        } else {
            0nat
        })
    }
}

proof fn lemma_scan(incoming: Seq<Q11i16>, s: int)
    requires
        0 <= s <= incoming.len(),
        incoming.len() <= usize::MAX,
    ensures
        ({
            let d = scan(incoming, s);
            &&& forall|q: int| 0 <= q < s ==> d.smallest.0 <= (#[trigger] incoming[q]).magnitude().0
            &&& d.smallest.0 <= d.runner_up.0
            &&& d.smallest.0 < i16::MAX ==> 0 <= d.at < s && incoming[d.at as int].magnitude()
                == d.smallest
            &&& d.smallest.0 == i16::MAX ==> d.at == 0
            &&& forall|q: int|
                0 <= q < s && q != d.at ==> d.runner_up.0 <= (#[trigger] incoming[q]).magnitude().0
            &&& d.runner_up.0 < i16::MAX ==> exists|q: int|
                0 <= q < s && q != d.at && (#[trigger] incoming[q]).magnitude() == d.runner_up
            &&& d.odd_negatives == (negatives(incoming, s) % 2 == 1)
        }),
    decreases s,
{
    if s > 0 {
        lemma_scan(incoming, s - 1);
        let b = scan(incoming, s - 1);
        let d = scan(incoming, s);
        let size = incoming[s - 1].magnitude();
        if size.0 < b.smallest.0 {
            if d.runner_up.0 < i16::MAX {
                assert(incoming[b.at as int].magnitude() == d.runner_up);
            }
        } else if size.0 < b.runner_up.0 {
            assert(incoming[s - 1].magnitude() == d.runner_up);
        } else if d.runner_up.0 < i16::MAX {
            let q = choose|q: int|
                0 <= q < s - 1 && q != b.at && (#[trigger] incoming[q]).magnitude() == b.runner_up;
            assert(incoming[q].magnitude() == d.runner_up);
        }
    }
}

/// The two minima kept per check suffice: the magnitude that a check chooses
/// for one of its bits is the smallest magnitude of the other bits, and the
/// sign that it keeps is that of the product of all messages.
pub proof fn law_min_sum_is_extrinsic(incoming: Seq<Q11i16>, slot: int)
    requires
        0 <= slot < incoming.len(),
        incoming.len() <= usize::MAX,
    ensures
        ({
            let d = scan(incoming, incoming.len() as int);
            let size = if slot == d.at {
                d.runner_up
            } else {
                d.smallest
            };
            &&& forall|q: int|
                0 <= q < incoming.len() && q != slot ==> size.0 <= (
                #[trigger] incoming[q]).magnitude().0
            &&& size.0 == i16::MAX || exists|q: int|
                0 <= q < incoming.len() && q != slot && (#[trigger] incoming[q]).magnitude() == size
            &&& d.odd_negatives == (negatives(incoming, incoming.len() as int) % 2 == 1)
        }),
{
    lemma_scan(incoming, incoming.len() as int);
    let d = scan(incoming, incoming.len() as int);
    if slot != d.at && d.smallest.0 != i16::MAX {
        assert(incoming[d.at as int].magnitude() == d.smallest);
    }
}

} // verus!
