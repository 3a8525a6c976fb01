//! What belief propagation promises of a noisy codeword.

use super::bp;
use super::bp::{BpResult, CheckRule, InfoCheck, MinSum};
use super::code::LdpcCode;
use crate::scalar::{LlrScalar, Q11i16};
use vstd::prelude::*;

verus! {

/// The two tables of a code agree: every check of a bit lists that bit, and no
/// check lists a bit twice.
pub open spec fn tables_agree(code: &LdpcCode) -> bool {
    &&& forall|i: int, c: int|
        0 <= i < code.n && 0 <= c < 3 ==> #[trigger] lists(code, code.columns@[i]@[c] as int, i)
    &&& forall|j: int, s: int, t: int|
        0 <= j < code.rows@.len() && 0 <= s < t < code.rows@[j]@.len()
            ==> #[trigger] code.rows@[j]@[s] != #[trigger] code.rows@[j]@[t]
}

/// Check `j` covers bit `i`.
pub open spec fn lists(code: &LdpcCode, j: int, i: int) -> bool {
    exists|s: int| 0 <= s < code.rows@[j]@.len() && #[trigger] code.rows@[j]@[s] == i
}

/// A rule that never answers more than it heard: a factor between nought and
/// one, or an offset that is not negative.
pub open spec fn is_moderate(rule: &MinSum<Q11i16>) -> bool {
    match *rule {
        MinSum::Normalized { alpha } => 0 <= alpha <= 32768,
        MinSum::Offset { beta } => 0 <= beta.0,
    }
}

/// The sign of a value speaks for the bit.
pub open spec fn speaks_for(v: Q11i16, bit: u8) -> bool {
    if bit == 1 {
        v.0 > 0
    } else {
        v.0 < 0
    }
}

/// A bit whose value is no larger than `weak`.
pub open spec fn is_weak(llr: Seq<Q11i16>, weak: int, i: int) -> bool {
    llr[i].magnitude().0 <= weak
}

/// Check number `c` of bit `i` covers a weak bit.
pub open spec fn hears_weak(
    code: &LdpcCode,
    llr: Seq<Q11i16>,
    weak: int,
    i: int,
    c: int,
) -> bool {
    let j = code.columns@[i]@[c] as int;
    exists|s: int|
        0 <= s < code.rows@[j]@.len() && is_weak(llr, weak, #[trigger] code.rows@[j]@[s] as int)
}

/// How many of a bit's three checks cover a weak bit.
pub open spec fn weak_checks(code: &LdpcCode, llr: Seq<Q11i16>, weak: int, i: int) -> int {
    (if hears_weak(code, llr, weak, i, 0) {
        1int
    } else {
        0
    }) + (if hears_weak(code, llr, weak, i, 1) {
        1int
    } else {
        0
    }) + (if hears_weak(code, llr, weak, i, 2) {
        1int
    } else {
        0
    })
}

/// Soft values of a codeword of which some are weak. The others are at least
/// `strong` and speak for their bits. No check covers two weak bits, and the
/// strong bits outweigh what weak ones make their checks say.
pub open spec fn scattered(
    code: &LdpcCode,
    rule: &MinSum<Q11i16>,
    llr: Seq<Q11i16>,
    word: Seq<u8>,
    weak: int,
    strong: int,
) -> bool {
    &&& 0 <= weak < strong <= 32767
    &&& forall|i: int|
        0 <= i < code.n && !(#[trigger] is_weak(llr, weak, i)) ==> llr[i].magnitude().0 >= strong
            && speaks_for(llr[i], word[i])
    &&& forall|i: int|
        0 <= i < code.n && !is_weak(llr, weak, i) ==> #[trigger] weak_checks(code, llr, weak, i)
            * weak < llr[i].magnitude().0
    &&& forall|j: int, s: int, t: int|
        0 <= j < code.rows@.len() && 0 <= s < t < code.rows@[j]@.len() ==> !(is_weak(
            llr,
            weak,
            #[trigger] code.rows@[j]@[s] as int,
        ) && is_weak(llr, weak, #[trigger] code.rows@[j]@[t] as int))
    &&& weak < 3 * rule.shaped(Q11i16(strong as i16)).0
}

/// A larger size makes a moderate rule answer no less, and never more than the
/// size.
proof fn lemma_shaped(rule: &MinSum<Q11i16>, a: Q11i16, b: Q11i16)
    requires
        is_moderate(rule),
        0 <= a.0 <= b.0,
    ensures
        0 <= rule.shaped(a).0 <= rule.shaped(b).0 <= b.0,
{
    match *rule {
        MinSum::Normalized { alpha } => {
            let x = a.0 as int;
            let y = b.0 as int;
            let f = alpha as int;
            assert(0 <= x * f <= y * f && y * f <= y * 32768) by (nonlinear_arith)
                requires
                    0 <= x <= y,
                    0 <= f <= 32768,
            ;
            assert(0 <= (x * f) / 32768 <= (y * f) / 32768 <= y);
        },
        MinSum::Offset { beta } => {},
    }
}

/// Where a bit stands in a check that lists it once.
proof fn lemma_slot(row: Seq<usize>, bit: int, s: int, from: int)
    requires
        0 <= from <= s < row.len(),
        row[s] == bit,
        forall|a: int, b: int| 0 <= a < b < row.len() ==> #[trigger] row[a] != #[trigger] row[b],
    ensures
        bp::slot_of(row, bit, from) == s,
    decreases s - from,
{
    if from < s {
        assert(row[from] != row[s]);
        lemma_slot(row, bit, s, from + 1);
    }
}

/// Negative messages and ones of the word complete each other, but for the one
/// slot that is not sure.
proof fn lemma_signs(
    incoming: Seq<Q11i16>,
    word: Seq<u8>,
    row: Seq<usize>,
    slot: int,
    s: int,
)
    requires
        0 <= s <= row.len(),
        incoming.len() == row.len(),
        0 <= slot < row.len(),
        forall|q: int|
            0 <= q < row.len() && q != slot ==> speaks_for(
                #[trigger] incoming[q],
                word[row[q] as int],
            ),
    ensures
        bp::negatives(incoming, s) + LdpcCode::ones_in_row(word, row, s) == s + (if slot < s {
            (if incoming[slot].0 < 0 {
                1int
            } else {
                0
            }) + (if word[row[slot] as int] == 1 {
                1int
            } else {
                0
            }) - 1
        } else {
            0
        }),
    decreases s,
{
    if s > 0 {
        lemma_signs(incoming, word, row, slot, s - 1);
        if s - 1 != slot {
            assert(speaks_for(incoming[s - 1], word[row[s - 1] as int]));
        }
    }
}

/// What a check answers to one of its bits when the others speak for their bits
/// of a codeword: it speaks for the bit, as loud as the quietest of the others
/// lets it.
pub proof fn law_a_check_speaks_for_its_bit(
    code: &LdpcCode,
    rule: &MinSum<Q11i16>,
    word: Seq<u8>,
    j: int,
    incoming: Seq<Q11i16>,
    slot: int,
    least: int,
)
    requires
        is_moderate(rule),
        tables_agree(code),
        code.is_codeword(word),
        0 <= j < code.rows@.len(),
        code.rows@[j]@.len() <= usize::MAX,
        incoming.len() == code.rows@[j]@.len(),
        0 <= slot < incoming.len(),
        0 <= least <= 32767,
        forall|q: int|
            0 <= q < incoming.len() && q != slot ==> speaks_for(
                #[trigger] incoming[q],
                word[code.rows@[j]@[q] as int],
            ) && incoming[q].magnitude().0 >= least,
    ensures
        ({
            let bit = code.rows@[j]@[slot] as int;
            let answer = rule.answer_of(
                rule.digest_of(incoming),
                code.rows@[j]@,
                incoming,
                bit,
            );
            if word[bit] == 1 {
                answer.0 >= rule.shaped(Q11i16(least as i16)).0
            } else {
                answer.0 <= -rule.shaped(Q11i16(least as i16)).0
            }
        }),
{
    let row = code.rows@[j]@;
    let bit = row[slot] as int;
    lemma_slot(row, bit, slot, 0);
    lemma_signs(incoming, word, row, slot, row.len() as int);
    bp::law_min_sum_is_extrinsic(incoming, slot);
    assert(!code.check_fails(word, j));
    let d = rule.digest_of(incoming);
    let size = if slot == d.at {
        d.runner_up
    } else {
        d.smallest
    };
    assert(size.0 >= least);
    lemma_shaped(rule, Q11i16(least as i16), size);
}

/// A check never answers louder than the quietest of the other bits.
pub proof fn law_a_check_is_no_louder_than_its_bits(
    rule: &MinSum<Q11i16>,
    row: Seq<usize>,
    incoming: Seq<Q11i16>,
    slot: int,
    quiet: int,
)
    requires
        is_moderate(rule),
        row.len() <= usize::MAX,
        incoming.len() == row.len(),
        0 <= slot < row.len(),
        0 <= quiet < row.len(),
        quiet != slot,
        forall|a: int, b: int| 0 <= a < b < row.len() ==> #[trigger] row[a] != #[trigger] row[b],
    ensures
        ({
            let answer = rule.answer_of(
                rule.digest_of(incoming),
                row,
                incoming,
                row[slot] as int,
            );
            answer.magnitude().0 <= incoming[quiet].magnitude().0
        }),
{
    lemma_slot(row, row[slot] as int, slot, 0);
    bp::law_min_sum_is_extrinsic(incoming, slot);
    let d = rule.digest_of(incoming);
    let size = if slot == d.at {
        d.runner_up
    } else {
        d.smallest
    };
    assert(size.0 <= incoming[quiet].magnitude().0);
    assert(size.0 >= 0);
    lemma_shaped(rule, size, size);
}

/// Before any message was sent a bit passes its soft value on.
proof fn lemma_first_arrivals(
    code: &LdpcCode,
    llr: Seq<Q11i16>,
    ap_mask: Option<&[bool]>,
    j: int,
)
    requires
        code.well_formed(),
        llr.len() == code.n,
        0 <= j < code.rows@.len(),
    ensures
        ({
            let incoming = bp::arriving(code, llr, ap_mask, bp::silence(code), j);
            &&& incoming.len() == code.rows@[j]@.len()
            &&& forall|s: int|
                0 <= s < incoming.len() ==> #[trigger] incoming[s]
                    == llr[code.rows@[j]@[s] as int]
        }),
{
    let tov = bp::silence::<Q11i16>(code);
    let incoming = bp::arriving(code, llr, ap_mask, tov, j);
    assert forall|s: int| 0 <= s < incoming.len() implies #[trigger] incoming[s]
        == llr[code.rows@[j]@[s] as int] by {
        let i = code.rows@[j]@[s] as int;
        assert(0 <= i < code.n);
        assert(tov[3 * i] == Q11i16(0) && tov[3 * i + 1] == Q11i16(0) && tov[3 * i + 2] == Q11i16(
            0,
        ));
        let sum = bp::total(llr, ap_mask, tov, i);
        assert(sum == llr[i].0);
        reveal_with_fuel(bp::without_check, 4);
        assert(bp::without_check::<Q11i16>(sum, code.columns@[i], tov, i, j, 3) == sum);
    }
}

/// What a bit hears from one of its checks after the first exchange.
proof fn lemma_first_message(
    code: &LdpcCode,
    rule: &MinSum<Q11i16>,
    llr: Seq<Q11i16>,
    ap_mask: Option<&[bool]>,
    word: Seq<u8>,
    weak: int,
    strong: int,
    i: int,
    c: int,
)
    requires
        code.well_formed(),
        tables_agree(code),
        is_moderate(rule),
        llr.len() == code.n,
        code.is_codeword(word),
        scattered(code, rule, llr, word, weak, strong),
        0 <= i < code.n,
        0 <= c < 3,
    ensures
        ({
            let m = bp::next_messages(code, rule, llr, ap_mask, bp::silence(code))[3 * i + c];
            let full = rule.shaped(Q11i16(strong as i16)).0;
            &&& is_weak(llr, weak, i) ==> (if word[i] == 1 {
                m.0 >= full
            } else {
                m.0 <= -full
            })
            &&& !is_weak(llr, weak, i) && !hears_weak(code, llr, weak, i, c) ==> (if word[i] == 1 {
                m.0 >= 0
            } else {
                m.0 <= 0
            })
            &&& !is_weak(llr, weak, i) ==> -weak <= m.0 <= weak || (if word[i] == 1 {
                m.0 >= 0
            } else {
                m.0 <= 0
            })
        }),
{
    let j = code.columns@[i]@[c] as int;
    let row = code.rows@[j]@;
    assert(j < code.rows@.len());
    assert(lists(code, j, i));
    let slot = choose|s: int| 0 <= s < row.len() && #[trigger] row[s] == i;
    let incoming = bp::arriving(code, llr, ap_mask, bp::silence(code), j);
    lemma_first_arrivals(code, llr, ap_mask, j);
    assert((3 * i + c) / 3 == i && (3 * i + c) % 3 == c);
    assert(row.len() <= usize::MAX) by {
        assert(code.rows@[j].len() == row.len());
    }
    assert forall|q: int| 0 <= q < row.len() implies 0 <= #[trigger] row[q] < code.n by {}
    if is_weak(llr, weak, i) {
        assert forall|q: int| 0 <= q < incoming.len() && q != slot implies speaks_for(
            #[trigger] incoming[q],
            word[row[q] as int],
        ) && incoming[q].magnitude().0 >= strong by {
            if q < slot {
                assert(!(is_weak(llr, weak, row[q] as int) && is_weak(llr, weak, row[slot] as int)));
            } else {
                assert(!(is_weak(llr, weak, row[slot] as int) && is_weak(llr, weak, row[q] as int)));
            }
            let k = row[q] as int;
            assert(!is_weak(llr, weak, k));
            assert(speaks_for(llr[k], word[k]));
        }
        law_a_check_speaks_for_its_bit(code, rule, word, j, incoming, slot, strong);
    } else if hears_weak(code, llr, weak, i, c) {
        let quiet = choose|s: int|
            0 <= s < row.len() && is_weak(llr, weak, #[trigger] row[s] as int);
        assert(quiet != slot);
        law_a_check_is_no_louder_than_its_bits(rule, row, incoming, slot, quiet);
    } else {
        assert forall|q: int| 0 <= q < incoming.len() && q != slot implies speaks_for(
            #[trigger] incoming[q],
            word[row[q] as int],
        ) && incoming[q].magnitude().0 >= strong by {
            let k = row[q] as int;
            assert(!is_weak(llr, weak, row[q] as int));
            assert(speaks_for(llr[k], word[k]));
        }
        law_a_check_speaks_for_its_bit(code, rule, word, j, incoming, slot, strong);
        lemma_shaped(rule, Q11i16(strong as i16), Q11i16(strong as i16));
    }
}

/// The weight of a strong bit carries it over what weak bits make its checks
/// say, and a weak one is carried over by its checks.
proof fn lemma_weights(
    level: int,
    size: int,
    m: (int, int, int),
    heard: (bool, bool, bool),
    weak: int,
    k: int,
)
    requires
        0 <= weak,
        level >= size,
        k == (if heard.0 {
            1int
        } else {
            0
        }) + (if heard.1 {
            1int
        } else {
            0
        }) + (if heard.2 {
            1int
        } else {
            0
        }),
        k * weak < size,
        m.0 >= (if heard.0 {
            -weak
        } else {
            0
        }),
        m.1 >= (if heard.1 {
            -weak
        } else {
            0
        }),
        m.2 >= (if heard.2 {
            -weak
        } else {
            0
        }),
    ensures
        level + m.0 + m.1 + m.2 > 0,
{
    assert(0 * weak == 0 && 1 * weak == weak && 2 * weak == weak + weak && 3 * weak == weak + weak
        + weak) by (nonlinear_arith);
}

/// After the first exchange a bit is decided rightly.
proof fn lemma_bit_is_decided(
    code: &LdpcCode,
    rule: &MinSum<Q11i16>,
    llr: Seq<Q11i16>,
    ap_mask: Option<&[bool]>,
    word: Seq<u8>,
    weak: int,
    strong: int,
    i: int,
)
    requires
        code.well_formed(),
        tables_agree(code),
        is_moderate(rule),
        llr.len() == code.n,
        code.is_codeword(word),
        scattered(code, rule, llr, word, weak, strong),
        0 <= i < code.n,
        is_weak(llr, weak, i) ==> !bp::locked(ap_mask, i),
        word[i] <= 1,
    ensures
        (bp::total(
            llr,
            ap_mask,
            bp::next_messages(code, rule, llr, ap_mask, bp::silence(code)),
            i,
        ) > 0) == (word[i] == 1),
{
    let tov = bp::next_messages(code, rule, llr, ap_mask, bp::silence(code));
    lemma_first_message(code, rule, llr, ap_mask, word, weak, strong, i, 0);
    lemma_first_message(code, rule, llr, ap_mask, word, weak, strong, i, 1);
    lemma_first_message(code, rule, llr, ap_mask, word, weak, strong, i, 2);
    let a = tov[3 * i].0 as int;
    let b = tov[3 * i + 1].0 as int;
    let c = tov[3 * i + 2].0 as int;
    let sum = bp::total(llr, ap_mask, tov, i);
    if bp::locked(ap_mask, i) {
        assert(sum == llr[i].0);
        assert(!is_weak(llr, weak, i));
        assert(speaks_for(llr[i], word[i]));
    } else {
        assert(sum == llr[i].0 + a + b + c);
        if !is_weak(llr, weak, i) {
            assert(speaks_for(llr[i], word[i]));
            let k = weak_checks(code, llr, weak, i);
            assert(k * weak < llr[i].magnitude().0);
            let heard = (
                hears_weak(code, llr, weak, i, 0),
                hears_weak(code, llr, weak, i, 1),
                hears_weak(code, llr, weak, i, 2),
            );
            let size = llr[i].magnitude().0 as int;
            if word[i] == 1 {
                lemma_weights(llr[i].0 as int, size, (a, b, c), heard, weak, k);
            } else {
                lemma_weights(-(llr[i].0 as int), size, (-a, -b, -c), heard, weak, k);
            }
        }
    }
}

/// After the first exchange every bit is decided rightly.
proof fn lemma_decided_after_one_exchange(
    code: &LdpcCode,
    rule: &MinSum<Q11i16>,
    llr: Seq<Q11i16>,
    ap_mask: Option<&[bool]>,
    word: Seq<u8>,
    weak: int,
    strong: int,
)
    requires
        code.well_formed(),
        tables_agree(code),
        is_moderate(rule),
        llr.len() == code.n,
        code.is_codeword(word),
        scattered(code, rule, llr, word, weak, strong),
        forall|i: int|
            0 <= i < code.n && is_weak(llr, weak, i) ==> !(#[trigger] bp::locked(ap_mask, i)),
    ensures
        bp::decisions(
            llr,
            ap_mask,
            bp::next_messages(code, rule, llr, ap_mask, bp::silence(code)),
        ) == word,
{
    let tov = bp::next_messages(code, rule, llr, ap_mask, bp::silence(code));
    let decided = bp::decisions(llr, ap_mask, tov);
    assert forall|i: int| 0 <= i < code.n implies #[trigger] decided[i] == word[i] by {
        assert(word[i] <= 1);
        lemma_bit_is_decided(code, rule, llr, ap_mask, word, weak, strong, i);
    }
    assert(decided =~= word);
}

/// A word that differs from another in a single bit of a check has the other
/// parity there.
proof fn lemma_one_difference(a: Seq<u8>, b: Seq<u8>, row: Seq<usize>, slot: int, s: int)
    requires
        0 <= s <= row.len(),
        0 <= slot < row.len(),
        a[row[slot] as int] != b[row[slot] as int],
        a[row[slot] as int] <= 1,
        b[row[slot] as int] <= 1,
        forall|q: int|
            0 <= q < row.len() && q != slot ==> a[#[trigger] row[q] as int] == b[row[q] as int],
    ensures
        slot >= s ==> LdpcCode::ones_in_row(a, row, s) == LdpcCode::ones_in_row(b, row, s),
        slot < s ==> LdpcCode::ones_in_row(a, row, s) == LdpcCode::ones_in_row(b, row, s) + 1
            || LdpcCode::ones_in_row(a, row, s) + 1 == LdpcCode::ones_in_row(b, row, s),
    decreases s,
{
    if s > 0 {
        lemma_one_difference(a, b, row, slot, s - 1);
        if s - 1 != slot {
            assert(a[row[s - 1] as int] == b[row[s - 1] as int]);
        }
    }
}

/// The decisions before any message: those of the soft values.
proof fn lemma_first_decisions(code: &LdpcCode, llr: Seq<Q11i16>, ap_mask: Option<&[bool]>)
    requires
        code.well_formed(),
        llr.len() == code.n,
    ensures
        ({
            let first = bp::decisions(llr, ap_mask, bp::silence(code));
            &&& first.len() == code.n
            &&& forall|i: int|
                0 <= i < code.n ==> #[trigger] first[i] == (if llr[i].0 > 0 {
                    1u8
                } else {
                    0u8
                })
        }),
{
    let tov = bp::silence::<Q11i16>(code);
    let first = bp::decisions(llr, ap_mask, tov);
    assert forall|i: int| 0 <= i < code.n implies #[trigger] first[i] == (if llr[i].0 > 0 {
        1u8
    } else {
        0u8
    }) by {
        assert(tov[3 * i] == Q11i16(0) && tov[3 * i + 1] == Q11i16(0) && tov[3 * i + 2] == Q11i16(
            0,
        ));
    }
}

/// Noise is corrected. Where the weak soft values of an acceptable codeword are
/// scattered over its checks, whatever their signs and wherever they stand among
/// information and parity bits, one exchange of messages sets them right: the
/// run accepts the codeword at once if no sign is wrong, and otherwise in
/// iteration 1.
pub proof fn law_scattered_errors_are_corrected<V: InfoCheck>(
    code: &LdpcCode,
    rule: &MinSum<Q11i16>,
    verify: &V,
    llr: Seq<Q11i16>,
    ap_mask: Option<&[bool]>,
    max_iter: nat,
    word: Seq<u8>,
    weak: int,
    strong: int,
)
    requires
        code.well_formed(),
        tables_agree(code),
        is_moderate(rule),
        llr.len() == code.n,
        code.is_codeword(word),
        verify.accepts(word.take(code.k as int)),
        scattered(code, rule, llr, word, weak, strong),
        forall|i: int|
            0 <= i < code.n && is_weak(llr, weak, i) ==> !(#[trigger] bp::locked(ap_mask, i)),
        max_iter >= 1,
    ensures
        bp::bp_outcome(code, rule, verify, llr, ap_mask, max_iter) == Some(
            (
                word,
                if forall|i: int|
                    0 <= i < code.n ==> (#[trigger] word[i] == 1 <==> llr[i].0 > 0) {
                    0nat
                } else {
                    1nat
                },
            ),
        ),
{
    let silence = bp::silence::<Q11i16>(code);
    let first = bp::decisions(llr, ap_mask, silence);
    lemma_first_decisions(code, llr, ap_mask);
    code.lemma_failing_zero(first, code.rows@.len() as int);
    code.lemma_failing_zero(word, code.rows@.len() as int);
    if forall|i: int| 0 <= i < code.n ==> (#[trigger] word[i] == 1 <==> llr[i].0 > 0) {
        assert forall|i: int| 0 <= i < code.n implies #[trigger] first[i] == word[i] by {
            assert(word[i] <= 1);
            assert(word[i] == 1 <==> llr[i].0 > 0);
        }
        assert(first =~= word);
    } else {
        let e = choose|e: int| 0 <= e < code.n && !(#[trigger] word[e] == 1 <==> llr[e].0 > 0);
        let j = code.columns@[e]@[0] as int;
        let row = code.rows@[j]@;
        assert(lists(code, j, e));
        let slot = choose|s: int| 0 <= s < row.len() && #[trigger] row[s] == e;
        assert(word[e] <= 1);
        assert(first[e] != word[e]);
        assert(is_weak(llr, weak, e)) by {
            if !is_weak(llr, weak, e) {
                assert(speaks_for(llr[e], word[e]));
            }
        }
        assert forall|q: int| 0 <= q < row.len() && q != slot implies first[#[trigger] row[q] as int]
            == word[row[q] as int] by {
            let k = row[q] as int;
            assert(0 <= k < code.n);
            if q < slot {
                assert(!(is_weak(llr, weak, row[q] as int) && is_weak(llr, weak, row[slot] as int)));
            } else {
                assert(!(is_weak(llr, weak, row[slot] as int) && is_weak(llr, weak, row[q] as int)));
            }
            assert(word[k] <= 1);
            assert(speaks_for(llr[k], word[k]));
        }
        lemma_one_difference(first, word, row, slot, row.len() as int);
        assert(!code.check_fails(word, j));
        assert(code.check_fails(first, j));
        lemma_decided_after_one_exchange(code, rule, llr, ap_mask, word, weak, strong);
        reveal_with_fuel(bp::course, 3);
    }
}

/// Noise is corrected: what a decoder returns for scattered weak values is the
/// codeword that was sent, with as many errors as signs were wrong.
pub proof fn law_noisy_words_are_decoded<V: InfoCheck>(
    code: &LdpcCode,
    llr: &[Q11i16],
    max_iter: u32,
    verify: &V,
    rule: &MinSum<Q11i16>,
    word: Seq<u8>,
    weak: int,
    strong: int,
    result: Option<BpResult>,
)
    requires
        code.well_formed(),
        tables_agree(code),
        is_moderate(rule),
        llr@.len() == code.n,
        code.is_codeword(word),
        verify.accepts(word.take(code.k as int)),
        scattered(code, rule, llr@, word, weak, strong),
        max_iter >= 1,
        call_ensures(
            bp::bp_decode_generic_kind::<Q11i16, MinSum<Q11i16>, V>,
            (code, llr, None, max_iter, verify, rule),
            result,
        ),
    ensures
        result matches Some(r) && r.codeword@ == word && r.info@ == word.take(code.k as int)
            && r.message77@ == word.take(77) && r.iterations <= 1 && r.hard_errors
            == wrong_signs(word, llr@, word.len() as int),
{
    law_scattered_errors_are_corrected(
        code,
        rule,
        verify,
        llr@,
        None,
        max_iter as nat,
        word,
        weak,
        strong,
    );
    lemma_wrong_signs(word, llr@, word.len() as int);
}

/// How many of the first `n` soft values have the wrong sign.
pub open spec fn wrong_signs(word: Seq<u8>, llr: Seq<Q11i16>, n: int) -> nat
    decreases n,
{
    if n <= 0 {
        0
    } else if (word[n - 1] == 1) == (llr[n - 1].0 > 0) {
        wrong_signs(word, llr, n - 1)
    } else {
        wrong_signs(word, llr, n - 1) + 1
    }
}

pub proof fn lemma_wrong_signs(word: Seq<u8>, llr: Seq<Q11i16>, n: int)
    ensures
        bp::disagreements(word, llr, n) == wrong_signs(word, llr, n),
    decreases n,
{
    if n > 0 {
        lemma_wrong_signs(word, llr, n - 1);
    }
}

proof fn lemma_one_wrong_sign(word: Seq<u8>, llr: Seq<Q11i16>, e: int, n: int)
    requires
        0 <= n <= word.len(),
        0 <= e < word.len(),
        (word[e] == 1) != (llr[e].0 > 0),
        forall|i: int|
            0 <= i < word.len() && i != e ==> (#[trigger] word[i] == 1) == (llr[i].0 > 0),
    ensures
        wrong_signs(word, llr, n) == (if e < n {
            1nat
        } else {
            0nat
        }),
    decreases n,
{
    if n > 0 {
        lemma_one_wrong_sign(word, llr, e, n - 1);
        if n - 1 != e {
            assert((word[n - 1] == 1) == (llr[n - 1].0 > 0));
        }
    }
}

/// The soft values of a codeword with a single wrong sign, at bit `e`: the
/// others speak for their bits and are at least `strong`, and no other bit
/// shares two checks with bit `e`.
pub open spec fn has_one_error(
    code: &LdpcCode,
    rule: &MinSum<Q11i16>,
    llr: Seq<Q11i16>,
    word: Seq<u8>,
    e: int,
    strong: int,
) -> bool {
    &&& 0 <= e < code.n
    &&& (word[e] == 1) != (llr[e].0 > 0)
    &&& forall|i: int|
        0 <= i < code.n && i != e ==> speaks_for(llr[i], #[trigger] word[i])
            && llr[i].magnitude().0 >= strong
    &&& llr[e].magnitude().0 < strong <= 32767
    &&& llr[e].magnitude().0 < 3 * rule.shaped(Q11i16(strong as i16)).0
    &&& forall|i: int, c: int, d: int|
        #![trigger code.columns@[i]@[c], code.columns@[i]@[d]]
        0 <= i < code.n && i != e && 0 <= c < d < 3 ==> !(lists(
            code,
            code.columns@[i]@[c] as int,
            e,
        ) && lists(code, code.columns@[i]@[d] as int, e))
}

/// At most one check of another bit covers the bit with the error.
proof fn lemma_few_weak_checks(code: &LdpcCode, llr: Seq<Q11i16>, e: int, weak: int, i: int)
    requires
        code.well_formed(),
        0 <= e < code.n,
        0 <= i < code.n,
        forall|k: int| 0 <= k < code.n ==> (#[trigger] is_weak(llr, weak, k) <==> k == e),
        forall|c: int, d: int|
            #![trigger code.columns@[i]@[c], code.columns@[i]@[d]]
            0 <= c < d < 3 ==> !(lists(code, code.columns@[i]@[c] as int, e) && lists(
                code,
                code.columns@[i]@[d] as int,
                e,
            )),
    ensures
        0 <= weak_checks(code, llr, weak, i) <= 1,
{
    assert forall|c: int| 0 <= c < 3 && #[trigger] hears_weak(code, llr, weak, i, c) implies lists(
        code,
        code.columns@[i]@[c] as int,
        e,
    ) by {
        let j = code.columns@[i]@[c] as int;
        assert(j < code.rows@.len());
        let s = choose|s: int|
            0 <= s < code.rows@[j]@.len() && is_weak(
                llr,
                weak,
                #[trigger] code.rows@[j]@[s] as int,
            );
        assert(code.rows@[j]@[s] < code.n);
        assert(code.rows@[j]@[s] == e);
    }
    let x = code.columns@[i]@[0];
    let y = code.columns@[i]@[1];
    let z = code.columns@[i]@[2];
    assert(!(lists(code, x as int, e) && lists(code, y as int, e)));
    assert(!(lists(code, x as int, e) && lists(code, z as int, e)));
    assert(!(lists(code, y as int, e) && lists(code, z as int, e)));
}

/// Soft values with one error are scattered.
pub proof fn lemma_one_error_is_scattered(
    code: &LdpcCode,
    rule: &MinSum<Q11i16>,
    llr: Seq<Q11i16>,
    word: Seq<u8>,
    e: int,
    strong: int,
)
    requires
        code.well_formed(),
        tables_agree(code),
        llr.len() == code.n,
        has_one_error(code, rule, llr, word, e, strong),
    ensures
        scattered(code, rule, llr, word, llr[e].magnitude().0 as int, strong),
{
    let weak = llr[e].magnitude().0 as int;
    assert forall|i: int| 0 <= i < code.n implies (#[trigger] is_weak(llr, weak, i) <==> i == e) by {
        if i != e {
            assert(speaks_for(llr[i], word[i]) && llr[i].magnitude().0 >= strong);
        }
    }
    assert forall|i: int| 0 <= i < code.n && !(#[trigger] is_weak(llr, weak, i)) implies llr[
    i].magnitude().0 >= strong && speaks_for(llr[i], word[i]) by {
        assert(i != e);
        assert(speaks_for(llr[i], word[i]));
    }
    assert forall|i: int| 0 <= i < code.n && !is_weak(llr, weak, i) implies #[trigger] weak_checks(
        code,
        llr,
        weak,
        i,
    ) * weak < llr[i].magnitude().0 by {
        assert(i != e);
        lemma_few_weak_checks(code, llr, e, weak, i);
        assert(speaks_for(llr[i], word[i]));
        let k = weak_checks(code, llr, weak, i);
        assert(k * weak <= weak) by (nonlinear_arith)
            requires
                0 <= k <= 1,
                0 <= weak,
        ;
    }
    assert forall|j: int, s: int, t: int|
        0 <= j < code.rows@.len() && 0 <= s < t < code.rows@[j]@.len() implies !(is_weak(
        llr,
        weak,
        #[trigger] code.rows@[j]@[s] as int,
    ) && is_weak(llr, weak, #[trigger] code.rows@[j]@[t] as int)) by {
        assert(code.rows@[j]@[s] != code.rows@[j]@[t]);
        assert(code.rows@[j]@[s] < code.n && code.rows@[j]@[t] < code.n);
    }
}

/// A single error is corrected wherever it stands, information or parity bit:
/// the decoder returns the codeword that was sent, after one iteration and with
/// one error counted.
pub proof fn law_a_single_error_is_corrected<V: InfoCheck>(
    code: &LdpcCode,
    llr: &[Q11i16],
    max_iter: u32,
    verify: &V,
    rule: &MinSum<Q11i16>,
    word: Seq<u8>,
    e: int,
    strong: int,
    result: Option<BpResult>,
)
    requires
        code.well_formed(),
        tables_agree(code),
        is_moderate(rule),
        llr@.len() == code.n,
        code.is_codeword(word),
        verify.accepts(word.take(code.k as int)),
        has_one_error(code, rule, llr@, word, e, strong),
        max_iter >= 1,
        call_ensures(
            bp::bp_decode_generic_kind::<Q11i16, MinSum<Q11i16>, V>,
            (code, llr, None, max_iter, verify, rule),
            result,
        ),
    ensures
        result matches Some(r) && r.codeword@ == word && r.info@ == word.take(code.k as int)
            && r.message77@ == word.take(77) && r.iterations == 1 && r.hard_errors == 1,
{
    lemma_one_error_is_corrected(code, verify, rule, llr@, max_iter as nat, word, e, strong);
}

pub proof fn lemma_one_error_is_corrected<V: InfoCheck>(
    code: &LdpcCode,
    verify: &V,
    rule: &MinSum<Q11i16>,
    llr: Seq<Q11i16>,
    max_iter: nat,
    word: Seq<u8>,
    e: int,
    strong: int,
)
    requires
        code.well_formed(),
        tables_agree(code),
        is_moderate(rule),
        llr.len() == code.n,
        code.is_codeword(word),
        verify.accepts(word.take(code.k as int)),
        has_one_error(code, rule, llr, word, e, strong),
        max_iter >= 1,
    ensures
        bp::bp_outcome(code, rule, verify, llr, None, max_iter) == Some((word, 1nat)),
        bp::disagreements(word, llr, code.n as int) == 1,
{
    let weak = llr[e].magnitude().0 as int;
    lemma_one_error_is_scattered(code, rule, llr, word, e, strong);
    law_scattered_errors_are_corrected(code, rule, verify, llr, None, max_iter, word, weak, strong);
    lemma_wrong_signs(word, llr, word.len() as int);
    assert forall|i: int| 0 <= i < word.len() && i != e implies (#[trigger] word[i] == 1) == (
    llr[i].0 > 0) by {
        assert(speaks_for(llr[i], word[i]));
        assert(word[i] <= 1);
    }
    assert(!(word[e] == 1 <==> llr[e].0 > 0));
    lemma_one_wrong_sign(word, llr, e, word.len() as int);
}

/// More iterations lose nothing: what a run finds, a longer run finds as well.
pub proof fn law_more_iterations_lose_nothing<T: LlrScalar, R: CheckRule<T>, V: InfoCheck>(
    code: &LdpcCode,
    rule: &R,
    verify: &V,
    llr: Seq<T>,
    ap_mask: Option<&[bool]>,
    fewer: nat,
    more: nat,
)
    requires
        fewer <= more,
        bp::bp_outcome(code, rule, verify, llr, ap_mask, fewer) is Some,
    ensures
        bp::bp_outcome(code, rule, verify, llr, ap_mask, more) == bp::bp_outcome(
            code,
            rule,
            verify,
            llr,
            ap_mask,
            fewer,
        ),
{
    lemma_longer_course(code, rule, verify, llr, ap_mask, fewer, more, 0, bp::silence(code), 0, 0);
}

proof fn lemma_longer_course<T: LlrScalar, R: CheckRule<T>, V: InfoCheck>(
    code: &LdpcCode,
    rule: &R,
    verify: &V,
    llr: Seq<T>,
    ap_mask: Option<&[bool]>,
    fewer: nat,
    more: nat,
    iter: nat,
    tov: Seq<T>,
    stalled: nat,
    last: nat,
)
    requires
        fewer <= more,
        bp::course(code, rule, verify, llr, ap_mask, fewer, iter, tov, stalled, last) is Some,
    ensures
        bp::course(code, rule, verify, llr, ap_mask, more, iter, tov, stalled, last) == bp::course(
            code,
            rule,
            verify,
            llr,
            ap_mask,
            fewer,
            iter,
            tov,
            stalled,
            last,
        ),
    decreases fewer + 1 - iter,
{
    if iter <= fewer {
        let word = bp::decisions(llr, ap_mask, tov);
        let failing = code.failing(word, code.rows@.len() as int);
        if !(failing == 0 && verify.accepts(word.take(code.k as int))) {
            let now_stalled = if iter == 0 {
                stalled
            } else if failing < last {
                0
            } else {
                stalled + 1
            };
            lemma_longer_course(
                code,
                rule,
                verify,
                llr,
                ap_mask,
                fewer,
                more,
                iter + 1,
                bp::next_messages(code, rule, llr, ap_mask, tov),
                now_stalled,
                failing,
            );
        }
    }
}

/// What a bit tells a check is its soft value and what its other checks told it,
/// never what this check said itself.
pub proof fn law_a_check_does_not_hear_itself(
    code: &LdpcCode,
    llr: Seq<Q11i16>,
    tov: Seq<Q11i16>,
    j: int,
    s: int,
)
    requires
        code.well_formed(),
        llr.len() == code.n,
        tov.len() == 3 * code.n,
        0 <= j < code.rows@.len(),
        0 <= s < code.rows@[j]@.len(),
    ensures
        ({
            let i = code.rows@[j]@[s] as int;
            let told = llr[i].0 + (if code.columns@[i]@[0] == j {
                0
            } else {
                tov[3 * i].0 as int
            }) + (if code.columns@[i]@[1] == j {
                0
            } else {
                tov[3 * i + 1].0 as int
            }) + (if code.columns@[i]@[2] == j {
                0
            } else {
                tov[3 * i + 2].0 as int
            });
            bp::arriving(code, llr, None, tov, j)[s].0 == (if told > 32767 {
                32767
            } else if told < -32768 {
                -32768
            } else {
                told
            })
        }),
{
    let i = code.rows@[j]@[s] as int;
    assert(0 <= i < code.n);
    let sum = bp::total(llr, None, tov, i);
    assert(sum == llr[i].0 + tov[3 * i].0 + tov[3 * i + 1].0 + tov[3 * i + 2].0);
    let column = code.columns@[i];
    let one = bp::without_check::<Q11i16>(sum, column, tov, i, j, 1);
    let two = bp::without_check::<Q11i16>(sum, column, tov, i, j, 2);
    let three = bp::without_check::<Q11i16>(sum, column, tov, i, j, 3);
    assert(bp::without_check::<Q11i16>(sum, column, tov, i, j, 0) == sum);
    assert(one == (if column@[0] == j {
        sum - tov[3 * i].0
    } else {
        sum as int
    }));
    assert(two == (if column@[1] == j {
        one - tov[3 * i + 1].0
    } else {
        one as int
    }));
    assert(three == (if column@[2] == j {
        two - tov[3 * i + 2].0
    } else {
        two as int
    }));
}

/// What a check answers to a bit does not depend on what that bit said.
pub proof fn law_an_answer_leaves_the_asker_out(
    rule: &MinSum<Q11i16>,
    row: Seq<usize>,
    a: Seq<Q11i16>,
    b: Seq<Q11i16>,
    slot: int,
)
    requires
        row.len() <= usize::MAX,
        a.len() == row.len(),
        b.len() == row.len(),
        0 <= slot < row.len(),
        forall|x: int, y: int| 0 <= x < y < row.len() ==> #[trigger] row[x] != #[trigger] row[y],
        forall|q: int| 0 <= q < row.len() && q != slot ==> #[trigger] a[q] == b[q],
    ensures
        rule.answer_of(rule.digest_of(a), row, a, row[slot] as int) == rule.answer_of(
            rule.digest_of(b),
            row,
            b,
            row[slot] as int,
        ),
{
    lemma_slot(row, row[slot] as int, slot, 0);
    bp::law_min_sum_is_extrinsic(a, slot);
    bp::law_min_sum_is_extrinsic(b, slot);
    lemma_same_negatives(a, b, slot, row.len() as int);
    let da = rule.digest_of(a);
    let db = rule.digest_of(b);
    let sa = if slot == da.at {
        da.runner_up
    } else {
        da.smallest
    };
    let sb = if slot == db.at {
        db.runner_up
    } else {
        db.smallest
    };
    if sa.0 != i16::MAX {
        let q = choose|q: int| 0 <= q < a.len() && q != slot && (#[trigger] a[q]).magnitude() == sa;
        assert(a[q] == b[q]);
        assert(sb.0 <= b[q].magnitude().0);
    }
    if sb.0 != i16::MAX {
        let q = choose|q: int| 0 <= q < b.len() && q != slot && (#[trigger] b[q]).magnitude() == sb;
        assert(a[q] == b[q]);
        assert(sa.0 <= a[q].magnitude().0);
    }
    assert(sa == sb);
}

proof fn lemma_same_negatives(a: Seq<Q11i16>, b: Seq<Q11i16>, slot: int, s: int)
    requires
        0 <= s <= a.len(),
        a.len() == b.len(),
        0 <= slot < a.len(),
        forall|q: int| 0 <= q < a.len() && q != slot ==> #[trigger] a[q] == b[q],
    ensures
        bp::negatives(a, s) - (if slot < s && a[slot].0 < 0 {
            1int
        } else {
            0
        }) == bp::negatives(b, s) - (if slot < s && b[slot].0 < 0 {
            1int
        } else {
            0
        }),
    decreases s,
{
    if s > 0 {
        lemma_same_negatives(a, b, slot, s - 1);
        if s - 1 != slot {
            assert(a[s - 1] == b[s - 1]);
        }
    }
}

/// The size of an answer: the normalised rule multiplies the minimum by its
/// factor, in units of 1/32768, and rounds down; the offset rule takes its
/// offset away and stops at nought.
pub proof fn law_how_a_minimum_is_shaped(size: Q11i16, alpha: i32, beta: Q11i16)
    requires
        0 <= size.0,
        0 <= alpha <= 32768,
    ensures
        ({
            let normalized = MinSum::<Q11i16>::Normalized { alpha }.shaped(size).0 as int;
            32768 * normalized <= size.0 * alpha < 32768 * (normalized + 1)
        }),
        ({
            let reduced = MinSum::<Q11i16>::Offset { beta }.shaped(size).0 as int;
            if size.0 <= beta.0 {
                reduced == 0
            } else if size.0 - beta.0 <= 32767 {
                reduced == size.0 - beta.0
            } else {
                reduced == 32767
            }
        }),
{
    let x = size.0 as int;
    let f = alpha as int;
    assert(0 <= x * f <= x * 32768) by (nonlinear_arith)
        requires
            0 <= x,
            0 <= f <= 32768,
    ;
}

/// The messages after `t` exchanges.
pub open spec fn messages_after<T: LlrScalar, R: CheckRule<T>>(
    code: &LdpcCode,
    rule: &R,
    llr: Seq<T>,
    ap_mask: Option<&[bool]>,
    t: nat,
) -> Seq<T>
    decreases t,
{
    if t == 0 {
        Seq::new(3 * code.n as nat, |x: int| T::zero_value())
    } else {
        bp::next_messages(
            code,
            rule,
            llr,
            ap_mask,
            messages_after(code, rule, llr, ap_mask, (t - 1) as nat),
        )
    }
}

/// The decisions after `t` exchanges.
pub open spec fn word_after<T: LlrScalar, R: CheckRule<T>>(
    code: &LdpcCode,
    rule: &R,
    llr: Seq<T>,
    ap_mask: Option<&[bool]>,
    t: nat,
) -> Seq<u8> {
    bp::decisions(llr, ap_mask, messages_after(code, rule, llr, ap_mask, t))
}

/// The failing checks after `t` exchanges.
pub open spec fn failing_after<T: LlrScalar, R: CheckRule<T>>(
    code: &LdpcCode,
    rule: &R,
    llr: Seq<T>,
    ap_mask: Option<&[bool]>,
    t: nat,
) -> nat {
    code.failing(word_after(code, rule, llr, ap_mask, t), code.rows@.len() as int)
}

/// The decisions after `t` exchanges are an acceptable codeword.
pub open spec fn succeeds_after<T: LlrScalar, R: CheckRule<T>, V: InfoCheck>(
    code: &LdpcCode,
    rule: &R,
    verify: &V,
    llr: Seq<T>,
    ap_mask: Option<&[bool]>,
    t: nat,
) -> bool {
    failing_after(code, rule, llr, ap_mask, t) == 0 && verify.accepts(
        word_after(code, rule, llr, ap_mask, t).take(code.k as int),
    )
}

/// After `t` exchanges more than 15 checks fail, and none of the last five
/// exchanges has reduced their number, `t` being at least ten.
pub open spec fn is_stuck<T: LlrScalar, R: CheckRule<T>>(
    code: &LdpcCode,
    rule: &R,
    llr: Seq<T>,
    ap_mask: Option<&[bool]>,
    t: nat,
) -> bool {
    &&& t >= 10
    &&& failing_after(code, rule, llr, ap_mask, t) > 15
    &&& forall|u: nat|
        t - 5 < u <= t ==> #[trigger] failing_after(code, rule, llr, ap_mask, u) >= failing_after(
            code,
            rule,
            llr,
            ap_mask,
            (u - 1) as nat,
        )
}

/// After `t` exchanges a run has neither succeeded nor got stuck.
pub open spec fn goes_on_after<T: LlrScalar, R: CheckRule<T>, V: InfoCheck>(
    code: &LdpcCode,
    rule: &R,
    verify: &V,
    llr: Seq<T>,
    ap_mask: Option<&[bool]>,
    t: nat,
) -> bool {
    !succeeds_after(code, rule, verify, llr, ap_mask, t) && !is_stuck(code, rule, llr, ap_mask, t)
}

/// A run accepts the first acceptable codeword within the iterations granted,
/// unless it is stuck before.
pub proof fn law_a_run_goes_on_until_it_succeeds_or_is_stuck<
    T: LlrScalar,
    R: CheckRule<T>,
    V: InfoCheck,
>(
    code: &LdpcCode,
    rule: &R,
    verify: &V,
    llr: Seq<T>,
    ap_mask: Option<&[bool]>,
    max_iter: nat,
    t: nat,
)
    requires
        forall|u: nat| u < t ==> #[trigger] goes_on_after(code, rule, verify, llr, ap_mask, u),
    ensures
        t > max_iter ==> bp::bp_outcome(code, rule, verify, llr, ap_mask, max_iter) is None,
        t <= max_iter && succeeds_after(code, rule, verify, llr, ap_mask, t) ==> bp::bp_outcome(
            code,
            rule,
            verify,
            llr,
            ap_mask,
            max_iter,
        ) == Some((word_after(code, rule, llr, ap_mask, t), t)),
        t <= max_iter && !succeeds_after(code, rule, verify, llr, ap_mask, t) && is_stuck(
            code,
            rule,
            llr,
            ap_mask,
            t,
        ) ==> bp::bp_outcome(code, rule, verify, llr, ap_mask, max_iter) is None,
{
    assert(messages_after(code, rule, llr, ap_mask, 0) =~= bp::silence(code));
    lemma_course_of_a_run(code, rule, verify, llr, ap_mask, max_iter, t, 0, 0, 0);
}

/// How long the number of failing checks has not been reduced, before exchange
/// `iter`.
spec fn has_stalled_for<T: LlrScalar, R: CheckRule<T>>(
    code: &LdpcCode,
    rule: &R,
    llr: Seq<T>,
    ap_mask: Option<&[bool]>,
    iter: nat,
    stalled: nat,
) -> bool {
    &&& iter == 0 ==> stalled == 0
    &&& iter > 0 ==> stalled < iter
    &&& forall|u: nat|
        1 <= u && iter - 1 - stalled < u < iter ==> #[trigger] failing_after(
            code,
            rule,
            llr,
            ap_mask,
            u,
        ) >= failing_after(code, rule, llr, ap_mask, (u - 1) as nat)
    &&& iter > 1 && stalled < iter - 1 ==> failing_after(
        code,
        rule,
        llr,
        ap_mask,
        (iter - 1 - stalled) as nat,
    ) < failing_after(code, rule, llr, ap_mask, (iter - 2 - stalled) as nat)
}

proof fn lemma_course_of_a_run<T: LlrScalar, R: CheckRule<T>, V: InfoCheck>(
    code: &LdpcCode,
    rule: &R,
    verify: &V,
    llr: Seq<T>,
    ap_mask: Option<&[bool]>,
    max_iter: nat,
    t: nat,
    iter: nat,
    stalled: nat,
    last: nat,
)
    requires
        iter <= t,
        forall|u: nat| u < t ==> #[trigger] goes_on_after(code, rule, verify, llr, ap_mask, u),
        iter > 0 ==> last == failing_after(code, rule, llr, ap_mask, (iter - 1) as nat),
        has_stalled_for(code, rule, llr, ap_mask, iter, stalled),
    ensures
        ({
            let course = bp::course(
                code,
                rule,
                verify,
                llr,
                ap_mask,
                max_iter,
                iter,
                messages_after(code, rule, llr, ap_mask, iter),
                stalled,
                last,
            );
            &&& t > max_iter ==> course is None
            &&& t <= max_iter && succeeds_after(code, rule, verify, llr, ap_mask, t) ==> course
                == Some((word_after(code, rule, llr, ap_mask, t), t))
            &&& t <= max_iter && !succeeds_after(code, rule, verify, llr, ap_mask, t) && is_stuck(
                code,
                rule,
                llr,
                ap_mask,
                t,
            ) ==> course is None
        }),
    decreases max_iter + 1 - iter,
{
    if iter <= max_iter {
        let tov = messages_after(code, rule, llr, ap_mask, iter);
        let word = bp::decisions(llr, ap_mask, tov);
        let failing = code.failing(word, code.rows@.len() as int);
        assert(failing == failing_after(code, rule, llr, ap_mask, iter));
        let now_stalled = if iter == 0 {
            stalled
        } else if failing < last {
            0
        } else {
            stalled + 1
        };
        let gives_up = iter > 0 && now_stalled >= 5 && iter >= 10 && failing > 15;
        assert(gives_up == is_stuck(code, rule, llr, ap_mask, iter)) by {
            if iter >= 10 && failing > 15 {
                if now_stalled >= 5 {
                    assert forall|u: nat| iter - 5 < u <= iter implies #[trigger] failing_after(
                        code,
                        rule,
                        llr,
                        ap_mask,
                        u,
                    ) >= failing_after(code, rule, llr, ap_mask, (u - 1) as nat) by {
                        assert(u == iter || u < iter);
                    }
                } else if failing < last {
                    assert(failing_after(code, rule, llr, ap_mask, iter) < failing_after(
                        code,
                        rule,
                        llr,
                        ap_mask,
                        (iter - 1) as nat,
                    ));
                } else {
                    let u = (iter - 1 - stalled) as nat;
                    assert(failing_after(code, rule, llr, ap_mask, u) < failing_after(
                        code,
                        rule,
                        llr,
                        ap_mask,
                        (u - 1) as nat,
                    ));
                }
            }
        }
        if iter < t {
            assert(goes_on_after(code, rule, verify, llr, ap_mask, iter));
            assert(has_stalled_for(code, rule, llr, ap_mask, iter + 1, now_stalled));
            assert(messages_after(code, rule, llr, ap_mask, iter + 1) == bp::next_messages(
                code,
                rule,
                llr,
                ap_mask,
                tov,
            ));
            lemma_course_of_a_run(
                code,
                rule,
                verify,
                llr,
                ap_mask,
                max_iter,
                t,
                iter + 1,
                now_stalled,
                failing,
            );
        }
    }
}

} // verus!
