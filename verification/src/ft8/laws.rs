//! What the search and the decoder promise of the signals in a slot.

use super::coarse;
use super::coarse::CostasSums;
use super::decode_block;
use super::decode_block::{Frontend, Found, Settings};
use super::llr::LlrSet;
use super::params;
use super::spectrogram::Spectrogram;
use super::staircase;
use super::staircase::{DecodeDepth, DecodeResult, OsdResult, Step};
use crate::fec::ldpc::bp;
use crate::fec::ldpc::bp::{CheckRule, Crc14Check, MinSum};
use crate::fec::ldpc::code::LdpcCode;
use crate::fec::ldpc::crc;
use crate::fec::ldpc::laws;
use crate::scalar::{LlrScalar, Q11i16};
use crate::select;
use vstd::prelude::*;

verus! {

/// The power of two neighbouring bins of a spectrum.
pub open spec fn pair_power(spec: &Spectrogram, bin: int, time: int) -> int {
    spec.at(bin, time) + spec.at(bin + 1, time)
}

/// The power of the sixteen bins of a carrier in a spectrum.
pub open spec fn carrier_power(spec: &Spectrogram, carrier: int, time: int) -> int {
    pair_power(spec, carrier, time) + pair_power(spec, carrier + 2, time) + pair_power(
        spec,
        carrier + 4,
        time,
    ) + pair_power(spec, carrier + 6, time) + pair_power(spec, carrier + 8, time) + pair_power(
        spec,
        carrier + 10,
        time,
    ) + pair_power(spec, carrier + 12, time) + pair_power(spec, carrier + 14, time)
}

/// The sums of a carrier at a shift are those of its three Costas arrays. The
/// arrays begin 36 tones, that is 72 spectra, apart, the first one six spectra
/// into the slot and the shift later. Each has the tones 3, 1, 4, 0, 6, 5, 2,
/// two spectra after one another and two bins to a tone.
pub proof fn law_sums_are_of_the_costas_arrays(
    spec: &Spectrogram,
    table: &[u32],
    ia: usize,
    n_carriers: usize,
    fi: usize,
    lag: i32,
    sums: CostasSums,
    bk: int,
)
    requires
        fi < n_carriers,
        ia + n_carriers + 15 <= spec.n_freq,
        0 <= 6 + lag,
        162 + lag < spec.n_time,
        call_ensures(coarse::costas_sums, (spec, table, ia, n_carriers, fi, lag), sums),
        0 <= bk < 3,
    ensures
        ({
            let c = ia + fi;
            let m = 6 + 72 * bk + lag;
            &&& sums.tone@[bk] == pair_power(spec, c + 6, m) + pair_power(spec, c + 2, m + 2)
                + pair_power(spec, c + 8, m + 4) + pair_power(spec, c, m + 6) + pair_power(
                spec,
                c + 12,
                m + 8,
            ) + pair_power(spec, c + 10, m + 10) + pair_power(spec, c + 4, m + 12)
            &&& sums.all@[bk] == carrier_power(spec, c, m) + carrier_power(spec, c, m + 2)
                + carrier_power(spec, c, m + 4) + carrier_power(spec, c, m + 6) + carrier_power(
                spec,
                c,
                m + 8,
            ) + carrier_power(spec, c, m + 10) + carrier_power(spec, c, m + 12)
        }),
{
    let c = ia + fi;
    let m = 6 + 72 * bk + lag;
    let a = params::COSTAS@;
    let p = params::COSTAS_POS@;
    assert(a[0] == 3 && a[1] == 1 && a[2] == 4 && a[3] == 0 && a[4] == 6 && a[5] == 5 && a[6] == 2);
    assert(p[0] == 0 && p[1] == 36 && p[2] == 72);
    assert(p[bk] == 36 * bk) by {
        assert(bk == 0 || bk == 1 || bk == 2);
    }
    assert(sums.measures(spec, c as int, lag as int));
    assert(sums.tone@[bk] == coarse::costas_power(spec, c as int, lag as int, bk, 7));
    reveal_with_fuel(coarse::costas_power, 8);
    reveal_with_fuel(coarse::costas_background, 8);
    lemma_carrier_window(spec, c as int, m);
    lemma_carrier_window(spec, c as int, m + 2);
    lemma_carrier_window(spec, c as int, m + 4);
    lemma_carrier_window(spec, c as int, m + 6);
    lemma_carrier_window(spec, c as int, m + 8);
    lemma_carrier_window(spec, c as int, m + 10);
    lemma_carrier_window(spec, c as int, m + 12);
}

proof fn lemma_carrier_window(spec: &Spectrogram, carrier: int, time: int)
    requires
        0 <= carrier,
        carrier + 16 <= spec.n_freq,
    ensures
        coarse::window_sum(spec.data@, spec.n_freq as int, time, carrier, 16) == carrier_power(
            spec,
            carrier,
            time,
        ),
{
    reveal_with_fuel(coarse::window_sum, 17);
    assert forall|j: int| 0 <= j < 16 implies #[trigger] coarse::held_cell(
        spec.data@,
        spec.n_freq as int,
        time,
        carrier + j,
    ) == spec.at(carrier + j, time) by {}
}

/// The spectra of `late` are those of `early`, `d` spectra later; where `early`
/// has none there is silence.
pub open spec fn is_delayed(early: &Spectrogram, late: &Spectrogram, d: int) -> bool {
    &&& early.n_freq == late.n_freq
    &&& forall|f: int, m: int|
        0 <= f < late.n_freq && 0 <= m < late.n_time ==> #[trigger] late.at(f, m) == (if 0 <= m - d
            < early.n_time {
            early.at(f, m - d)
        } else {
            0
        })
}

/// A delay moves the arrays by as much: what stands at a shift in one slot
/// stands at that shift and the delay in a slot that is the first one delayed,
/// whether the shift is before or after the nominal start. What lies outside
/// the first slot counts like silence.
pub proof fn law_a_delay_moves_the_arrays(
    early: &Spectrogram,
    late: &Spectrogram,
    early_table: &[u32],
    late_table: &[u32],
    ia: usize,
    n_carriers: usize,
    fi: usize,
    lag: i32,
    late_lag: i32,
    here: CostasSums,
    there: CostasSums,
)
    requires
        is_delayed(early, late, late_lag - lag),
        fi < n_carriers,
        ia + n_carriers + 15 <= early.n_freq,
        0 <= 6 + late_lag,
        162 + late_lag < late.n_time,
        call_ensures(coarse::costas_sums, (early, early_table, ia, n_carriers, fi, lag), here),
        call_ensures(coarse::costas_sums, (late, late_table, ia, n_carriers, fi, late_lag), there),
    ensures
        here.tone@ == there.tone@,
        here.all@ == there.all@,
{
    let c = ia + fi;
    assert(here.measures(early, c as int, lag as int));
    assert(there.measures(late, c as int, late_lag as int));
    assert forall|bk: int| 0 <= bk < 3 implies here.tone@[bk] == there.tone@[bk] && here.all@[bk]
        == there.all@[bk] by {
        assert(here.tone@[bk] == coarse::costas_power(early, c as int, lag as int, bk, 7));
        assert(there.tone@[bk] == coarse::costas_power(late, c as int, late_lag as int, bk, 7));
        lemma_delayed_sums(early, late, c as int, lag as int, late_lag as int, bk, 7);
    }
    assert(here.tone@ =~= there.tone@);
    assert(here.all@ =~= there.all@);
}

proof fn lemma_delayed_sums(
    early: &Spectrogram,
    late: &Spectrogram,
    carrier: int,
    lag: int,
    late_lag: int,
    bk: int,
    n: int,
)
    requires
        is_delayed(early, late, late_lag - lag),
        0 <= carrier,
        carrier + 16 <= early.n_freq,
        0 <= 6 + late_lag,
        162 + late_lag < late.n_time,
        0 <= bk < 3,
        0 <= n <= 7,
    ensures
        coarse::costas_power(early, carrier, lag, bk, n) == coarse::costas_power(
            late,
            carrier,
            late_lag,
            bk,
            n,
        ),
        coarse::costas_background(early, carrier, lag, bk, n) == coarse::costas_background(
            late,
            carrier,
            late_lag,
            bk,
            n,
        ),
    decreases n,
{
    if n > 0 {
        lemma_delayed_sums(early, late, carrier, lag, late_lag, bk, n - 1);
        let p = params::COSTAS_POS@;
        let a = params::COSTAS@;
        assert(p[0] == 0 && p[1] == 36 && p[2] == 72);
        assert(0 <= p[bk] <= 72) by {
            assert(bk == 0 || bk == 1 || bk == 2);
        }
        coarse::lemma_costas_small(n - 1);
        let there = coarse::costas_frame(bk, n - 1, late_lag);
        let here = coarse::costas_frame(bk, n - 1, lag);
        let bin = carrier + 2 * a[n - 1];
        assert(0 <= there < late.n_time);
        assert(here == there - (late_lag - lag));
        assert(late.at(bin, there) == (if 0 <= here < early.n_time {
            early.at(bin, here)
        } else {
            0
        }));
        assert(late.at(bin + 1, there) == (if 0 <= here < early.n_time {
            early.at(bin + 1, here)
        } else {
            0
        }));
        lemma_delayed_window(early, late, late_lag - lag, carrier, there, 16);
    }
}

proof fn lemma_delayed_window(
    early: &Spectrogram,
    late: &Spectrogram,
    d: int,
    carrier: int,
    there: int,
    j: int,
)
    requires
        is_delayed(early, late, d),
        0 <= carrier,
        0 <= j,
        carrier + j <= early.n_freq,
        0 <= there < late.n_time,
    ensures
        coarse::window_sum(late.data@, late.n_freq as int, there, carrier, j) == (if 0 <= there - d
            < early.n_time {
            coarse::window_sum(early.data@, early.n_freq as int, there - d, carrier, j)
        } else {
            0
        }),
    decreases j,
{
    if j > 0 {
        lemma_delayed_window(early, late, d, carrier, there, j - 1);
        let f = carrier + j - 1;
        assert(coarse::held_cell(late.data@, late.n_freq as int, there, f) == late.at(f, there));
        assert(coarse::held_cell(early.data@, early.n_freq as int, there - d, f) == early.at(
            f,
            there - d,
        ));
    }
}

/// A message as it is sent: a codeword whose first 91 bits carry a right check.
pub open spec fn is_message(code: &LdpcCode, word: Seq<u8>) -> bool {
    code.is_codeword(word) && crc::crc14_passes(word.take(91))
}

/// The code of the mode and a rule for it.
pub open spec fn is_set_up(code: &LdpcCode, rule: &MinSum<Q11i16>) -> bool {
    &&& code.well_formed()
    &&& laws::tables_agree(code)
    &&& code.n == 174
    &&& code.k == 91
    &&& laws::is_moderate(rule)
}

/// A step reports a message found in `llr`, in attempt number `number`.
pub open spec fn reports_message(
    step: Step,
    llr: Seq<Q11i16>,
    word: Seq<u8>,
    number: int,
) -> bool {
    step matches Step::Accepted { result, pass } && pass == number && result.codeword@ == word
        && result.info@ == word.take(91) && result.message77@ == word.take(77)
        && result.hard_errors == laws::wrong_signs(word, llr, 174) && result.iterations <= 1
}

/// A noisy message is found in its fast soft values: where its weak values are
/// scattered, whatever their signs, the step accepts it.
pub proof fn law_noisy_messages_are_accepted(
    code: &LdpcCode,
    rule: &MinSum<Q11i16>,
    llra: &[Q11i16; 174],
    depth: DecodeDepth,
    word: Seq<u8>,
    weak: int,
    strong: int,
    step: Step,
)
    requires
        is_set_up(code, rule),
        is_message(code, word),
        laws::scattered(code, rule, llra@, word, weak, strong),
        call_ensures(
            staircase::after_fast::<Q11i16, MinSum<Q11i16>>,
            (code, rule, llra, depth),
            step,
        ),
    ensures
        reports_message(step, llra@, word, 0),
{
    lemma_noisy_attempt(code, rule, llra@, word, weak, strong);
}

proof fn lemma_noisy_attempt(
    code: &LdpcCode,
    rule: &MinSum<Q11i16>,
    llr: Seq<Q11i16>,
    word: Seq<u8>,
    weak: int,
    strong: int,
)
    requires
        is_set_up(code, rule),
        is_message(code, word),
        llr.len() == 174,
        laws::scattered(code, rule, llr, word, weak, strong),
    ensures
        staircase::attempt(code, rule, llr) matches Some((found, iter)) && found == word && iter
            <= 1,
        bp::disagreements(word, llr, 174) == laws::wrong_signs(word, llr, 174),
{
    laws::law_scattered_errors_are_corrected(
        code,
        rule,
        &Crc14Check,
        llr,
        None,
        30,
        word,
        weak,
        strong,
    );
    laws::lemma_wrong_signs(word, llr, 174);
}

/// One weak bit of the wrong sign does not lose a message: the step accepts it
/// with one error, after one iteration.
pub proof fn law_one_error_does_not_lose_a_message(
    code: &LdpcCode,
    rule: &MinSum<Q11i16>,
    llra: &[Q11i16; 174],
    depth: DecodeDepth,
    word: Seq<u8>,
    e: int,
    strong: int,
    step: Step,
)
    requires
        is_set_up(code, rule),
        is_message(code, word),
        laws::has_one_error(code, rule, llra@, word, e, strong),
        call_ensures(
            staircase::after_fast::<Q11i16, MinSum<Q11i16>>,
            (code, rule, llra, depth),
            step,
        ),
    ensures
        step matches Step::Accepted { result, pass } && pass == 0 && result.message77@ == word.take(
            77,
        ) && result.codeword@ == word && result.hard_errors == 1 && result.iterations == 1,
{
    laws::lemma_one_error_is_corrected(code, &Crc14Check, rule, llra@, 30, word, e, strong);
}

/// Thirty iterations are granted, no fewer and no more: a message that a run of
/// at most thirty finds is accepted, and none that takes longer is.
pub proof fn law_thirty_iterations_are_granted<T: LlrScalar, R: CheckRule<T>>(
    code: &LdpcCode,
    rule: &R,
    llra: &[T; 174],
    depth: DecodeDepth,
    granted: nat,
    step: Step,
)
    requires
        granted <= 30,
        call_ensures(staircase::after_fast::<T, R>, (code, rule, llra, depth), step),
    ensures
        bp::bp_outcome(code, rule, &Crc14Check, llra@, None, granted) matches Some((word, iter))
            ==> step matches Step::Accepted { result, pass } && pass == 0 && result.codeword@
            == word && result.message77@ == word.take(77) && result.iterations == iter,
        bp::bp_outcome(code, rule, &Crc14Check, llra@, None, 30) is None ==> !(step is Accepted),
        step matches Step::Accepted { result, pass } ==> code.n == 174 ==> result.iterations <= 30,
{
    if bp::bp_outcome(code, rule, &Crc14Check, llra@, None, granted) is Some {
        laws::law_more_iterations_lose_nothing(
            code,
            rule,
            &Crc14Check,
            llra@,
            None,
            granted,
            30,
        );
    }
    if code.n == 174 {
        bp::law_accepted_words_are_codewords(code, rule, &Crc14Check, llra@, None, 30);
    }
}

/// Nothing but messages is accepted: what a step accepts satisfies every check
/// of the code and carries a right check of its own.
pub proof fn law_only_messages_are_accepted<T: LlrScalar, R: CheckRule<T>>(
    code: &LdpcCode,
    rule: &R,
    llra: &[T; 174],
    depth: DecodeDepth,
    step: Step,
)
    requires
        code.n == 174,
        code.k == 91,
        call_ensures(staircase::after_fast::<T, R>, (code, rule, llra, depth), step),
    ensures
        step matches Step::Accepted { result, pass } ==> is_message(code, result.codeword@)
            && result.message77@ == result.codeword@.take(77),
        !(step is Accepted) ==> if depth == DecodeDepth::Bp {
            step is Rejected
        } else {
            step is Full
        },
{
    bp::law_accepted_words_are_codewords(code, rule, &Crc14Check, llra@, None, 30);
}

/// Soft values number `v` of the four: those from single tones, pairs, triples,
/// and the combination.
pub open spec fn soft_values<T: LlrScalar>(full: &LlrSet<T>, v: int) -> Seq<T> {
    if v == 0 {
        full.llra@
    } else if v == 1 {
        full.llrb@
    } else if v == 2 {
        full.llrc@
    } else {
        full.llrd@
    }
}

/// A noisy message is found in whichever of the four variants shows it first.
pub proof fn law_noisy_messages_are_accepted_in_every_variant(
    code: &LdpcCode,
    rule: &MinSum<Q11i16>,
    full: &LlrSet<Q11i16>,
    depth: DecodeDepth,
    q: u32,
    v: int,
    word: Seq<u8>,
    weak: int,
    strong: int,
    step: Step,
)
    requires
        is_set_up(code, rule),
        is_message(code, word),
        0 <= v < 4,
        laws::scattered(code, rule, soft_values(full, v), word, weak, strong),
        forall|u: int|
            0 <= u < v ==> bp::bp_outcome(
                code,
                rule,
                &Crc14Check,
                #[trigger] soft_values(full, u),
                None,
                30,
            ) is None,
        call_ensures(
            staircase::after_full::<Q11i16, MinSum<Q11i16>>,
            (code, rule, full, depth, q),
            step,
        ),
    ensures
        reports_message(step, soft_values(full, v), word, v),
{
    lemma_noisy_attempt(code, rule, soft_values(full, v), word, weak, strong);
    lemma_first_decoded(code, rule, full, v, 0);
}

/// The variants before the first one that decodes do not.
proof fn lemma_first_decoded<T: LlrScalar, R: CheckRule<T>>(
    code: &LdpcCode,
    rule: &R,
    full: &LlrSet<T>,
    v: int,
    from: int,
)
    requires
        0 <= from <= v < 4,
        bp::bp_outcome(code, rule, &Crc14Check, soft_values(full, v), None, 30) is Some,
        forall|u: int|
            0 <= u < v ==> bp::bp_outcome(
                code,
                rule,
                &Crc14Check,
                #[trigger] soft_values(full, u),
                None,
                30,
            ) is None,
    ensures
        staircase::first_decoded(code, rule, full, from) == Some(v),
    decreases v - from,
{
    assert(full.variant(from) == soft_values(full, from));
    if from < v {
        lemma_first_decoded(code, rule, full, v, from + 1);
    }
}

/// Where no variant decodes, the fallback decoder is asked for the first variant
/// if it may be used and sync quality is at least 12, deeply from 18 on.
pub proof fn law_when_the_fallback_is_tried<T: LlrScalar, R: CheckRule<T>>(
    code: &LdpcCode,
    rule: &R,
    full: &LlrSet<T>,
    depth: DecodeDepth,
    q: u32,
    step: Step,
)
    requires
        forall|u: int|
            0 <= u < 4 ==> bp::bp_outcome(
                code,
                rule,
                &Crc14Check,
                #[trigger] soft_values(full, u),
                None,
                30,
            ) is None,
        call_ensures(staircase::after_full::<T, R>, (code, rule, full, depth, q), step),
    ensures
        if depth == DecodeDepth::BpAllOsd && q >= 12 {
            step matches Step::Osd { variant, deep } && variant == 0 && deep == (q >= 18)
        } else {
            step is Rejected
        },
{
    reveal_with_fuel(staircase::first_decoded, 5);
    assert(full.variant(0) == soft_values(full, 0));
    assert(full.variant(1) == soft_values(full, 1));
    assert(full.variant(2) == soft_values(full, 2));
    assert(full.variant(3) == soft_values(full, 3));
}

/// A message is among the results.
pub open spec fn is_reported<A>(results: Seq<DecodeResult<A>>, message: Seq<u8>) -> bool {
    exists|k: int| 0 <= k < results.len() && (#[trigger] results[k]).message77@ == message
}

/// What a candidate gives no other candidate takes away.
proof fn lemma_results_grow<Q, F, L, O, D, P, A>(
    front: &Frontend<Q, F, L, O, D, P>,
    set: &Settings<'_, MinSum<Q11i16>>,
    cands: Seq<usize>,
    steps: Seq<Seq<DecodeResult<A>>>,
    message: Seq<u8>,
    i: int,
) where
    Q: Fn(usize, usize) -> u32,
    F: Fn(usize, usize) -> [Q11i16; 174],
    L: Fn(usize, usize) -> LlrSet<Q11i16>,
    O: Fn(usize, usize, u8, bool) -> Option<OsdResult>,
    D: Fn(&[u8; 77]) -> bool,
    P: Fn(usize, usize, &[u8; 77]) -> A,

    requires
        front.processed::<Q11i16, A, MinSum<Q11i16>>(set, cands, steps),
        0 <= i <= cands.len(),
        is_reported(steps[i], message),
    ensures
        is_reported(steps.last(), message),
    decreases cands.len() - i,
{
    if i < cands.len() {
        assert(front.advances::<Q11i16, A, MinSum<Q11i16>>(set, cands[i], steps[i], steps[i + 1]));
        let (g, out) = choose|g: usize, out: Option<Found>| #[trigger]
            front.settles::<Q11i16, MinSum<Q11i16>>(set, cands[i], g, out)
                && #[trigger] front.reports(cands[i], g, out, steps[i], steps[i + 1]);
        assert(front.reports(cands[i], g, out, steps[i], steps[i + 1]));
        let k = choose|k: int|
            0 <= k < steps[i].len() && (#[trigger] steps[i][k]).message77@ == message;
        assert(steps[i + 1][k] == steps[i][k]);
        assert(steps[i + 1][k].message77@ == message);
        lemma_results_grow(front, set, cands, steps, message, i + 1);
    }
}

/// Every message that is heard is reported. A candidate whose sync quality is
/// above the threshold and whose fast soft values are those of a message, noisy
/// as they may be, puts that message among the results, if it can be read.
pub proof fn law_heard_messages_are_reported<Q, F, L, O, D, P, A>(
    set: &Settings<'_, MinSum<Q11i16>>,
    front: &Frontend<Q, F, L, O, D, P>,
    cands: &[usize],
    i: int,
    word: Seq<u8>,
    weak: int,
    strong: int,
    results: Vec<DecodeResult<A>>,
) where
    Q: Fn(usize, usize) -> u32,
    F: Fn(usize, usize) -> [Q11i16; 174],
    L: Fn(usize, usize) -> LlrSet<Q11i16>,
    O: Fn(usize, usize, u8, bool) -> Option<OsdResult>,
    D: Fn(&[u8; 77]) -> bool,
    P: Fn(usize, usize, &[u8; 77]) -> A,

    requires
        is_set_up(set.code, set.rule),
        is_message(set.code, word),
        set.grid >= 1,
        0 <= i < cands@.len(),
        forall|g: usize, q: u32|
            g < set.grid && #[trigger] call_ensures(front.quality, (cands@[i], g), q) ==> q
                > set.q_thresh,
        forall|g: usize, fast: [Q11i16; 174]|
            g < set.grid && #[trigger] call_ensures(front.fast, (cands@[i], g), fast)
                ==> laws::scattered(set.code, set.rule, fast@, word, weak, strong),
        forall|m: &[u8; 77], ok: bool|
            m@ == word.take(77) && #[trigger] call_ensures(front.readable, (m,), ok) ==> ok,
        call_ensures(
            decode_block::process_candidates::<Q11i16, A, MinSum<Q11i16>, Q, F, L, O, D, P>,
            (set, front, cands),
            results,
        ),
    ensures
        is_reported(results@, word.take(77)),
{
    let steps = choose|steps: Seq<Seq<DecodeResult<A>>>| #[trigger]
        front.processed::<Q11i16, A, MinSum<Q11i16>>(set, cands@, steps) && steps.last()
            == results@;
    lemma_heard_is_reported(set, front, cands@, i, word, weak, strong, steps);
}

proof fn lemma_heard_is_reported<Q, F, L, O, D, P, A>(
    set: &Settings<'_, MinSum<Q11i16>>,
    front: &Frontend<Q, F, L, O, D, P>,
    cands: Seq<usize>,
    i: int,
    word: Seq<u8>,
    weak: int,
    strong: int,
    steps: Seq<Seq<DecodeResult<A>>>,
) where
    Q: Fn(usize, usize) -> u32,
    F: Fn(usize, usize) -> [Q11i16; 174],
    L: Fn(usize, usize) -> LlrSet<Q11i16>,
    O: Fn(usize, usize, u8, bool) -> Option<OsdResult>,
    D: Fn(&[u8; 77]) -> bool,
    P: Fn(usize, usize, &[u8; 77]) -> A,

    requires
        is_set_up(set.code, set.rule),
        is_message(set.code, word),
        set.grid >= 1,
        0 <= i < cands.len(),
        forall|g: usize, q: u32|
            g < set.grid && #[trigger] call_ensures(front.quality, (cands[i], g), q) ==> q
                > set.q_thresh,
        forall|g: usize, fast: [Q11i16; 174]|
            g < set.grid && #[trigger] call_ensures(front.fast, (cands[i], g), fast)
                ==> laws::scattered(set.code, set.rule, fast@, word, weak, strong),
        forall|m: &[u8; 77], ok: bool|
            m@ == word.take(77) && #[trigger] call_ensures(front.readable, (m,), ok) ==> ok,
        front.processed::<Q11i16, A, MinSum<Q11i16>>(set, cands, steps),
    ensures
        is_reported(steps.last(), word.take(77)),
{
    let c = cands[i];
    let before = steps[i];
    let after = steps[i + 1];
    assert(front.advances::<Q11i16, A, MinSum<Q11i16>>(set, cands[i], steps[i], steps[i + 1]));
    let (g, out) = choose|g: usize, out: Option<Found>| #[trigger]
        front.settles::<Q11i16, MinSum<Q11i16>>(set, c, g, out) && #[trigger] front.reports(
            c,
            g,
            out,
            before,
            after,
        );
    assert(front.settles::<Q11i16, MinSum<Q11i16>>(set, c, g, out));
    let qs = choose|qs: Seq<u32>|
        {
            &&& qs.len() == set.grid
            &&& #[trigger] front.qualities(c, qs)
            &&& if select::is_first_peak(qs, g as int) && qs[g as int] > set.q_thresh {
                front.climbs::<Q11i16, MinSum<Q11i16>>(set, c, g, qs[g as int], out)
            } else {
                &&& out is None
                &&& forall|i: int| 0 <= i < qs.len() ==> #[trigger] qs[i] <= set.q_thresh
            }
        };
    assert(call_ensures(front.quality, (c, 0int as usize), qs[0]));
    assert(qs[0] > set.q_thresh);
    assert(front.climbs::<Q11i16, MinSum<Q11i16>>(set, c, g, qs[g as int], out));
    let fast = choose|fast: [Q11i16; 174]|
        {
            &&& #[trigger] call_ensures(front.fast, (c, g), fast)
            &&& match staircase::attempt(set.code, set.rule, fast@) {
                Some(_) => decode_block::is_found(set.code, set.rule, fast@, 0, true, out),
                None => if set.depth == DecodeDepth::Bp {
                    out is None
                } else {
                    front.goes_on::<Q11i16, MinSum<Q11i16>>(set, c, g, qs[g as int], out)
                },
            }
        };
    lemma_noisy_attempt(set.code, set.rule, fast@, word, weak, strong);
    let found = out->0;
    assert(found.message77@ == word.take(77));
    assert(is_reported(after, word.take(77))) by {
        if staircase::is_known(before, found.message77@) {
            let k = choose|k: int|
                0 <= k < before.len() && (#[trigger] before[k]).message77@ == found.message77@;
            assert(after[k].message77@ == word.take(77));
        } else {
            assert(after[before.len() as int].message77@ == word.take(77));
        }
    }
    lemma_results_grow(front, set, cands, steps, word.take(77), i + 1);
}

/// The first candidate is decoded at the grid point of the best sync quality,
/// and a noisy message in its fast soft values there is the first result, with
/// its errors counted and the report of that point.
pub proof fn law_a_candidate_is_decoded_at_its_best_point<Q, F, L, O, D, P, A>(
    set: &Settings<'_, MinSum<Q11i16>>,
    front: &Frontend<Q, F, L, O, D, P>,
    cands: &[usize],
    quality: spec_fn(usize) -> u32,
    at: usize,
    llr: Seq<Q11i16>,
    word: Seq<u8>,
    weak: int,
    strong: int,
    results: Vec<DecodeResult<A>>,
) where
    Q: Fn(usize, usize) -> u32,
    F: Fn(usize, usize) -> [Q11i16; 174],
    L: Fn(usize, usize) -> LlrSet<Q11i16>,
    O: Fn(usize, usize, u8, bool) -> Option<OsdResult>,
    D: Fn(&[u8; 77]) -> bool,
    P: Fn(usize, usize, &[u8; 77]) -> A,

    requires
        is_set_up(set.code, set.rule),
        is_message(set.code, word),
        cands@.len() >= 1,
        at < set.grid,
        forall|g: usize, q: u32| #[trigger]
            call_ensures(front.quality, (cands@[0], g), q) ==> q == quality(g),
        quality(at) > set.q_thresh,
        forall|g: usize| g < set.grid && g != at ==> #[trigger] quality(g) < quality(at),
        forall|fast: [Q11i16; 174]| #[trigger]
            call_ensures(front.fast, (cands@[0], at), fast) ==> fast@ == llr,
        llr.len() == 174,
        laws::scattered(set.code, set.rule, llr, word, weak, strong),
        forall|m: &[u8; 77], ok: bool|
            m@ == word.take(77) && #[trigger] call_ensures(front.readable, (m,), ok) ==> ok,
        call_ensures(
            decode_block::process_candidates::<Q11i16, A, MinSum<Q11i16>, Q, F, L, O, D, P>,
            (set, front, cands),
            results,
        ),
    ensures
        results@.len() >= 1,
        results@[0].message77@ == word.take(77),
        results@[0].hard_errors == laws::wrong_signs(word, llr, 174),
        results@[0].pass == 0,
        results@[0].fast,
        call_ensures(front.report, (cands@[0], at, &results@[0].message77), results@[0].report),
{
    let steps = choose|steps: Seq<Seq<DecodeResult<A>>>| #[trigger]
        front.processed::<Q11i16, A, MinSum<Q11i16>>(set, cands@, steps) && steps.last()
            == results@;
    let c = cands@[0];
    let (g, out) = lemma_best_point(set, front, cands@, quality, at, steps);
    let q = quality(at);
    let fast = choose|fast: [Q11i16; 174]|
        {
            &&& #[trigger] call_ensures(front.fast, (c, g), fast)
            &&& match staircase::attempt(set.code, set.rule, fast@) {
                Some(_) => decode_block::is_found(set.code, set.rule, fast@, 0, true, out),
                None => if set.depth == DecodeDepth::Bp {
                    out is None
                } else {
                    front.goes_on::<Q11i16, MinSum<Q11i16>>(set, c, g, q, out)
                },
            }
        };
    lemma_noisy_attempt(set.code, set.rule, fast@, word, weak, strong);
    lemma_first_result_stays(set, front, cands@, steps);
}

/// Where the first candidate is decoded, and what that leads to.
proof fn lemma_best_point<Q, F, L, O, D, P, A>(
    set: &Settings<'_, MinSum<Q11i16>>,
    front: &Frontend<Q, F, L, O, D, P>,
    cands: Seq<usize>,
    quality: spec_fn(usize) -> u32,
    at: usize,
    steps: Seq<Seq<DecodeResult<A>>>,
) -> (led: (usize, Option<Found>)) where
    Q: Fn(usize, usize) -> u32,
    F: Fn(usize, usize) -> [Q11i16; 174],
    L: Fn(usize, usize) -> LlrSet<Q11i16>,
    O: Fn(usize, usize, u8, bool) -> Option<OsdResult>,
    D: Fn(&[u8; 77]) -> bool,
    P: Fn(usize, usize, &[u8; 77]) -> A,

    requires
        cands.len() >= 1,
        at < set.grid,
        forall|g: usize, q: u32| #[trigger]
            call_ensures(front.quality, (cands[0], g), q) ==> q == quality(g),
        quality(at) > set.q_thresh,
        forall|g: usize| g < set.grid && g != at ==> #[trigger] quality(g) < quality(at),
        front.processed::<Q11i16, A, MinSum<Q11i16>>(set, cands, steps),
    ensures
        led.0 == at,
        front.climbs::<Q11i16, MinSum<Q11i16>>(set, cands[0], at, quality(at), led.1),
        front.reports(cands[0], at, led.1, Seq::<DecodeResult<A>>::empty(), steps[1]),
{
    let c = cands[0];
    let i: int = 0;
    assert(front.advances::<Q11i16, A, MinSum<Q11i16>>(set, cands[i], steps[i], steps[i + 1]));
    let (g, out) = choose|g: usize, out: Option<Found>| #[trigger]
        front.settles::<Q11i16, MinSum<Q11i16>>(set, c, g, out) && #[trigger] front.reports(
            c,
            g,
            out,
            steps[0],
            steps[1],
        );
    assert(front.settles::<Q11i16, MinSum<Q11i16>>(set, c, g, out));
    let qs = choose|qs: Seq<u32>|
        {
            &&& qs.len() == set.grid
            &&& #[trigger] front.qualities(c, qs)
            &&& if select::is_first_peak(qs, g as int) && qs[g as int] > set.q_thresh {
                front.climbs::<Q11i16, MinSum<Q11i16>>(set, c, g, qs[g as int], out)
            } else {
                &&& out is None
                &&& forall|i: int| 0 <= i < qs.len() ==> #[trigger] qs[i] <= set.q_thresh
            }
        };
    assert(call_ensures(front.quality, (c, ((at as int) as usize)), qs[at as int]));
    assert(qs[at as int] == quality(at));
    assert(select::is_first_peak(qs, g as int));
    assert(call_ensures(front.quality, (c, ((g as int) as usize)), qs[g as int]));
    assert(qs[at as int] <= qs[g as int]);
    if g != at {
        assert(quality(g) < quality(at));
    }
    (g, out)
}

/// The first result stays the first.
proof fn lemma_first_result_stays<Q, F, L, O, D, P, A>(
    set: &Settings<'_, MinSum<Q11i16>>,
    front: &Frontend<Q, F, L, O, D, P>,
    cands: Seq<usize>,
    steps: Seq<Seq<DecodeResult<A>>>,
) where
    Q: Fn(usize, usize) -> u32,
    F: Fn(usize, usize) -> [Q11i16; 174],
    L: Fn(usize, usize) -> LlrSet<Q11i16>,
    O: Fn(usize, usize, u8, bool) -> Option<OsdResult>,
    D: Fn(&[u8; 77]) -> bool,
    P: Fn(usize, usize, &[u8; 77]) -> A,

    requires
        cands.len() >= 1,
        front.processed::<Q11i16, A, MinSum<Q11i16>>(set, cands, steps),
    ensures
        steps[1].len() >= 1 ==> steps.last().len() >= 1 && steps.last()[0] == steps[1][0],
{
    lemma_results_stay(set, front, cands, steps, 1);
}

proof fn lemma_results_stay<Q, F, L, O, D, P, A>(
    set: &Settings<'_, MinSum<Q11i16>>,
    front: &Frontend<Q, F, L, O, D, P>,
    cands: Seq<usize>,
    steps: Seq<Seq<DecodeResult<A>>>,
    i: int,
) where
    Q: Fn(usize, usize) -> u32,
    F: Fn(usize, usize) -> [Q11i16; 174],
    L: Fn(usize, usize) -> LlrSet<Q11i16>,
    O: Fn(usize, usize, u8, bool) -> Option<OsdResult>,
    D: Fn(&[u8; 77]) -> bool,
    P: Fn(usize, usize, &[u8; 77]) -> A,

    requires
        0 <= i <= cands.len(),
        front.processed::<Q11i16, A, MinSum<Q11i16>>(set, cands, steps),
    ensures
        steps[i].len() <= steps.last().len(),
        forall|k: int| 0 <= k < steps[i].len() ==> #[trigger] steps.last()[k] == steps[i][k],
    decreases cands.len() - i,
{
    if i < cands.len() {
        assert(front.advances::<Q11i16, A, MinSum<Q11i16>>(set, cands[i], steps[i], steps[i + 1]));
        let (g, out) = choose|g: usize, out: Option<Found>| #[trigger]
            front.settles::<Q11i16, MinSum<Q11i16>>(set, cands[i], g, out)
                && #[trigger] front.reports(cands[i], g, out, steps[i], steps[i + 1]);
        assert(front.reports(cands[i], g, out, steps[i], steps[i + 1]));
        lemma_results_stay(set, front, cands, steps, i + 1);
        assert forall|k: int| 0 <= k < steps[i].len() implies #[trigger] steps.last()[k]
            == steps[i][k] by {
            assert(steps[i + 1][k] == steps[i][k]);
        }
    }
}

/// What the fallback decoder finds is reported. Where belief propagation finds
/// nothing, the fallback decoder may be used and sync quality is at least 12, the
/// variants are tried in their order; the first in which it finds a message gives
/// the first result, in attempt 4 and up.
pub proof fn law_the_fallback_is_heard<Q, F, L, O, D, P, A>(
    set: &Settings<'_, MinSum<Q11i16>>,
    front: &Frontend<Q, F, L, O, D, P>,
    cands: &[usize],
    quality: spec_fn(usize) -> u32,
    at: usize,
    v: int,
    found: OsdResult,
    results: Vec<DecodeResult<A>>,
) where
    Q: Fn(usize, usize) -> u32,
    F: Fn(usize, usize) -> [Q11i16; 174],
    L: Fn(usize, usize) -> LlrSet<Q11i16>,
    O: Fn(usize, usize, u8, bool) -> Option<OsdResult>,
    D: Fn(&[u8; 77]) -> bool,
    P: Fn(usize, usize, &[u8; 77]) -> A,

    requires
        set.depth == DecodeDepth::BpAllOsd,
        cands@.len() >= 1,
        at < set.grid,
        forall|g: usize, q: u32| #[trigger]
            call_ensures(front.quality, (cands@[0], g), q) ==> q == quality(g),
        quality(at) > set.q_thresh,
        quality(at) >= 12,
        forall|g: usize| g < set.grid && g != at ==> #[trigger] quality(g) < quality(at),
        forall|fast: [Q11i16; 174]| #[trigger]
            call_ensures(front.fast, (cands@[0], at), fast) ==> bp::bp_outcome(
                set.code,
                set.rule,
                &Crc14Check,
                fast@,
                None,
                30,
            ) is None,
        forall|full: LlrSet<Q11i16>| #[trigger]
            call_ensures(front.full, (cands@[0], at), full) ==> forall|u: int|
                0 <= u < 4 ==> bp::bp_outcome(
                    set.code,
                    set.rule,
                    &Crc14Check,
                    #[trigger] soft_values(&full, u),
                    None,
                    30,
                ) is None,
        0 <= v < 4,
        forall|u: u8, deep: bool, osd: Option<OsdResult>| #[trigger]
            call_ensures(front.osd, (cands@[0], at, u, deep), osd) ==> (u < v ==> osd is None) && (u
                == v && deep == (quality(at) >= 18) ==> osd == Some(found)),
        forall|m: &[u8; 77], ok: bool|
            m@ == found.message77@ && #[trigger] call_ensures(front.readable, (m,), ok) ==> ok,
        call_ensures(
            decode_block::process_candidates::<Q11i16, A, MinSum<Q11i16>, Q, F, L, O, D, P>,
            (set, front, cands),
            results,
        ),
    ensures
        results@.len() >= 1,
        results@[0].message77 == found.message77,
        results@[0].hard_errors == found.hard_errors,
        results@[0].pass == 4 + v,
        !results@[0].fast,
{
    let steps = choose|steps: Seq<Seq<DecodeResult<A>>>| #[trigger]
        front.processed::<Q11i16, A, MinSum<Q11i16>>(set, cands@, steps) && steps.last()
            == results@;
    let c = cands@[0];
    let (g, out) = lemma_best_point(set, front, cands@, quality, at, steps);
    let q = quality(at);
    let fast = choose|fast: [Q11i16; 174]|
        {
            &&& #[trigger] call_ensures(front.fast, (c, g), fast)
            &&& match staircase::attempt(set.code, set.rule, fast@) {
                Some(_) => decode_block::is_found(set.code, set.rule, fast@, 0, true, out),
                None => if set.depth == DecodeDepth::Bp {
                    out is None
                } else {
                    front.goes_on::<Q11i16, MinSum<Q11i16>>(set, c, g, q, out)
                },
            }
        };
    assert(staircase::attempt(set.code, set.rule, fast@) is None);
    let full = choose|full: LlrSet<Q11i16>|
        {
            &&& #[trigger] call_ensures(front.full, (c, g), full)
            &&& match staircase::first_decoded(set.code, set.rule, &full, 0) {
                Some(v) => decode_block::is_found(
                    set.code,
                    set.rule,
                    full.variant(v),
                    v,
                    false,
                    out,
                ),
                None => if staircase::osd_allowed(set.depth, q) {
                    front.falls_back(c, g, q >= staircase::DEEP_OSD_QUALITY, 0, out)
                } else {
                    out is None
                },
            }
        };
    reveal_with_fuel(staircase::first_decoded, 5);
    assert(full.variant(0) == soft_values(&full, 0));
    assert(full.variant(1) == soft_values(&full, 1));
    assert(full.variant(2) == soft_values(&full, 2));
    assert(full.variant(3) == soft_values(&full, 3));
    lemma_fallback_in_order(front, c, g, q >= 18, 0, v, found, out);
    lemma_first_result_stays(set, front, cands@, steps);
}

proof fn lemma_fallback_in_order<Q, F, L, O, D, P>(
    front: &Frontend<Q, F, L, O, D, P>,
    c: usize,
    g: usize,
    deep: bool,
    u: int,
    v: int,
    found: OsdResult,
    out: Option<Found>,
) where O: Fn(usize, usize, u8, bool) -> Option<OsdResult>
    requires
        0 <= u <= v < 4,
        forall|w: u8, osd: Option<OsdResult>| #[trigger]
            call_ensures(front.osd, (c, g, w, deep), osd) ==> (w < v ==> osd is None) && (w == v
                ==> osd == Some(found)),
        front.falls_back(c, g, deep, u, out),
    ensures
        out matches Some(f) && f.message77 == found.message77 && f.hard_errors
            == found.hard_errors && f.pass == 4 + v && !f.fast,
    decreases v - u,
{
    let osd = choose|osd: Option<OsdResult>|
        {
            &&& #[trigger] call_ensures(front.osd, (c, g, u as u8, deep), osd)
            &&& match osd {
                Some(o) => out == Some(
                    Found {
                        message77: o.message77,
                        hard_errors: o.hard_errors,
                        pass: (4 + u) as u8,
                        fast: false,
                    },
                ),
                None => front.falls_back(c, g, deep, u + 1, out),
            }
        };
    if u < v {
        assert(osd is None);
        lemma_fallback_in_order(front, c, g, deep, u + 1, v, found, out);
    }
}

/// Without a wish thirty candidates go on from the coarse search.
pub proof fn law_thirty_candidates_go_on(wanted: Option<usize>, limit: usize)
    requires
        call_ensures(staircase::pass1_limit, (wanted,), limit),
    ensures
        wanted is None ==> limit == 30,
        wanted matches Some(w) ==> limit == w,
        staircase::MIN_QUALITY == 6,
{
}

/// Refinement tries 40 ms to either side where three times are asked for, and a
/// quarter of a tone to either side where three frequencies are; else the
/// candidate's own.
pub proof fn law_what_the_grid_holds(
    dt_grid: u8,
    df_grid: u8,
    grid: Vec<staircase::GridPoint>,
    point: staircase::GridPoint,
)
    requires
        call_ensures(staircase::refinement_grid, (dt_grid, df_grid), grid),
    ensures
        grid@.contains(point) <==> (point.dt_ms == 0 || dt_grid == 3 && (point.dt_ms == 40
            || point.dt_ms == -40)) && (point.df_quarters == 0 || df_grid == 3 && (point.df_quarters
            == 1 || point.df_quarters == -1)),
{
    let times = staircase::grid_len(dt_grid);
    let freqs = staircase::grid_len(df_grid);
    assert(grid@.len() == times * freqs);
    assert(grid@.len() == (if times == 3 {
        3 * freqs
    } else {
        freqs
    })) by (nonlinear_arith)
        requires
            grid@.len() == times * freqs,
            times == 3 || times == 1,
    ;
    if grid@.contains(point) {
        let i = choose|i: int| 0 <= i < grid@.len() && grid@[i] == point;
        let (a, b) = if freqs == 3 {
            (i / 3, i % 3)
        } else {
            (i, 0)
        };
        assert(a * freqs + b == i) by (nonlinear_arith)
            requires
                freqs == 3 && a == i / 3 && b == i % 3 || freqs == 1 && a == i && b == 0,
        ;
        assert(0 <= a < times && 0 <= b < freqs);
        assert(grid@[a * freqs + b] == point);
    }
    if (point.dt_ms == 0 || dt_grid == 3 && (point.dt_ms == 40 || point.dt_ms == -40)) && (
    point.df_quarters == 0 || df_grid == 3 && (point.df_quarters == 1 || point.df_quarters == -1)) {
        let a = if dt_grid == 3 {
            point.dt_ms / 40 + 1
        } else {
            0
        };
        let b = if df_grid == 3 {
            point.df_quarters + 1
        } else {
            0
        };
        assert(0 <= a < times && 0 <= b < freqs);
        let at = grid@[a * freqs + b];
        assert(at == point);
        assert(0 <= a * freqs + b < times * freqs) by (nonlinear_arith)
            requires
                0 <= a < times,
                0 <= b < freqs,
        ;
    }
}

} // verus!
