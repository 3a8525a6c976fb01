//! From ranked candidates to decoded messages.
//!
//! Each candidate climbs a staircase of attempts, cheap ones first. The soft
//! values and the fallback decoder come from the caller: a step says what to
//! compute next, and is told what came of it.

use super::llr::LlrSet;
use super::params;
use crate::fec::ldpc::bp;
use crate::fec::ldpc::bp::{BpResult, CheckRule, Crc14Check};
use crate::fec::ldpc::code::LdpcCode;
use crate::scalar::LlrScalar;
use crate::select;
use vstd::prelude::*;

verus! {

/// Candidates that the coarse search hands on.
pub const PASS1_LIMIT_DEFAULT: usize = 30;

/// Sync quality up to which a candidate is dropped unheard.
pub const MIN_QUALITY: u32 = 6;

/// Sync quality from which the fallback decoder is tried.
pub const OSD_QUALITY: u32 = 12;

/// Sync quality from which it is tried at full depth.
pub const DEEP_OSD_QUALITY: u32 = 18;

/// How far a candidate climbs.
#[derive(Clone, Copy, Debug, PartialEq, Eq, Structural)]
pub enum DecodeDepth {
    /// Belief propagation on the fast soft values only.
    Bp,
    /// Belief propagation on all four variants.
    BpAll,
    /// The same, and the fallback decoder where sync is good.
    BpAllOsd,
}

/// A limit given by the user, or the default.
pub fn pass1_limit(wanted: Option<usize>) -> (limit: usize)
    ensures
        limit == (match wanted {
            Some(v) => v,
            None => PASS1_LIMIT_DEFAULT,
        }),
{
    match wanted {
        Some(v) => v,
        None => PASS1_LIMIT_DEFAULT,
    }
}

/// The candidates with the best first Costas array, best first: `qualities`
/// holds each candidate's `sync_quality_block0`.
pub fn refine_candidates(qualities: &[u32], max_cand: usize) -> (kept: Vec<usize>)
    ensures
        select::is_best(qualities@, max_cand as nat, kept@),
{
    select::best_of(qualities, max_cand)
}

/// A point of the search grid around a candidate: milliseconds, and quarters
/// of a frequency bin.
#[derive(Clone, Copy, Debug, PartialEq, Eq, Structural)]
pub struct GridPoint {
    pub dt_ms: i32,
    pub df_quarters: i32,
}

/// Offset number `i` along one axis of the grid: three points, or only the
/// middle one.
pub open spec fn grid_offset(points: u8, step: int, i: int) -> int {
    if points == 3 {
        (i - 1) * step
    } else {
        0
    }
}

/// Points along one axis.
pub open spec fn grid_len(points: u8) -> int {
    if points == 3 {
        3
    } else {
        1
    }
}

/// The grid around a candidate, times outermost.
pub fn refinement_grid(dt_grid: u8, df_grid: u8) -> (grid: Vec<GridPoint>)
    ensures
        grid@.len() == grid_len(dt_grid) * grid_len(df_grid),
        forall|a: int, b: int|
            0 <= a < grid_len(dt_grid) && 0 <= b < grid_len(df_grid)
                ==> #[trigger] grid@[a * grid_len(df_grid) + b] == (GridPoint {
                dt_ms: grid_offset(dt_grid, 40, a) as i32,
                df_quarters: grid_offset(df_grid, 1, b) as i32,
            }),
{
    let times: i32 = if dt_grid == 3 {
        3
    } else {
        1
    };
    let freqs: i32 = if df_grid == 3 {
        3
    } else {
        1
    };
    let mut grid: Vec<GridPoint> = Vec::new();
    for a in 0..times
        invariant
            times == grid_len(dt_grid),
            freqs == grid_len(df_grid),
            grid@.len() == a * freqs,
            forall|p: int, b: int|
                0 <= p < a && 0 <= b < freqs ==> #[trigger] grid@[p * grid_len(df_grid) + b] == (
                GridPoint {
                    dt_ms: grid_offset(dt_grid, 40, p) as i32,
                    df_quarters: grid_offset(df_grid, 1, b) as i32,
                }),
    {
        let dt_ms: i32 = if times == 3 {
            (a - 1) * 40
        } else {
            0
        };
        for b in 0..freqs
            invariant
                0 <= a < times,
                times == grid_len(dt_grid),
                freqs == grid_len(df_grid),
                dt_ms == grid_offset(dt_grid, 40, a as int),
                grid@.len() == a * freqs + b,
                forall|p: int, r: int|
                    0 <= r < freqs && (0 <= p < a || p == a && r < b) ==> #[trigger] grid@[p
                        * grid_len(df_grid) + r] == (GridPoint {
                        dt_ms: grid_offset(dt_grid, 40, p) as i32,
                        df_quarters: grid_offset(df_grid, 1, r) as i32,
                    }),
        {
            let df_quarters: i32 = if freqs == 3 {
                b - 1
            } else {
                0
            };
            grid.push(GridPoint { dt_ms, df_quarters });
        }
        assert((a + 1) * freqs == a * freqs + freqs) by (nonlinear_arith);
    }
    grid
}

/// The grid point with the best sync quality, the first of equal ones, if any
/// exceeds the threshold.
pub fn best_grid_point(qualities: &[u32], q_thresh: u32) -> (best: Option<usize>)
    ensures
        match best {
            Some(at) => select::is_first_peak(qualities@, at as int) && qualities@[at as int]
                > q_thresh,
            None => forall|i: int|
                0 <= i < qualities@.len() ==> #[trigger] qualities@[i] <= q_thresh,
        },
{
    select::first_peak_above(qualities, q_thresh)
}

/// What the fallback decoder found.
pub struct OsdResult {
    pub message77: [u8; 77],
    pub info: Vec<u8>,
    pub hard_errors: u32,
}

/// What to do next for a candidate.
pub enum Step {
    /// Compute the fast soft values.
    Fast,
    /// Compute the soft values in all four variants.
    Full,
    /// Run the fallback decoder on one variant.
    Osd { variant: u8, deep: bool },
    /// A message was found, in the attempt with this number.
    Accepted { result: BpResult, pass: u8 },
    /// Nothing was found.
    Rejected,
}

/// Start with a candidate of sync quality `q`.
pub fn start(q: u32, q_thresh: u32) -> (step: Step)
    ensures
        q > q_thresh ==> step is Fast,
        q <= q_thresh ==> step is Rejected,
{
    if q <= q_thresh {
        Step::Rejected
    } else {
        Step::Fast
    }
}

/// What belief propagation makes of a list of soft values.
pub open spec fn attempt<T: LlrScalar, R: CheckRule<T>>(
    code: &LdpcCode,
    rule: &R,
    llr: Seq<T>,
) -> Option<(Seq<u8>, nat)> {
    bp::bp_outcome(code, rule, &Crc14Check, llr, None::<&[bool]>, params::BP_MAX_ITER as nat)
}

/// The step reports the word that belief propagation found in `llr`.
pub open spec fn accepts_word<T: LlrScalar>(
    step: Step,
    code: &LdpcCode,
    llr: Seq<T>,
    found: (Seq<u8>, nat),
    number: int,
) -> bool {
    step matches Step::Accepted { result, pass } && pass == number && result.reports(
        code,
        llr,
        found.0,
        found.1,
    )
}

/// Go on from the fast soft values.
pub fn after_fast<T: LlrScalar, R: CheckRule<T>>(
    code: &LdpcCode,
    rule: &R,
    llra: &[T; 174],
    depth: DecodeDepth,
) -> (step: Step)
    requires
        code.well_formed(),
        code.n == 174,
        code.k == 91,
        rule.valid(),
    ensures
        match attempt(code, rule, llra@) {
            Some(found) => accepts_word(step, code, llra@, found, 0),
            None => if depth == DecodeDepth::Bp {
                step is Rejected
            } else {
                step is Full
            },
        },
{
    match bp::bp_decode_kind(code, llra, None, params::BP_MAX_ITER, &Crc14Check, rule) {
        Some(result) => Step::Accepted { result, pass: 0 },
        None => {
            if depth == DecodeDepth::Bp {
                Step::Rejected
            } else {
                Step::Full
            }
        },
    }
}

/// The first variant, from `v` on, in which belief propagation finds a word.
pub open spec fn first_decoded<T: LlrScalar, R: CheckRule<T>>(
    code: &LdpcCode,
    rule: &R,
    full: &LlrSet<T>,
    v: int,
) -> Option<int>
    decreases 4 - v,
{
    if v >= 4 {
        None
    } else if attempt(code, rule, full.variant(v)) is Some {
        Some(v)
    } else {
        first_decoded(code, rule, full, v + 1)
    }
}

/// Whether the fallback decoder is tried.
pub open spec fn osd_allowed(depth: DecodeDepth, q: u32) -> bool {
    depth == DecodeDepth::BpAllOsd && q >= OSD_QUALITY
}

/// Go on from the soft values in all variants.
pub fn after_full<T: LlrScalar, R: CheckRule<T>>(
    code: &LdpcCode,
    rule: &R,
    full: &LlrSet<T>,
    depth: DecodeDepth,
    q: u32,
) -> (step: Step)
    requires
        code.well_formed(),
        code.n == 174,
        code.k == 91,
        rule.valid(),
    ensures
        match first_decoded(code, rule, full, 0) {
            Some(v) => 0 <= v < 4 && attempt(code, rule, full.variant(v)) is Some && accepts_word(
                step,
                code,
                full.variant(v),
                attempt(code, rule, full.variant(v))->0,
                v,
            ),
            None => if osd_allowed(depth, q) {
                step matches Step::Osd { variant, deep } && variant == 0 && deep == (q
                    >= DEEP_OSD_QUALITY)
            } else {
                step is Rejected
            },
        },
{
    proof {
        reveal_with_fuel(first_decoded, 5);
    }
    match bp::bp_decode_kind(code, &full.llra, None, params::BP_MAX_ITER, &Crc14Check, rule) {
        Some(result) => {
            return Step::Accepted { result, pass: 0 };
        },
        None => {},
    }
    match bp::bp_decode_kind(code, &full.llrb, None, params::BP_MAX_ITER, &Crc14Check, rule) {
        Some(result) => {
            return Step::Accepted { result, pass: 1 };
        },
        None => {},
    }
    match bp::bp_decode_kind(code, &full.llrc, None, params::BP_MAX_ITER, &Crc14Check, rule) {
        Some(result) => {
            return Step::Accepted { result, pass: 2 };
        },
        None => {},
    }
    match bp::bp_decode_kind(code, &full.llrd, None, params::BP_MAX_ITER, &Crc14Check, rule) {
        Some(result) => {
            return Step::Accepted { result, pass: 3 };
        },
        None => {},
    }
    if depth == DecodeDepth::BpAllOsd && q >= OSD_QUALITY {
        Step::Osd { variant: 0, deep: q >= DEEP_OSD_QUALITY }
    } else {
        Step::Rejected
    }
}

/// Go on from what the fallback decoder made of one variant. It finds no
/// codeword of its own: the result carries an empty one.
pub fn after_osd(variant: u8, deep: bool, found: Option<OsdResult>) -> (step: Step)
    requires
        variant < 4,
    ensures
        match found {
            Some(osd) => step matches Step::Accepted { result, pass } && pass == 4 + variant
                && result.message77 == osd.message77 && result.info == osd.info
                && result.hard_errors == osd.hard_errors && result.iterations == 0
                && result.codeword@ == Seq::new(174, |i: int| 0u8),
            None => if variant < 3 {
                step matches Step::Osd { variant: v, deep: d } && v == variant + 1 && d == deep
            } else {
                step is Rejected
            },
        },
{
    match found {
        Some(osd) => {
            let codeword: Vec<u8> = vec![0u8; 174];
            assert(codeword@ =~= Seq::new(174, |i: int| 0u8));
            Step::Accepted {
                result: BpResult {
                    message77: osd.message77,
                    info: osd.info,
                    codeword,
                    hard_errors: osd.hard_errors,
                    iterations: 0,
                },
                pass: 4 + variant,
            }
        },
        None => {
            if variant < 3 {
                Step::Osd { variant: variant + 1, deep }
            } else {
                Step::Rejected
            }
        },
    }
}

/// A decoded message, with what the caller reports about it.
pub struct DecodeResult<A> {
    pub message77: [u8; 77],
    pub hard_errors: u32,
    /// Number of the attempt that found it.
    pub pass: u8,
    /// Found in the fast soft values.
    pub fast: bool,
    /// Frequency, time, strength.
    pub report: A,
}

/// Whether a message is among the results.
pub open spec fn is_known<A>(results: Seq<DecodeResult<A>>, message: Seq<u8>) -> bool {
    exists|i: int| 0 <= i < results.len() && (#[trigger] results[i]).message77@ == message
}

/// No message is reported twice.
pub open spec fn no_repeats<A>(results: Seq<DecodeResult<A>>) -> bool {
    forall|i: int, j: int|
        0 <= i < j < results.len() ==> (#[trigger] results[i]).message77@ != (
        #[trigger] results[j]).message77@
}

/// Whether two messages are equal.
fn same_message(a: &[u8; 77], b: &[u8; 77]) -> (same: bool)
    ensures
        same == (a@ == b@),
{
    for i in 0..77usize
        invariant
            forall|q: int| 0 <= q < i ==> #[trigger] a@[q] == b@[q],
    {
        if a[i] != b[i] {
            return false;
        }
    }
    assert(a@ =~= b@);
    true
}

/// Whether a message is among the results.
pub fn knows<A>(results: &Vec<DecodeResult<A>>, message77: &[u8; 77]) -> (known: bool)
    ensures
        known == is_known(results@, message77@),
{
    for i in 0..results.len()
        invariant
            forall|q: int| 0 <= q < i ==> (#[trigger] results@[q]).message77@ != message77@,
    {
        if same_message(&results[i].message77, message77) {
            assert(results@[i as int].message77@ == message77@);
            return true;
        }
    }
    false
}

/// Decoding errors shown on the console: the fast attempt shows none.
pub fn shown_errors(fast: bool, hard_errors: u32) -> (shown: u32)
    ensures
        shown == (if fast {
            0
        } else {
            hard_errors
        }),
{
    if fast {
        0
    } else {
        hard_errors
    }
}

} // verus!
