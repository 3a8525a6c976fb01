//! The decoding of a slot's candidates.
//!
//! Spectra, soft values and texts are the caller's, given as functions; which
//! of them is asked for what, and what is reported, is decided here.

use super::llr::LlrSet;
use super::staircase;
use super::staircase::{DecodeDepth, DecodeResult, OsdResult, Step};
use crate::fec::ldpc::bp;
use crate::fec::ldpc::bp::CheckRule;
use crate::fec::ldpc::code::LdpcCode;
use crate::scalar::LlrScalar;
use crate::select;
use vstd::prelude::*;

verus! {

/// What the decoder asks of its surroundings. A candidate is named by its
/// number, a point of the grid around it by another.
pub struct Frontend<Q, F, L, O, D, P> {
    /// Sync quality of a candidate at a grid point.
    pub quality: Q,
    /// Its fast soft values.
    pub fast: F,
    /// Its soft values in all variants.
    pub full: L,
    /// What the fallback decoder finds in a variant.
    pub osd: O,
    /// Whether a message can be read as a plausible text.
    pub readable: D,
    /// What is reported of a message.
    pub report: P,
}

/// A message that was found, and how.
pub struct Found {
    pub message77: [u8; 77],
    pub hard_errors: u32,
    pub pass: u8,
    /// Found in the fast soft values.
    pub fast: bool,
}

/// How the decoder is set.
pub struct Settings<'a, R> {
    pub code: &'a LdpcCode,
    pub rule: &'a R,
    pub depth: DecodeDepth,
    /// Sync quality that a candidate has to exceed.
    pub q_thresh: u32,
    /// Points of the grid around a candidate.
    pub grid: usize,
}

impl<'a, R> Settings<'a, R> {
    /// The code is that of the mode, and the rule can be used.
    pub open spec fn valid<T: LlrScalar>(&self) -> bool where R: CheckRule<T> {
        &&& self.code.well_formed()
        &&& self.code.n == 174
        &&& self.code.k == 91
        &&& self.rule.valid()
    }
}

impl<Q, F, L, O, D, P> Frontend<Q, F, L, O, D, P> {
    /// The functions take candidate `c` at grid point `g`.
    pub open spec fn callable<T: LlrScalar, A>(&self, c: usize, g: usize) -> bool where
        Q: Fn(usize, usize) -> u32,
        F: Fn(usize, usize) -> [T; 174],
        L: Fn(usize, usize) -> LlrSet<T>,
        O: Fn(usize, usize, u8, bool) -> Option<OsdResult>,
        D: Fn(&[u8; 77]) -> bool,
        P: Fn(usize, usize, &[u8; 77]) -> A,
     {
        &&& call_requires(self.quality, (c, g))
        &&& call_requires(self.fast, (c, g))
        &&& call_requires(self.full, (c, g))
        &&& forall|v: u8, deep: bool|
            v < 4 ==> #[trigger] call_requires(self.osd, (c, g, v, deep))
        &&& forall|m: &[u8; 77]| #[trigger] call_requires(self.readable, (m,))
        &&& forall|m: &[u8; 77]| #[trigger] call_requires(self.report, (c, g, m))
    }

    /// The sync qualities of a candidate over the grid.
    pub open spec fn qualities(&self, c: usize, qs: Seq<u32>) -> bool where
        Q: Fn(usize, usize) -> u32,
     {
        forall|g: int|
            0 <= g < qs.len() ==> call_ensures(self.quality, (c, g as usize), #[trigger] qs[g])
    }

    /// What the fallback decoder leads to from variant `v` on.
    pub open spec fn falls_back(
        &self,
        c: usize,
        g: usize,
        deep: bool,
        v: int,
        out: Option<Found>,
    ) -> bool where O: Fn(usize, usize, u8, bool) -> Option<OsdResult>
        decreases 4 - v,
    {
        if v >= 4 {
            out is None
        } else {
            exists|osd: Option<OsdResult>|
                {
                    &&& #[trigger] call_ensures(self.osd, (c, g, v as u8, deep), osd)
                    &&& match osd {
                        Some(o) => out == Some(
                            Found {
                                message77: o.message77,
                                hard_errors: o.hard_errors,
                                pass: (4 + v) as u8,
                                fast: false,
                            },
                        ),
                        None => self.falls_back(c, g, deep, v + 1, out),
                    }
                }
        }
    }

    /// What the soft values in all variants lead to.
    pub open spec fn goes_on<T: LlrScalar, R: CheckRule<T>>(
        &self,
        set: &Settings<'_, R>,
        c: usize,
        g: usize,
        q: u32,
        out: Option<Found>,
    ) -> bool where
        L: Fn(usize, usize) -> LlrSet<T>,
        O: Fn(usize, usize, u8, bool) -> Option<OsdResult>,
     {
        exists|full: LlrSet<T>|
            {
                &&& #[trigger] call_ensures(self.full, (c, g), full)
                &&& match staircase::first_decoded(set.code, set.rule, &full, 0) {
                    Some(v) => is_found(set.code, set.rule, full.variant(v), v, false, out),
                    None => if staircase::osd_allowed(set.depth, q) {
                        self.falls_back(c, g, q >= staircase::DEEP_OSD_QUALITY, 0, out)
                    } else {
                        out is None
                    },
                }
            }
    }

    /// What a candidate leads to at a grid point.
    pub open spec fn climbs<T: LlrScalar, R: CheckRule<T>>(
        &self,
        set: &Settings<'_, R>,
        c: usize,
        g: usize,
        q: u32,
        out: Option<Found>,
    ) -> bool where
        F: Fn(usize, usize) -> [T; 174],
        L: Fn(usize, usize) -> LlrSet<T>,
        O: Fn(usize, usize, u8, bool) -> Option<OsdResult>,
     {
        exists|fast: [T; 174]|
            {
                &&& #[trigger] call_ensures(self.fast, (c, g), fast)
                &&& match staircase::attempt(set.code, set.rule, fast@) {
                    Some(_) => is_found(set.code, set.rule, fast@, 0, true, out),
                    None => if set.depth == DecodeDepth::Bp {
                        out is None
                    } else {
                        self.goes_on(set, c, g, q, out)
                    },
                }
            }
    }

    /// What a candidate leads to: nothing where no grid point has the sync
    /// quality, otherwise what the best grid point leads to.
    pub open spec fn settles<T: LlrScalar, R: CheckRule<T>>(
        &self,
        set: &Settings<'_, R>,
        c: usize,
        g: usize,
        out: Option<Found>,
    ) -> bool where
        Q: Fn(usize, usize) -> u32,
        F: Fn(usize, usize) -> [T; 174],
        L: Fn(usize, usize) -> LlrSet<T>,
        O: Fn(usize, usize, u8, bool) -> Option<OsdResult>,
     {
        exists|qs: Seq<u32>|
            {
                &&& qs.len() == set.grid
                &&& #[trigger] self.qualities(c, qs)
                &&& if select::is_first_peak(qs, g as int) && qs[g as int] > set.q_thresh {
                    self.climbs(set, c, g, qs[g as int], out)
                } else {
                    &&& out is None
                    &&& forall|i: int| 0 <= i < qs.len() ==> #[trigger] qs[i] <= set.q_thresh
                }
            }
    }

    /// The results after a candidate that led to `out`.
    pub open spec fn reports<A>(
        &self,
        c: usize,
        g: usize,
        out: Option<Found>,
        before: Seq<DecodeResult<A>>,
        after: Seq<DecodeResult<A>>,
    ) -> bool where D: Fn(&[u8; 77]) -> bool, P: Fn(usize, usize, &[u8; 77]) -> A {
        match out {
            None => after == before,
            Some(found) => exists|ok: bool|
                {
                    &&& #[trigger] call_ensures(self.readable, (&found.message77,), ok)
                    &&& if ok && !staircase::is_known(before, found.message77@) {
                        exists|report: A|
                            {
                                &&& #[trigger] call_ensures(
                                    self.report,
                                    (c, g, &found.message77),
                                    report,
                                )
                                &&& after == before.push(
                                    DecodeResult {
                                        message77: found.message77,
                                        hard_errors: found.hard_errors,
                                        pass: found.pass,
                                        fast: found.fast,
                                        report,
                                    },
                                )
                            }
                    } else {
                        after == before
                    }
                },
        }
    }

    /// Candidate `c` takes the results from `before` to `after`.
    pub open spec fn advances<T: LlrScalar, A, R: CheckRule<T>>(
        &self,
        set: &Settings<'_, R>,
        c: usize,
        before: Seq<DecodeResult<A>>,
        after: Seq<DecodeResult<A>>,
    ) -> bool where
        Q: Fn(usize, usize) -> u32,
        F: Fn(usize, usize) -> [T; 174],
        L: Fn(usize, usize) -> LlrSet<T>,
        O: Fn(usize, usize, u8, bool) -> Option<OsdResult>,
        D: Fn(&[u8; 77]) -> bool,
        P: Fn(usize, usize, &[u8; 77]) -> A,
     {
        exists|g: usize, out: Option<Found>| #[trigger]
            self.settles(set, c, g, out) && #[trigger] self.reports(c, g, out, before, after)
    }

    /// The results of a list of candidates, taken in turn: `steps[i]` are those
    /// before number `i` of the list.
    pub open spec fn processed<T: LlrScalar, A, R: CheckRule<T>>(
        &self,
        set: &Settings<'_, R>,
        cands: Seq<usize>,
        steps: Seq<Seq<DecodeResult<A>>>,
    ) -> bool where
        Q: Fn(usize, usize) -> u32,
        F: Fn(usize, usize) -> [T; 174],
        L: Fn(usize, usize) -> LlrSet<T>,
        O: Fn(usize, usize, u8, bool) -> Option<OsdResult>,
        D: Fn(&[u8; 77]) -> bool,
        P: Fn(usize, usize, &[u8; 77]) -> A,
     {
        &&& steps.len() == cands.len() + 1
        &&& steps[0] == Seq::<DecodeResult<A>>::empty()
        &&& forall|i: int|
            0 <= i < cands.len() ==> #[trigger] self.advances(
                set,
                cands[i],
                steps[i],
                steps[i + 1],
            )
    }

    /// The results of `n` candidates, of which those with the best first Costas
    /// array are decoded, best first.
    pub open spec fn decodes<T: LlrScalar, A, R: CheckRule<T>, B: Fn(usize) -> u32>(
        &self,
        set: &Settings<'_, R>,
        block0: B,
        n: int,
        max_cand: nat,
        results: Seq<DecodeResult<A>>,
    ) -> bool where
        Q: Fn(usize, usize) -> u32,
        F: Fn(usize, usize) -> [T; 174],
        L: Fn(usize, usize) -> LlrSet<T>,
        O: Fn(usize, usize, u8, bool) -> Option<OsdResult>,
        D: Fn(&[u8; 77]) -> bool,
        P: Fn(usize, usize, &[u8; 77]) -> A,
     {
        exists|qs: Seq<u32>, kept: Seq<usize>, steps: Seq<Seq<DecodeResult<A>>>|
            {
                &&& qs.len() == n
                &&& forall|c: int|
                    0 <= c < n ==> call_ensures(block0, (c as usize,), #[trigger] qs[c])
                &&& #[trigger] select::is_best(qs, max_cand, kept)
                &&& #[trigger] self.processed::<T, A, R>(set, kept, steps)
                &&& steps.last() == results
            }
    }
}

/// What belief propagation found in `llr`.
pub open spec fn is_found<T: LlrScalar, R: CheckRule<T>>(
    code: &LdpcCode,
    rule: &R,
    llr: Seq<T>,
    pass: int,
    fast: bool,
    out: Option<Found>,
) -> bool {
    &&& staircase::attempt(code, rule, llr) matches Some((word, iter))
    &&& out matches Some(found)
    &&& found.message77@ == word.take(77)
    &&& found.hard_errors == bp::disagreements(word, llr, word.len() as int)
    &&& found.pass == pass
    &&& found.fast == fast
}

/// Climb the staircase with one candidate.
fn climb<T: LlrScalar, A, R: CheckRule<T>, Q, F, L, O, D, P>(
    set: &Settings<'_, R>,
    front: &Frontend<Q, F, L, O, D, P>,
    c: usize,
    g: usize,
    q: u32,
) -> (out: Option<Found>) where
    Q: Fn(usize, usize) -> u32,
    F: Fn(usize, usize) -> [T; 174],
    L: Fn(usize, usize) -> LlrSet<T>,
    O: Fn(usize, usize, u8, bool) -> Option<OsdResult>,
    D: Fn(&[u8; 77]) -> bool,
    P: Fn(usize, usize, &[u8; 77]) -> A,

    requires
        set.valid::<T>(),
        front.callable::<T, A>(c, g),
    ensures
        front.climbs::<T, R>(set, c, g, q, out),
{
    let fast: [T; 174] = (front.fast)(c, g);
    assert(call_ensures(front.fast, (c, g), fast));
    match staircase::after_fast(set.code, set.rule, &fast, set.depth) {
        Step::Accepted { result, pass } => {
            return Some(
                Found {
                    message77: result.message77,
                    hard_errors: result.hard_errors,
                    pass,
                    fast: true,
                },
            );
        },
        Step::Full => {},
        _ => {
            return None;
        },
    }
    let full: LlrSet<T> = (front.full)(c, g);
    assert(call_ensures(front.full, (c, g), full));
    match staircase::after_full(set.code, set.rule, &full, set.depth, q) {
        Step::Accepted { result, pass } => {
            let out: Option<Found> = Some(
                Found {
                    message77: result.message77,
                    hard_errors: result.hard_errors,
                    pass,
                    fast: false,
                },
            );
            assert(front.goes_on::<T, R>(set, c, g, q, out));
            out
        },
        Step::Osd { deep, .. } => {
            let out: Option<Found> = fall_back::<T, A, Q, F, L, O, D, P>(front, c, g, deep, 0);
            assert(front.goes_on::<T, R>(set, c, g, q, out));
            out
        },
        _ => {
            assert(front.goes_on::<T, R>(set, c, g, q, None));
            None
        },
    }
}

/// Try the fallback decoder on the variants from `v` on.
fn fall_back<T: LlrScalar, A, Q, F, L, O, D, P>(
    front: &Frontend<Q, F, L, O, D, P>,
    c: usize,
    g: usize,
    deep: bool,
    v: u8,
) -> (out: Option<Found>) where
    Q: Fn(usize, usize) -> u32,
    F: Fn(usize, usize) -> [T; 174],
    L: Fn(usize, usize) -> LlrSet<T>,
    O: Fn(usize, usize, u8, bool) -> Option<OsdResult>,
    D: Fn(&[u8; 77]) -> bool,
    P: Fn(usize, usize, &[u8; 77]) -> A,

    requires
        v < 4,
        front.callable::<T, A>(c, g),
    ensures
        front.falls_back(c, g, deep, v as int, out),
    decreases 4 - v,
{
    let osd: Option<OsdResult> = (front.osd)(c, g, v, deep);
    assert(call_ensures(front.osd, (c, g, (v as int) as u8, deep), osd));
    match staircase::after_osd(v, deep, osd) {
        Step::Accepted { result, pass } => Some(
            Found {
                message77: result.message77,
                hard_errors: result.hard_errors,
                pass,
                fast: false,
            },
        ),
        Step::Osd { variant, .. } => fall_back::<T, A, Q, F, L, O, D, P>(
            front,
            c,
            g,
            deep,
            variant,
        ),
        _ => {
            assert(front.falls_back(c, g, deep, v + 1, None)) by {
                reveal_with_fuel(Frontend::falls_back, 2);
            }
            None
        },
    }
}

/// Decode the listed candidates in their order. A candidate is taken at the
/// grid point of the best sync quality; every message is reported once.
pub fn process_candidates<T: LlrScalar, A, R: CheckRule<T>, Q, F, L, O, D, P>(
    set: &Settings<'_, R>,
    front: &Frontend<Q, F, L, O, D, P>,
    cands: &[usize],
) -> (results: Vec<DecodeResult<A>>) where
    Q: Fn(usize, usize) -> u32,
    F: Fn(usize, usize) -> [T; 174],
    L: Fn(usize, usize) -> LlrSet<T>,
    O: Fn(usize, usize, u8, bool) -> Option<OsdResult>,
    D: Fn(&[u8; 77]) -> bool,
    P: Fn(usize, usize, &[u8; 77]) -> A,

    requires
        set.valid::<T>(),
        forall|i: int, g: usize|
            0 <= i < cands@.len() && g < set.grid ==> #[trigger] front.callable::<T, A>(
                cands@[i],
                g,
            ),
    ensures
        exists|steps: Seq<Seq<DecodeResult<A>>>| #[trigger]
            front.processed::<T, A, R>(set, cands@, steps) && steps.last() == results@,
        staircase::no_repeats(results@),
{
    let mut results: Vec<DecodeResult<A>> = Vec::new();
    let ghost mut steps: Seq<Seq<DecodeResult<A>>> = seq![results@];
    for i in 0..cands.len()
        invariant
            set.valid::<T>(),
            forall|i: int, g: usize|
                0 <= i < cands@.len() && g < set.grid ==> #[trigger] front.callable::<T, A>(
                    cands@[i],
                    g,
                ),
            front.processed::<T, A, R>(set, cands@.take(i as int), steps),
            steps.last() == results@,
            staircase::no_repeats(results@),
    {
        let ghost before = results@;
        let c: usize = cands[i];
        let mut qs: Vec<u32> = Vec::new();
        for g in 0..set.grid
            invariant
                forall|g: usize| g < set.grid ==> #[trigger] front.callable::<T, A>(c, g),
                qs@.len() == g,
                front.qualities(c, qs@),
        {
            assert(front.callable::<T, A>(c, g));
            let q: u32 = (front.quality)(c, g);
            assert(call_ensures(front.quality, (c, ((g as int) as usize)), q));
            qs.push(q);
        }
        match select::first_peak_above(&qs, set.q_thresh) {
            Some(g) => {
                assert(front.callable::<T, A>(c, g));
                let out: Option<Found> = climb::<T, A, R, Q, F, L, O, D, P>(
                    set,
                    front,
                    c,
                    g,
                    qs[g],
                );
                let ghost led_to = out;
                assert(front.settles::<T, R>(set, c, g, led_to)) by {
                    assert(front.qualities(c, qs@));
                }
                if let Some(found) = out {
                    let ok: bool = (front.readable)(&found.message77);
                    assert(call_ensures(front.readable, (&found.message77,), ok));
                    if ok && !staircase::knows(&results, &found.message77) {
                        let report: A = (front.report)(c, g, &found.message77);
                        assert(call_ensures(front.report, (c, g, &found.message77), report));
                        results.push(
                            DecodeResult {
                                message77: found.message77,
                                hard_errors: found.hard_errors,
                                pass: found.pass,
                                fast: found.fast,
                                report,
                            },
                        );
                    }
                }
                assert(front.reports(c, g, led_to, before, results@));
                assert(front.advances::<T, A, R>(set, c, before, results@));
            },
            None => {
                assert(front.settles::<T, R>(set, c, 0, None)) by {
                    assert(front.qualities(c, qs@));
                }
                assert(front.reports::<A>(c, 0, None, before, results@));
                assert(front.advances::<T, A, R>(set, c, before, results@));
            },
        }
        proof {
            let old_steps = steps;
            steps = steps.push(results@);
            let taken = cands@.take(i + 1);
            assert forall|k: int| 0 <= k < taken.len() implies #[trigger] front.advances::<T, A, R>(
                set,
                taken[k],
                steps[k],
                steps[k + 1],
            ) by {
                if k < i {
                    assert(front.advances::<T, A, R>(
                        set,
                        cands@.take(i as int)[k],
                        old_steps[k],
                        old_steps[k + 1],
                    ));
                }
            }
        }
    }
    assert(cands@.take(cands@.len() as int) =~= cands@);
    results
}

/// Decode the candidates of a slot, `n` of them: rank them by the quality of
/// their first Costas array, which `block0` measures, keep the best `max_cand`
/// and decode those.
pub fn decode_block<T: LlrScalar, A, R: CheckRule<T>, B, Q, F, L, O, D, P>(
    set: &Settings<'_, R>,
    front: &Frontend<Q, F, L, O, D, P>,
    block0: &B,
    n: usize,
    max_cand: usize,
) -> (results: Vec<DecodeResult<A>>) where
    B: Fn(usize) -> u32,
    Q: Fn(usize, usize) -> u32,
    F: Fn(usize, usize) -> [T; 174],
    L: Fn(usize, usize) -> LlrSet<T>,
    O: Fn(usize, usize, u8, bool) -> Option<OsdResult>,
    D: Fn(&[u8; 77]) -> bool,
    P: Fn(usize, usize, &[u8; 77]) -> A,

    requires
        set.valid::<T>(),
        forall|c: usize| c < n ==> #[trigger] call_requires(*block0, (c,)),
        forall|c: usize, g: usize|
            c < n && g < set.grid ==> #[trigger] front.callable::<T, A>(c, g),
    ensures
        front.decodes::<T, A, R, B>(set, *block0, n as int, max_cand as nat, results@),
        staircase::no_repeats(results@),
{
    let mut qs: Vec<u32> = Vec::new();
    for c in 0..n
        invariant
            forall|c: usize| c < n ==> #[trigger] call_requires(*block0, (c,)),
            qs@.len() == c,
            forall|k: int|
                0 <= k < c ==> call_ensures(*block0, (k as usize,), #[trigger] qs@[k]),
    {
        let q: u32 = block0(c);
        assert(call_ensures(*block0, ((c as int) as usize,), q));
        qs.push(q);
    }
    let kept: Vec<usize> = staircase::refine_candidates(&qs, max_cand);
    proof {
        select::lemma_best_in_range(qs@, max_cand as nat, kept@);
    }
    process_candidates(set, front, &kept)
}

} // verus!
