//! Scanning audio for any number of transmissions.
//!
//! Scores, demodulation and subtraction are the caller's, given as functions;
//! which alignment is decoded and what is reported is decided here.

use super::decode;
use super::decode::{CallerTime, Sighting};
use crate::select;
use vstd::prelude::*;

verus! {

/// A decoded transmission.
pub struct WsprDecode<M> {
    /// Message and frequency.
    pub message: M,
    pub time: CallerTime,
}

/// What a scan asks of its surroundings. A candidate is named by its number,
/// a frequency around it by another.
pub struct ScanFront<B, G, D, S> {
    /// Order key of the sync score of a candidate where the search found it.
    pub base: B,
    /// Order key of its sync score at another start time and frequency.
    pub score: G,
    /// What is decoded at a start time and frequency.
    pub decode: D,
    /// Whether two decodes have the same message at nearly the same frequency.
    pub same: S,
}

/// The search around each candidate.
pub struct Refinement {
    /// Start times to either side, and their distance.
    pub radius: i64,
    pub step: i64,
    /// Frequencies at each start time.
    pub n_freqs: usize,
    /// Samples of silence in front of the caller's audio.
    pub pad: usize,
}

impl Refinement {
    pub open spec fn valid(&self) -> bool {
        &&& i64::MIN < self.radius
        &&& 0 < self.step
        &&& self.radius + self.step <= i64::MAX
        &&& self.pad <= i64::MAX
    }

    /// The start times around `start` can be counted.
    pub open spec fn reaches(&self, start: usize) -> bool {
        &&& start <= i64::MAX
        &&& start + self.radius <= i64::MAX
        &&& start + self.radius <= usize::MAX
    }
}

impl<B, G, D, S> ScanFront<B, G, D, S> {
    /// The functions take candidate `c` at `n_freqs` frequencies.
    pub open spec fn callable<M>(&self, c: usize, n_freqs: int) -> bool where
        B: Fn(usize) -> u32,
        G: Fn(usize, usize, usize) -> u32,
        D: Fn(usize, usize, Option<usize>) -> Option<M>,
        S: Fn(&M, &M) -> bool,
     {
        &&& call_requires(self.base, (c,))
        &&& forall|t: usize, f: usize|
            f < n_freqs ==> #[trigger] call_requires(self.score, (c, t, f))
        &&& forall|t: usize, f: Option<usize>|
            (f is Some ==> f->0 < n_freqs) ==> #[trigger] call_requires(self.decode, (c, t, f))
        &&& forall|a: &M, b: &M| #[trigger] call_requires(self.same, (a, b))
    }

    /// Scores over the grid: entry `t * n_freqs + f` belongs to start time `t`
    /// and frequency `f`.
    pub open spec fn scores(&self, c: usize, times: Seq<usize>, n_freqs: int, keys: Seq<u32>) -> bool where
        G: Fn(usize, usize, usize) -> u32,
     {
        &&& keys.len() == times.len() * n_freqs
        &&& forall|t: int, f: int|
            0 <= t < times.len() && 0 <= f < n_freqs ==> call_ensures(
                self.score,
                (c, times[t], f as usize),
                #[trigger] keys[t * n_freqs + f],
            )
    }

    /// The alignment that a candidate is decoded at.
    pub open spec fn aligns(
        &self,
        set: &Refinement,
        c: usize,
        start: usize,
        at: (usize, Option<usize>),
    ) -> bool where B: Fn(usize) -> u32, G: Fn(usize, usize, usize) -> u32 {
        exists|base: u32, times: Seq<usize>, keys: Seq<u32>|
            {
                &&& #[trigger] call_ensures(self.base, (c,), base)
                &&& times.map_values(|t: usize| t as int) == decode::grid_times(
                    start as int,
                    set.radius as int,
                    set.step as int,
                    -set.radius,
                )
                &&& #[trigger] self.scores(c, times, set.n_freqs as int, keys)
                &&& match at.1 {
                    Some(f) => exists|t: int|
                        0 <= t < times.len() && f < set.n_freqs && at.0 == #[trigger] times[t]
                            && select::is_first_peak(keys, t * set.n_freqs + f) && keys[t
                            * set.n_freqs + f] > base,
                    None => at.0 == start && forall|i: int|
                        0 <= i < keys.len() ==> #[trigger] keys[i] <= base,
                }
            }
    }

    /// The decodes after candidate `c`, found at sample `start`.
    pub open spec fn advances<M>(
        &self,
        set: &Refinement,
        c: usize,
        start: usize,
        before: Seq<WsprDecode<M>>,
        after: Seq<WsprDecode<M>>,
    ) -> bool where
        B: Fn(usize) -> u32,
        G: Fn(usize, usize, usize) -> u32,
        D: Fn(usize, usize, Option<usize>) -> Option<M>,
        S: Fn(&M, &M) -> bool,
     {
        exists|at: (usize, Option<usize>), found: Option<M>|
            {
                &&& #[trigger] self.aligns(set, c, start, at)
                &&& #[trigger] call_ensures(self.decode, (c, at.0, at.1), found)
                &&& match found {
                    None => after == before,
                    Some(message) => exists|time: CallerTime|
                        {
                            &&& is_caller_time(at.0 as int, set.pad as int, time)
                            &&& #[trigger] adds(
                                self.same,
                                WsprDecode { message, time },
                                before,
                                after,
                            )
                        },
                }
            }
    }

    /// The candidates taken in turn: `steps[c]` are the decodes before
    /// candidate `c`.
    pub open spec fn scanned<M>(
        &self,
        set: &Refinement,
        starts: Seq<usize>,
        steps: Seq<Seq<WsprDecode<M>>>,
    ) -> bool where
        B: Fn(usize) -> u32,
        G: Fn(usize, usize, usize) -> u32,
        D: Fn(usize, usize, Option<usize>) -> Option<M>,
        S: Fn(&M, &M) -> bool,
     {
        &&& steps.len() == starts.len() + 1
        &&& steps[0] == Seq::<WsprDecode<M>>::empty()
        &&& forall|c: int|
            0 <= c < starts.len() ==> #[trigger] self.advances(
                set,
                c as usize,
                starts[c],
                steps[c],
                steps[c + 1],
            )
    }
}

/// Which of the earlier decodes have the new one's message and frequency, as
/// the function `f` tells them.
pub open spec fn matching<M, S: Fn(&M, &M) -> bool>(
    f: S,
    seen: Seq<WsprDecode<M>>,
    message: M,
    same: Seq<bool>,
) -> bool {
    &&& same.len() == seen.len()
    &&& forall|i: int|
        0 <= i < seen.len() ==> call_ensures(f, (&seen[i].message, &message), #[trigger] same[i])
}

/// The decodes after a further one: a repetition is left out.
pub open spec fn adds<M, S: Fn(&M, &M) -> bool>(
    f: S,
    found: WsprDecode<M>,
    before: Seq<WsprDecode<M>>,
    after: Seq<WsprDecode<M>>,
) -> bool {
    exists|same: Seq<bool>|
        {
            &&& #[trigger] matching(f, before, found.message, same)
            &&& after == if repeats(before, same, found.time) {
                before
            } else {
                before.push(found)
            }
        }
}

/// A start time in padded audio, as the caller sees it.
pub open spec fn is_caller_time(start: int, pad: int, time: CallerTime) -> bool {
    &&& time.signed == start - pad
    &&& time.start_sample == (if start < pad {
        0
    } else {
        start - pad
    })
}

/// Whether a decode that starts at `time` repeats one of the earlier ones that
/// have its message and frequency.
pub open spec fn repeats<M>(seen: Seq<WsprDecode<M>>, same: Seq<bool>, time: CallerTime) -> bool {
    exists|i: int|
        0 <= i < seen.len() && #[trigger] same[i] && start_together(seen[i].time, time)
}

/// Whether two decodes start within a symbol of each other.
pub open spec fn start_together(a: CallerTime, b: CallerTime) -> bool {
    -(decode::TIME_DEDUP_SAMPLES as int) <= a.start_sample - b.start_sample
        <= decode::TIME_DEDUP_SAMPLES
}

/// Two decodes are of different transmissions: `f` tells them apart, or they
/// do not start together.
pub open spec fn told_apart<M, S: Fn(&M, &M) -> bool>(
    f: S,
    a: WsprDecode<M>,
    b: WsprDecode<M>,
) -> bool {
    exists|same: bool| #[trigger]
        call_ensures(f, (&a.message, &b.message), same) && !(same && start_together(
            a.time,
            b.time,
        ))
}

/// No transmission is reported twice.
pub open spec fn no_repeats<M, S: Fn(&M, &M) -> bool>(f: S, seen: Seq<WsprDecode<M>>) -> bool {
    forall|i: int, j: int|
        0 <= i < j < seen.len() ==> told_apart(f, #[trigger] seen[i], #[trigger] seen[j])
}

proof fn lemma_adding_keeps_apart<M, S: Fn(&M, &M) -> bool>(
    f: S,
    found: WsprDecode<M>,
    before: Seq<WsprDecode<M>>,
    after: Seq<WsprDecode<M>>,
)
    requires
        adds(f, found, before, after),
        no_repeats(f, before),
    ensures
        no_repeats(f, after),
{
    let same = choose|same: Seq<bool>|
        {
            &&& #[trigger] matching(f, before, found.message, same)
            &&& after == if repeats(before, same, found.time) {
                before
            } else {
                before.push(found)
            }
        };
    if !repeats(before, same, found.time) {
        assert forall|i: int, j: int| 0 <= i < j < after.len() implies told_apart(
            f,
            #[trigger] after[i],
            #[trigger] after[j],
        ) by {
            if j < before.len() {
                assert(told_apart(f, before[i], before[j]));
            } else {
                assert(call_ensures(f, (&after[i].message, &after[j].message), same[i]));
            }
        }
    }
}

/// Whether a decode repeats an earlier one.
fn is_repetition<M, S: Fn(&M, &M) -> bool>(
    f: &S,
    seen: &Vec<WsprDecode<M>>,
    message: &M,
    time: CallerTime,
) -> (dup: bool)
    requires
        forall|a: &M, b: &M| #[trigger] call_requires(*f, (a, b)),
    ensures
        exists|same: Seq<bool>| #[trigger]
            matching(*f, seen@, *message, same) && dup == repeats(seen@, same, time),
{
    let mut sightings: Vec<Sighting> = Vec::new();
    let ghost mut flags: Seq<bool> = Seq::empty();
    for i in 0..seen.len()
        invariant
            forall|a: &M, b: &M| #[trigger] call_requires(*f, (a, b)),
            flags.len() == i,
            sightings@.len() == i,
            forall|q: int|
                0 <= q < i ==> call_ensures(
                    *f,
                    (&seen@[q].message, message),
                    #[trigger] flags[q],
                ),
            forall|q: int|
                0 <= q < i ==> #[trigger] sightings@[q] == (Sighting {
                    same_message: flags[q],
                    near_frequency: flags[q],
                    start_sample: seen@[q].time.start_sample,
                }),
    {
        let same: bool = f(&seen[i].message, message);
        assert(call_ensures(*f, (&seen@[i as int].message, message), same));
        sightings.push(
            Sighting {
                same_message: same,
                near_frequency: same,
                start_sample: seen[i].time.start_sample,
            },
        );
        proof {
            flags = flags.push(same);
        }
    }
    let dup: bool = decode::is_duplicate(&sightings, time.start_sample);
    proof {
        assert(matching(*f, seen@, *message, flags));
        if dup {
            let i = choose|i: int|
                0 <= i < sightings@.len() && (#[trigger] sightings@[i]).repeats(
                    time.start_sample as int,
                );
            assert(flags[i]);
        } else if repeats(seen@, flags, time) {
            let i = choose|i: int|
                0 <= i < seen@.len() && #[trigger] flags[i] && start_together(seen@[i].time, time);
            assert(sightings@[i].repeats(time.start_sample as int));
        }
    }
    dup
}

/// Search the alignment of a candidate.
fn align<M, B, G, D, S>(
    front: &ScanFront<B, G, D, S>,
    set: &Refinement,
    c: usize,
    start: usize,
) -> (at: (usize, Option<usize>)) where
    B: Fn(usize) -> u32,
    G: Fn(usize, usize, usize) -> u32,
    D: Fn(usize, usize, Option<usize>) -> Option<M>,
    S: Fn(&M, &M) -> bool,

    requires
        front.callable::<M>(c, set.n_freqs as int),
        set.valid(),
        set.reaches(start),
    ensures
        front.aligns(set, c, start, at),
        at.0 <= i64::MAX,
        at.1 is Some ==> at.1->0 < set.n_freqs,
{
    let base: u32 = (front.base)(c);
    assert(call_ensures(front.base, (c,), base));
    let times: Vec<usize> = decode::refine_times(start, set.radius, set.step);
    let n_freqs: usize = set.n_freqs;
    let mut keys: Vec<u32> = Vec::new();
    assert(0 * n_freqs == 0) by (nonlinear_arith);
    for t in 0..times.len()
        invariant
            front.callable::<M>(c, n_freqs as int),
            keys@.len() == t * n_freqs,
            forall|q: int, f: int|
                0 <= q < t && 0 <= f < n_freqs ==> call_ensures(
                    front.score,
                    (c, times@[q], f as usize),
                    #[trigger] keys@[q * n_freqs + f],
                ),
    {
        let ghost before = keys@;
        for f in 0..n_freqs
            invariant
                front.callable::<M>(c, n_freqs as int),
                t < times@.len(),
                before.len() == t * n_freqs,
                keys@.len() == t * n_freqs + f,
                forall|x: int| 0 <= x < before.len() ==> #[trigger] keys@[x] == before[x],
                forall|g: int|
                    0 <= g < f ==> call_ensures(
                        front.score,
                        (c, times@[t as int], g as usize),
                        #[trigger] keys@[t * n_freqs + g],
                    ),
        {
            let key: u32 = (front.score)(c, times[t], f);
            assert(call_ensures(front.score, (c, times@[t as int], (f as int) as usize), key));
            keys.push(key);
        }
        assert((t + 1) * n_freqs == t * n_freqs + n_freqs) by (nonlinear_arith);
        assert forall|q: int, f: int| 0 <= q < t + 1 && 0 <= f < n_freqs implies call_ensures(
            front.score,
            (c, times@[q], f as usize),
            #[trigger] keys@[q * n_freqs + f],
        ) by {
            if q < t {
                assert(0 <= q * n_freqs + f < t * n_freqs) by (nonlinear_arith)
                    requires
                        0 <= q <= t - 1,
                        0 <= f < n_freqs,
                ;
                assert(keys@[q * n_freqs + f] == before[q * n_freqs + f]);
            }
        }
    }
    assert(front.scores(c, times@, n_freqs as int, keys@));
    match decode::best_alignment(base, &keys) {
        Some(i) => {
            proof {
                assert(n_freqs > 0) by {
                    if n_freqs == 0 {
                        assert(times@.len() * n_freqs == 0) by (nonlinear_arith)
                            requires
                                n_freqs == 0,
                        ;
                    }
                }
                vstd::arithmetic::div_mod::lemma_fundamental_div_mod(i as int, n_freqs as int);
                assert(i as int / n_freqs as int * n_freqs == n_freqs * (i as int / n_freqs as int))
                    by (nonlinear_arith);
                assert((i as int / n_freqs as int) < times@.len()) by (nonlinear_arith)
                    requires
                        i == n_freqs * (i as int / n_freqs as int) + i as int % n_freqs as int,
                        0 <= i as int % n_freqs as int,
                        i < times@.len() * n_freqs,
                        n_freqs > 0,
                ;
            }
            let t: usize = i / n_freqs;
            let f: usize = i % n_freqs;
            proof {
                lemma_grid_bounds(start as int, set.radius as int, set.step as int, -set.radius);
                let list = times@.map_values(|t: usize| t as int);
                assert(list[t as int] == times@[t as int]);
            }
            (times[t], Some(f))
        },
        None => (start, None),
    }
}

/// Start times of the grid lie within its radius.
proof fn lemma_grid_bounds(start: int, radius: int, step: int, from: int)
    requires
        0 < step,
    ensures
        forall|i: int|
            0 <= i < decode::grid_times(start, radius, step, from).len()
                ==> #[trigger] decode::grid_times(start, radius, step, from)[i] <= start + radius,
    decreases radius + step - from,
{
    if from <= radius {
        lemma_grid_bounds(start, radius, step, from + step);
        let rest = decode::grid_times(start, radius, step, from + step);
        let all = decode::grid_times(start, radius, step, from);
        assert forall|i: int| 0 <= i < all.len() implies #[trigger] all[i] <= start + radius by {
            if start + from < 0 {
                assert(all[i] == rest[i]);
            } else if i > 0 {
                assert(all[i] == rest[i - 1]);
            }
        }
    }
}

/// Decode the candidates in their order, each at its best alignment, and
/// report every transmission once. Candidate `c` was found at `starts[c]`.
pub fn decode_scan<M, B, G, D, S>(
    front: &ScanFront<B, G, D, S>,
    set: &Refinement,
    starts: &[usize],
) -> (seen: Vec<WsprDecode<M>>) where
    B: Fn(usize) -> u32,
    G: Fn(usize, usize, usize) -> u32,
    D: Fn(usize, usize, Option<usize>) -> Option<M>,
    S: Fn(&M, &M) -> bool,

    requires
        forall|c: usize|
            c < starts@.len() ==> #[trigger] front.callable::<M>(c, set.n_freqs as int),
        set.valid(),
        forall|c: int| 0 <= c < starts@.len() ==> set.reaches(#[trigger] starts@[c]),
    ensures
        exists|steps: Seq<Seq<WsprDecode<M>>>| #[trigger]
            front.scanned(set, starts@, steps) && steps.last() == seen@,
        no_repeats(front.same, seen@),
{
    let mut seen: Vec<WsprDecode<M>> = Vec::new();
    let ghost mut steps: Seq<Seq<WsprDecode<M>>> = seq![seen@];
    for c in 0..starts.len()
        invariant
            forall|c: usize|
                c < starts@.len() ==> #[trigger] front.callable::<M>(c, set.n_freqs as int),
            set.valid(),
            forall|q: int| 0 <= q < starts@.len() ==> set.reaches(#[trigger] starts@[q]),
            front.scanned(set, starts@.take(c as int), steps),
            steps.last() == seen@,
            no_repeats(front.same, seen@),
    {
        let ghost before = seen@;
        let start: usize = starts[c];
        assert(front.callable::<M>(c, set.n_freqs as int));
        let at: (usize, Option<usize>) = align::<M, B, G, D, S>(front, set, c, start);
        let found: Option<M> = (front.decode)(c, at.0, at.1);
        let ghost led_to = found;
        assert(call_ensures(front.decode, (c, at.0, at.1), led_to));
        match found {
            Some(message) => {
                let time: CallerTime = decode::caller_time(at.0, set.pad);
                let dup: bool = is_repetition(&front.same, &seen, &message, time);
                let ghost new = WsprDecode { message, time };
                let ghost same = choose|same: Seq<bool>| #[trigger]
                    matching(front.same, before, message, same) && dup == repeats(
                        before,
                        same,
                        time,
                    );
                if !dup {
                    seen.push(WsprDecode { message, time });
                }
                assert(matching(front.same, before, new.message, same));
                assert(adds(front.same, new, before, seen@));
                proof {
                    lemma_adding_keeps_apart(front.same, new, before, seen@);
                }
            },
            None => {},
        }
        proof {
            assert(front.advances(set, c, start, before, seen@));
            let old_steps = steps;
            steps = steps.push(seen@);
            let taken = starts@.take(c + 1);
            assert forall|i: int| 0 <= i < taken.len() implies #[trigger] front.advances(
                set,
                i as usize,
                taken[i],
                steps[i],
                steps[i + 1],
            ) by {
                if i < c {
                    assert(front.advances(
                        set,
                        i as usize,
                        starts@.take(c as int)[i],
                        old_steps[i],
                        old_steps[i + 1],
                    ));
                }
            }
        }
    }
    assert(starts@.take(starts@.len() as int) =~= starts@);
    seen
}

/// Several decodes added in turn: `steps[i]` are the decodes before number `i`.
pub open spec fn merged<M, S: Fn(&M, &M) -> bool>(
    f: S,
    news: Seq<WsprDecode<M>>,
    steps: Seq<Seq<WsprDecode<M>>>,
) -> bool {
    &&& steps.len() == news.len() + 1
    &&& forall|i: int|
        0 <= i < news.len() ==> #[trigger] adds(f, news[i], steps[i], steps[i + 1])
}

/// What passes from number `pass` on make of the decodes: each scans what is
/// left of the audio without the decodes so far; one that brings nothing new is
/// the last.
pub open spec fn cancels<M, P: Fn(&Vec<WsprDecode<M>>) -> Vec<WsprDecode<M>>, S: Fn(&M, &M) -> bool>(
    scan: P,
    f: S,
    pass: int,
    before: Seq<WsprDecode<M>>,
    after: Seq<WsprDecode<M>>,
) -> bool
    decreases decode::NPASSES - pass,
{
    if pass >= decode::NPASSES {
        after == before
    } else {
        exists|
            list: Vec<WsprDecode<M>>,
            news: Vec<WsprDecode<M>>,
            steps: Seq<Seq<WsprDecode<M>>>,
        |
            {
                &&& list@ == before
                &&& #[trigger] call_ensures(scan, (&list,), news)
                &&& #[trigger] merged(f, news@, steps)
                &&& steps[0] == before
                &&& if steps.last().len() > before.len() {
                    cancels(scan, f, pass + 1, steps.last(), after)
                } else {
                    after == steps.last()
                }
            }
    }
}

/// Scan in passes. `scan` takes the decodes so far out of the audio, one after
/// the other, and scans what is left.
pub fn decode_scan_subtract<M, P, S>(scan: &P, f: &S) -> (all: Vec<WsprDecode<M>>) where
    P: Fn(&Vec<WsprDecode<M>>) -> Vec<WsprDecode<M>>,
    S: Fn(&M, &M) -> bool,

    requires
        forall|before: &Vec<WsprDecode<M>>| #[trigger] call_requires(*scan, (before,)),
        forall|a: &M, b: &M| #[trigger] call_requires(*f, (a, b)),
    ensures
        cancels(*scan, *f, 0, Seq::empty(), all@),
        no_repeats(*f, all@),
{
    decode_passes(scan, f, 0, Vec::new())
}

/// The passes from number `pass` on.
fn decode_passes<M, P, S>(scan: &P, f: &S, pass: usize, before: Vec<WsprDecode<M>>) -> (all: Vec<
    WsprDecode<M>,
>) where P: Fn(&Vec<WsprDecode<M>>) -> Vec<WsprDecode<M>>, S: Fn(&M, &M) -> bool
    requires
        pass <= decode::NPASSES,
        no_repeats(*f, before@),
        forall|before: &Vec<WsprDecode<M>>| #[trigger] call_requires(*scan, (before,)),
        forall|a: &M, b: &M| #[trigger] call_requires(*f, (a, b)),
    ensures
        cancels(*scan, *f, pass as int, before@, all@),
        no_repeats(*f, all@),
    decreases decode::NPASSES - pass,
{
    if pass >= decode::NPASSES {
        return before;
    }
    let ghost start = before@;
    let mut news: Vec<WsprDecode<M>> = scan(&before);
    let ghost found = news;
    assert(call_ensures(*scan, (&before,), found));
    let mut all: Vec<WsprDecode<M>> = before;
    let decoded: usize = news.len();
    let mut added: usize = 0;
    let ghost mut steps: Seq<Seq<WsprDecode<M>>> = seq![all@];
    let ghost mut taken: int = 0;
    while news.len() > 0
        invariant
            forall|a: &M, b: &M| #[trigger] call_requires(*f, (a, b)),
            0 <= taken <= found@.len(),
            news@ == found@.skip(taken),
            decoded == found@.len(),
            steps[0] == start,
            steps.last() == all@,
            all@.len() == start.len() + added,
            added <= taken,
            merged(*f, found@.take(taken), steps),
            no_repeats(*f, all@),
        decreases news@.len(),
    {
        let ghost prior = all@;
        let d: WsprDecode<M> = news.remove(0);
        assert(d == found@[taken]);
        let ghost new = d;
        if !is_repetition(f, &all, &d.message, d.time) {
            all.push(d);
            added = added + 1;
        }
        proof {
            assert(adds(*f, new, prior, all@));
            lemma_adding_keeps_apart(*f, new, prior, all@);
            let old_steps = steps;
            steps = steps.push(all@);
            let list = found@.take(taken + 1);
            assert forall|i: int| 0 <= i < list.len() implies #[trigger] adds(
                *f,
                list[i],
                steps[i],
                steps[i + 1],
            ) by {
                if i < taken {
                    assert(adds(*f, found@.take(taken)[i], old_steps[i], old_steps[i + 1]));
                }
            }
            taken = taken + 1;
            assert(news@ =~= found@.skip(taken));
        }
    }
    proof {
        assert(found@.take(found@.len() as int) =~= found@);
        assert(taken == found@.len());
    }
    if decode::another_pass(pass, decoded, added) {
        decode_passes(scan, f, pass + 1, all)
    } else {
        proof {
            if added > 0 {
                // the last pass
                assert(pass + 1 >= decode::NPASSES);
                assert(cancels(*scan, *f, pass + 1, all@, all@));
            }
        }
        all
    }
}

} // verus!
