//! What a scan promises of the transmissions in the audio.

use super::decode;
use super::decode::Sighting;
use super::interleave;
use super::scan;
use super::scan::{Refinement, ScanFront, WsprDecode};
use crate::bits;
use vstd::prelude::*;

verus! {

/// A start time of the grid around `start`: a whole number of steps from
/// `radius` before it, no more than `radius` after it, and not before the audio.
pub open spec fn is_grid_time(start: int, radius: int, step: int, m: int, t: int) -> bool {
    0 <= m && t == start - radius + m * step && t <= start + radius && 0 <= t
}

/// The alignment grid has all its start times and no others, in ascending order.
pub proof fn law_the_grid_is_complete(
    start_sample: usize,
    radius: i64,
    step: i64,
    times: Vec<usize>,
    t: usize,
)
    requires
        0 < step,
        call_ensures(decode::refine_times, (start_sample, radius, step), times),
    ensures
        times@.contains(t) <==> exists|m: int| #[trigger]
            is_grid_time(start_sample as int, radius as int, step as int, m, t as int),
        forall|i: int, j: int|
            0 <= i < j < times@.len() ==> #[trigger] times@[i] < #[trigger] times@[j],
{
    let s = start_sample as int;
    let r = radius as int;
    let d = step as int;
    let list = times@.map_values(|t: usize| t as int);
    let grid = decode::grid_times(s, r, d, -r);
    assert(list == grid);
    lemma_grid(s, r, d, 0, t as int);
    assert(-r + 0 * d == -r) by (nonlinear_arith);
    if times@.contains(t) {
        let i = choose|i: int| 0 <= i < times@.len() && times@[i] == t;
        assert(list[i] == t);
        assert(grid.contains(t as int));
    }
    if exists|m: int| #[trigger] is_grid_time(s, r, d, m, t as int) {
        assert(grid.contains(t as int));
        let i = choose|i: int| 0 <= i < grid.len() && grid[i] == t as int;
        assert(list[i] == times@[i]);
    }
    assert forall|i: int, j: int| 0 <= i < j < times@.len() implies #[trigger] times@[i]
        < #[trigger] times@[j] by {
        assert(list[i] == times@[i] && list[j] == times@[j]);
        assert(grid[i] < grid[j]);
    }
}

proof fn lemma_grid(start: int, radius: int, step: int, from: int, t: int)
    requires
        0 < step,
        0 <= from,
    ensures
        ({
            let grid = decode::grid_times(start, radius, step, -radius + from * step);
            &&& grid.contains(t) <==> exists|m: int|
                from <= m && #[trigger] is_grid_time(start, radius, step, m, t)
            &&& forall|i: int| 0 <= i < grid.len() ==> #[trigger] grid[i] >= start - radius + from
                * step
            &&& forall|i: int, j: int|
                0 <= i < j < grid.len() ==> #[trigger] grid[i] < #[trigger] grid[j]
        }),
    decreases radius + step - (-radius + from * step),
{
    let at = -radius + from * step;
    let grid = decode::grid_times(start, radius, step, at);
    assert((from + 1) * step == from * step + step) by (nonlinear_arith);
    if at > radius {
        assert forall|m: int| from <= m implies !(#[trigger] is_grid_time(
            start,
            radius,
            step,
            m,
            t,
        )) by {
            assert(m * step >= from * step) by (nonlinear_arith)
                requires
                    m >= from,
                    step > 0,
            ;
        }
    } else {
        lemma_grid(start, radius, step, from + 1, t);
        let rest = decode::grid_times(start, radius, step, at + step);
        if start + at < 0 {
            assert(grid == rest);
            assert(!is_grid_time(start, radius, step, from, t));
        } else {
            assert(grid == seq![start + at] + rest);
            assert(grid[0] == start + at);
            assert forall|i: int| 1 <= i < grid.len() implies #[trigger] grid[i] == rest[i - 1] by {}
            assert forall|i: int, j: int| 0 <= i < j < grid.len() implies #[trigger] grid[i]
                < #[trigger] grid[j] by {
                assert(grid[j] == rest[j - 1]);
                if i > 0 {
                    assert(grid[i] == rest[i - 1]);
                }
            }
            if t == start + at {
                assert(is_grid_time(start, radius, step, from, t));
                assert(grid.contains(t));
            } else {
                assert(!is_grid_time(start, radius, step, from, t));
                if grid.contains(t) {
                    let i = choose|i: int| 0 <= i < grid.len() && grid[i] == t;
                    assert(i > 0);
                    assert(rest[i - 1] == t);
                    assert(rest.contains(t));
                }
                if rest.contains(t) {
                    let i = choose|i: int| 0 <= i < rest.len() && rest[i] == t;
                    assert(grid[i + 1] == t);
                }
            }
        }
        if exists|m: int| from <= m && #[trigger] is_grid_time(start, radius, step, m, t) {
            let m = choose|m: int| from <= m && #[trigger] is_grid_time(start, radius, step, m, t);
            if m == from {
                assert(t == start + at);
            } else {
                assert(from + 1 <= m);
            }
        }
    }
}

/// A byte is reversed when its first bit is its last, its second its last but
/// one, and so on.
pub proof fn law_bits_are_reversed(b: u8, r: u8, k: int)
    requires
        call_ensures(interleave::reverse_bits, (b,), r),
        0 <= k < 8,
    ensures
        bits::msb_bit(r, k) == bits::msb_bit(b, 7 - k),
{
    let up: u8 = (7 - k) as u8;
    let down: u8 = k as u8;
    assert(bits::msb_bit(b, 7 - k) == ((b >> down) & 1 == 1));
    assert(((b & 1) << 7 | (b & 2) << 5 | (b & 4) << 3 | (b & 8) << 1 | (b & 16) >> 1 | (b & 32)
        >> 3 | (b & 64) >> 5 | (b & 128) >> 7) >> up & 1 == (b >> down) & 1) by (bit_vector)
        requires
            up < 8,
            down < 8,
            up + down == 7,
    ;
}

/// The frame is put back into the order of the reversed numbers: of two received
/// values the one whose number is smaller when reversed comes first.
pub proof fn law_values_come_back_in_reversed_order(p: int, q: int)
    requires
        0 <= p < q < 162,
    ensures
        interleave::permutation()[p] < 162,
        interleave::permutation()[q] < 162,
        interleave::reversed(interleave::permutation()[p]) < interleave::reversed(
            interleave::permutation()[q],
        ),
{
    interleave::law_interleaver_is_a_permutation();
    interleave::lemma_sources(256);
}

/// Two sightings are of one transmission exactly when message and frequency
/// agree and they start no more than 8192 samples apart.
pub proof fn law_what_counts_as_a_repetition(seen: Sighting, start: int)
    ensures
        seen.repeats(start) <==> seen.same_message && seen.near_frequency && -8192
            <= seen.start_sample - start <= 8192,
{
}

/// A decode stands for another: it is the same, or it has its message and starts
/// no more than 8192 samples from it.
pub open spec fn stands_for<M, S: Fn(&M, &M) -> bool>(
    f: S,
    reported: WsprDecode<M>,
    message: M,
    start: int,
) -> bool {
    ||| reported.message == message && reported.time.start_sample == start
    ||| call_ensures(f, (&reported.message, &message), true) && -8192
        <= reported.time.start_sample - start <= 8192
}

/// A decode with this message is among those reported, at a start time that the
/// search for its candidate covers.
pub open spec fn is_reported<M, S: Fn(&M, &M) -> bool>(
    f: S,
    seen: Seq<WsprDecode<M>>,
    message: M,
    first: int,
    last: int,
) -> bool {
    exists|k: int, start: int|
        0 <= k < seen.len() && first <= start <= last && #[trigger] stands_for(
            f,
            seen[k],
            message,
            start,
        )
}

proof fn lemma_reports_grow<M, S: Fn(&M, &M) -> bool>(
    f: S,
    found: WsprDecode<M>,
    before: Seq<WsprDecode<M>>,
    after: Seq<WsprDecode<M>>,
)
    requires
        scan::adds(f, found, before, after),
    ensures
        before.len() <= after.len(),
        forall|k: int| 0 <= k < before.len() ==> #[trigger] after[k] == before[k],
        exists|k: int|
            0 <= k < after.len() && #[trigger] stands_for(
                f,
                after[k],
                found.message,
                found.time.start_sample as int,
            ),
{
    let same = choose|same: Seq<bool>|
        {
            &&& #[trigger] scan::matching(f, before, found.message, same)
            &&& after == if scan::repeats(before, same, found.time) {
                before
            } else {
                before.push(found)
            }
        };
    if scan::repeats(before, same, found.time) {
        let i = choose|i: int|
            0 <= i < before.len() && #[trigger] same[i] && scan::start_together(
                before[i].time,
                found.time,
            );
        assert(call_ensures(f, (&before[i].message, &found.message), same[i]));
        assert(stands_for(f, after[i], found.message, found.time.start_sample as int));
    } else {
        let k = before.len() as int;
        assert(after[k] == found);
        assert(stands_for(f, after[k], found.message, found.time.start_sample as int));
    }
}

/// Every transmission that is decoded is reported. A candidate that decodes to a
/// message wherever it is aligned puts that message among the decodes, or one
/// that stands for it; start times are those of the caller, without the silence
/// in front.
pub proof fn law_decoded_transmissions_are_reported<M, B, G, D, S>(
    front: &ScanFront<B, G, D, S>,
    set: &Refinement,
    starts: &[usize],
    c: usize,
    message: M,
    seen: Vec<WsprDecode<M>>,
) where
    B: Fn(usize) -> u32,
    G: Fn(usize, usize, usize) -> u32,
    D: Fn(usize, usize, Option<usize>) -> Option<M>,
    S: Fn(&M, &M) -> bool,

    requires
        0 < set.step,
        0 <= set.radius,
        c < starts@.len(),
        forall|t: usize, f: Option<usize>, found: Option<M>| #[trigger]
            call_ensures(front.decode, (c, t, f), found) ==> found == Some(message),
        call_ensures(
            scan::decode_scan::<M, B, G, D, S>,
            (front, set, starts),
            seen,
        ),
    ensures
        is_reported(
            front.same,
            seen@,
            message,
            if starts@[c as int] - set.radius - set.pad < 0 {
                0
            } else {
                starts@[c as int] - set.radius - set.pad
            },
            if starts@[c as int] + set.radius - set.pad < 0 {
                0
            } else {
                starts@[c as int] + set.radius - set.pad
            },
        ),
{
    let steps = choose|steps: Seq<Seq<WsprDecode<M>>>| #[trigger]
        front.scanned(set, starts@, steps) && steps.last() == seen@;
    let start = starts@[c as int];
    let first = if start - set.radius - set.pad < 0 {
        0
    } else {
        start - set.radius - set.pad
    };
    let last = if start + set.radius - set.pad < 0 {
        0
    } else {
        start + set.radius - set.pad
    };
    assert(front.advances(set, ((c as int) as usize), starts@[c as int], steps[c as int], steps[c
        + 1]));
    let (at, found) = choose|at: (usize, Option<usize>), found: Option<M>|
        {
            &&& #[trigger] front.aligns(set, c, start, at)
            &&& #[trigger] call_ensures(front.decode, (c, at.0, at.1), found)
            &&& match found {
                None => steps[c + 1] == steps[c as int],
                Some(m) => exists|time: decode::CallerTime|
                    {
                        &&& scan::is_caller_time(at.0 as int, set.pad as int, time)
                        &&& #[trigger] scan::adds(
                            front.same,
                            WsprDecode { message: m, time },
                            steps[c as int],
                            steps[c + 1],
                        )
                    },
            }
        };
    let time = choose|time: decode::CallerTime|
        {
            &&& scan::is_caller_time(at.0 as int, set.pad as int, time)
            &&& #[trigger] scan::adds(
                front.same,
                WsprDecode { message, time },
                steps[c as int],
                steps[c + 1],
            )
        };
    lemma_reports_grow(
        front.same,
        WsprDecode { message, time },
        steps[c as int],
        steps[c + 1],
    );
    lemma_alignment_is_near(front, set, c, start, at);
    let k = choose|k: int|
        0 <= k < steps[c + 1].len() && #[trigger] stands_for(
            front.same,
            steps[c + 1][k],
            message,
            time.start_sample as int,
        );
    assert(first <= time.start_sample <= last);
    assert(is_reported(front.same, steps[c + 1], message, first, last));
    lemma_scan_keeps(front, set, starts@, steps, c + 1, k);
    assert(stands_for(front.same, seen@[k], message, time.start_sample as int));
}

/// A candidate is decoded within the radius around the place where it was found.
proof fn lemma_alignment_is_near<B, G, D, S>(
    front: &ScanFront<B, G, D, S>,
    set: &Refinement,
    c: usize,
    start: usize,
    at: (usize, Option<usize>),
) where B: Fn(usize) -> u32, G: Fn(usize, usize, usize) -> u32
    requires
        0 < set.step,
        0 <= set.radius,
        front.aligns(set, c, start, at),
    ensures
        start - set.radius <= at.0 <= start + set.radius,
{
    let (base, times, keys) = choose|base: u32, times: Seq<usize>, keys: Seq<u32>|
        {
            &&& #[trigger] call_ensures(front.base, (c,), base)
            &&& times.map_values(|t: usize| t as int) == decode::grid_times(
                start as int,
                set.radius as int,
                set.step as int,
                -set.radius,
            )
            &&& #[trigger] front.scores(c, times, set.n_freqs as int, keys)
            &&& match at.1 {
                Some(f) => exists|t: int|
                    0 <= t < times.len() && f < set.n_freqs && at.0 == #[trigger] times[t]
                        && crate::select::is_first_peak(keys, t * set.n_freqs + f) && keys[t
                        * set.n_freqs + f] > base,
                None => at.0 == start && forall|i: int|
                    0 <= i < keys.len() ==> #[trigger] keys[i] <= base,
            }
        };
    if at.1 is Some {
        let t = choose|t: int|
            0 <= t < times.len() && at.1->0 < set.n_freqs && at.0 == #[trigger] times[t]
                && crate::select::is_first_peak(keys, t * set.n_freqs + at.1->0) && keys[t
                * set.n_freqs + at.1->0] > base;
        let s = start as int;
        let r = set.radius as int;
        let d = set.step as int;
        let grid = decode::grid_times(s, r, d, -r);
        assert(-r + 0 * d == -r) by (nonlinear_arith);
        lemma_grid(s, r, d, 0, at.0 as int);
        assert(times.map_values(|t: usize| t as int)[t] == at.0);
        assert(grid.contains(at.0 as int));
        let m = choose|m: int| 0 <= m && #[trigger] is_grid_time(s, r, d, m, at.0 as int);
        assert(m * d >= 0) by (nonlinear_arith)
            requires
                m >= 0,
                d > 0,
        ;
    }
}

proof fn lemma_scan_keeps<M, B, G, D, S>(
    front: &ScanFront<B, G, D, S>,
    set: &Refinement,
    starts: Seq<usize>,
    steps: Seq<Seq<WsprDecode<M>>>,
    c: int,
    k: int,
) where
    B: Fn(usize) -> u32,
    G: Fn(usize, usize, usize) -> u32,
    D: Fn(usize, usize, Option<usize>) -> Option<M>,
    S: Fn(&M, &M) -> bool,

    requires
        front.scanned(set, starts, steps),
        0 <= c <= starts.len(),
        0 <= k < steps[c].len(),
    ensures
        k < steps.last().len(),
        steps.last()[k] == steps[c][k],
    decreases starts.len() - c,
{
    if c < starts.len() {
        assert(front.advances(set, c as usize, starts[c], steps[c], steps[c + 1]));
        let (at, found) = choose|at: (usize, Option<usize>), found: Option<M>|
            {
                &&& #[trigger] front.aligns(set, c as usize, starts[c], at)
                &&& #[trigger] call_ensures(front.decode, (c as usize, at.0, at.1), found)
                &&& match found {
                    None => steps[c + 1] == steps[c],
                    Some(m) => exists|time: decode::CallerTime|
                        {
                            &&& scan::is_caller_time(at.0 as int, set.pad as int, time)
                            &&& #[trigger] scan::adds(
                                front.same,
                                WsprDecode { message: m, time },
                                steps[c],
                                steps[c + 1],
                            )
                        },
                }
            };
        if found is Some {
            let time = choose|time: decode::CallerTime|
                {
                    &&& scan::is_caller_time(at.0 as int, set.pad as int, time)
                    &&& #[trigger] scan::adds(
                        front.same,
                        WsprDecode { message: found->0, time },
                        steps[c],
                        steps[c + 1],
                    )
                };
            lemma_reports_grow(
                front.same,
                WsprDecode { message: found->0, time },
                steps[c],
                steps[c + 1],
            );
        }
        lemma_scan_keeps(front, set, starts, steps, c + 1, k);
    }
}

/// A candidate is decoded where it scores best: nowhere on the grid around it is
/// the score better, and where it was found only if no place of the grid beats
/// it there.
pub proof fn law_candidates_are_aligned_where_they_score_best<B, G, D, S>(
    front: &ScanFront<B, G, D, S>,
    set: &Refinement,
    c: usize,
    start: usize,
    at: (usize, Option<usize>),
    base: u32,
    score: spec_fn(usize, usize) -> u32,
    m: int,
    t: usize,
    f: usize,
) where B: Fn(usize) -> u32, G: Fn(usize, usize, usize) -> u32
    requires
        0 < set.step,
        front.aligns(set, c, start, at),
        forall|b: u32| #[trigger] call_ensures(front.base, (c,), b) ==> b == base,
        forall|x: usize, y: usize, k: u32| #[trigger]
            call_ensures(front.score, (c, x, y), k) ==> k == score(x, y),
        is_grid_time(start as int, set.radius as int, set.step as int, m, t as int),
        f < set.n_freqs,
    ensures
        match at.1 {
            Some(g) => score(at.0, g) >= score(t, f) && score(at.0, g) > base,
            None => at.0 == start && score(t, f) <= base,
        },
{
    let (b, times, keys) = choose|b: u32, times: Seq<usize>, keys: Seq<u32>|
        {
            &&& #[trigger] call_ensures(front.base, (c,), b)
            &&& times.map_values(|t: usize| t as int) == decode::grid_times(
                start as int,
                set.radius as int,
                set.step as int,
                -set.radius,
            )
            &&& #[trigger] front.scores(c, times, set.n_freqs as int, keys)
            &&& match at.1 {
                Some(f) => exists|t: int|
                    0 <= t < times.len() && f < set.n_freqs && at.0 == #[trigger] times[t]
                        && crate::select::is_first_peak(keys, t * set.n_freqs + f) && keys[t
                        * set.n_freqs + f] > b,
                None => at.0 == start && forall|i: int|
                    0 <= i < keys.len() ==> #[trigger] keys[i] <= b,
            }
        };
    let s = start as int;
    let r = set.radius as int;
    let d = set.step as int;
    let n = set.n_freqs as int;
    let list = times.map_values(|t: usize| t as int);
    assert(-r + 0 * d == -r) by (nonlinear_arith);
    lemma_grid(s, r, d, 0, t as int);
    assert(is_grid_time(s, r, d, m, t as int));
    assert(list.contains(t as int));
    let i = choose|i: int| 0 <= i < list.len() && list[i] == t as int;
    assert(times[i] == t);
    assert(0 <= i * n + f < times.len() * n) by (nonlinear_arith)
        requires
            0 <= i <= times.len() - 1,
            0 <= f < n,
    ;
    assert(call_ensures(front.score, (c, times[i], ((f as int) as usize)), keys[i * n + f]));
    assert(keys[i * n + f] == score(t, f));
    if at.1 is Some {
        let g = at.1->0;
        let j = choose|j: int|
            0 <= j < times.len() && g < set.n_freqs && at.0 == #[trigger] times[j]
                && crate::select::is_first_peak(keys, j * set.n_freqs + g) && keys[j * set.n_freqs
                + g] > b;
        assert(call_ensures(front.score, (c, times[j], ((g as int) as usize)), keys[j * n + g]));
        assert(keys[i * n + f] <= keys[j * n + g]);
    }
}

/// What a first pass finds is taken out of the audio and a second pass hears
/// what is left; there is no third.
pub proof fn law_two_passes<M, P, S>(
    scan_left: &P,
    same: &S,
    loud: WsprDecode<M>,
    quiet: WsprDecode<M>,
    all: Vec<WsprDecode<M>>,
) where P: Fn(&Vec<WsprDecode<M>>) -> Vec<WsprDecode<M>>, S: Fn(&M, &M) -> bool
    requires
        forall|so_far: &Vec<WsprDecode<M>>, news: Vec<WsprDecode<M>>| #[trigger]
            call_ensures(*scan_left, (so_far,), news) ==> (so_far@.len() == 0 ==> news@ == seq![
                loud,
            ]) && (so_far@ == seq![loud] ==> news@ == seq![quiet]),
        forall|yes: bool| #[trigger]
            call_ensures(*same, (&loud.message, &quiet.message), yes) ==> !yes,
        call_ensures(scan::decode_scan_subtract::<M, P, S>, (scan_left, same), all),
    ensures
        all@ == seq![loud, quiet],
{
    let none = Seq::<WsprDecode<M>>::empty();
    assert(scan::cancels(*scan_left, *same, 0, none, all@));
    let (list, news, steps) = choose|
        list: Vec<WsprDecode<M>>,
        news: Vec<WsprDecode<M>>,
        steps: Seq<Seq<WsprDecode<M>>>,
    |
        {
            &&& list@ == none
            &&& #[trigger] call_ensures(*scan_left, (&list,), news)
            &&& #[trigger] scan::merged(*same, news@, steps)
            &&& steps[0] == none
            &&& if steps.last().len() > none.len() {
                scan::cancels(*scan_left, *same, 1, steps.last(), all@)
            } else {
                all@ == steps.last()
            }
        };
    assert(news@ == seq![loud]);
    assert(scan::adds(*same, news@[0], steps[0], steps[1]));
    assert(steps[1] =~= seq![loud]);
    let first = steps[1];
    assert(scan::cancels(*scan_left, *same, 1, first, all@));
    let (list2, news2, steps2) = choose|
        list: Vec<WsprDecode<M>>,
        news: Vec<WsprDecode<M>>,
        steps: Seq<Seq<WsprDecode<M>>>,
    |
        {
            &&& list@ == first
            &&& #[trigger] call_ensures(*scan_left, (&list,), news)
            &&& #[trigger] scan::merged(*same, news@, steps)
            &&& steps[0] == first
            &&& if steps.last().len() > first.len() {
                scan::cancels(*scan_left, *same, 2, steps.last(), all@)
            } else {
                all@ == steps.last()
            }
        };
    assert(news2@ == seq![quiet]);
    assert(scan::adds(*same, news2@[0], steps2[0], steps2[1]));
    let flags = choose|flags: Seq<bool>|
        {
            &&& #[trigger] scan::matching(*same, first, quiet.message, flags)
            &&& steps2[1] == if scan::repeats(first, flags, quiet.time) {
                first
            } else {
                first.push(quiet)
            }
        };
    assert(call_ensures(*same, (&first[0].message, &quiet.message), flags[0]));
    assert(!scan::repeats(first, flags, quiet.time));
    assert(steps2[1] =~= seq![loud, quiet]);
    assert(scan::cancels(*scan_left, *same, 2, steps2[1], all@));
}

} // verus!
