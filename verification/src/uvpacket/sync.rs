//! Which correlation peaks are decoded, and where.

use super::puncture::Mode;
use super::rx;
use crate::select;
use crate::select::Near;
use vstd::prelude::*;

verus! {

/// Preambles that the receiver looks for, one for each mode.
pub const NUM_PREAMBLES: usize = 3;

/// The correlation with the preamble of `mode` at an offset of the filter
/// output, as an order key.
#[derive(Clone, Copy, Debug, PartialEq, Eq, Structural)]
pub struct Peak {
    pub offset: usize,
    pub mode: Mode,
    pub key: u32,
}

/// Peaks whose offsets differ by no more than a radius are neighbours.
pub struct NearbyPeaks<'a> {
    pub peaks: &'a [Peak],
    pub radius: usize,
}

impl<'a> Near for NearbyPeaks<'a> {
    open spec fn near(&self, a: int, b: int) -> bool {
        let d = self.peaks@[a].offset - self.peaks@[b].offset;
        -self.radius <= d <= self.radius
    }

    open spec fn covers(&self, count: int) -> bool {
        count <= self.peaks@.len()
    }

    fn is_near(&self, a: usize, b: usize) -> (yes: bool) {
        let p: usize = self.peaks[a].offset;
        let q: usize = self.peaks[b].offset;
        if p >= q {
            p - q <= self.radius
        } else {
            q - p <= self.radius
        }
    }
}

/// The mode of a preamble by its index.
pub fn mode_for_index(index: usize) -> (mode: Option<Mode>)
    ensures
        index < 3 ==> mode == Mode::of_code(index as u8) && mode is Some,
        index >= 3 ==> mode is None,
{
    match index {
        0 => Some(Mode::Robust),
        1 => Some(Mode::Standard),
        2 => Some(Mode::Fast),
        _ => None,
    }
}

/// The correlations of one channel as peaks: the keys list the preambles of
/// offset nought, then those of offset one, and so on.
pub open spec fn peaks_of(keys: Seq<u32>) -> Seq<Peak> {
    Seq::new(
        keys.len(),
        |i: int|
            Peak {
                offset: (i / 3) as usize,
                mode: Mode::of_code((i % 3) as u8)->0,
                key: keys[i],
            },
    )
}

/// List the correlations of one channel as peaks.
pub fn list_peaks(keys: &[u32]) -> (peaks: Vec<Peak>)
    ensures
        peaks@ == peaks_of(keys@),
{
    let mut peaks: Vec<Peak> = Vec::with_capacity(keys.len());
    for i in 0..keys.len()
        invariant
            peaks@.len() == i,
            forall|q: int| 0 <= q < i ==> #[trigger] peaks@[q] == peaks_of(keys@)[q],
    {
        let mode: Mode = match mode_for_index(i % NUM_PREAMBLES) {
            Some(mode) => mode,
            None => Mode::Robust,
        };
        peaks.push(Peak { offset: i / NUM_PREAMBLES, mode, key: keys[i] });
    }
    assert(peaks@ =~= peaks_of(keys@));
    peaks
}

/// The keys of peaks.
pub open spec fn keys_of(peaks: Seq<Peak>) -> Seq<u32> {
    Seq::new(peaks.len(), |i: int| peaks[i].key)
}

/// The peaks that reach the threshold, in their order.
pub open spec fn reaching(peaks: Seq<Peak>, threshold: u32) -> Seq<Peak> {
    peaks.filter(|p: Peak| p.key >= threshold)
}

/// Keep the peaks whose key reaches the threshold.
fn keep_reaching(peaks: &[Peak], threshold: u32) -> (out: Vec<Peak>)
    ensures
        out@ == reaching(peaks@, threshold),
{
    let mut out: Vec<Peak> = Vec::new();
    let ghost pred = |p: Peak| p.key >= threshold;
    assert(peaks@.take(0).filter(pred) =~= Seq::<Peak>::empty()) by {
        reveal(Seq::filter);
    }
    for i in 0..peaks.len()
        invariant
            pred == (|p: Peak| p.key >= threshold),
            out@ == peaks@.take(i as int).filter(pred),
    {
        let p: Peak = peaks[i];
        proof {
            let next = peaks@.take(i + 1);
            assert(next.drop_last() =~= peaks@.take(i as int));
            reveal(Seq::filter);
        }
        if p.key >= threshold {
            out.push(p);
        }
    }
    assert(peaks@.take(peaks@.len() as int) =~= peaks@);
    out
}

/// The keys of peaks as a list.
pub fn collect_keys(peaks: &[Peak]) -> (keys: Vec<u32>)
    ensures
        keys@ == keys_of(peaks@),
{
    let mut keys: Vec<u32> = Vec::with_capacity(peaks.len());
    for i in 0..peaks.len()
        invariant
            keys@.len() == i,
            forall|q: int| 0 <= q < i ==> #[trigger] keys@[q] == peaks@[q].key,
    {
        keys.push(peaks[i].key);
    }
    assert(keys@ =~= keys_of(peaks@));
    keys
}

/// Put picked peaks in ascending order of their offsets.
fn by_offset(peaks: &[Peak], picked: &Vec<usize>) -> (sorted: Vec<usize>)
    requires
        forall|t: int| 0 <= t < picked@.len() ==> #[trigger] picked@[t] < peaks@.len(),
    ensures
        sorted@.to_multiset() == picked@.to_multiset(),
        sorted@.len() == picked@.len(),
        forall|t: int| 0 <= t < sorted@.len() ==> #[trigger] sorted@[t] < peaks@.len(),
        forall|a: int, b: int|
            0 <= a < b < sorted@.len() ==> peaks@[#[trigger] sorted@[a] as int].offset
                <= peaks@[#[trigger] sorted@[b] as int].offset,
{
    let mut sorted: Vec<usize> = Vec::with_capacity(picked.len());
    assert(picked@.take(0) =~= sorted@);
    for i in 0..picked.len()
        invariant
            forall|t: int| 0 <= t < picked@.len() ==> #[trigger] picked@[t] < peaks@.len(),
            sorted@.len() == i,
            sorted@.to_multiset() == picked@.take(i as int).to_multiset(),
            forall|t: int| 0 <= t < i ==> #[trigger] sorted@[t] < peaks@.len(),
            forall|a: int, b: int|
                0 <= a < b < i ==> peaks@[#[trigger] sorted@[a] as int].offset
                    <= peaks@[#[trigger] sorted@[b] as int].offset,
    {
        let pick: usize = picked[i];
        assert(picked@[i as int] < peaks@.len());
        let offset: usize = peaks[pick].offset;
        let mut pos: usize = i;
        while pos > 0 && peaks[sorted[pos - 1]].offset > offset
            invariant
                pos <= i,
                sorted@.len() == i,
                forall|t: int| 0 <= t < i ==> #[trigger] sorted@[t] < peaks@.len(),
                forall|t: int|
                    pos <= t < i ==> peaks@[#[trigger] sorted@[t] as int].offset > offset,
            decreases pos,
        {
            pos = pos - 1;
        }
        let ghost before = sorted@;
        sorted.insert(pos, pick);
        proof {
            broadcast use vstd::seq_lib::group_to_multiset_ensures;

            assert(picked@.take(i + 1) =~= picked@.take(i as int).push(pick));
            vstd::seq_lib::to_multiset_insert(before, pos as int, pick);
            assert forall|a: int, b: int| 0 <= a < b < i + 1 implies peaks@[
            #[trigger] sorted@[a] as int].offset <= peaks@[#[trigger] sorted@[b] as int].offset by {
                let fa = if a < pos {
                    a
                } else {
                    a - 1
                };
                let fb = if b < pos {
                    b
                } else {
                    b - 1
                };
                if a != pos {
                    assert(sorted@[a] == before[fa]);
                }
                if b != pos {
                    assert(sorted@[b] == before[fb]);
                } else if a < pos - 1 {
                    assert(peaks@[before[a] as int].offset <= peaks@[before[pos
                        - 1] as int].offset);
                }
            }
            assert forall|t: int| 0 <= t < i + 1 implies #[trigger] sorted@[t] < peaks@.len() by {
                if t < pos {
                    assert(sorted@[t] == before[t]);
                } else if t > pos {
                    assert(sorted@[t] == before[t - 1]);
                }
            }
        }
    }
    assert(picked@.take(picked@.len() as int) =~= picked@);
    sorted
}

/// The peaks that are decoded: of those that reach the threshold, in
/// descending order of their keys, those farther than a symbol from every
/// better one kept; listed in ascending order of their offsets.
pub open spec fn is_pick(peaks: Seq<Peak>, threshold: u32, picks: Seq<(usize, Mode)>) -> bool {
    exists|good: &[Peak], order: Seq<usize>, sorted: Seq<usize>|
        good@ == reaching(peaks, threshold) && #[trigger] picked_by(good, order, sorted, picks)
}

/// The same of peaks that all reach the threshold: `order` ranks them, and
/// `sorted` lists the kept ones by their offsets.
pub open spec fn picked_by(
    good: &[Peak],
    order: Seq<usize>,
    sorted: Seq<usize>,
    picks: Seq<(usize, Mode)>,
) -> bool {
    &&& select::is_ranking(keys_of(good@), order)
    &&& sorted.to_multiset() == select::survivors(
        &NearbyPeaks { peaks: good, radius: 10 },
        order,
        usize::MAX as nat,
        order.len() as int,
    ).to_multiset()
    &&& picks.len() == sorted.len()
    &&& forall|t: int|
        0 <= t < picks.len() ==> sorted[t] < good@.len() && #[trigger] picks[t] == (
            good@[sorted[t] as int].offset,
            good@[sorted[t] as int].mode,
        )
    &&& forall|a: int, b: int|
        0 <= a < b < sorted.len() ==> good@[#[trigger] sorted[a] as int].offset
            <= good@[#[trigger] sorted[b] as int].offset
}

/// What is kept of an order lies in its range.
pub proof fn lemma_survivors_in_range<P: Near>(
    near: &P,
    order: Seq<usize>,
    limit: nat,
    t: int,
    n: int,
)
    requires
        0 <= t <= order.len(),
        forall|q: int| 0 <= q < order.len() ==> #[trigger] order[q] < n,
    ensures
        forall|k: int|
            0 <= k < select::survivors(near, order, limit, t).len() ==> (
            #[trigger] select::survivors(near, order, limit, t)[k]) < n,
{
    let kept = select::survivors(near, order, limit, t);
    assert forall|k: int| 0 <= k < kept.len() implies (#[trigger] kept[k]) < n by {
        let p = select::lemma_survivor_is_listed(near, order, limit, t, k);
        assert(order[p] < n);
    }
}

/// Pick the peaks of one channel that are worth decoding.
pub fn pick_peaks(peaks: &[Peak], threshold: u32) -> (picks: Vec<(usize, Mode)>)
    ensures
        is_pick(peaks@, threshold, picks@),
{
    let good: Vec<Peak> = keep_reaching(peaks, threshold);
    let slice: &[Peak] = good.as_slice();
    let keys: Vec<u32> = collect_keys(slice);
    let order: Vec<usize> = select::rank_desc(&keys);
    let near: NearbyPeaks = NearbyPeaks { peaks: slice, radius: rx::NSPS };
    assert forall|t: int| 0 <= t < order@.len() implies near.covers(#[trigger] order@[t] + 1) by {
        assert(order@[t] < keys@.len());
    }
    let kept: Vec<usize> = select::suppress(&near, &order, usize::MAX);
    proof {
        lemma_survivors_in_range(
            &near,
            order@,
            usize::MAX as nat,
            order@.len() as int,
            slice@.len() as int,
        );
    }
    let sorted: Vec<usize> = by_offset(slice, &kept);
    let mut picks: Vec<(usize, Mode)> = Vec::with_capacity(sorted.len());
    for t in 0..sorted.len()
        invariant
            forall|t: int| 0 <= t < sorted@.len() ==> #[trigger] sorted@[t] < slice@.len(),
            picks@.len() == t,
            forall|q: int|
                0 <= q < t ==> #[trigger] picks@[q] == (
                    slice@[sorted@[q] as int].offset,
                    slice@[sorted@[q] as int].mode,
                ),
    {
        assert(sorted@[t as int] < slice@.len());
        let p: Peak = slice[sorted[t]];
        picks.push((p.offset, p.mode));
    }
    assert(picked_by(slice, order@, sorted@, picks@));
    picks
}

/// The peaks of a channel that are decoded stand in ascending order, and each
/// lies more than a symbol behind the one before.
pub proof fn law_picks_are_apart(peaks: Seq<Peak>, threshold: u32, picks: Seq<(usize, Mode)>)
    requires
        is_pick(peaks, threshold, picks),
    ensures
        forall|a: int, b: int|
            0 <= a < b < picks.len() ==> (#[trigger] picks[b]).0 - (#[trigger] picks[a]).0 > 10,
{
    let (good, order, sorted) = choose|good: &[Peak], order: Seq<usize>, sorted: Seq<usize>|
        good@ == reaching(peaks, threshold) && #[trigger] picked_by(good, order, sorted, picks);
    let near = NearbyPeaks { peaks: good, radius: 10 };
    let limit = usize::MAX as nat;
    let n = order.len() as int;
    let kept = select::survivors(&near, order, limit, n);
    assert(kept.no_duplicates()) by {
        assert forall|i: int, j: int| 0 <= i < j < kept.len() implies kept[i] != kept[j] by {
            select::law_survivors_are_apart(&near, order, limit, n, i, j);
        }
    }
    kept.lemma_multiset_has_no_duplicates();
    sorted.lemma_multiset_has_no_duplicates_conv();
    assert forall|a: int, b: int| 0 <= a < b < picks.len() implies (#[trigger] picks[b]).0 - (
    #[trigger] picks[a]).0 > 10 by {
        vstd::seq_lib::to_multiset_contains(sorted, sorted[a]);
        vstd::seq_lib::to_multiset_contains(sorted, sorted[b]);
        vstd::seq_lib::to_multiset_contains(kept, sorted[a]);
        vstd::seq_lib::to_multiset_contains(kept, sorted[b]);
        let i = kept.index_of(sorted[a]);
        let j = kept.index_of(sorted[b]);
        if i < j {
            select::law_survivors_are_apart(&near, order, limit, n, i, j);
        } else {
            select::law_survivors_are_apart(&near, order, limit, n, j, i);
        }
    }
}

/// Pick `pick` is that of peak `better`, which correlates at least as well as
/// peak `i` and lies within a symbol of it.
pub open spec fn stands_for(peaks: Seq<Peak>, pick: (usize, Mode), better: int, i: int) -> bool {
    &&& 0 <= better < peaks.len()
    &&& pick == (peaks[better].offset, peaks[better].mode)
    &&& peaks[better].key >= peaks[i].key
    &&& -10 <= peaks[i].offset - peaks[better].offset <= 10
}

/// No peak is passed over: one that reaches the threshold is picked, or lies
/// within a symbol of one that correlates at least as well and is picked.
pub proof fn law_every_peak_is_picked(
    peaks: Seq<Peak>,
    threshold: u32,
    picks: Seq<(usize, Mode)>,
    i: int,
)
    requires
        is_pick(peaks, threshold, picks),
        0 <= i < peaks.len(),
        peaks[i].key >= threshold,
    ensures
        exists|t: int, better: int|
            0 <= t < picks.len() && #[trigger] stands_for(peaks, picks[t], better, i),
{
    let (good, order, sorted) = choose|good: &[Peak], order: Seq<usize>, sorted: Seq<usize>|
        good@ == reaching(peaks, threshold) && #[trigger] picked_by(good, order, sorted, picks);
    let near = NearbyPeaks { peaks: good, radius: 10 };
    let limit = usize::MAX as nat;
    let n = order.len() as int;
    let kept = select::survivors(&near, order, limit, n);
    let pred = |p: Peak| p.key >= threshold;
    peaks.lemma_filter_contains(pred, i);
    let g = choose|g: int| 0 <= g < good@.len() && good@[g] == peaks[i];
    let keys = keys_of(good@);
    select::lemma_ranking_names_all(keys, order, g);
    assert(good.len() <= usize::MAX);
    let c = choose|c: int| 0 <= c < n && order[c] == g as usize;
    let p = select::law_unlimited_suppression_loses_nothing(&near, order, limit, n, c);
    if p < c {
        assert(select::ranks_before(keys, order[p], order[c]));
    }
    assert(order[p] < keys.len());
    vstd::seq_lib::to_multiset_contains(kept, order[p]);
    vstd::seq_lib::to_multiset_contains(sorted, order[p]);
    let t = choose|t: int| 0 <= t < sorted.len() && sorted[t] == order[p];
    let pick = good@[order[p] as int];
    assert(picks[t] == (pick.offset, pick.mode));
    assert(peaks.filter(pred).contains(pick));
    peaks.lemma_filter_contains_rev(pred, pick);
    let better = choose|better: int| 0 <= better < peaks.len() && peaks[better] == pick;
    assert(stands_for(peaks, picks[t], better, i));
}

/// Where in the audio the frame of a peak starts, if it is to be decoded: the
/// frame must not start before the audio or inside the last decoded frame, and
/// preamble and header block must lie in the audio.
pub fn frame_start(mf_offset: usize, consumed_until: usize, audio_len: usize) -> (start: Option<
    usize,
>)
    ensures
        match start {
            Some(s) => s == mf_offset - 60 && s >= consumed_until && s + 2531 <= audio_len,
            None => mf_offset < 60 || mf_offset - 60 < consumed_until || mf_offset - 60 + 2531
                > audio_len,
        },
{
    if mf_offset < rx::SYM_PEAK_OFFSET {
        return None;
    }
    let start: usize = mf_offset - rx::SYM_PEAK_OFFSET;
    if start < consumed_until {
        return None;
    }
    match rx::check_header_span(start, audio_len) {
        Ok(_) => Some(start),
        Err(_) => None,
    }
}

/// The end of a decoded frame: later peaks before it belong to it.
pub fn frame_end(start: usize, block_count: u8, mode: Mode) -> (end: usize)
    requires
        start <= isize::MAX,
    ensures
        end == start + (247 + block_count * mode.channel_bits() / 2) * 10,
{
    let len: usize = mode.ch_bits_per_block();
    let blocks: usize = block_count as usize;
    assert(blocks * len <= 255 * 240) by (nonlinear_arith)
        requires
            blocks <= 255,
            len <= 240,
    ;
    start + (rx::PREAMBLE_LEN + rx::HEADER_BLOCK_SYMS + blocks * len / 2) * rx::NSPS
}

/// The best offset and preamble of one channel: the keys list the preambles of
/// offset nought, then those of offset one, and so on. Without a positive
/// correlation the first offset and the first preamble stand in.
pub fn best_sync(keys: &[u32]) -> (best: (usize, usize, u32))
    ensures
        ({
            let (offset, preamble, key) = best;
            &&& preamble < 3
            &&& match (exists|i: int|
                0 <= i < keys@.len() && #[trigger] keys@[i] > select::ZERO_KEY) {
                true => select::is_first_peak(keys@, 3 * offset + preamble) && key == keys@[3
                    * offset + preamble],
                false => offset == 0 && preamble == 0 && key == select::ZERO_KEY,
            }
        }),
{
    match select::first_peak_above(keys, select::ZERO_KEY) {
        Some(at) => {
            assert(keys@[at as int] > select::ZERO_KEY);
            (at / NUM_PREAMBLES, at % NUM_PREAMBLES, keys[at])
        },
        None => (0, 0, select::ZERO_KEY),
    }
}

/// The channels that are decoded: in descending order of their keys, those
/// that are no neighbours of a better one kept.
pub fn pick_channels<P: Near>(keys: &[u32], near: &P) -> (kept: Vec<usize>)
    requires
        forall|c: int| c <= keys@.len() ==> #[trigger] near.covers(c),
    ensures
        exists|order: Seq<usize>|
            #[trigger] select::is_ranking(keys@, order) && kept@ == select::survivors(
                near,
                order,
                usize::MAX as nat,
                order.len() as int,
            ),
{
    let order: Vec<usize> = select::rank_desc(keys);
    assert forall|t: int| 0 <= t < order@.len() implies near.covers(#[trigger] order@[t] + 1) by {
        assert(order@[t] < keys@.len());
    }
    assert(select::is_ranking(keys@, order@));
    select::suppress(near, &order, usize::MAX)
}

/// The best correlation with preamble `m` among the first `n`, and at least
/// nought.
pub open spec fn best_of_preamble(keys: Seq<u32>, m: int, n: int) -> u32
    decreases n,
{
    if n <= 0 {
        select::ZERO_KEY
    } else {
        let before = best_of_preamble(keys, m, n - 1);
        if (n - 1) % 3 == m && keys[n - 1] > before {
            keys[n - 1]
        } else {
            before
        }
    }
}

/// The best correlation with each preamble: the keys list the preambles of
/// offset nought, then those of offset one, and so on.
pub fn preamble_bests(keys: &[u32]) -> (bests: [u32; 3])
    ensures
        forall|m: int|
            0 <= m < 3 ==> #[trigger] bests@[m] == best_of_preamble(
                keys@,
                m,
                keys@.len() as int,
            ),
{
    let mut bests: [u32; 3] = [select::ZERO_KEY; 3];
    for i in 0..keys.len()
        invariant
            forall|m: int|
                0 <= m < 3 ==> #[trigger] bests@[m] == best_of_preamble(keys@, m, i as int),
    {
        let m: usize = i % NUM_PREAMBLES;
        if keys[i] > bests[m] {
            bests[m] = keys[i];
        }
    }
    bests
}

/// The mode whose preamble correlates best; the last one of equals.
pub fn strongest_mode(keys: &[u32; 3]) -> (mode: Mode)
    ensures
        select::is_last_peak(keys@, mode.code() as int),
{
    let at: usize = select::last_peak(keys.as_slice());
    match mode_for_index(at) {
        Some(mode) => mode,
        None => Mode::Robust,
    }
}

/// Number of offsets of the filter output at which a preamble of `chips` fits.
pub fn correlation_offsets(mf_len: usize, chips: usize) -> (n: usize)
    requires
        1 <= chips <= 127,
    ensures
        n == (if mf_len >= (chips - 1) * 10 + 1 {
            mf_len - ((chips - 1) * 10 + 1)
        } else {
            0
        }),
{
    let span: usize = (chips - 1) * rx::NSPS + 1;
    if mf_len >= span {
        mf_len - span
    } else {
        0
    }
}

/// Number of offsets at which the preamble of `chips` is located.
pub open spec fn offsets_tried(mf_len: int, chips: int) -> int {
    let fit = mf_len - (chips - 1) * 10 - 50;
    if fit < 0 {
        0
    } else if fit > 21 {
        21
    } else {
        fit
    }
}

/// The offsets at which the preamble of a known frame is located: a symbol to
/// either side of the nominal one, 50 to 70, as far as the preamble fits.
pub fn preamble_offsets(mf_len: usize, chips: usize) -> (offsets: Vec<usize>)
    requires
        1 <= chips <= 127,
    ensures
        offsets@.len() == offsets_tried(mf_len as int, chips as int),
        forall|t: int| 0 <= t < offsets@.len() ==> #[trigger] offsets@[t] == 50 + t,
{
    let mut offsets: Vec<usize> = Vec::new();
    let reach: usize = (chips - 1) * rx::NSPS;
    for j in 0..21usize
        invariant
            reach == (chips - 1) * 10,
            reach <= 1260,
            offsets@.len() == (if offsets_tried(mf_len as int, chips as int) < j {
                offsets_tried(mf_len as int, chips as int)
            } else {
                j as int
            }),
            forall|t: int| 0 <= t < offsets@.len() ==> #[trigger] offsets@[t] == 50 + t,
    {
        let off: usize = rx::SYM_PEAK_OFFSET - rx::NSPS + j;
        if off + reach < mf_len {
            offsets.push(off);
        }
    }
    offsets
}

/// Whether the offsets next to `best` can be correlated too, for the
/// refinement below a sample.
pub fn has_neighbours(best: usize, mf_len: usize, chips: usize) -> (yes: bool)
    requires
        1 <= chips <= 127,
        best <= 70,
    ensures
        yes == (best > 0 && best + 1 + (chips - 1) * 10 < mf_len),
{
    best > 0 && best + 1 + (chips - 1) * rx::NSPS < mf_len
}

/// The first symbol under the taps of the equaliser at output `k`; `None` near
/// the ends, where the output is nought.
pub fn tap_window(k: usize, n_symbols: usize) -> (first: Option<usize>)
    requires
        k <= usize::MAX - 4,
    ensures
        match first {
            Some(f) => f == k - 4 && k + 4 < n_symbols,
            None => k < 4 || k + 4 >= n_symbols,
        },
{
    if k < rx::EQ_TAP_HALF || k + rx::EQ_TAP_HALF >= n_symbols {
        None
    } else {
        Some(k - rx::EQ_TAP_HALF)
    }
}

} // verus!
