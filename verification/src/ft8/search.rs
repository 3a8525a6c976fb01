//! From the spectra of a slot to its candidates.
//!
//! The scores are quotients of sums and are computed by the caller's
//! functions; which sums, which scores win and which candidates are one and the
//! same is decided here.

use super::coarse;
use super::coarse::CostasSums;
use super::spectrogram::Spectrogram;
use crate::select;
use crate::select::Near;
use vstd::prelude::*;

verus! {

/// A candidate of the coarse search.
#[derive(Clone, Copy, Debug, PartialEq, Eq)]
pub struct Candidate {
    /// Carrier bin.
    pub bin: usize,
    /// Shift in time, in spectra.
    pub lag: i32,
    /// Order key of its normalised score.
    pub key: u32,
    /// Order keys of the raw scores a spectrum earlier, here, and a spectrum
    /// later; all the same at the ends of the search.
    pub around: (u32, u32, u32),
}

/// What the search asks of its surroundings.
pub struct SearchFront<W, N, P> {
    /// Order key of the score of a place.
    pub ratio: W,
    /// Order key of a raw score set against the noise floor, if it is good
    /// enough.
    pub norm: N,
    /// Whether two candidates are close in frequency and time.
    pub near: P,
}

/// Candidates that are close are neighbours.
pub struct CloseCandidates<'a, P> {
    pub list: &'a Vec<Candidate>,
    pub f: &'a P,
}

impl<'a, P: Fn(&Candidate, &Candidate) -> bool> Near for CloseCandidates<'a, P> {
    open spec fn near(&self, a: int, b: int) -> bool {
        call_ensures(*self.f, (&self.list@[a], &self.list@[b]), true)
    }

    /// The function takes every pair and gives one answer.
    open spec fn covers(&self, count: int) -> bool {
        &&& count <= self.list@.len()
        &&& one_answer(*self.f)
    }

    fn is_near(&self, a: usize, b: usize) -> (yes: bool) {
        let x: &Candidate = &self.list[a];
        let y: &Candidate = &self.list[b];
        assert(call_requires(*self.f, (x, y)));
        (self.f)(x, y)
    }
}

/// A function that takes every pair of candidates and gives one answer.
pub open spec fn one_answer<P: Fn(&Candidate, &Candidate) -> bool>(f: P) -> bool {
    forall|x: &Candidate, y: &Candidate|
        {
            &&& #[trigger] call_requires(f, (x, y))
            &&& !(call_ensures(f, (x, y), true) && call_ensures(f, (x, y), false))
        }
}

/// The best raw score of carrier `fi` among its first `n` shifts, and at least
/// nought.
pub open spec fn best_raw(raw: Seq<u32>, n_lag: int, fi: int, n: int) -> u32
    decreases n,
{
    if n <= 0 {
        select::ZERO_KEY
    } else {
        let before = best_raw(raw, n_lag, fi, n - 1);
        let here = raw[fi * n_lag + n - 1];
        if here > before {
            here
        } else {
            before
        }
    }
}

/// The best raw score of every carrier.
pub open spec fn best_raws(raw: Seq<u32>, n_lag: int, n_carriers: nat) -> Seq<u32> {
    Seq::new(n_carriers, |fi: int| best_raw(raw, n_lag, fi, n_lag))
}

/// The candidate at shift number `x` of carrier number `fi`.
pub open spec fn candidate_at(
    raw: Seq<u32>,
    norms: Seq<Option<u32>>,
    ia: int,
    n_lag: int,
    fi: int,
    x: int,
) -> Candidate {
    let at = fi * n_lag + x;
    Candidate {
        bin: (ia + fi) as usize,
        lag: (x - n_lag / 2) as i32,
        key: norms[at]->0,
        around: if 0 < x < n_lag - 1 {
            (raw[at - 1], raw[at], raw[at + 1])
        } else {
            (raw[at], raw[at], raw[at])
        },
    }
}

/// The normalised scores of a carrier; what is not good enough counts nought.
pub open spec fn row_keys(norms: Seq<Option<u32>>, n_lag: int, fi: int) -> Seq<u32> {
    Seq::new(
        n_lag as nat,
        |x: int|
            match norms[fi * n_lag + x] {
                Some(k) => k,
                None => 0u32,
            },
    )
}

/// Which shifts of a carrier are good enough.
pub open spec fn row_admitted(norms: Seq<Option<u32>>, n_lag: int, fi: int) -> Seq<bool> {
    Seq::new(n_lag as nat, |x: int| norms[fi * n_lag + x] is Some)
}

/// The candidates of the first `n` carriers, given the shifts picked of each.
pub open spec fn candidates_of(
    raw: Seq<u32>,
    norms: Seq<Option<u32>>,
    ia: int,
    n_lag: int,
    picks: Seq<Seq<usize>>,
    n: int,
) -> Seq<Candidate>
    decreases n,
{
    if n <= 0 {
        Seq::empty()
    } else {
        candidates_of(raw, norms, ia, n_lag, picks, n - 1) + picks[n - 1].map_values(
            |x: usize| candidate_at(raw, norms, ia, n_lag, n - 1, x as int),
        )
    }
}

impl<W, N, P> SearchFront<W, N, P> {
    /// The functions take whatever they are asked.
    pub open spec fn callable(&self) -> bool where
        W: Fn(&CostasSums) -> u32,
        N: Fn(u32, u32) -> Option<u32>,
        P: Fn(&Candidate, &Candidate) -> bool,
     {
        &&& forall|s: &CostasSums| #[trigger] call_requires(self.ratio, (s,))
        &&& self.sifts()
    }

    /// The functions that compare scores take whatever they are asked.
    pub open spec fn sifts(&self) -> bool where
        N: Fn(u32, u32) -> Option<u32>,
        P: Fn(&Candidate, &Candidate) -> bool,
     {
        &&& forall|raw: u32, base: u32| #[trigger] call_requires(self.norm, (raw, base))
        &&& one_answer(self.near)
    }

    /// The functions that compute scores give one answer.
    pub open spec fn decided(&self) -> bool where
        W: Fn(&CostasSums) -> u32,
        N: Fn(u32, u32) -> Option<u32>,
     {
        &&& forall|s: &CostasSums, a: u32, b: u32| #[trigger]
            call_ensures(self.ratio, (s,), a) && #[trigger] call_ensures(self.ratio, (s,), b)
                ==> a == b
        &&& forall|raw: u32, base: u32, a: Option<u32>, b: Option<u32>| #[trigger]
            call_ensures(self.norm, (raw, base), a) && #[trigger] call_ensures(
                self.norm,
                (raw, base),
                b,
            ) ==> a == b
    }

    /// Raw scores of all places: entry `fi * n_lag + x` belongs to carrier
    /// number `fi` and shift number `x`.
    pub open spec fn rated(
        &self,
        spec: &Spectrogram,
        ia: int,
        n_carriers: int,
        n_lag: int,
        raw: Seq<u32>,
    ) -> bool where W: Fn(&CostasSums) -> u32 {
        &&& raw.len() == n_carriers * n_lag
        &&& forall|fi: int, x: int|
            0 <= fi < n_carriers && 0 <= x < n_lag ==> self.rates(
                spec,
                ia + fi,
                x - n_lag / 2,
                #[trigger] raw[fi * n_lag + x],
            )
    }

    /// The raw score of a place.
    pub open spec fn rates(&self, spec: &Spectrogram, carrier: int, lag: int, key: u32) -> bool where
        W: Fn(&CostasSums) -> u32,
     {
        exists|sums: &CostasSums|
            sums.measures(spec, carrier, lag) && #[trigger] call_ensures(self.ratio, (sums,), key)
    }

    /// The scores set against a noise floor.
    pub open spec fn normed(&self, raw: Seq<u32>, base: u32, norms: Seq<Option<u32>>) -> bool where
        N: Fn(u32, u32) -> Option<u32>,
     {
        &&& norms.len() == raw.len()
        &&& forall|i: int|
            0 <= i < raw.len() ==> call_ensures(self.norm, (raw[i], base), #[trigger] norms[i])
    }

    /// Candidates out of raw scores: the noise floor, two fifths up the best
    /// scores of all carriers; scores set against it; the shifts picked of each
    /// carrier.
    pub open spec fn searched(
        &self,
        raw: Seq<u32>,
        n_carriers: int,
        n_lag: int,
        base: u32,
        norms: Seq<Option<u32>>,
        picks: Seq<Seq<usize>>,
    ) -> bool where N: Fn(u32, u32) -> Option<u32> {
        &&& select::is_nth_smallest(
            best_raws(raw, n_lag, n_carriers as nat),
            2 * n_carriers / 5,
            base,
        )
        &&& self.normed(raw, base, norms)
        &&& picks.len() == n_carriers
        &&& forall|fi: int|
            0 <= fi < n_carriers ==> coarse::is_lag_pick(
                row_keys(norms, n_lag, fi),
                row_admitted(norms, n_lag, fi),
                #[trigger] picks[fi],
            )
    }

    /// The candidates that are kept, best first: of close ones the better.
    pub open spec fn keeps(
        &self,
        list: &Vec<Candidate>,
        min_key: u32,
        max_cand: int,
        kept: Seq<Candidate>,
    ) -> bool where P: Fn(&Candidate, &Candidate) -> bool {
        let near = CloseCandidates { list, f: &self.near };
        let keys = scores_of(list@);
        let scores = select::settled(&near, keys, select::ZERO_KEY, keys.len() as int);
        exists|order: Seq<usize>|
            {
                &&& #[trigger] coarse::is_candidate_list(&near, keys, min_key, max_cand, order)
                &&& kept == order.map_values(
                    |i: usize| Candidate { key: scores[i as int], ..list@[i as int] },
                )
            }
    }

    /// What a search from bin `ia` to bin `ib` gives: nothing where eight tones
    /// do not fit.
    pub open spec fn finds(
        &self,
        spec: &Spectrogram,
        ia: int,
        ib: int,
        n_lag: int,
        min_key: u32,
        max_cand: int,
        kept: Seq<Candidate>,
    ) -> bool where
        W: Fn(&CostasSums) -> u32,
        N: Fn(u32, u32) -> Option<u32>,
        P: Fn(&Candidate, &Candidate) -> bool,
     {
        let top = top_carrier(ib, spec.n_freq as int);
        if top < ia {
            kept.len() == 0
        } else {
            self.found(spec, ia, top - ia + 1, n_lag, min_key, max_cand, kept)
        }
    }

    /// What a search in two halves gives: the best of both.
    pub open spec fn finds_in_halves(
        &self,
        spec: &Spectrogram,
        ia: int,
        mid: int,
        ib: int,
        n_lag: int,
        min_key: u32,
        max_cand: int,
        kept: Seq<Candidate>,
    ) -> bool where
        W: Fn(&CostasSums) -> u32,
        N: Fn(u32, u32) -> Option<u32>,
        P: Fn(&Candidate, &Candidate) -> bool,
     {
        exists|head: Seq<Candidate>, tail: Seq<Candidate>|
            {
                &&& #[trigger] self.finds(spec, ia, mid, n_lag, min_key, max_cand, head)
                &&& #[trigger] self.finds(spec, mid, ib, n_lag, min_key, max_cand, tail)
                &&& is_merged(head, tail, max_cand as nat, kept)
            }
    }

    /// What a search of carriers `ia` to `ia + n_carriers - 1` gives.
    pub open spec fn found(
        &self,
        spec: &Spectrogram,
        ia: int,
        n_carriers: int,
        n_lag: int,
        min_key: u32,
        max_cand: int,
        kept: Seq<Candidate>,
    ) -> bool where
        W: Fn(&CostasSums) -> u32,
        N: Fn(u32, u32) -> Option<u32>,
        P: Fn(&Candidate, &Candidate) -> bool,
     {
        exists|raw: Seq<u32>| #[trigger]
            self.rated(spec, ia, n_carriers, n_lag, raw) && self.sifted(
                raw,
                ia,
                n_carriers,
                n_lag,
                min_key,
                max_cand,
                kept,
            )
    }

    /// What raw scores of carriers `ia` to `ia + n_carriers - 1` lead to.
    pub open spec fn sifted(
        &self,
        raw: Seq<u32>,
        ia: int,
        n_carriers: int,
        n_lag: int,
        min_key: u32,
        max_cand: int,
        kept: Seq<Candidate>,
    ) -> bool where N: Fn(u32, u32) -> Option<u32>, P: Fn(&Candidate, &Candidate) -> bool {
        exists|base: u32, norms: Seq<Option<u32>>, picks: Seq<Seq<usize>>, list: Vec<Candidate>|
            {
                &&& #[trigger] self.searched(raw, n_carriers, n_lag, base, norms, picks)
                &&& list@ == candidates_of(raw, norms, ia, n_lag, picks, n_carriers)
                &&& #[trigger] self.keeps(&list, min_key, max_cand, kept)
            }
    }
}

/// Spectra that can be searched from bin `ia` on: eight tones fit into them,
/// unless the search begins above the first bin and finds nothing.
pub open spec fn searchable(spec: &Spectrogram, ia: int) -> bool {
    &&& spec.well_formed()
    &&& spec.n_freq >= 16 || ia > 0
    &&& spec.n_freq <= 1000000
    &&& spec.n_time <= 1000000
    &&& spec.n_freq * spec.n_time <= usize::MAX
}

/// The last carrier of the search: eight tones fit above it.
pub open spec fn top_carrier(ib: int, n_freq: int) -> int {
    if ib < n_freq - 16 {
        ib
    } else {
        n_freq - 16
    }
}

/// Raw scores of all places.
fn rate<W, N, P>(
    front: &SearchFront<W, N, P>,
    spec: &Spectrogram,
    table: &[u32],
    ia: usize,
    n_carriers: usize,
    jz: u32,
) -> (raw: Vec<u32>) where
    W: Fn(&CostasSums) -> u32,
    N: Fn(u32, u32) -> Option<u32>,
    P: Fn(&Candidate, &Candidate) -> bool,

    requires
        front.callable(),
        spec.well_formed(),
        coarse::is_allsum(spec, ia as int, n_carriers as int, table@),
        ia + n_carriers + 15 <= spec.n_freq,
        spec.n_time <= 1000000,
        jz <= 1000000,
    ensures
        front.rated(spec, ia as int, n_carriers as int, 2 * jz + 1, raw@),
{
    let grid: Vec<CostasSums> = coarse::coarse_sums(spec, table, ia, n_carriers, jz);
    let mut raw: Vec<u32> = Vec::new();
    for i in 0..grid.len()
        invariant
            front.callable(),
            raw@.len() == i,
            forall|q: int|
                0 <= q < i ==> call_ensures(front.ratio, (&grid@[q],), #[trigger] raw@[q]),
    {
        let key: u32 = (front.ratio)(&grid[i]);
        assert(call_ensures(front.ratio, (&grid@[i as int],), key));
        raw.push(key);
    }
    proof {
        let n_lag = 2 * jz + 1;
        assert forall|fi: int, x: int| 0 <= fi < n_carriers && 0 <= x < n_lag implies front.rates(
            spec,
            ia + fi,
            x - n_lag / 2,
            #[trigger] raw@[fi * n_lag + x],
        ) by {
            let at = fi * n_lag + x;
            assert(0 <= at < n_carriers * n_lag) by (nonlinear_arith)
                requires
                    0 <= fi <= n_carriers - 1,
                    0 <= x < n_lag,
                    at == fi * n_lag + x,
            ;
            assert(grid@[at].measures(spec, ia + fi, x - jz));
            assert(call_ensures(front.ratio, (&grid@[at],), raw@[at]));
        }
    }
    raw
}

/// The best raw score of every carrier.
fn carrier_bests(raw: &Vec<u32>, n_lag: usize, n_carriers: usize) -> (bests: Vec<u32>)
    requires
        raw@.len() == n_carriers * n_lag,
    ensures
        bests@ == best_raws(raw@, n_lag as int, n_carriers as nat),
{
    let total: usize = raw.len();
    let mut bests: Vec<u32> = Vec::new();
    for fi in 0..n_carriers
        invariant
            total == raw@.len(),
            raw@.len() == n_carriers * n_lag,
            bests@.len() == fi,
            forall|q: int|
                0 <= q < fi ==> #[trigger] bests@[q] == best_raw(
                    raw@,
                    n_lag as int,
                    q,
                    n_lag as int,
                ),
    {
        let mut best: u32 = select::ZERO_KEY;
        for x in 0..n_lag
            invariant
                total == raw@.len(),
                raw@.len() == n_carriers * n_lag,
                fi < n_carriers,
                best == best_raw(raw@, n_lag as int, fi as int, x as int),
        {
            assert(0 <= fi * n_lag && fi * n_lag + x < n_carriers * n_lag) by (nonlinear_arith)
                requires
                    fi + 1 <= n_carriers,
                    x < n_lag,
            ;
            let here: u32 = raw[fi * n_lag + x];
            if here > best {
                best = here;
            }
        }
        bests.push(best);
    }
    assert(bests@ =~= best_raws(raw@, n_lag as int, n_carriers as nat));
    bests
}

/// The candidates of one carrier.
fn carrier_candidates(
    raw: &Vec<u32>,
    norms: &Vec<Option<u32>>,
    ia: usize,
    n_lag: usize,
    n_carriers: usize,
    fi: usize,
) -> (r: (Vec<usize>, Vec<Candidate>))
    requires
        fi < n_carriers,
        1 <= n_lag <= 2000001,
        raw@.len() == n_carriers * n_lag,
        norms@.len() == raw@.len(),
        ia + n_carriers <= usize::MAX,
    ensures
        coarse::is_lag_pick(
            row_keys(norms@, n_lag as int, fi as int),
            row_admitted(norms@, n_lag as int, fi as int),
            r.0@,
        ),
        r.1@ == r.0@.map_values(
            |x: usize| candidate_at(raw@, norms@, ia as int, n_lag as int, fi as int, x as int),
        ),
{
    let total: usize = raw.len();
    proof {
        assert(0 <= fi * n_lag && fi * n_lag + n_lag <= n_carriers * n_lag) by (nonlinear_arith)
            requires
                fi + 1 <= n_carriers,
                1 <= n_lag,
        ;
    }
    let row: usize = fi * n_lag;
    let mut keys: Vec<u32> = Vec::new();
    let mut admitted: Vec<bool> = Vec::new();
    for x in 0..n_lag
        invariant
            row == fi * n_lag,
            row + n_lag <= total,
            total == norms@.len(),
            keys@.len() == x,
            admitted@.len() == x,
            forall|q: int|
                0 <= q < x ==> #[trigger] keys@[q] == row_keys(norms@, n_lag as int, fi as int)[q],
            forall|q: int|
                0 <= q < x ==> #[trigger] admitted@[q] == row_admitted(
                    norms@,
                    n_lag as int,
                    fi as int,
                )[q],
    {
        match norms[row + x] {
            Some(key) => {
                keys.push(key);
                admitted.push(true);
            },
            None => {
                keys.push(0);
                admitted.push(false);
            },
        }
    }
    assert(keys@ =~= row_keys(norms@, n_lag as int, fi as int));
    assert(admitted@ =~= row_admitted(norms@, n_lag as int, fi as int));
    let picked: Vec<usize> = coarse::pick_lags(&keys, &admitted);
    proof {
        lemma_picks_admitted(keys@, admitted@, picked@);
    }
    let mut out: Vec<Candidate> = Vec::new();
    for i in 0..picked.len()
        invariant
            row == fi * n_lag,
            row + n_lag <= total,
            total == norms@.len(),
            total == raw@.len(),
            1 <= n_lag <= 2000001,
            fi < n_carriers,
            ia + n_carriers <= usize::MAX,
            forall|q: int| 0 <= q < picked@.len() ==> #[trigger] picked@[q] < n_lag,
            forall|q: int|
                0 <= q < picked@.len() ==> norms@[fi * n_lag + #[trigger] picked@[q]] is Some,
            out@.len() == i,
            forall|q: int|
                0 <= q < i ==> #[trigger] out@[q] == candidate_at(
                    raw@,
                    norms@,
                    ia as int,
                    n_lag as int,
                    fi as int,
                    picked@[q] as int,
                ),
    {
        let x: usize = picked[i];
        let here: u32 = raw[row + x];
        let key: u32 = match norms[row + x] {
            Some(key) => key,
            None => 0,
        };
        let around: (u32, u32, u32) = if x > 0 && x < n_lag - 1 {
            (raw[row + x - 1], here, raw[row + x + 1])
        } else {
            (here, here, here)
        };
        out.push(
            Candidate { bin: ia + fi, lag: x as i32 - (n_lag / 2) as i32, key, around },
        );
    }
    assert(out@ =~= picked@.map_values(
        |x: usize| candidate_at(raw@, norms@, ia as int, n_lag as int, fi as int, x as int),
    ));
    (picked, out)
}

/// What is picked is good enough.
proof fn lemma_picks_admitted(keys: Seq<u32>, admitted: Seq<bool>, picked: Seq<usize>)
    requires
        coarse::is_lag_pick(keys, admitted, picked),
        admitted.len() == keys.len(),
    ensures
        forall|q: int|
            0 <= q < picked.len() ==> #[trigger] picked[q] < keys.len()
                && admitted[picked[q] as int],
{
    let (near, order) = choose|near: select::WithinDistance, order: Seq<usize>|
        {
            &&& near.positions@ == coarse::lag_positions(keys.len())
            &&& near.radius == 10
            &&& #[trigger] select::ranks_admitted(keys, admitted, order)
            &&& picked == #[trigger] select::survivors(&near, order, 8, order.len() as int)
        };
    assert forall|q: int| 0 <= q < picked.len() implies #[trigger] picked[q] < keys.len()
        && admitted[picked[q] as int] by {
        let t = select::lemma_survivor_is_listed(&near, order, 8, order.len() as int, q);
        assert(order[t] < keys.len() && admitted[order[t] as int]);
    }
}

/// Search the carriers from bin `ia` to bin `ib`, at shifts of up to `jz`
/// spectra, and keep the best `max_cand` candidates whose score reaches
/// `min_key`.
pub fn coarse_sync<W, N, P>(
    front: &SearchFront<W, N, P>,
    spec: &Spectrogram,
    ia: usize,
    ib: usize,
    jz: u32,
    min_key: u32,
    max_cand: usize,
) -> (kept: Vec<Candidate>) where
    W: Fn(&CostasSums) -> u32,
    N: Fn(u32, u32) -> Option<u32>,
    P: Fn(&Candidate, &Candidate) -> bool,

    requires
        front.callable(),
        searchable(spec, ia as int),
        ib < usize::MAX,
        jz <= 1000000,
    ensures
        front.finds(
            spec,
            ia as int,
            ib as int,
            2 * jz + 1,
            min_key,
            max_cand as int,
            kept@,
        ),
{
    let n_carriers: usize = match coarse::search_band(ia, ib, spec.n_freq) {
        Some((_, count)) => count,
        None => {
            return Vec::new();
        },
    };
    assert(n_carriers * spec.n_time <= spec.n_freq * spec.n_time) by (nonlinear_arith)
        requires
            n_carriers <= spec.n_freq,
    ;
    let table: Vec<u32> = coarse::precompute_coarse_allsum(spec, ia, n_carriers);
    coarse_sync_with_allsum(front, spec, ia, ib, jz, min_key, max_cand, &table)
}

/// The same, with the sums over all tones already at hand.
pub fn coarse_sync_with_allsum<W, N, P>(
    front: &SearchFront<W, N, P>,
    spec: &Spectrogram,
    ia: usize,
    ib: usize,
    jz: u32,
    min_key: u32,
    max_cand: usize,
    table: &[u32],
) -> (kept: Vec<Candidate>) where
    W: Fn(&CostasSums) -> u32,
    N: Fn(u32, u32) -> Option<u32>,
    P: Fn(&Candidate, &Candidate) -> bool,

    requires
        front.callable(),
        searchable(spec, ia as int),
        ib < usize::MAX,
        jz <= 1000000,
        ({
            let top = top_carrier(ib as int, spec.n_freq as int);
            ia <= top ==> coarse::is_allsum(spec, ia as int, top - ia + 1, table@)
        }),
    ensures
        front.finds(
            spec,
            ia as int,
            ib as int,
            2 * jz + 1,
            min_key,
            max_cand as int,
            kept@,
        ),
{
    let n_carriers: usize = match coarse::search_band(ia, ib, spec.n_freq) {
        Some((_, count)) => count,
        None => {
            return Vec::new();
        },
    };
    let n_lag: usize = 2 * (jz as usize) + 1;
    let raw: Vec<u32> = rate(front, spec, table, ia, n_carriers, jz);
    let kept: Vec<Candidate> = sift(front, &raw, ia, n_carriers, n_lag, min_key, max_cand);
    assert(front.rated(spec, ia as int, n_carriers as int, 2 * jz + 1, raw@));
    kept
}

/// The candidates in a list of raw scores: entry `fi * n_lag + x` is the order
/// key of carrier number `fi` at shift number `x`, of as many to either side.
pub fn sift<W, N, P>(
    front: &SearchFront<W, N, P>,
    raw: &Vec<u32>,
    ia: usize,
    n_carriers: usize,
    n_lag: usize,
    min_key: u32,
    max_cand: usize,
) -> (kept: Vec<Candidate>) where
    N: Fn(u32, u32) -> Option<u32>,
    P: Fn(&Candidate, &Candidate) -> bool,

    requires
        front.sifts(),
        1 <= n_carriers <= 1000000,
        1 <= n_lag <= 2000001,
        raw@.len() == n_carriers * n_lag,
        ia + n_carriers <= usize::MAX,
    ensures
        front.sifted(
            raw@,
            ia as int,
            n_carriers as int,
            n_lag as int,
            min_key,
            max_cand as int,
            kept@,
        ),
{
    let bests: Vec<u32> = carrier_bests(raw, n_lag, n_carriers);
    let base: u32 = select::nth_smallest(&bests, 2 * n_carriers / 5);
    let mut norms: Vec<Option<u32>> = Vec::new();
    for i in 0..raw.len()
        invariant
            front.sifts(),
            norms@.len() == i,
            forall|q: int|
                0 <= q < i ==> call_ensures(front.norm, (raw@[q], base), #[trigger] norms@[q]),
    {
        let norm: Option<u32> = (front.norm)(raw[i], base);
        assert(call_ensures(front.norm, (raw@[i as int], base), norm));
        norms.push(norm);
    }
    let mut list: Vec<Candidate> = Vec::new();
    let ghost mut picks: Seq<Seq<usize>> = Seq::empty();
    for fi in 0..n_carriers
        invariant
            1 <= n_lag <= 2000001,
            raw@.len() == n_carriers * n_lag,
            norms@.len() == raw@.len(),
            ia + n_carriers <= usize::MAX,
            picks.len() == fi,
            forall|q: int|
                0 <= q < fi ==> coarse::is_lag_pick(
                    row_keys(norms@, n_lag as int, q),
                    row_admitted(norms@, n_lag as int, q),
                    #[trigger] picks[q],
                ),
            list@ == candidates_of(raw@, norms@, ia as int, n_lag as int, picks, fi as int),
    {
        let (picked, mut more): (Vec<usize>, Vec<Candidate>) = carrier_candidates(
            raw,
            &norms,
            ia,
            n_lag,
            n_carriers,
            fi,
        );
        list.append(&mut more);
        proof {
            let old_picks = picks;
            picks = picks.push(picked@);
            lemma_same_picks(raw@, norms@, ia as int, n_lag as int, old_picks, picks, fi as int);
            assert(list@ =~= candidates_of(
                raw@,
                norms@,
                ia as int,
                n_lag as int,
                picks,
                fi + 1,
            ));
        }
    }
    assert(front.searched(raw@, n_carriers as int, n_lag as int, base, norms@, picks));
    let keys: Vec<u32> = keys_of(&list);
    let near: CloseCandidates<'_, P> = CloseCandidates { list: &list, f: &front.near };
    let ghost all_keys = keys@;
    let (order, scores): (Vec<usize>, Vec<u32>) = coarse::reduce_candidates(
        &near,
        keys,
        min_key,
        max_cand,
    );
    proof {
        lemma_order_bounds(&near, all_keys, min_key, max_cand as int, order@);
        lemma_settled_len(&near, all_keys, all_keys.len() as int);
    }
    let mut kept: Vec<Candidate> = Vec::new();
    for i in 0..order.len()
        invariant
            forall|q: int| 0 <= q < order@.len() ==> #[trigger] order@[q] < list@.len(),
            scores@.len() == list@.len(),
            kept@.len() == i,
            forall|q: int|
                0 <= q < i ==> #[trigger] kept@[q] == (Candidate {
                    key: scores@[order@[q] as int],
                    ..list@[order@[q] as int]
                }),
    {
        let c: Candidate = list[order[i]];
        kept.push(Candidate { key: scores[order[i]], ..c });
    }
    proof {
        assert(kept@ =~= order@.map_values(
            |i: usize| Candidate { key: scores@[i as int], ..list@[i as int] },
        ));
        assert(front.keeps(&list, min_key, max_cand as int, kept@));
    }
    kept
}

/// The scores of candidates.
pub open spec fn scores_of(list: Seq<Candidate>) -> Seq<u32> {
    Seq::new(list.len(), |i: int| list[i].key)
}

/// The best of two lists of candidates, best first; of equal ones those of the
/// first list come first.
pub open spec fn is_merged(
    head: Seq<Candidate>,
    tail: Seq<Candidate>,
    limit: nat,
    kept: Seq<Candidate>,
) -> bool {
    let all = head + tail;
    exists|best: Seq<usize>|
        {
            &&& #[trigger] select::is_best(scores_of(all), limit, best)
            &&& kept == best.map_values(|i: usize| all[i as int])
        }
}

/// Keep the best of two lists of candidates.
pub fn merge_candidates(head: Vec<Candidate>, tail: &Vec<Candidate>, limit: usize) -> (kept: Vec<
    Candidate,
>)
    ensures
        is_merged(head@, tail@, limit as nat, kept@),
{
    let head_keys: Vec<u32> = keys_of(&head);
    let tail_keys: Vec<u32> = keys_of(tail);
    let best: Vec<usize> = select::merge_best(&head_keys, &tail_keys, limit);
    let ghost all = head@ + tail@;
    let n_head: usize = head.len();
    proof {
        assert(head_keys@ + tail_keys@ =~= scores_of(all));
        select::lemma_best_in_range(scores_of(all), limit as nat, best@);
    }
    let mut kept: Vec<Candidate> = Vec::new();
    for i in 0..best.len()
        invariant
            n_head == head@.len(),
            all == head@ + tail@,
            forall|q: int| 0 <= q < best@.len() ==> #[trigger] best@[q] < all.len(),
            kept@.len() == i,
            forall|q: int| 0 <= q < i ==> #[trigger] kept@[q] == all[best@[q] as int],
    {
        let at: usize = best[i];
        if at < n_head {
            kept.push(head[at]);
        } else {
            kept.push(tail[at - n_head]);
        }
    }
    proof {
        assert(kept@ =~= best@.map_values(|i: usize| all[i as int]));
        assert(select::is_best(scores_of(all), limit as nat, best@));
    }
    kept
}

/// Read the scores of candidates.
fn keys_of(list: &Vec<Candidate>) -> (keys: Vec<u32>)
    ensures
        keys@ == scores_of(list@),
{
    let mut keys: Vec<u32> = Vec::new();
    for i in 0..list.len()
        invariant
            keys@.len() == i,
            forall|q: int| 0 <= q < i ==> #[trigger] keys@[q] == list@[q].key,
    {
        keys.push(list[i].key);
    }
    assert(keys@ =~= scores_of(list@));
    keys
}

/// Search the lower and the upper half of a band one after the other; bin
/// `mid` belongs to both.
pub fn coarse_sync_split<W, N, P>(
    front: &SearchFront<W, N, P>,
    spec: &Spectrogram,
    ia: usize,
    mid: usize,
    ib: usize,
    jz: u32,
    min_key: u32,
    max_cand: usize,
) -> (kept: Vec<Candidate>) where
    W: Fn(&CostasSums) -> u32,
    N: Fn(u32, u32) -> Option<u32>,
    P: Fn(&Candidate, &Candidate) -> bool,

    requires
        front.callable(),
        searchable(spec, ia as int),
        searchable(spec, mid as int),
        mid < usize::MAX,
        ib < usize::MAX,
        jz <= 1000000,
    ensures
        front.finds_in_halves(
            spec,
            ia as int,
            mid as int,
            ib as int,
            2 * jz + 1,
            min_key,
            max_cand as int,
            kept@,
        ),
{
    let head: Vec<Candidate> = coarse_sync(front, spec, ia, mid, jz, min_key, max_cand);
    let tail: Vec<Candidate> = coarse_sync(front, spec, mid, ib, jz, min_key, max_cand);
    let ghost lower = head@;
    let ghost upper = tail@;
    let kept: Vec<Candidate> = merge_candidates(head, &tail, max_cand);
    proof {
        let n_lag = 2 * jz + 1;
        let limit = max_cand as int;
        assert(front.finds(spec, ia as int, mid as int, n_lag, min_key, limit, lower));
        assert(front.finds(spec, mid as int, ib as int, n_lag, min_key, limit, upper));
    }
    kept
}

/// The candidates of earlier carriers do not depend on later picks.
proof fn lemma_same_picks(
    raw: Seq<u32>,
    norms: Seq<Option<u32>>,
    ia: int,
    n_lag: int,
    a: Seq<Seq<usize>>,
    b: Seq<Seq<usize>>,
    n: int,
)
    requires
        n <= a.len(),
        n <= b.len(),
        forall|i: int| 0 <= i < n ==> #[trigger] a[i] == b[i],
    ensures
        candidates_of(raw, norms, ia, n_lag, a, n) == candidates_of(raw, norms, ia, n_lag, b, n),
    decreases n,
{
    if n > 0 {
        lemma_same_picks(raw, norms, ia, n_lag, a, b, n - 1);
        assert(a[n - 1] == b[n - 1]);
    }
}

proof fn lemma_settled_len<P: Near>(near: &P, keys: Seq<u32>, n: int)
    requires
        n <= keys.len(),
    ensures
        select::settled(near, keys, select::ZERO_KEY, n).len() == keys.len(),
    decreases n,
{
    if n > 1 {
        lemma_settled_len(near, keys, n - 1);
        select::lemma_settled_row_len(
            near,
            select::settled(near, keys, select::ZERO_KEY, n - 1),
            select::ZERO_KEY,
            n - 1,
            n - 1,
        );
    }
}

proof fn lemma_order_bounds<P: Near>(
    near: &P,
    keys: Seq<u32>,
    min_key: u32,
    max_cand: int,
    kept: Seq<usize>,
)
    requires
        0 <= max_cand,
        coarse::is_candidate_list(near, keys, min_key, max_cand, kept),
    ensures
        forall|q: int| 0 <= q < kept.len() ==> #[trigger] kept[q] < keys.len(),
{
    let scores = select::settled(near, keys, select::ZERO_KEY, keys.len() as int);
    lemma_settled_len(near, keys, keys.len() as int);
    let order = choose|order: Seq<usize>|
        {
            &&& #[trigger] select::ranks_admitted(
                scores,
                coarse::reaching(scores, min_key),
                order,
            )
            &&& kept == order.take(
                if max_cand < order.len() {
                    max_cand
                } else {
                    order.len() as int
                },
            )
        };
    assert forall|q: int| 0 <= q < kept.len() implies #[trigger] kept[q] < keys.len() by {
        assert(kept[q] == order[q]);
    }
}

/// The raw scores of a place are one.
proof fn lemma_rating_is_unique<W, N, P>(
    front: &SearchFront<W, N, P>,
    spec: &Spectrogram,
    carrier: int,
    lag: int,
    a: u32,
    b: u32,
) where W: Fn(&CostasSums) -> u32, N: Fn(u32, u32) -> Option<u32>
    requires
        front.decided(),
        front.rates(spec, carrier, lag, a),
        front.rates(spec, carrier, lag, b),
    ensures
        a == b,
{
    let x = choose|sums: &CostasSums|
        sums.measures(spec, carrier, lag) && #[trigger] call_ensures(front.ratio, (sums,), a);
    let y = choose|sums: &CostasSums|
        sums.measures(spec, carrier, lag) && #[trigger] call_ensures(front.ratio, (sums,), b);
    assert forall|bk: int| 0 <= bk < 3 implies x.tone[bk] == y.tone[bk] && x.all[bk] == y.all[bk] by {
        assert(x.tone@[bk] == y.tone@[bk]);
    }
    assert(x.tone =~= y.tone);
    assert(x.all =~= y.all);
    assert(x == y);
}

proof fn lemma_raw_is_unique<W, N, P>(
    front: &SearchFront<W, N, P>,
    spec: &Spectrogram,
    ia: int,
    n_carriers: int,
    n_lag: int,
    a: Seq<u32>,
    b: Seq<u32>,
) where W: Fn(&CostasSums) -> u32, N: Fn(u32, u32) -> Option<u32>
    requires
        1 <= n_lag,
        front.decided(),
        front.rated(spec, ia, n_carriers, n_lag, a),
        front.rated(spec, ia, n_carriers, n_lag, b),
    ensures
        a == b,
{
    assert forall|k: int| 0 <= k < a.len() implies a[k] == b[k] by {
        let fi = k / n_lag;
        let x = k % n_lag;
        vstd::arithmetic::div_mod::lemma_fundamental_div_mod(k, n_lag);
        assert(n_lag * fi == fi * n_lag) by (nonlinear_arith);
        assert(0 <= fi < n_carriers) by (nonlinear_arith)
            requires
                0 <= k < n_carriers * n_lag,
                k == fi * n_lag + x,
                0 <= x < n_lag,
        ;
        assert(a[fi * n_lag + x] == a[k] && b[fi * n_lag + x] == b[k]);
        lemma_rating_is_unique(front, spec, ia + fi, x - n_lag / 2, a[k], b[k]);
    }
    assert(a =~= b);
}

proof fn lemma_picks_are_unique(
    keys: Seq<u32>,
    admitted: Seq<bool>,
    a: Seq<usize>,
    b: Seq<usize>,
)
    requires
        coarse::is_lag_pick(keys, admitted, a),
        coarse::is_lag_pick(keys, admitted, b),
    ensures
        a == b,
{
    let (na, oa) = choose|near: select::WithinDistance, order: Seq<usize>|
        {
            &&& near.positions@ == coarse::lag_positions(keys.len())
            &&& near.radius == 10
            &&& #[trigger] select::ranks_admitted(keys, admitted, order)
            &&& a == #[trigger] select::survivors(&near, order, 8, order.len() as int)
        };
    let (nb, ob) = choose|near: select::WithinDistance, order: Seq<usize>|
        {
            &&& near.positions@ == coarse::lag_positions(keys.len())
            &&& near.radius == 10
            &&& #[trigger] select::ranks_admitted(keys, admitted, order)
            &&& b == #[trigger] select::survivors(&near, order, 8, order.len() as int)
        };
    select::law_admitted_ranking_is_unique(keys, admitted, oa, ob);
    select::lemma_same_survivors(&na, &nb, oa, 8, oa.len() as int);
}

/// The first candidates of a list that was kept with a greater limit.
pub open spec fn cut(list: Seq<Candidate>, limit: int) -> Seq<Candidate> {
    list.take(if limit < list.len() {
        limit
    } else {
        list.len() as int
    })
}

proof fn lemma_keeping_only_cuts<W, N, P>(
    front: &SearchFront<W, N, P>,
    x: &Vec<Candidate>,
    y: &Vec<Candidate>,
    min_key: u32,
    fewer: int,
    more: int,
    a: Seq<Candidate>,
    b: Seq<Candidate>,
) where P: Fn(&Candidate, &Candidate) -> bool
    requires
        x@ == y@,
        0 <= fewer <= more,
        front.keeps(x, min_key, fewer, a),
        front.keeps(y, min_key, more, b),
    ensures
        a == cut(b, fewer),
{
    let keys = scores_of(x@);
    let n = keys.len() as int;
    let nx = CloseCandidates { list: x, f: &front.near };
    let ny = CloseCandidates { list: y, f: &front.near };
    select::lemma_same_settled(&nx, &ny, keys, select::ZERO_KEY, n);
    let scores = select::settled(&nx, keys, select::ZERO_KEY, n);
    let admitted = coarse::reaching(scores, min_key);
    let oa = choose|order: Seq<usize>|
        {
            &&& #[trigger] coarse::is_candidate_list(&nx, keys, min_key, fewer, order)
            &&& a == order.map_values(
                |i: usize| Candidate { key: scores[i as int], ..x@[i as int] },
            )
        };
    let ob = choose|order: Seq<usize>|
        {
            &&& #[trigger] coarse::is_candidate_list(&ny, keys, min_key, more, order)
            &&& b == order.map_values(
                |i: usize| Candidate { key: scores[i as int], ..y@[i as int] },
            )
        };
    let fa = choose|order: Seq<usize>|
        {
            &&& #[trigger] select::ranks_admitted(scores, admitted, order)
            &&& oa == order.take(
                if fewer < order.len() {
                    fewer
                } else {
                    order.len() as int
                },
            )
        };
    let fb = choose|order: Seq<usize>|
        {
            &&& #[trigger] select::ranks_admitted(scores, admitted, order)
            &&& ob == order.take(
                if more < order.len() {
                    more
                } else {
                    order.len() as int
                },
            )
        };
    select::law_admitted_ranking_is_unique(scores, admitted, fa, fb);
    assert(a =~= cut(b, fewer));
}

/// The limit only cuts the list: a search for fewer candidates gives the first
/// ones of a search for more. The caller's functions answer alike in both.
pub proof fn law_limit_only_cuts<W, N, P>(
    front: &SearchFront<W, N, P>,
    spec: &Spectrogram,
    ia: int,
    ib: int,
    n_lag: int,
    min_key: u32,
    fewer: int,
    more: int,
    a: Seq<Candidate>,
    b: Seq<Candidate>,
) where
    W: Fn(&CostasSums) -> u32,
    N: Fn(u32, u32) -> Option<u32>,
    P: Fn(&Candidate, &Candidate) -> bool,

    requires
        front.decided(),
        1 <= n_lag,
        0 <= fewer <= more,
        front.finds(spec, ia, ib, n_lag, min_key, fewer, a),
        front.finds(spec, ia, ib, n_lag, min_key, more, b),
    ensures
        a == cut(b, fewer),
{
    let top = top_carrier(ib, spec.n_freq as int);
    if top < ia {
        assert(a =~= cut(b, fewer));
    } else {
        let n = top - ia + 1;
        let ra = choose|raw: Seq<u32>| #[trigger]
            front.rated(spec, ia, n, n_lag, raw) && front.sifted(
                raw,
                ia,
                n,
                n_lag,
                min_key,
                fewer,
                a,
            );
        let rb = choose|raw: Seq<u32>| #[trigger]
            front.rated(spec, ia, n, n_lag, raw) && front.sifted(
                raw,
                ia,
                n,
                n_lag,
                min_key,
                more,
                b,
            );
        lemma_raw_is_unique(front, spec, ia, n, n_lag, ra, rb);
        lemma_sifting_only_cuts(front, ra, ia, n, n_lag, min_key, fewer, more, a, b);
    }
}

proof fn lemma_sifting_only_cuts<W, N, P>(
    front: &SearchFront<W, N, P>,
    raw: Seq<u32>,
    ia: int,
    n_carriers: int,
    n_lag: int,
    min_key: u32,
    fewer: int,
    more: int,
    a: Seq<Candidate>,
    b: Seq<Candidate>,
) where
    W: Fn(&CostasSums) -> u32,
    N: Fn(u32, u32) -> Option<u32>,
    P: Fn(&Candidate, &Candidate) -> bool,

    requires
        front.decided(),
        0 <= fewer <= more,
        front.sifted(raw, ia, n_carriers, n_lag, min_key, fewer, a),
        front.sifted(raw, ia, n_carriers, n_lag, min_key, more, b),
    ensures
        a == cut(b, fewer),
{
    let (xb, xn, xp, xl) = choose|
        base: u32,
        norms: Seq<Option<u32>>,
        picks: Seq<Seq<usize>>,
        list: Vec<Candidate>,
    |
        {
            &&& #[trigger] front.searched(raw, n_carriers, n_lag, base, norms, picks)
            &&& list@ == candidates_of(raw, norms, ia, n_lag, picks, n_carriers)
            &&& #[trigger] front.keeps(&list, min_key, fewer, a)
        };
    let (yb, yn, yp, yl) = choose|
        base: u32,
        norms: Seq<Option<u32>>,
        picks: Seq<Seq<usize>>,
        list: Vec<Candidate>,
    |
        {
            &&& #[trigger] front.searched(raw, n_carriers, n_lag, base, norms, picks)
            &&& list@ == candidates_of(raw, norms, ia, n_lag, picks, n_carriers)
            &&& #[trigger] front.keeps(&list, min_key, more, b)
        };
    let bests = best_raws(raw, n_lag, n_carriers as nat);
    let k = 2 * n_carriers / 5;
    let ox = choose|order: Seq<usize>| #[trigger]
        select::is_ranking(bests, order) && xb == bests[order[bests.len() - 1 - k] as int];
    let oy = choose|order: Seq<usize>| #[trigger]
        select::is_ranking(bests, order) && yb == bests[order[bests.len() - 1 - k] as int];
    select::law_ranking_is_unique(bests, ox, oy);
    assert forall|i: int| 0 <= i < xn.len() implies xn[i] == yn[i] by {
        assert(call_ensures(front.norm, (raw[i], xb), xn[i]));
        assert(call_ensures(front.norm, (raw[i], xb), yn[i]));
    }
    assert(xn =~= yn);
    assert forall|fi: int| 0 <= fi < n_carriers implies xp[fi] == yp[fi] by {
        lemma_picks_are_unique(
            row_keys(xn, n_lag, fi),
            row_admitted(xn, n_lag, fi),
            xp[fi],
            yp[fi],
        );
    }
    assert(xp =~= yp);
    lemma_keeping_only_cuts(front, &xl, &yl, min_key, fewer, more, a, b);
}

} // verus!
