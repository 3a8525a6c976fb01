//! What the coarse search promises of the strongest transmission in a slot.

use super::coarse;
use super::coarse::CostasSums;
use super::search;
use super::search::{Candidate, CloseCandidates, SearchFront};
use super::spectrogram::Spectrogram;
use crate::select;
use crate::select::{Near, WithinDistance};
use vstd::prelude::*;

verus! {

/// The score of one place is above all others: `key` at carrier `bin` and shift
/// `lag`, less at every other place.
pub open spec fn stands_out<W: Fn(&CostasSums) -> u32>(
    ratio: W,
    spec: &Spectrogram,
    bin: int,
    lag: int,
    key: u32,
) -> bool {
    forall|sums: &CostasSums, c: int, l: int, k: u32| #[trigger]
        sums.measures(spec, c, l) && #[trigger] call_ensures(ratio, (sums,), k) ==> (if c == bin
            && l == lag {
            k == key
        } else {
            k < key
        })
}

/// Set against any noise floor the score is good enough, above nought, and
/// above what any lesser score gives.
pub open spec fn stays_ahead<N: Fn(u32, u32) -> Option<u32>>(
    norm: N,
    key: u32,
    min_key: u32,
) -> bool {
    forall|base: u32, raw: u32, a: Option<u32>, b: Option<u32>| #[trigger]
        call_ensures(norm, (key, base), a) && #[trigger] call_ensures(norm, (raw, base), b) ==> a
            is Some && a->0 >= min_key && a->0 > 0x8000_0000 && (raw < key && b is Some ==> b->0
            < a->0) && (raw == key ==> a == b)
}

/// The strongest transmission is found: where the score of one place stands out,
/// before or after the nominal start, the first candidate is that place.
pub proof fn law_the_strongest_place_is_found<W, N, P>(
    front: &SearchFront<W, N, P>,
    spec: &Spectrogram,
    ia: usize,
    ib: usize,
    jz: u32,
    min_key: u32,
    max_cand: usize,
    bin: int,
    lag: int,
    key: u32,
    kept: Vec<Candidate>,
) where
    W: Fn(&CostasSums) -> u32,
    N: Fn(u32, u32) -> Option<u32>,
    P: Fn(&Candidate, &Candidate) -> bool,

    requires
        jz <= 1000000,
        spec.n_freq <= 1000000,
        ia <= bin <= ib,
        bin + 16 <= spec.n_freq,
        -(jz as int) <= lag <= jz,
        max_cand >= 1,
        stands_out(front.ratio, spec, bin, lag, key),
        stays_ahead(front.norm, key, min_key),
        call_ensures(
            search::coarse_sync::<W, N, P>,
            (front, spec, ia, ib, jz, min_key, max_cand),
            kept,
        ),
    ensures
        kept@.len() >= 1,
        kept@[0].bin == bin,
        kept@[0].lag == lag,
        kept@[0].around.1 == key,
        kept@.len() <= max_cand,
{
    let n_lag = 2 * jz + 1;
    let top = search::top_carrier(ib as int, spec.n_freq as int);
    let n = top - ia + 1;
    assert(front.finds(spec, ia as int, ib as int, n_lag, min_key, max_cand as int, kept@));
    assert(front.found(spec, ia as int, n, n_lag, min_key, max_cand as int, kept@));
    let raw = choose|raw: Seq<u32>| #[trigger]
        front.rated(spec, ia as int, n, n_lag, raw) && front.sifted(
            raw,
            ia as int,
            n,
            n_lag,
            min_key,
            max_cand as int,
            kept@,
        );
    let (base, norms, picks, list) = choose|
        base: u32,
        norms: Seq<Option<u32>>,
        picks: Seq<Seq<usize>>,
        list: Vec<Candidate>,
    |
        {
            &&& #[trigger] front.searched(raw, n, n_lag, base, norms, picks)
            &&& list@ == search::candidates_of(raw, norms, ia as int, n_lag, picks, n)
            &&& #[trigger] front.keeps(&list, min_key, max_cand as int, kept@)
        };
    let fi = bin - ia;
    let x = lag + jz;
    assert(n_lag / 2 == jz);
    lemma_scores_of_places(front, spec, ia as int, n, n_lag, raw, base, norms, bin, lag, key, min_key);
    assert forall|f: int| 0 <= f < n implies distinct_picks(#[trigger] picks[f], n_lag) by {
        lemma_picks_are_distinct(
            search::row_keys(norms, n_lag, f),
            search::row_admitted(norms, n_lag, f),
            picks[f],
        );
    }
    lemma_best_shift_is_picked(
        search::row_keys(norms, n_lag, fi),
        search::row_admitted(norms, n_lag, fi),
        picks[fi],
        x,
        norms[fi * n_lag + x]->0,
    );
    let b = lemma_place_is_listed(raw, norms, ia as int, n_lag, picks, n, fi, 0);
    let keys = search::scores_of(list@);
    let k0 = norms[fi * n_lag + x]->0;
    assert(list@[b] == search::candidate_at(raw, norms, ia as int, n_lag, fi, x));
    assert(keys[b] == k0);
    assert forall|i: int| 0 <= i < keys.len() && i != b implies #[trigger] keys[i] < keys[b] by {
        let (f, y) = lemma_listed_places(raw, norms, ia as int, n_lag, picks, n, i, b);
        let at = f * n_lag + y;
        assert(0 <= at < n * n_lag) by (nonlinear_arith)
            requires
                0 <= f <= n - 1,
                0 <= y < n_lag,
                at == f * n_lag + y,
        ;
        lemma_picks_admitted(
            search::row_keys(norms, n_lag, f),
            search::row_admitted(norms, n_lag, f),
            picks[f],
        );
        assert(picks[f].contains(y as usize));
        assert(norms[at] is Some);
        assert(raw[f * n_lag + y] < key);
        assert(norms[f * n_lag + y]->0 < k0);
    }
    lemma_best_is_kept_first(front, &list, min_key, max_cand as int, kept@, b);
}

/// Shifts that are all different and in range.
pub open spec fn distinct_picks(picks: Seq<usize>, n_lag: int) -> bool {
    &&& forall|p: int| 0 <= p < picks.len() ==> #[trigger] picks[p] < n_lag
    &&& forall|p: int, q: int|
        0 <= p < q < picks.len() ==> #[trigger] picks[p] != #[trigger] picks[q]
}

proof fn lemma_scores_of_places<W, N, P>(
    front: &SearchFront<W, N, P>,
    spec: &Spectrogram,
    ia: int,
    n: int,
    n_lag: int,
    raw: Seq<u32>,
    base: u32,
    norms: Seq<Option<u32>>,
    bin: int,
    lag: int,
    key: u32,
    min_key: u32,
) where W: Fn(&CostasSums) -> u32, N: Fn(u32, u32) -> Option<u32>
    requires
        n_lag >= 1,
        front.rated(spec, ia, n, n_lag, raw),
        front.normed(raw, base, norms),
        stands_out(front.ratio, spec, bin, lag, key),
        stays_ahead(front.norm, key, min_key),
        0 <= bin - ia < n,
        0 <= lag + n_lag / 2 < n_lag,
    ensures
        ({
            let here = (bin - ia) * n_lag + lag + n_lag / 2;
            &&& 0 <= here < raw.len()
            &&& raw[here] == key
            &&& norms[here] is Some
            &&& norms[here]->0 >= min_key
            &&& norms[here]->0 > 0x8000_0000
            &&& forall|f: int, y: int|
                0 <= f < n && 0 <= y < n_lag && !(f == bin - ia && y == lag + n_lag / 2)
                    ==> #[trigger] raw[f * n_lag + y] < key && (norms[f * n_lag + y] is Some
                    ==> norms[f * n_lag + y]->0 < norms[here]->0)
        }),
{
    let fi = bin - ia;
    let x = lag + n_lag / 2;
    let here = fi * n_lag + x;
    assert forall|f: int, y: int| 0 <= f < n && 0 <= y < n_lag implies 0 <= #[trigger] (f * n_lag
        + y) < raw.len() by {
        assert(0 <= f * n_lag + y < n * n_lag) by (nonlinear_arith)
            requires
                0 <= f <= n - 1,
                0 <= y < n_lag,
        ;
    }
    assert(0 <= fi * n_lag + x < raw.len());
    assert(front.rates(spec, ia + fi, x - n_lag / 2, raw[fi * n_lag + x]));
    let sums = choose|sums: &CostasSums|
        sums.measures(spec, bin, lag) && #[trigger] call_ensures(
            front.ratio,
            (sums,),
            raw[here],
        );
    assert(sums.measures(spec, bin, lag));
    assert(raw[here] == key);
    assert(call_ensures(front.norm, (raw[here], base), norms[here]));
    assert forall|f: int, y: int|
        0 <= f < n && 0 <= y < n_lag && !(f == fi && y == x) implies #[trigger] raw[f * n_lag + y]
        < key && (norms[f * n_lag + y] is Some ==> norms[f * n_lag + y]->0 < norms[here]->0) by {
        let at = f * n_lag + y;
        assert(0 <= f * n_lag + y < raw.len());
        assert(front.rates(spec, ia + f, y - n_lag / 2, raw[f * n_lag + y]));
        let other = choose|sums: &CostasSums|
            sums.measures(spec, ia + f, y - n_lag / 2) && #[trigger] call_ensures(
                front.ratio,
                (sums,),
                raw[at],
            );
        assert(other.measures(spec, ia + f, y - n_lag / 2));
        assert(call_ensures(front.norm, (raw[at], base), norms[at]));
    }
}

/// What suppression keeps is kept once.
proof fn lemma_survivors_are_distinct<P: Near>(near: &P, order: Seq<usize>, limit: nat, t: int)
    requires
        0 <= t <= order.len(),
        forall|a: int, b: int|
            0 <= a < b < order.len() ==> #[trigger] order[a] != #[trigger] order[b],
    ensures
        ({
            let kept = select::survivors(near, order, limit, t);
            forall|p: int, q: int|
                0 <= p < q < kept.len() ==> #[trigger] kept[p] != #[trigger] kept[q]
        }),
    decreases t,
{
    if t > 0 {
        lemma_survivors_are_distinct(near, order, limit, t - 1);
        let before = select::survivors(near, order, limit, t - 1);
        let kept = select::survivors(near, order, limit, t);
        assert forall|p: int, q: int| 0 <= p < q < kept.len() implies #[trigger] kept[p]
            != #[trigger] kept[q] by {
            if q == before.len() {
                let at = select::lemma_survivor_is_listed(near, order, limit, t - 1, p);
                assert(order[at] != order[t - 1]);
            } else {
                assert(before[p] != before[q]);
            }
        }
    }
}

/// The first in the order is always kept, and kept first.
pub proof fn law_the_first_survives<P: Near>(near: &P, order: Seq<usize>, limit: nat, t: int)
    requires
        1 <= t <= order.len(),
        limit >= 1,
    ensures
        1 <= select::survivors(near, order, limit, t).len() <= limit,
        select::survivors(near, order, limit, t)[0] == order[0],
    decreases t,
{
    if t > 1 {
        law_the_first_survives(near, order, limit, t - 1);
    } else {
        assert(select::survivors(near, order, limit, 0).len() == 0);
        assert(!select::crowded(near, Seq::<usize>::empty(), order[0]));
        assert(select::survivors(near, order, limit, 0) =~= Seq::<usize>::empty());
    }
}

proof fn lemma_picks_are_distinct(keys: Seq<u32>, admitted: Seq<bool>, picked: Seq<usize>)
    requires
        coarse::is_lag_pick(keys, admitted, picked),
        admitted.len() == keys.len(),
    ensures
        distinct_picks(picked, keys.len() as int),
{
    let (near, order) = choose|near: WithinDistance, order: Seq<usize>|
        {
            &&& near.positions@ == coarse::lag_positions(keys.len())
            &&& near.radius == 10
            &&& #[trigger] select::ranks_admitted(keys, admitted, order)
            &&& picked == #[trigger] select::survivors(&near, order, 8, order.len() as int)
        };
    assert forall|a: int, b: int| 0 <= a < b < order.len() implies #[trigger] order[a]
        != #[trigger] order[b] by {
        assert(select::ranks_before(keys, order[a], order[b]));
    }
    lemma_survivors_are_distinct(&near, order, 8, order.len() as int);
    lemma_picks_admitted(keys, admitted, picked);
}

proof fn lemma_picks_admitted(keys: Seq<u32>, admitted: Seq<bool>, picked: Seq<usize>)
    requires
        coarse::is_lag_pick(keys, admitted, picked),
        admitted.len() == keys.len(),
    ensures
        forall|q: int|
            0 <= q < picked.len() ==> #[trigger] picked[q] < keys.len()
                && admitted[picked[q] as int],
{
    let (near, order) = choose|near: WithinDistance, order: Seq<usize>|
        {
            &&& near.positions@ == coarse::lag_positions(keys.len())
            &&& near.radius == 10
            &&& #[trigger] select::ranks_admitted(keys, admitted, order)
            &&& picked == #[trigger] select::survivors(&near, order, 8, order.len() as int)
        };
    assert forall|q: int| 0 <= q < picked.len() implies #[trigger] picked[q] < keys.len()
        && admitted[picked[q] as int] by {
        let t = select::lemma_survivor_is_listed(&near, order, 8, order.len() as int, q);
        assert(order[t] < keys.len() && admitted[order[t] as int]);
    }
}

/// The best shift of a carrier is picked first.
proof fn lemma_best_shift_is_picked(
    keys: Seq<u32>,
    admitted: Seq<bool>,
    picked: Seq<usize>,
    x: int,
    key: u32,
)
    requires
        coarse::is_lag_pick(keys, admitted, picked),
        admitted.len() == keys.len(),
        keys.len() <= usize::MAX,
        0 <= x < keys.len(),
        admitted[x],
        keys[x] == key,
        forall|i: int| 0 <= i < keys.len() && i != x && admitted[i] ==> #[trigger] keys[i] < key,
    ensures
        picked.len() >= 1,
        picked[0] == x,
{
    let (near, order) = choose|near: WithinDistance, order: Seq<usize>|
        {
            &&& near.positions@ == coarse::lag_positions(keys.len())
            &&& near.radius == 10
            &&& #[trigger] select::ranks_admitted(keys, admitted, order)
            &&& picked == #[trigger] select::survivors(&near, order, 8, order.len() as int)
        };
    lemma_best_ranks_first(keys, admitted, order, x);
    law_the_first_survives(&near, order, 8, order.len() as int);
}

proof fn lemma_best_ranks_first(keys: Seq<u32>, admitted: Seq<bool>, order: Seq<usize>, x: int)
    requires
        select::ranks_admitted(keys, admitted, order),
        keys.len() <= usize::MAX,
        0 <= x < keys.len(),
        admitted[x],
        forall|i: int|
            0 <= i < keys.len() && i != x && admitted[i] ==> #[trigger] keys[i] < keys[x],
    ensures
        order.len() >= 1,
        order[0] == x,
{
    assert(order.contains(x as usize));
    let p = choose|p: int| 0 <= p < order.len() && order[p] == x as usize;
    if p > 0 {
        assert(select::ranks_before(keys, order[0], order[p]));
        assert(order[0] < keys.len() && admitted[order[0] as int]);
        let i = order[0] as int;
        assert(keys[i] >= keys[x]);
    }
}

/// A picked shift of a carrier stands in the list.
proof fn lemma_place_is_listed(
    raw: Seq<u32>,
    norms: Seq<Option<u32>>,
    ia: int,
    n_lag: int,
    picks: Seq<Seq<usize>>,
    n: int,
    fi: int,
    p: int,
) -> (b: int)
    requires
        0 <= fi < n,
        n <= picks.len(),
        0 <= p < picks[fi].len(),
    ensures
        0 <= b < search::candidates_of(raw, norms, ia, n_lag, picks, n).len(),
        search::candidates_of(raw, norms, ia, n_lag, picks, n)[b] == search::candidate_at(
            raw,
            norms,
            ia,
            n_lag,
            fi,
            picks[fi][p] as int,
        ),
    decreases n,
{
    let before = search::candidates_of(raw, norms, ia, n_lag, picks, n - 1);
    if fi < n - 1 {
        lemma_place_is_listed(raw, norms, ia, n_lag, picks, n - 1, fi, p)
    } else {
        before.len() + p
    }
}

/// Each entry of the list belongs to a picked shift of a carrier, and different
/// entries to different places.
proof fn lemma_listed_places(
    raw: Seq<u32>,
    norms: Seq<Option<u32>>,
    ia: int,
    n_lag: int,
    picks: Seq<Seq<usize>>,
    n: int,
    i: int,
    b: int,
) -> (place: (int, int))
    requires
        0 <= ia,
        ia + n <= 1000000,
        0 <= n <= picks.len(),
        1 <= n_lag <= 2000001,
        forall|f: int| 0 <= f < n ==> distinct_picks(#[trigger] picks[f], n_lag),
        0 <= i < search::candidates_of(raw, norms, ia, n_lag, picks, n).len(),
        0 <= b < search::candidates_of(raw, norms, ia, n_lag, picks, n).len(),
        i != b,
    ensures
        ({
            let list = search::candidates_of(raw, norms, ia, n_lag, picks, n);
            &&& 0 <= place.0 < n
            &&& 0 <= place.1 < n_lag
            &&& picks[place.0].contains(place.1 as usize)
            &&& list[i] == search::candidate_at(raw, norms, ia, n_lag, place.0, place.1)
            &&& !(list[b].bin == ia + place.0 && list[b].lag == place.1 - n_lag / 2)
        }),
    decreases n,
{
    let before = search::candidates_of(raw, norms, ia, n_lag, picks, n - 1);
    let list = search::candidates_of(raw, norms, ia, n_lag, picks, n);
    if n <= 0 {
        (0, 0)
    } else if i < before.len() && b < before.len() {
        lemma_listed_places(raw, norms, ia, n_lag, picks, n - 1, i, b)
    } else {
        let (f, p) = lemma_entry(raw, norms, ia, n_lag, picks, n, i);
        let (g, q) = lemma_entry(raw, norms, ia, n_lag, picks, n, b);
        assert(distinct_picks(picks[f], n_lag));
        assert(distinct_picks(picks[g], n_lag));
        let y = picks[f][p];
        let z = picks[g][q];
        assert(y < n_lag && z < n_lag);
        if f == g {
            assert(p != q);
            if p < q {
                assert(picks[f][p] != picks[f][q]);
            } else {
                assert(picks[f][q] != picks[f][p]);
            }
        }
        (f, y as int)
    }
}

/// Where an entry of the list comes from: its carrier, and its number among the
/// carrier's shifts.
proof fn lemma_entry(
    raw: Seq<u32>,
    norms: Seq<Option<u32>>,
    ia: int,
    n_lag: int,
    picks: Seq<Seq<usize>>,
    n: int,
    i: int,
) -> (from: (int, int))
    requires
        0 <= n <= picks.len(),
        0 <= i < search::candidates_of(raw, norms, ia, n_lag, picks, n).len(),
    ensures
        0 <= from.0 < n,
        0 <= from.1 < picks[from.0].len(),
        search::candidates_of(raw, norms, ia, n_lag, picks, n)[i] == search::candidate_at(
            raw,
            norms,
            ia,
            n_lag,
            from.0,
            picks[from.0][from.1] as int,
        ),
        i == search::candidates_of(raw, norms, ia, n_lag, picks, from.0).len() + from.1,
    decreases n,
{
    let before = search::candidates_of(raw, norms, ia, n_lag, picks, n - 1);
    if n <= 0 {
        (0, 0)
    } else if i < before.len() {
        lemma_entry(raw, norms, ia, n_lag, picks, n - 1, i)
    } else {
        (n - 1, i - before.len())
    }
}

/// The best score is never struck: settling leaves it as it is, and every other
/// one below it.
pub proof fn law_the_best_score_is_never_struck<P: Near>(
    near: &P,
    keys: Seq<u32>,
    zero: u32,
    n: int,
    b: int,
)
    requires
        0 <= n <= keys.len(),
        0 <= b < keys.len(),
        zero < keys[b],
        forall|i: int| 0 <= i < keys.len() && i != b ==> #[trigger] keys[i] < keys[b],
    ensures
        ({
            let s = select::settled(near, keys, zero, n);
            &&& s.len() == keys.len()
            &&& s[b] == keys[b]
            &&& forall|i: int| 0 <= i < s.len() && i != b ==> #[trigger] s[i] < s[b]
        }),
    decreases n,
{
    if n > 1 {
        law_the_best_score_is_never_struck(near, keys, zero, n - 1, b);
        let s = select::settled(near, keys, zero, n - 1);
        lemma_row_keeps_the_best(near, s, zero, n - 1, n - 1, b);
    }
}

proof fn lemma_row_keeps_the_best<P: Near>(
    near: &P,
    keys: Seq<u32>,
    zero: u32,
    i: int,
    j: int,
    b: int,
)
    requires
        0 <= j <= i < keys.len(),
        0 <= b < keys.len(),
        zero < keys[b],
        forall|x: int| 0 <= x < keys.len() && x != b ==> #[trigger] keys[x] < keys[b],
    ensures
        ({
            let s = select::settled_row(near, keys, zero, i, j);
            &&& s.len() == keys.len()
            &&& s[b] == keys[b]
            &&& forall|x: int| 0 <= x < s.len() && x != b ==> #[trigger] s[x] < s[b]
        }),
    decreases j,
{
    if j > 0 {
        lemma_row_keeps_the_best(near, keys, zero, i, j - 1, b);
        let s = select::settled_row(near, keys, zero, i, j - 1);
        assert(i != b ==> s[i] < s[b]);
        assert(j - 1 != b ==> s[j - 1] < s[b]);
    }
}

proof fn lemma_best_is_kept_first<W, N, P>(
    front: &SearchFront<W, N, P>,
    list: &Vec<Candidate>,
    min_key: u32,
    max_cand: int,
    kept: Seq<Candidate>,
    b: int,
) where P: Fn(&Candidate, &Candidate) -> bool
    requires
        max_cand >= 1,
        front.keeps(list, min_key, max_cand, kept),
        0 <= b < list@.len(),
        list@[b].key >= min_key,
        list@[b].key > 0x8000_0000,
        forall|i: int|
            0 <= i < search::scores_of(list@).len() && i != b ==> #[trigger] search::scores_of(
                list@,
            )[i] < search::scores_of(list@)[b],
    ensures
        1 <= kept.len() <= max_cand,
        kept[0].bin == list@[b].bin,
        kept[0].lag == list@[b].lag,
        kept[0].around == list@[b].around,
{
    let near = CloseCandidates { list, f: &front.near };
    let keys = search::scores_of(list@);
    assert(list@.len() <= usize::MAX) by {
        assert(list.len() == list@.len());
    }
    let scores = select::settled(&near, keys, select::ZERO_KEY, keys.len() as int);
    law_the_best_score_is_never_struck(&near, keys, select::ZERO_KEY, keys.len() as int, b);
    let order = choose|order: Seq<usize>|
        {
            &&& #[trigger] coarse::is_candidate_list(&near, keys, min_key, max_cand, order)
            &&& kept == order.map_values(
                |i: usize| Candidate { key: scores[i as int], ..list@[i as int] },
            )
        };
    let full = choose|full: Seq<usize>|
        {
            &&& #[trigger] select::ranks_admitted(scores, coarse::reaching(scores, min_key), full)
            &&& order == full.take(
                if max_cand < full.len() {
                    max_cand
                } else {
                    full.len() as int
                },
            )
        };
    lemma_best_ranks_first(scores, coarse::reaching(scores, min_key), full, b);
    assert(order[0] == full[0]);
    assert(kept[0] == (Candidate { key: scores[b], ..list@[b] }));
}

/// The shifts of a carrier that become candidates are good enough, at most eight,
/// and more than ten steps apart; any other that is good enough lies within ten
/// steps of one that scores at least as well, unless there are eight already.
pub proof fn law_which_shifts_are_picked(
    keys: &[u32],
    admitted: &[bool],
    picked: Vec<usize>,
    x: usize,
)
    requires
        admitted@.len() == keys@.len(),
        keys@.len() <= 10000000,
        x < keys@.len(),
        admitted@[x as int],
        call_ensures(coarse::pick_lags, (keys, admitted), picked),
    ensures
        picked@.len() <= 8,
        forall|p: int|
            0 <= p < picked@.len() ==> #[trigger] picked@[p] < keys@.len()
                && admitted@[picked@[p] as int],
        forall|p: int, q: int|
            0 <= p < q < picked@.len() ==> #[trigger] picked@[p] - #[trigger] picked@[q] > 10
                || picked@[q] - picked@[p] > 10,
        picked@.len() == 8 || exists|p: int|
            0 <= p < picked@.len() && -10 <= x - #[trigger] picked@[p] <= 10
                && keys@[picked@[p] as int] >= keys@[x as int],
{
    let (near, order) = choose|near: WithinDistance, order: Seq<usize>|
        {
            &&& near.positions@ == coarse::lag_positions(keys@.len())
            &&& near.radius == 10
            &&& #[trigger] select::ranks_admitted(keys@, admitted@, order)
            &&& picked@ == #[trigger] select::survivors(&near, order, 8, order.len() as int)
        };
    let n = order.len() as int;
    lemma_picks_admitted(keys@, admitted@, picked@);
    if n >= 1 {
        law_the_first_survives(&near, order, 8, n);
    }
    assert forall|p: int, q: int| 0 <= p < q < picked@.len() implies #[trigger] picked@[p]
        - #[trigger] picked@[q] > 10 || picked@[q] - picked@[p] > 10 by {
        select::law_survivors_are_apart(&near, order, 8, n, p, q);
        assert(picked@[p] < keys@.len() && picked@[q] < keys@.len());
    }
    assert(order.contains(((x as int) as usize)));
    let c = choose|c: int| 0 <= c < order.len() && order[c] == x;
    lemma_kept_or_beside(&near, order, 8, n, c, keys@, admitted@);
    if picked@.len() < 8 {
        let p = choose|p: int|
            0 <= p < picked@.len() && (near.near(x as int, picked@[p] as int) || #[trigger] picked@[p]
                == x) && keys@[picked@[p] as int] >= keys@[x as int];
        assert(picked@[p] < keys@.len());
    }
}

proof fn lemma_kept_or_beside(
    near: &WithinDistance,
    order: Seq<usize>,
    limit: nat,
    t: int,
    c: int,
    keys: Seq<u32>,
    admitted: Seq<bool>,
)
    requires
        0 <= c < t <= order.len(),
        select::ranks_admitted(keys, admitted, order),
    ensures
        ({
            let kept = select::survivors(near, order, limit, t);
            kept.len() >= limit || exists|p: int|
                0 <= p < kept.len() && (near.near(order[c] as int, kept[p] as int)
                    || #[trigger] kept[p] == order[c]) && keys[kept[p] as int]
                    >= keys[order[c] as int]
        }),
    decreases t,
{
    let kept = select::survivors(near, order, limit, t);
    let before = select::survivors(near, order, limit, t - 1);
    if kept.len() < limit {
        if c < t - 1 {
            lemma_kept_or_beside(near, order, limit, t - 1, c, keys, admitted);
            let p = choose|p: int|
                0 <= p < before.len() && (near.near(order[c] as int, before[p] as int)
                    || #[trigger] before[p] == order[c]) && keys[before[p] as int]
                    >= keys[order[c] as int];
            assert(kept[p] == before[p]);
        } else if select::crowded(near, before, order[c]) {
            let p = choose|p: int|
                0 <= p < before.len() && near.near(order[c] as int, #[trigger] before[p] as int);
            let at = select::lemma_survivor_is_listed(near, order, limit, t - 1, p);
            assert(select::ranks_before(keys, order[at], order[c]));
            assert(kept[p] == before[p]);
        } else {
            assert(kept[before.len() as int] == order[c]);
        }
    }
}

/// A noise floor: the best score of each carrier, ranked upwards, has the floor
/// two fifths up. At least that many carriers and one more have no better score,
/// and the remaining ones and the floor's own no worse.
pub open spec fn is_noise_floor(
    bests: Seq<u32>,
    base: u32,
    low: Seq<usize>,
    high: Seq<usize>,
) -> bool {
    &&& low.len() == 2 * bests.len() as int / 5 + 1
    &&& high.len() == bests.len() - 2 * bests.len() as int / 5
    &&& select::all_within(bests, low, base, true)
    &&& select::all_within(bests, high, base, false)
}

/// `bests` are the best raw scores of the carriers from `ia` on, none below that
/// of nought: each is reached at one of the carrier's shifts, or is that of
/// nought, and none of them is exceeded.
pub open spec fn are_carrier_bests<W: Fn(&CostasSums) -> u32>(
    ratio: W,
    spec: &Spectrogram,
    ia: int,
    jz: int,
    bests: Seq<u32>,
) -> bool {
    &&& forall|f: int, l: int|
        0 <= f < bests.len() && -jz <= l <= jz ==> #[trigger] is_bounded(
            ratio,
            spec,
            ia + f,
            l,
            bests[f],
        )
    &&& forall|f: int|
        0 <= f < bests.len() ==> #[trigger] is_reached(ratio, spec, ia + f, jz, bests[f])
}

/// The score is that of one of the carrier's shifts, or that of nought.
pub open spec fn is_reached<W: Fn(&CostasSums) -> u32>(
    ratio: W,
    spec: &Spectrogram,
    c: int,
    jz: int,
    best: u32,
) -> bool {
    best == 0x8000_0000 || exists|l: int, sums: &CostasSums|
        -jz <= l <= jz && #[trigger] sums.measures(spec, c, l) && call_ensures(
            ratio,
            (sums,),
            best,
        )
}

/// The score of a place does not exceed `best`, which is at least that of nought.
pub open spec fn is_bounded<W: Fn(&CostasSums) -> u32>(
    ratio: W,
    spec: &Spectrogram,
    c: int,
    l: int,
    best: u32,
) -> bool {
    &&& best >= 0x8000_0000
    &&& exists|sums: &CostasSums, k: u32|
        sums.measures(spec, c, l) && #[trigger] call_ensures(ratio, (sums,), k) && k <= best
}

/// Every candidate is a place of the search, and its score is what the raw score
/// of that place gives when it is set against the noise floor.
pub proof fn law_scores_are_set_against_the_noise<W, N, P>(
    front: &SearchFront<W, N, P>,
    spec: &Spectrogram,
    ia: usize,
    ib: usize,
    jz: u32,
    min_key: u32,
    max_cand: usize,
    kept: Vec<Candidate>,
) -> (floor: (Seq<u32>, u32, Seq<usize>, Seq<usize>))
    where
        W: Fn(&CostasSums) -> u32,
        N: Fn(u32, u32) -> Option<u32>,
        P: Fn(&Candidate, &Candidate) -> bool,

    requires
        jz <= 1000000,
        spec.n_freq <= 1000000,
        min_key > 0x8000_0000,
        call_ensures(
            search::coarse_sync::<W, N, P>,
            (front, spec, ia, ib, jz, min_key, max_cand),
            kept,
        ),
    ensures
        kept@.len() > 0 ==> {
            &&& floor.0.len() == search::top_carrier(ib as int, spec.n_freq as int) - ia + 1
            &&& are_carrier_bests(front.ratio, spec, ia as int, jz as int, floor.0)
            &&& is_noise_floor(floor.0, floor.1, floor.2, floor.3)
        },
        forall|i: int|
            0 <= i < kept@.len() ==> {
                let c = #[trigger] kept@[i];
                &&& ia <= c.bin <= ib
                &&& c.bin + 16 <= spec.n_freq
                &&& -(jz as int) <= c.lag <= jz
                &&& c.key >= min_key
                &&& front.rates(spec, c.bin as int, c.lag as int, c.around.1)
                &&& call_ensures(front.norm, (c.around.1, floor.1), Some(c.key))
            },
        forall|i: int, j: int|
            0 <= i < j < kept@.len() ==> (#[trigger] kept@[i]).key >= (#[trigger] kept@[j]).key,
        kept@.len() <= max_cand,
{
    let n_lag = 2 * jz + 1;
    let top = search::top_carrier(ib as int, spec.n_freq as int);
    let n = top - ia + 1;
    assert(front.finds(spec, ia as int, ib as int, n_lag, min_key, max_cand as int, kept@));
    if top < ia {
        (Seq::empty(), 0u32, Seq::empty(), Seq::empty())
    } else {
        assert(front.found(spec, ia as int, n, n_lag, min_key, max_cand as int, kept@));
        let raw = choose|raw: Seq<u32>| #[trigger]
            front.rated(spec, ia as int, n, n_lag, raw) && front.sifted(
                raw,
                ia as int,
                n,
                n_lag,
                min_key,
                max_cand as int,
                kept@,
            );
        let (base, norms, picks, list) = choose|
            base: u32,
            norms: Seq<Option<u32>>,
            picks: Seq<Seq<usize>>,
            list: Vec<Candidate>,
        |
            {
                &&& #[trigger] front.searched(raw, n, n_lag, base, norms, picks)
                &&& list@ == search::candidates_of(raw, norms, ia as int, n_lag, picks, n)
                &&& #[trigger] front.keeps(&list, min_key, max_cand as int, kept@)
            };
        let bests = search::best_raws(raw, n_lag, n as nat);
        let (low, high) = select::law_what_the_nth_smallest_is(bests, 2 * n / 5, base);
        assert(n_lag / 2 == jz);
        assert forall|f: int, l: int|
            0 <= f < bests.len() && -(jz as int) <= l <= jz implies #[trigger] is_bounded(
            front.ratio,
            spec,
            ia + f,
            l,
            bests[f],
        ) by {
            let x = l + jz;
            lemma_best_raw(raw, n_lag, f, n_lag, x);
            assert(0 <= f * n_lag + x < n * n_lag) by (nonlinear_arith)
                requires
                    0 <= f <= n - 1,
                    0 <= x < n_lag,
            ;
            assert(front.rates(spec, ia + f, x - n_lag / 2, raw[f * n_lag + x]));
        }
        assert forall|f: int| 0 <= f < bests.len() implies #[trigger] is_reached(
            front.ratio,
            spec,
            ia + f,
            jz as int,
            bests[f],
        ) by {
            let x = lemma_best_raw_is_reached(raw, n_lag, f, n_lag);
            if bests[f] != 0x8000_0000 {
                assert(0 <= f * n_lag + x < n * n_lag) by (nonlinear_arith)
                    requires
                        0 <= f <= n - 1,
                        0 <= x < n_lag,
                ;
                assert(front.rates(spec, ia + f, x - n_lag / 2, raw[f * n_lag + x]));
                let sums = choose|sums: &CostasSums|
                    sums.measures(spec, ia + f, x - n_lag / 2) && #[trigger] call_ensures(
                        front.ratio,
                        (sums,),
                        raw[f * n_lag + x],
                    );
                assert(sums.measures(spec, ia + f, x - n_lag / 2));
            }
        }
        lemma_kept_candidates(front, &list, min_key, max_cand as int, kept@);
        assert forall|i: int| 0 <= i < kept@.len() implies ({
            let c = #[trigger] kept@[i];
            &&& ia <= c.bin <= ib
            &&& c.bin + 16 <= spec.n_freq
            &&& -(jz as int) <= c.lag <= jz
            &&& c.key >= min_key
            &&& front.rates(spec, c.bin as int, c.lag as int, c.around.1)
            &&& call_ensures(front.norm, (c.around.1, base), Some(c.key))
        }) by {
            let c = kept@[i];
            let b = choose|b: int| 0 <= b < list@.len() && #[trigger] list@[b] == c;
            let (f, p) = lemma_entry(raw, norms, ia as int, n_lag, picks, n, b);
            lemma_picks_admitted(
                search::row_keys(norms, n_lag, f),
                search::row_admitted(norms, n_lag, f),
                picks[f],
            );
            let y = picks[f][p] as int;
            let at = f * n_lag + y;
            assert(0 <= at < n * n_lag) by (nonlinear_arith)
                requires
                    0 <= f <= n - 1,
                    0 <= y < n_lag,
                    at == f * n_lag + y,
            ;
            assert(c == search::candidate_at(raw, norms, ia as int, n_lag, f, y));
            assert(front.rates(spec, ia + f, y - n_lag / 2, raw[f * n_lag + y]));
            assert(call_ensures(front.norm, (raw[at], base), norms[at]));
        }
        (bests, base, low, high)
    }
}

proof fn lemma_best_raw(raw: Seq<u32>, n_lag: int, fi: int, n: int, x: int)
    requires
        0 <= x < n,
    ensures
        search::best_raw(raw, n_lag, fi, n) >= 0x8000_0000,
        raw[fi * n_lag + x] <= search::best_raw(raw, n_lag, fi, n),
    decreases n,
{
    if x < n - 1 {
        lemma_best_raw(raw, n_lag, fi, n - 1, x);
    } else {
        lemma_best_raw_floor(raw, n_lag, fi, n - 1);
        assert(fi * n_lag + n - 1 == fi * n_lag + x);
    }
}

proof fn lemma_best_raw_is_reached(raw: Seq<u32>, n_lag: int, fi: int, n: int) -> (x: int)
    requires
        0 <= n,
    ensures
        search::best_raw(raw, n_lag, fi, n) != 0x8000_0000 ==> 0 <= x < n && raw[fi * n_lag + x]
            == search::best_raw(raw, n_lag, fi, n),
    decreases n,
{
    if n <= 0 {
        0
    } else {
        let before = search::best_raw(raw, n_lag, fi, n - 1);
        let here = raw[fi * n_lag + n - 1];
        if here > before {
            assert(fi * n_lag + (n - 1) == fi * n_lag + n - 1);
            n - 1
        } else {
            lemma_best_raw_is_reached(raw, n_lag, fi, n - 1)
        }
    }
}

proof fn lemma_best_raw_floor(raw: Seq<u32>, n_lag: int, fi: int, n: int)
    ensures
        search::best_raw(raw, n_lag, fi, n) >= 0x8000_0000,
    decreases n,
{
    if n > 0 {
        lemma_best_raw_floor(raw, n_lag, fi, n - 1);
    }
}

/// A score after settling is what it was, or that of nought.
proof fn lemma_settled_or_struck<P: Near>(near: &P, keys: Seq<u32>, zero: u32, n: int)
    requires
        0 <= n <= keys.len(),
    ensures
        ({
            let s = select::settled(near, keys, zero, n);
            &&& s.len() == keys.len()
            &&& forall|i: int|
                0 <= i < s.len() ==> #[trigger] s[i] == keys[i] || s[i] == zero
        }),
    decreases n,
{
    if n > 1 {
        lemma_settled_or_struck(near, keys, zero, n - 1);
        let s = select::settled(near, keys, zero, n - 1);
        lemma_row_settled_or_struck(near, s, zero, n - 1, n - 1);
        let r = select::settled(near, keys, zero, n);
        assert forall|i: int| 0 <= i < r.len() implies #[trigger] r[i] == keys[i] || r[i]
            == zero by {
            assert(r[i] == s[i] || r[i] == zero);
        }
    }
}

proof fn lemma_row_settled_or_struck<P: Near>(near: &P, keys: Seq<u32>, zero: u32, i: int, j: int)
    requires
        0 <= j <= i < keys.len(),
    ensures
        ({
            let s = select::settled_row(near, keys, zero, i, j);
            &&& s.len() == keys.len()
            &&& forall|x: int|
                0 <= x < s.len() ==> #[trigger] s[x] == keys[x] || s[x] == zero
        }),
    decreases j,
{
    if j > 0 {
        lemma_row_settled_or_struck(near, keys, zero, i, j - 1);
    }
}

proof fn lemma_kept_candidates<W, N, P>(
    front: &SearchFront<W, N, P>,
    list: &Vec<Candidate>,
    min_key: u32,
    max_cand: int,
    kept: Seq<Candidate>,
) where P: Fn(&Candidate, &Candidate) -> bool
    requires
        min_key > 0x8000_0000,
        0 <= max_cand,
        front.keeps(list, min_key, max_cand, kept),
    ensures
        kept.len() <= max_cand,
        forall|i: int|
            0 <= i < kept.len() ==> (#[trigger] kept[i]).key >= min_key && exists|b: int|
                0 <= b < list@.len() && #[trigger] list@[b] == kept[i],
        forall|i: int, j: int|
            0 <= i < j < kept.len() ==> (#[trigger] kept[i]).key >= (#[trigger] kept[j]).key,
{
    let near = CloseCandidates { list, f: &front.near };
    let keys = search::scores_of(list@);
    let scores = select::settled(&near, keys, select::ZERO_KEY, keys.len() as int);
    lemma_settled_or_struck(&near, keys, select::ZERO_KEY, keys.len() as int);
    let order = choose|order: Seq<usize>|
        {
            &&& #[trigger] coarse::is_candidate_list(&near, keys, min_key, max_cand, order)
            &&& kept == order.map_values(
                |i: usize| Candidate { key: scores[i as int], ..list@[i as int] },
            )
        };
    let full = choose|full: Seq<usize>|
        {
            &&& #[trigger] select::ranks_admitted(scores, coarse::reaching(scores, min_key), full)
            &&& order == full.take(
                if max_cand < full.len() {
                    max_cand
                } else {
                    full.len() as int
                },
            )
        };
    assert forall|i: int| 0 <= i < kept.len() implies (#[trigger] kept[i]).key >= min_key
        && exists|b: int| 0 <= b < list@.len() && #[trigger] list@[b] == kept[i] by {
        let b = full[i] as int;
        assert(order[i] == full[i]);
        assert(full[i] < scores.len() && coarse::reaching(scores, min_key)[full[i] as int]);
        assert(scores[b] == keys[b] || scores[b] == select::ZERO_KEY);
        assert(kept[i] == (Candidate { key: scores[b], ..list@[b] }));
        assert(list@[b] == kept[i]);
    }
    assert forall|i: int, j: int| 0 <= i < j < kept.len() implies (#[trigger] kept[i]).key >= (
    #[trigger] kept[j]).key by {
        assert(select::ranks_before(scores, full[i], full[j]));
        assert(order[i] == full[i] && order[j] == full[j]);
    }
}

/// Of two lists as many are kept as wanted or all there are, best first, and none
/// that is left out is better than one that is kept.
pub proof fn law_the_best_of_both_lists_are_kept(
    head: Vec<Candidate>,
    tail: &Vec<Candidate>,
    limit: usize,
    kept: Vec<Candidate>,
)
    requires
        head@.len() + tail@.len() <= usize::MAX,
        call_ensures(search::merge_candidates, (head, tail, limit), kept),
    ensures
        kept@.len() == (if limit < head@.len() + tail@.len() {
            limit as nat
        } else {
            head@.len() + tail@.len()
        }),
        forall|a: int, b: int|
            0 <= a < b < kept@.len() ==> (#[trigger] kept@[a]).key >= (#[trigger] kept@[b]).key,
        forall|a: int|
            0 <= a < kept@.len() ==> head@.contains(#[trigger] kept@[a]) || tail@.contains(
                kept@[a],
            ),
        forall|i: int, a: int|
            0 <= i < head@.len() + tail@.len() && !kept@.contains(#[trigger] (head@ + tail@)[i])
                && 0 <= a < kept@.len() ==> (head@ + tail@)[i].key <= (#[trigger] kept@[a]).key,
{
    let all = head@ + tail@;
    let keys = search::scores_of(all);
    let best = choose|best: Seq<usize>|
        {
            &&& #[trigger] select::is_best(keys, limit as nat, best)
            &&& kept@ == best.map_values(|i: usize| all[i as int])
        };
    let order = choose|order: Seq<usize>|
        #[trigger] select::is_ranking(keys, order) && best == order.take(
            if limit < order.len() {
                limit as int
            } else {
                order.len() as int
            },
        );
    assert forall|a: int, b: int| 0 <= a < b < order.len() implies keys[#[trigger] order[a] as int]
        >= keys[#[trigger] order[b] as int] by {
        assert(select::ranks_before(keys, order[a], order[b]));
    }
    assert forall|a: int| 0 <= a < kept@.len() implies kept@[a] == all[#[trigger] order[a] as int]
        && order[a] < all.len() by {
        assert(best[a] == order[a]);
    }
    assert forall|a: int, b: int| 0 <= a < b < kept@.len() implies (#[trigger] kept@[a]).key >= (
    #[trigger] kept@[b]).key by {
        assert(keys[order[a] as int] >= keys[order[b] as int]);
    }
    assert forall|a: int| 0 <= a < kept@.len() implies head@.contains(#[trigger] kept@[a])
        || tail@.contains(kept@[a]) by {
        let i = order[a] as int;
        assert(kept@[a] == all[i]);
        if i < head@.len() {
            assert(head@[i] == kept@[a]);
        } else {
            assert(tail@[i - head@.len()] == kept@[a]);
        }
    }
    assert forall|i: int, a: int|
        0 <= i < all.len() && !kept@.contains(#[trigger] all[i]) && 0 <= a
            < kept@.len() implies all[i].key <= (#[trigger] kept@[a]).key by {
        select::lemma_ranking_names_all(keys, order, i);
        assert(i as usize == i);
        let p = choose|p: int| 0 <= p < order.len() && order[p] == i as usize;
        if p < kept@.len() {
            assert(kept@[p] == all[order[p] as int]);
            assert(kept@.contains(all[i]));
        }
        assert(keys[order[a] as int] >= keys[order[p] as int]);
    }
}

} // verus!
