//! Ranking, peak picking and suppression of neighbours.
//!
//! Scores enter as unsigned keys whose order is the order of the scores (see
//! [`order_key`]); everything that a decoder decides about its candidates,
//! which comes first, which is too close to a better one, which is the peak,
//! is decided here.

use vstd::prelude::*;

verus! {

/// The key of the number nought.
pub const ZERO_KEY: u32 = 0x8000_0000;

/// Key of a binary32 number given by its bits: keys compare as the numbers do.
/// Negative numbers have all their bits turned, the others gain the top bit.
pub fn order_key(bits: u32) -> (key: u32)
    ensures
        bits < 0x8000_0000 ==> key == bits + 0x8000_0000,
        bits >= 0x8000_0000 ==> key == 0xFFFF_FFFF - bits,
{
    if bits < 0x8000_0000 {
        bits + 0x8000_0000
    } else {
        0xFFFF_FFFF - bits
    }
}

/// Whether index `a` ranks before index `b`: by the larger key, and by the
/// smaller index among equal keys.
pub open spec fn ranks_before(keys: Seq<u32>, a: usize, b: usize) -> bool {
    keys[a as int] > keys[b as int] || (keys[a as int] == keys[b as int] && a < b)
}

/// The indices of `keys` in descending order of their keys, equal keys in
/// their original order.
pub open spec fn is_ranking(keys: Seq<u32>, order: Seq<usize>) -> bool {
    &&& order.len() == keys.len()
    &&& forall|t: int| 0 <= t < order.len() ==> #[trigger] order[t] < keys.len()
    &&& forall|a: int, b: int|
        0 <= a < b < order.len() ==> ranks_before(keys, #[trigger] order[a], #[trigger] order[b])
}

/// A list of as many distinct numbers below its length names every one.
proof fn lemma_names_all(order: Seq<usize>, n: int, i: int)
    requires
        order.len() == n,
        order.no_duplicates(),
        forall|t: int| 0 <= t < order.len() ==> #[trigger] order[t] < n,
        0 <= i < n,
    ensures
        order.contains(i as usize),
    decreases n,
{
    let top = (n - 1) as usize;
    if order.contains(top) {
        let p = choose|p: int| 0 <= p < order.len() && order[p] == top;
        if i < n - 1 {
            let rest = order.remove(p);
            assert forall|t: int| 0 <= t < rest.len() implies #[trigger] rest[t] < n - 1 by {
                let from = if t < p {
                    t
                } else {
                    t + 1
                };
                assert(rest[t] == order[from]);
                assert(order[from] < n);
            }
            assert(rest.no_duplicates());
            lemma_names_all(rest, n - 1, i);
            let t = choose|t: int| 0 <= t < rest.len() && rest[t] == i as usize;
            let from = if t < p {
                t
            } else {
                t + 1
            };
            assert(order[from] == i as usize);
        }
    } else {
        let rest = order.drop_last();
        assert forall|t: int| 0 <= t < order.len() implies #[trigger] order[t] < n - 1 by {
            assert(order[t] < n);
            assert(order[t] != top);
        }
        assert forall|t: int| 0 <= t < rest.len() implies #[trigger] rest[t] < n - 1 by {
            assert(rest[t] == order[t]);
        }
        let v = order[n - 1];
        assert(v < n - 1);
        lemma_names_all(rest, n - 1, v as int);
        let t = choose|t: int| 0 <= t < rest.len() && rest[t] == v;
        assert(order[t] == v);
    }
}

/// A ranking names every index of the list.
pub proof fn lemma_ranking_names_all(keys: Seq<u32>, order: Seq<usize>, i: int)
    requires
        is_ranking(keys, order),
        0 <= i < keys.len(),
    ensures
        order.contains(i as usize),
{
    assert forall|a: int, b: int| 0 <= a < b < order.len() implies order[a] != order[b] by {
        assert(ranks_before(keys, order[a], order[b]));
    }
    assert(order.no_duplicates());
    lemma_names_all(order, order.len() as int, i);
}

proof fn lemma_ranking_counts(keys: Seq<u32>, order: Seq<usize>, v: usize)
    requires
        is_ranking(keys, order),
    ensures
        order.to_multiset().count(v) == (if v < keys.len() {
            1nat
        } else {
            0nat
        }),
{
    broadcast use vstd::seq_lib::group_to_multiset_ensures;

    assert forall|a: int, b: int| 0 <= a < b < order.len() implies order[a] != order[b] by {
        assert(ranks_before(keys, order[a], order[b]));
    }
    assert(order.no_duplicates());
    order.lemma_multiset_has_no_duplicates();
    if v < keys.len() {
        lemma_names_all(order, order.len() as int, v as int);
        assert(order.to_multiset().contains(v));
    } else {
        if order.contains(v) {
            let t = choose|t: int| 0 <= t < order.len() && order[t] == v;
            assert(order[t] < keys.len());
        }
    }
}

/// There is only one ranking: a contract that speaks of a ranking pins the
/// order down.
pub proof fn law_ranking_is_unique(keys: Seq<u32>, x: Seq<usize>, y: Seq<usize>)
    requires
        is_ranking(keys, x),
        is_ranking(keys, y),
    ensures
        x == y,
{
    let leq = |a: usize, b: usize| a == b || ranks_before(keys, a, b);
    assert(vstd::relations::total_ordering(leq));
    assert(vstd::relations::sorted_by(x, leq));
    assert(vstd::relations::sorted_by(y, leq));
    assert forall|v: usize| x.to_multiset().count(v) == y.to_multiset().count(v) by {
        lemma_ranking_counts(keys, x, v);
        lemma_ranking_counts(keys, y, v);
    }
    assert(x.to_multiset() =~= y.to_multiset());
    vstd::seq_lib::lemma_sorted_unique(x, y, leq);
}

/// Rank by descending key; the sort is stable.
pub fn rank_desc(keys: &[u32]) -> (order: Vec<usize>)
    ensures
        is_ranking(keys@, order@),
{
    let mut order: Vec<usize> = Vec::with_capacity(keys.len());
    for i in 0..keys.len()
        invariant
            order@.len() == i,
            forall|t: int| 0 <= t < i ==> #[trigger] order@[t] < i,
            forall|a: int, b: int|
                0 <= a < b < i ==> ranks_before(
                    keys@,
                    #[trigger] order@[a],
                    #[trigger] order@[b],
                ),
    {
        let key: u32 = keys[i];
        let mut pos: usize = i;
        while pos > 0 && keys[order[pos - 1]] < key
            invariant
                pos <= i,
                i < keys@.len(),
                order@.len() == i,
                key == keys@[i as int],
                forall|t: int| 0 <= t < i ==> #[trigger] order@[t] < i,
                forall|t: int| pos <= t < i ==> keys@[#[trigger] order@[t] as int] < key,
            decreases pos,
        {
            pos = pos - 1;
        }
        let ghost before = order@;
        order.insert(pos, i);
        assert forall|a: int, b: int| 0 <= a < b < i + 1 implies ranks_before(
            keys@,
            #[trigger] order@[a],
            #[trigger] order@[b],
        ) by {
            if b < pos {
                assert(order@[a] == before[a] && order@[b] == before[b]);
            } else if b == pos {
                assert(order@[a] == before[a]);
                assert(pos > 0 && !(keys@[before[pos - 1] as int] < key));
                if a < pos - 1 {
                    assert(ranks_before(keys@, before[a], before[pos - 1]));
                }
            } else if a < pos {
                assert(order@[a] == before[a] && order@[b] == before[b - 1]);
            } else if a == pos {
                assert(order@[b] == before[b - 1]);
            } else {
                assert(order@[a] == before[a - 1] && order@[b] == before[b - 1]);
            }
        }
        assert forall|t: int| 0 <= t < i + 1 implies #[trigger] order@[t] < i + 1 by {
            if t < pos {
                assert(order@[t] == before[t]);
            } else if t > pos {
                assert(order@[t] == before[t - 1]);
            }
        }
    }
    order
}

/// The first `limit` of the ranking, or all of it where it is shorter.
pub open spec fn is_best(keys: Seq<u32>, limit: nat, best: Seq<usize>) -> bool {
    exists|order: Seq<usize>|
        #[trigger] is_ranking(keys, order) && best == order.take(
            if limit < order.len() {
                limit as int
            } else {
                order.len() as int
            },
        )
}

/// The best are numbers of the list.
pub proof fn lemma_best_in_range(keys: Seq<u32>, limit: nat, best: Seq<usize>)
    requires
        is_best(keys, limit, best),
    ensures
        forall|q: int| 0 <= q < best.len() ==> #[trigger] best[q] < keys.len(),
{
    let order = choose|order: Seq<usize>| #[trigger]
        is_ranking(keys, order) && best == order.take(
            if limit < order.len() {
                limit as int
            } else {
                order.len() as int
            },
        );
    assert forall|q: int| 0 <= q < best.len() implies #[trigger] best[q] < keys.len() by {
        assert(best[q] == order[q]);
    }
}

/// Keep the first `limit` of a ranking.
pub fn best_of(keys: &[u32], limit: usize) -> (best: Vec<usize>)
    ensures
        is_best(keys@, limit as nat, best@),
{
    let mut order: Vec<usize> = rank_desc(keys);
    let ghost full = order@;
    assert(is_ranking(keys@, full));
    order.truncate(limit);
    assert(order@ =~= full.take(
        if limit < full.len() {
            limit as int
        } else {
            full.len() as int
        },
    ));
    order
}

/// The best of two halves, each given by the keys of its own best: positions
/// in the first list followed by the second.
pub fn merge_best(head_keys: &[u32], tail_keys: &[u32], limit: usize) -> (best: Vec<usize>)
    ensures
        is_best(head_keys@ + tail_keys@, limit as nat, best@),
{
    let mut keys: Vec<u32> = Vec::new();
    for i in 0..head_keys.len()
        invariant
            keys@ == head_keys@.take(i as int),
    {
        keys.push(head_keys[i]);
        assert(keys@ =~= head_keys@.take(i + 1));
    }
    assert(keys@ =~= head_keys@);
    for i in 0..tail_keys.len()
        invariant
            keys@ == head_keys@ + tail_keys@.take(i as int),
    {
        keys.push(tail_keys[i]);
        assert(keys@ =~= head_keys@ + tail_keys@.take(i + 1));
    }
    assert(keys@ =~= head_keys@ + tail_keys@);
    best_of(&keys, limit)
}

/// Cut a list in two; the first half is the shorter one.
pub fn split_in_half<T>(all: Vec<T>) -> (halves: (Vec<T>, Vec<T>))
    ensures
        halves.0@ == all@.take(all@.len() as int / 2),
        halves.1@ == all@.skip(all@.len() as int / 2),
{
    let mut head: Vec<T> = all;
    let mid: usize = head.len() / 2;
    let tail: Vec<T> = head.split_off(mid);
    assert(head@ =~= all@.take(all@.len() as int / 2));
    assert(tail@ =~= all@.skip(all@.len() as int / 2));
    (head, tail)
}

/// What ranks before the entry at place `t` fits in front of it.
proof fn lemma_room_before(keys: Seq<u32>, order: Seq<usize>, t: int, lo: int, hi: int)
    requires
        is_ranking(keys, order),
        0 <= t < order.len(),
        0 <= lo <= hi <= keys.len() <= usize::MAX,
        forall|x: int| lo <= x < hi ==> #[trigger] ranks_before(keys, x as usize, order[t]),
    ensures
        hi - lo <= t,
{
    let front = Seq::new(t as nat, |i: int| order[i] as int);
    assert(front.no_duplicates()) by {
        assert forall|i: int, j: int| 0 <= i < t && 0 <= j < t && i != j implies front[i]
            != front[j] by {
            if i < j {
                assert(ranks_before(keys, order[i], order[j]));
            } else {
                assert(ranks_before(keys, order[j], order[i]));
            }
        }
    }
    front.unique_seq_to_set();
    let range = vstd::set_lib::set_int_range(lo, hi);
    vstd::set_lib::lemma_int_range(lo, hi);
    assert forall|a: int, b: int| 0 <= a < b < order.len() implies order[a] != order[b] by {
        assert(ranks_before(keys, order[a], order[b]));
    }
    assert forall|x: int| range.contains(x) implies front.to_set().contains(x) by {
        assert(ranks_before(keys, x as usize, order[t]));
        lemma_names_all(order, order.len() as int, x);
        let p = choose|p: int| 0 <= p < order.len() && order[p] == x as usize;
        if p > t {
            assert(ranks_before(keys, order[t], order[p]));
        }
        assert(front[p] == x);
    }
    vstd::set_lib::lemma_len_subset(range, front.to_set());
}

/// The first entries of a ranking are those that rank before all others.
proof fn lemma_first_of_ranking(keys: Seq<u32>, order: Seq<usize>, r: Seq<usize>, t: int)
    requires
        is_ranking(keys, order),
        0 <= t < r.len() <= order.len(),
        forall|a: int| 0 <= a < r.len() ==> #[trigger] r[a] < keys.len(),
        forall|a: int, b: int|
            0 <= a < b < r.len() ==> ranks_before(keys, #[trigger] r[a], #[trigger] r[b]),
        forall|v: usize, a: int|
            v < keys.len() && !r.contains(v) && 0 <= a < r.len() ==> #[trigger] ranks_before(
                keys,
                r[a],
                v,
            ),
    ensures
        r[t] == order[t],
    decreases t,
{
    assert forall|s: int| 0 <= s < t implies r[s] == order[s] by {
        lemma_first_of_ranking(keys, order, r, s);
    }
    assert forall|a: int, b: int| 0 <= a < b < order.len() implies order[a] != order[b] by {
        assert(ranks_before(keys, order[a], order[b]));
    }
    lemma_names_all(order, order.len() as int, r[t] as int);
    let p = choose|p: int| 0 <= p < order.len() && order[p] == r[t];
    if p < t {
        assert(r[p] == order[p]);
        assert(ranks_before(keys, r[p], r[t]));
    } else if p > t {
        assert(ranks_before(keys, order[t], order[p]));
        if r.contains(order[t]) {
            let s = choose|s: int| 0 <= s < r.len() && r[s] == order[t];
            if s < t {
                assert(r[s] == order[s]);
            } else {
                assert(ranks_before(keys, r[t], r[s]));
            }
        } else {
            assert(ranks_before(keys, r[t], order[t]));
        }
    }
}

/// Keys of the best of a half.
pub open spec fn keys_at(keys: Seq<u32>, from: int, best: Seq<usize>) -> Seq<u32> {
    Seq::new(best.len(), |i: int| keys[from + best[i]])
}

/// Index in the whole list of an entry of the merged list.
pub open spec fn origin(mid: int, head: Seq<usize>, tail: Seq<usize>, x: usize) -> usize {
    if x < head.len() {
        head[x as int]
    } else {
        (mid + tail[x - head.len()]) as usize
    }
}

/// Dividing the work changes nothing: the best of the two halves' best are the
/// best of the whole, in the same order.
pub proof fn law_divided_ranking(
    keys: Seq<u32>,
    mid: int,
    limit: nat,
    head: Seq<usize>,
    tail: Seq<usize>,
    merged: Seq<usize>,
    whole: Seq<usize>,
)
    requires
        0 <= mid <= keys.len() <= usize::MAX,
        is_best(keys.take(mid), limit, head),
        is_best(keys.skip(mid), limit, tail),
        is_best(keys_at(keys, 0, head) + keys_at(keys, mid, tail), limit, merged),
        is_best(keys, limit, whole),
    ensures
        Seq::new(merged.len(), |i: int| origin(mid, head, tail, merged[i])) == whole,
{
    let h_keys = keys.take(mid);
    let t_keys = keys.skip(mid);
    let m_keys = keys_at(keys, 0, head) + keys_at(keys, mid, tail);
    let h_order = choose|order: Seq<usize>|
        #[trigger] is_ranking(h_keys, order) && head == order.take(
            if limit < order.len() {
                limit as int
            } else {
                order.len() as int
            },
        );
    let t_order = choose|order: Seq<usize>|
        #[trigger] is_ranking(t_keys, order) && tail == order.take(
            if limit < order.len() {
                limit as int
            } else {
                order.len() as int
            },
        );
    let m_order = choose|order: Seq<usize>|
        #[trigger] is_ranking(m_keys, order) && merged == order.take(
            if limit < order.len() {
                limit as int
            } else {
                order.len() as int
            },
        );
    let order = choose|order: Seq<usize>|
        #[trigger] is_ranking(keys, order) && whole == order.take(
            if limit < order.len() {
                limit as int
            } else {
                order.len() as int
            },
        );
    let r = Seq::new(merged.len(), |i: int| origin(mid, head, tail, merged[i]));
    // an entry of the merged list has the key of its origin
    assert forall|x: usize| x < m_keys.len() implies ({
        &&& #[trigger] origin(mid, head, tail, x) < keys.len()
        &&& keys[origin(mid, head, tail, x) as int] == m_keys[x as int]
    }) by {
        if x < head.len() {
            assert(head[x as int] == h_order[x as int]);
        } else {
            assert(tail[x - head.len()] == t_order[x - head.len()]);
        }
    }
    // and ranks as its origin does
    assert forall|x: usize, y: usize|
        x < m_keys.len() && y < m_keys.len() && #[trigger] ranks_before(m_keys, x, y) implies ranks_before(
        keys,
        origin(mid, head, tail, x),
        origin(mid, head, tail, y),
    ) by {
        let ox = origin(mid, head, tail, x);
        let oy = origin(mid, head, tail, y);
        if m_keys[x as int] == m_keys[y as int] {
            if y < head.len() {
                assert(ranks_before(h_keys, h_order[x as int], h_order[y as int]));
                assert(h_keys[ox as int] == keys[ox as int]);
                assert(h_keys[oy as int] == keys[oy as int]);
            } else if x < head.len() {
                assert(h_order[x as int] < h_keys.len());
            } else {
                let a = x - head.len();
                let b = y - head.len();
                assert(ranks_before(t_keys, t_order[a], t_order[b]));
                assert(t_keys[t_order[a] as int] == keys[ox as int]);
                assert(t_keys[t_order[b] as int] == keys[oy as int]);
            }
        }
    }
    assert forall|a: int, b: int| 0 <= a < b < r.len() implies ranks_before(
        keys,
        #[trigger] r[a],
        #[trigger] r[b],
    ) by {
        assert(ranks_before(m_keys, m_order[a], m_order[b]));
    }
    assert forall|v: usize, a: int|
        v < keys.len() && !r.contains(v) && 0 <= a < r.len() implies #[trigger] ranks_before(
        keys,
        r[a],
        v,
    ) by {
        assert forall|i: int| 0 <= i < limit && i < m_order.len() implies origin(
            mid,
            head,
            tail,
            #[trigger] m_order[i],
        ) != v by {
            assert(r[i] == origin(mid, head, tail, m_order[i]));
        }
        lemma_left_out(keys, mid, limit, head, tail, h_order, t_order, m_order, v, a);
    }
    assert forall|t: int| 0 <= t < r.len() implies r[t] == whole[t] by {
        lemma_first_of_ranking(keys, order, r, t);
    }
    assert(r =~= whole);
}

/// An entry that the merged list leaves out ranks after all that it keeps.
proof fn lemma_left_out(
    keys: Seq<u32>,
    mid: int,
    limit: nat,
    head: Seq<usize>,
    tail: Seq<usize>,
    h_order: Seq<usize>,
    t_order: Seq<usize>,
    m_order: Seq<usize>,
    v: usize,
    a: int,
)
    requires
        0 <= mid <= keys.len() <= usize::MAX,
        is_ranking(keys.take(mid), h_order),
        is_ranking(keys.skip(mid), t_order),
        is_ranking(keys_at(keys, 0, head) + keys_at(keys, mid, tail), m_order),
        head == h_order.take(
            if limit < mid {
                limit as int
            } else {
                mid
            },
        ),
        tail == t_order.take(
            if limit < keys.len() - mid {
                limit as int
            } else {
                keys.len() - mid
            },
        ),
        forall|x: usize|
            x < head.len() + tail.len() ==> #[trigger] origin(mid, head, tail, x) < keys.len(),
        forall|x: usize, y: usize|
            x < head.len() + tail.len() && y < head.len() + tail.len()
                && #[trigger] ranks_before(
                keys_at(keys, 0, head) + keys_at(keys, mid, tail),
                x,
                y,
            ) ==> ranks_before(
                keys,
                origin(mid, head, tail, x),
                origin(mid, head, tail, y),
            ),
        v < keys.len(),
        0 <= a < limit,
        a < m_order.len(),
        forall|i: int|
            0 <= i < limit && i < m_order.len() ==> origin(mid, head, tail, #[trigger] m_order[i])
                != v,
    ensures
        ranks_before(keys, origin(mid, head, tail, m_order[a]), v),
{
    let m_keys = keys_at(keys, 0, head) + keys_at(keys, mid, tail);
    let w = origin(mid, head, tail, m_order[a]);
    assert(m_order[a] < m_keys.len());
    assert(w != v);
    assert(ranks_before(keys, w, v) || ranks_before(keys, v, w));
    assert forall|i: int, j: int| 0 <= i < j < m_order.len() implies m_order[i] != m_order[j] by {
        assert(ranks_before(m_keys, m_order[i], m_order[j]));
    }
    if ranks_before(keys, v, w) {
        if v < mid {
            assert forall|i: int, j: int| 0 <= i < j < h_order.len() implies h_order[i]
                != h_order[j] by {
                assert(ranks_before(keys.take(mid), h_order[i], h_order[j]));
            }
            lemma_names_all(h_order, mid, v as int);
            let p = choose|p: int| 0 <= p < h_order.len() && h_order[p] == v;
            if p < head.len() {
                lemma_kept_in_merge(keys, mid, head, tail, m_order, p as usize);
                let q = choose|q: int| 0 <= q < m_order.len() && m_order[q] == p as usize;
                assert(origin(mid, head, tail, p as usize) == v);
                if q > a {
                    assert(ranks_before(m_keys, m_order[a], m_order[q]));
                }
                assert(origin(mid, head, tail, m_order[q]) == v);
            } else {
                assert forall|x: int| 0 <= x < limit implies #[trigger] ranks_before(
                    m_keys,
                    x as usize,
                    m_order[a],
                ) by {
                    let o = origin(mid, head, tail, x as usize);
                    assert(o == h_order[x]);
                    assert(ranks_before(keys.take(mid), h_order[x], h_order[p]));
                    assert(ranks_before(keys, o, v));
                    assert(ranks_before(keys, o, w));
                    if ranks_before(m_keys, m_order[a], x as usize) {
                        assert(ranks_before(keys, w, o));
                    }
                    assert(m_order[a] != x as usize);
                }
                lemma_room_before(m_keys, m_order, a, 0, limit as int);
            }
        } else {
            let u = (v - mid) as usize;
            let t_keys = keys.skip(mid);
            assert forall|i: int, j: int| 0 <= i < j < t_order.len() implies t_order[i]
                != t_order[j] by {
                assert(ranks_before(t_keys, t_order[i], t_order[j]));
            }
            lemma_names_all(t_order, keys.len() - mid, u as int);
            let p = choose|p: int| 0 <= p < t_order.len() && t_order[p] == u;
            let base = head.len() as int;
            if p < tail.len() {
                let x = (base + p) as usize;
                lemma_kept_in_merge(keys, mid, head, tail, m_order, x);
                let q = choose|q: int| 0 <= q < m_order.len() && m_order[q] == x;
                assert(origin(mid, head, tail, x) == v);
                if q > a {
                    assert(ranks_before(m_keys, m_order[a], m_order[q]));
                }
                assert(origin(mid, head, tail, m_order[q]) == v);
            } else {
                assert forall|x: int| base <= x < base + limit implies #[trigger] ranks_before(
                    m_keys,
                    x as usize,
                    m_order[a],
                ) by {
                    let o = origin(mid, head, tail, x as usize);
                    let i = x - base;
                    assert(o == mid + t_order[i]);
                    assert(t_order[i] < t_keys.len());
                    assert(ranks_before(t_keys, t_order[i], t_order[p]));
                    assert(t_keys[t_order[i] as int] == keys[o as int]);
                    assert(t_keys[u as int] == keys[v as int]);
                    assert(ranks_before(keys, o, v));
                    assert(ranks_before(keys, o, w));
                    if ranks_before(m_keys, m_order[a], x as usize) {
                        assert(ranks_before(keys, w, o));
                    }
                    assert(m_order[a] != x as usize);
                }
                lemma_room_before(m_keys, m_order, a, base, base + limit);
            }
        }
    }
}

/// Every entry of the merged list has a place in its ranking.
proof fn lemma_kept_in_merge(
    keys: Seq<u32>,
    mid: int,
    head: Seq<usize>,
    tail: Seq<usize>,
    m_order: Seq<usize>,
    x: usize,
)
    requires
        is_ranking(keys_at(keys, 0, head) + keys_at(keys, mid, tail), m_order),
        x < head.len() + tail.len(),
    ensures
        m_order.contains(x),
{
    let m_keys = keys_at(keys, 0, head) + keys_at(keys, mid, tail);
    assert forall|i: int, j: int| 0 <= i < j < m_order.len() implies m_order[i] != m_order[j] by {
        assert(ranks_before(m_keys, m_order[i], m_order[j]));
    }
    lemma_names_all(m_order, m_order.len() as int, x as int);
}

/// The admitted indices in descending order of their keys, equal keys in
/// their original order.
pub open spec fn ranks_admitted(keys: Seq<u32>, admitted: Seq<bool>, order: Seq<usize>) -> bool {
    &&& forall|t: int|
        0 <= t < order.len() ==> #[trigger] order[t] < keys.len() && admitted[order[t] as int]
    &&& forall|i: int|
        0 <= i < keys.len() && #[trigger] admitted[i] ==> order.contains(i as usize)
    &&& forall|a: int, b: int|
        0 <= a < b < order.len() ==> ranks_before(keys, #[trigger] order[a], #[trigger] order[b])
}

proof fn lemma_admitted_counts(keys: Seq<u32>, admitted: Seq<bool>, order: Seq<usize>, v: usize)
    requires
        ranks_admitted(keys, admitted, order),
    ensures
        order.to_multiset().count(v) == (if v < keys.len() && admitted[v as int] {
            1nat
        } else {
            0nat
        }),
{
    broadcast use vstd::seq_lib::group_to_multiset_ensures;

    assert forall|a: int, b: int| 0 <= a < b < order.len() implies order[a] != order[b] by {
        assert(ranks_before(keys, order[a], order[b]));
    }
    assert(order.no_duplicates());
    order.lemma_multiset_has_no_duplicates();
    if v < keys.len() && admitted[v as int] {
        assert(order.contains((v as int) as usize));
        assert(order.to_multiset().contains(v));
    } else if order.contains(v) {
        let t = choose|t: int| 0 <= t < order.len() && order[t] == v;
        assert(order[t] < keys.len() && admitted[order[t] as int]);
    }
}

/// There is only one ranking of the admitted indices.
pub proof fn law_admitted_ranking_is_unique(
    keys: Seq<u32>,
    admitted: Seq<bool>,
    x: Seq<usize>,
    y: Seq<usize>,
)
    requires
        ranks_admitted(keys, admitted, x),
        ranks_admitted(keys, admitted, y),
    ensures
        x == y,
{
    let leq = |a: usize, b: usize| a == b || ranks_before(keys, a, b);
    assert(vstd::relations::total_ordering(leq));
    assert(vstd::relations::sorted_by(x, leq));
    assert(vstd::relations::sorted_by(y, leq));
    assert forall|v: usize| x.to_multiset().count(v) == y.to_multiset().count(v) by {
        lemma_admitted_counts(keys, admitted, x, v);
        lemma_admitted_counts(keys, admitted, y, v);
    }
    assert(x.to_multiset() =~= y.to_multiset());
    vstd::seq_lib::lemma_sorted_unique(x, y, leq);
}

/// Rank the admitted indices by descending key; the sort is stable.
pub fn rank_admitted(keys: &[u32], admitted: &[bool]) -> (order: Vec<usize>)
    requires
        admitted@.len() == keys@.len(),
    ensures
        ranks_admitted(keys@, admitted@, order@),
{
    let mut list: Vec<usize> = Vec::new();
    let mut sub: Vec<u32> = Vec::new();
    for i in 0..keys.len()
        invariant
            admitted@.len() == keys@.len(),
            sub@.len() == list@.len(),
            forall|t: int|
                0 <= t < list@.len() ==> #[trigger] list@[t] < i && admitted@[list@[t] as int]
                    && sub@[t] == keys@[list@[t] as int],
            forall|a: int, b: int|
                0 <= a < b < list@.len() ==> #[trigger] list@[a] < #[trigger] list@[b],
            forall|q: int|
                0 <= q < i && #[trigger] admitted@[q] ==> list@.contains(q as usize),
    {
        let ghost before = list@;
        if admitted[i] {
            list.push(i);
            sub.push(keys[i]);
            assert(list@[before.len() as int] == i);
        }
        assert forall|q: int| 0 <= q < i + 1 && #[trigger] admitted@[q] implies list@.contains(
            q as usize,
        ) by {
            if q < i {
                let t = choose|t: int| 0 <= t < before.len() && before[t] == q as usize;
                assert(list@[t] == q as usize);
            }
        }
    }
    let inner: Vec<usize> = rank_desc(&sub);
    let mut order: Vec<usize> = Vec::with_capacity(inner.len());
    for t in 0..inner.len()
        invariant
            is_ranking(sub@, inner@),
            sub@.len() == list@.len(),
            order@.len() == t,
            forall|q: int| 0 <= q < t ==> #[trigger] order@[q] == list@[inner@[q] as int],
    {
        assert(inner@[t as int] < sub@.len());
        order.push(list[inner[t]]);
    }
    assert forall|a: int, b: int| 0 <= a < b < order@.len() implies ranks_before(
        keys@,
        #[trigger] order@[a],
        #[trigger] order@[b],
    ) by {
        assert(ranks_before(sub@, inner@[a], inner@[b]));
        assert(inner@[a] < sub@.len() && inner@[b] < sub@.len());
        assert(list@[inner@[a] as int] < keys@.len() && list@[inner@[b] as int] < keys@.len());
    }
    assert forall|t: int| 0 <= t < order@.len() implies #[trigger] order@[t] < keys@.len()
        && admitted@[order@[t] as int] by {
        assert(inner@[t] < sub@.len());
        assert(list@[inner@[t] as int] < keys@.len());
    }
    assert forall|i: int| 0 <= i < keys@.len() && #[trigger] admitted@[i] implies order@.contains(
        i as usize,
    ) by {
        let p = choose|p: int| 0 <= p < list@.len() && list@[p] == i as usize;
        assert forall|a: int, b: int| 0 <= a < b < inner@.len() implies inner@[a] != inner@[b] by {
            assert(ranks_before(sub@, inner@[a], inner@[b]));
        }
        assert(inner@.no_duplicates());
        lemma_names_all(inner@, inner@.len() as int, p);
        let t = choose|t: int| 0 <= t < inner@.len() && inner@[t] == p as usize;
        assert(order@[t] == i as usize);
    }
    order
}

/// Which pairs of candidates count as neighbours.
pub trait Near {
    spec fn near(&self, a: int, b: int) -> bool;

    /// The indices for which [`Self::is_near`] may be asked.
    spec fn covers(&self, count: int) -> bool;

    fn is_near(&self, a: usize, b: usize) -> (yes: bool)
        requires
            self.covers(a + 1),
            self.covers(b + 1),
        ensures
            yes == self.near(a as int, b as int),
    ;
}

/// Candidates on a line are neighbours up to a distance.
pub struct WithinDistance<'a> {
    pub positions: &'a [i64],
    pub radius: i64,
}

impl<'a> Near for WithinDistance<'a> {
    open spec fn near(&self, a: int, b: int) -> bool {
        let d = self.positions@[a] - self.positions@[b];
        -self.radius <= d <= self.radius
    }

    open spec fn covers(&self, count: int) -> bool {
        count <= self.positions@.len()
    }

    fn is_near(&self, a: usize, b: usize) -> (yes: bool) {
        let d: i128 = self.positions[a] as i128 - self.positions[b] as i128;
        let r: i128 = self.radius as i128;
        -r <= d && d <= r
    }
}

/// Neighbours as a function tells them.
pub struct FnNear<F> {
    pub f: F,
}

impl<F: Fn(usize, usize) -> bool> Near for FnNear<F> {
    open spec fn near(&self, a: int, b: int) -> bool {
        call_ensures(self.f, (a as usize, b as usize), true)
    }

    /// The function takes every pair below `count` and gives one answer.
    open spec fn covers(&self, count: int) -> bool {
        forall|a: usize, b: usize|
            a < count && b < count ==> {
                &&& #[trigger] call_requires(self.f, (a, b))
                &&& !(call_ensures(self.f, (a, b), true) && call_ensures(self.f, (a, b), false))
            }
    }

    fn is_near(&self, a: usize, b: usize) -> (yes: bool) {
        assert(call_requires(self.f, (a, b)));
        (self.f)(a, b)
    }
}

/// Whether a candidate is a neighbour of one that has been kept.
pub open spec fn crowded<P: Near>(near: &P, kept: Seq<usize>, candidate: usize) -> bool {
    exists|k: int| 0 <= k < kept.len() && near.near(candidate as int, #[trigger] kept[k] as int)
}

/// What greedy suppression keeps of the first `t` candidates: each one that
/// is no neighbour of a kept one, until `limit` are kept.
pub open spec fn survivors<P: Near>(near: &P, order: Seq<usize>, limit: nat, t: int) -> Seq<usize>
    decreases t,
{
    if t <= 0 {
        Seq::empty()
    } else {
        let kept = survivors(near, order, limit, t - 1);
        if kept.len() >= limit || crowded(near, kept, order[t - 1]) {
            kept
        } else {
            kept.push(order[t - 1])
        }
    }
}

/// Greedy suppression of neighbours: go through the candidates in order and
/// keep those that are no neighbours of a kept one, at most `limit`.
pub fn suppress<P: Near>(near: &P, order: &[usize], limit: usize) -> (kept: Vec<usize>)
    requires
        forall|t: int| 0 <= t < order@.len() ==> near.covers(#[trigger] order@[t] + 1),
    ensures
        kept@ == survivors(near, order@, limit as nat, order@.len() as int),
{
    let mut kept: Vec<usize> = Vec::new();
    for t in 0..order.len()
        invariant
            forall|t: int| 0 <= t < order@.len() ==> near.covers(#[trigger] order@[t] + 1),
            forall|k: int| 0 <= k < kept@.len() ==> near.covers(#[trigger] kept@[k] + 1),
            kept@ == survivors(near, order@, limit as nat, t as int),
    {
        if kept.len() < limit {
            let candidate: usize = order[t];
            assert(near.covers(order@[t as int] + 1));
            let mut close: bool = false;
            for k in 0..kept.len()
                invariant
                    near.covers(candidate + 1),
                    forall|k: int| 0 <= k < kept@.len() ==> near.covers(#[trigger] kept@[k] + 1),
                    close == (exists|q: int|
                        0 <= q < k && near.near(candidate as int, #[trigger] kept@[q] as int)),
            {
                assert(near.covers(kept@[k as int] + 1));
                if near.is_near(candidate, kept[k]) {
                    close = true;
                }
            }
            if !close {
                kept.push(candidate);
            }
        }
    }
    kept
}

/// No two kept candidates are neighbours, each kept one found in the order
/// after the ones it was compared with.
pub proof fn law_survivors_are_apart<P: Near>(
    near: &P,
    order: Seq<usize>,
    limit: nat,
    t: int,
    a: int,
    b: int,
)
    requires
        0 <= a < b < survivors(near, order, limit, t).len(),
    ensures
        !near.near(
            survivors(near, order, limit, t)[b] as int,
            survivors(near, order, limit, t)[a] as int,
        ),
    decreases t,
{
    if t > 0 {
        let kept = survivors(near, order, limit, t - 1);
        if a < b && b < kept.len() {
            law_survivors_are_apart(near, order, limit, t - 1, a, b);
        } else {
            assert(!crowded(near, kept, order[t - 1]));
        }
    }
}

/// Suppression never keeps more than its limit, and what it drops below the
/// limit is a neighbour of something that it keeps.
pub proof fn law_dropped_candidates_have_a_kept_neighbour<P: Near>(
    near: &P,
    order: Seq<usize>,
    limit: nat,
    t: int,
    c: int,
)
    requires
        0 <= c < t <= order.len(),
    ensures
        survivors(near, order, limit, t).len() <= limit,
        survivors(near, order, limit, t).len() == limit || survivors(
            near,
            order,
            limit,
            t,
        ).contains(order[c]) || crowded(near, survivors(near, order, limit, t), order[c]),
    decreases t,
{
    let kept = survivors(near, order, limit, t);
    let before = survivors(near, order, limit, t - 1);
    lemma_limit(near, order, limit, t);
    lemma_limit(near, order, limit, t - 1);
    if c == t - 1 {
        if before.len() < limit && !crowded(near, before, order[c]) {
            assert(kept[kept.len() - 1] == order[c]);
        }
    } else {
        law_dropped_candidates_have_a_kept_neighbour(near, order, limit, t - 1, c);
        if before.contains(order[c]) {
            let k = choose|k: int| 0 <= k < before.len() && before[k] == order[c];
            assert(kept[k] == order[c]);
        } else if crowded(near, before, order[c]) {
            let k = choose|k: int|
                0 <= k < before.len() && near.near(order[c] as int, #[trigger] before[k] as int);
            assert(kept[k] == before[k]);
        }
    }
}

/// Without a limit, a candidate is kept or has a neighbour among the kept ones
/// that ranks before it: `order[p]` is kept, and is candidate `order[c]` itself
/// or an earlier neighbour of it.
pub proof fn law_unlimited_suppression_loses_nothing<P: Near>(
    near: &P,
    order: Seq<usize>,
    limit: nat,
    t: int,
    c: int,
) -> (p: int)
    requires
        0 <= c < t <= order.len() <= limit,
    ensures
        0 <= p <= c,
        survivors(near, order, limit, t).contains(order[p]),
        p == c || near.near(order[c] as int, order[p] as int),
    decreases t,
{
    let kept = survivors(near, order, limit, t);
    let before = survivors(near, order, limit, t - 1);
    if c == t - 1 {
        lemma_survivors_count(near, order, limit, t - 1);
        if crowded(near, before, order[c]) {
            let k = choose|k: int|
                0 <= k < before.len() && near.near(order[c] as int, #[trigger] before[k] as int);
            let p = lemma_survivor_is_listed(near, order, limit, t - 1, k);
            assert(kept[k] == order[p]);
            p
        } else {
            assert(kept[kept.len() - 1] == order[c]);
            c
        }
    } else {
        let p = law_unlimited_suppression_loses_nothing(near, order, limit, t - 1, c);
        let k = choose|k: int| 0 <= k < before.len() && before[k] == order[p];
        assert(kept[k] == order[p]);
        p
    }
}

/// Number `k` of the kept candidates stands at place `p` of the order.
pub proof fn lemma_survivor_is_listed<P: Near>(
    near: &P,
    order: Seq<usize>,
    limit: nat,
    t: int,
    k: int,
) -> (p: int)
    requires
        0 <= t <= order.len(),
        0 <= k < survivors(near, order, limit, t).len(),
    ensures
        0 <= p < t,
        survivors(near, order, limit, t)[k] == order[p],
    decreases t,
{
    let before = survivors(near, order, limit, t - 1);
    if k < before.len() {
        lemma_survivor_is_listed(near, order, limit, t - 1, k)
    } else {
        t - 1
    }
}

proof fn lemma_survivors_count<P: Near>(near: &P, order: Seq<usize>, limit: nat, t: int)
    requires
        0 <= t,
    ensures
        survivors(near, order, limit, t).len() <= t,
    decreases t,
{
    if t > 0 {
        lemma_survivors_count(near, order, limit, t - 1);
    }
}

proof fn lemma_limit<P: Near>(near: &P, order: Seq<usize>, limit: nat, t: int)
    ensures
        survivors(near, order, limit, t).len() <= limit,
    decreases t,
{
    if t > 0 {
        lemma_limit(near, order, limit, t - 1);
    }
}

/// The scores after candidate `i` has been settled against the candidates
/// before `j`: of two neighbours the one with the smaller score, or the
/// earlier one if they are equal, has its score replaced by `zero`.
pub open spec fn settled_row<P: Near>(near: &P, keys: Seq<u32>, zero: u32, i: int, j: int) -> Seq<
    u32,
>
    decreases j,
{
    if j <= 0 {
        keys
    } else {
        let s = settled_row(near, keys, zero, i, j - 1);
        if near.near(i, j - 1) {
            if s[i] >= s[j - 1] {
                s.update(j - 1, zero)
            } else {
                s.update(i, zero)
            }
        } else {
            s
        }
    }
}

/// The scores after the first `n` candidates have been settled.
pub open spec fn settled<P: Near>(near: &P, keys: Seq<u32>, zero: u32, n: int) -> Seq<u32>
    decreases n,
{
    if n <= 1 {
        keys
    } else {
        settled_row(near, settled(near, keys, zero, n - 1), zero, n - 1, n - 1)
    }
}

pub proof fn lemma_settled_row_len<P: Near>(near: &P, keys: Seq<u32>, zero: u32, i: int, j: int)
    requires
        0 <= j <= i < keys.len(),
    ensures
        settled_row(near, keys, zero, i, j).len() == keys.len(),
    decreases j,
{
    if j > 0 {
        lemma_settled_row_len(near, keys, zero, i, j - 1);
    }
}

/// Two relations hold of the same candidates.
pub open spec fn same_neighbours<P: Near>(x: &P, y: &P) -> bool {
    forall|a: int, b: int| #[trigger] x.near(a, b) == y.near(a, b)
}

/// What is kept depends on the neighbours alone.
pub proof fn lemma_same_survivors<P: Near>(x: &P, y: &P, order: Seq<usize>, limit: nat, t: int)
    requires
        same_neighbours(x, y),
    ensures
        survivors(x, order, limit, t) == survivors(y, order, limit, t),
    decreases t,
{
    if t > 0 {
        lemma_same_survivors(x, y, order, limit, t - 1);
        let kept = survivors(x, order, limit, t - 1);
        let c = order[t - 1];
        if crowded(x, kept, c) {
            let k = choose|k: int|
                0 <= k < kept.len() && x.near(c as int, #[trigger] kept[k] as int);
            assert(y.near(c as int, kept[k] as int));
        }
        if crowded(y, kept, c) {
            let k = choose|k: int|
                0 <= k < kept.len() && y.near(c as int, #[trigger] kept[k] as int);
            assert(x.near(c as int, kept[k] as int) == y.near(c as int, kept[k] as int));
        }
    }
}

proof fn lemma_same_settled_row<P: Near>(x: &P, y: &P, keys: Seq<u32>, zero: u32, i: int, j: int)
    requires
        same_neighbours(x, y),
    ensures
        settled_row(x, keys, zero, i, j) == settled_row(y, keys, zero, i, j),
    decreases j,
{
    if j > 0 {
        lemma_same_settled_row(x, y, keys, zero, i, j - 1);
        assert(x.near(i, j - 1) == y.near(i, j - 1));
    }
}

/// What settling leaves depends on the neighbours alone.
pub proof fn lemma_same_settled<P: Near>(x: &P, y: &P, keys: Seq<u32>, zero: u32, n: int)
    requires
        same_neighbours(x, y),
    ensures
        settled(x, keys, zero, n) == settled(y, keys, zero, n),
    decreases n,
{
    if n > 1 {
        lemma_same_settled(x, y, keys, zero, n - 1);
        lemma_same_settled_row(x, y, settled(x, keys, zero, n - 1), zero, n - 1, n - 1);
    }
}

/// Of every two neighbours strike the score of the lesser.
pub fn settle<P: Near>(near: &P, keys: &mut Vec<u32>, zero: u32)
    requires
        near.covers(old(keys)@.len() as int),
        forall|c: int| c <= old(keys)@.len() ==> #[trigger] near.covers(c),
    ensures
        final(keys)@ == settled(near, old(keys)@, zero, old(keys)@.len() as int),
        final(keys)@.len() == old(keys)@.len(),
{
    let ghost start = keys@;
    let n: usize = keys.len();
    for i in 1..(if n == 0 {
        1usize
    } else {
        n
    })
        invariant
            n == start.len(),
            keys@.len() == n,
            n == 0 ==> keys@ == start,
            forall|c: int| c <= n ==> #[trigger] near.covers(c),
            keys@ == settled(near, start, zero, i as int),
    {
        let ghost row = keys@;
        for j in 0..i
            invariant
                1 <= i < n,
                n == start.len(),
                keys@.len() == n,
                row.len() == n,
                forall|c: int| c <= n ==> #[trigger] near.covers(c),
                keys@ == settled_row(near, row, zero, i as int, j as int),
        {
            assert(near.covers(i + 1));
            assert(near.covers(j + 1));
            if near.is_near(i, j) {
                if keys[i] >= keys[j] {
                    keys.set(j, zero);
                } else {
                    keys.set(i, zero);
                }
            }
        }
    }
}

proof fn lemma_row_effect<P: Near>(near: &P, keys: Seq<u32>, zero: u32, i: int, j: int)
    requires
        0 <= j <= i < keys.len(),
    ensures
        settled_row(near, keys, zero, i, j).len() == keys.len(),
        forall|x: int|
            0 <= x < keys.len() ==> #[trigger] settled_row(near, keys, zero, i, j)[x] == keys[x]
                || settled_row(near, keys, zero, i, j)[x] == zero,
        forall|x: int|
            0 <= x < j && near.near(i, x) ==> #[trigger] settled_row(near, keys, zero, i, j)[x]
                == zero || settled_row(near, keys, zero, i, j)[i] == zero,
    decreases j,
{
    if j > 0 {
        lemma_row_effect(near, keys, zero, i, j - 1);
        let s = settled_row(near, keys, zero, i, j - 1);
        let now = settled_row(near, keys, zero, i, j);
        assert forall|x: int| 0 <= x < j && near.near(i, x) implies #[trigger] now[x] == zero
            || now[i] == zero by {
            if x < j - 1 {
                assert(s[x] == zero || s[i] == zero);
            }
        }
        assert forall|x: int| 0 <= x < keys.len() implies #[trigger] now[x] == keys[x] || now[x]
            == zero by {
            assert(s[x] == keys[x] || s[x] == zero);
        }
    }
}

proof fn lemma_settled_effect<P: Near>(near: &P, keys: Seq<u32>, zero: u32, n: int)
    requires
        0 <= n <= keys.len(),
    ensures
        settled(near, keys, zero, n).len() == keys.len(),
        forall|x: int|
            0 <= x < keys.len() ==> #[trigger] settled(near, keys, zero, n)[x] == keys[x]
                || settled(near, keys, zero, n)[x] == zero,
        forall|a: int, b: int|
            0 <= b < a < n && #[trigger] near.near(a, b) ==> settled(near, keys, zero, n)[a] == zero
                || settled(near, keys, zero, n)[b] == zero,
    decreases n,
{
    if n > 1 {
        lemma_settled_effect(near, keys, zero, n - 1);
        let s = settled(near, keys, zero, n - 1);
        lemma_row_effect(near, s, zero, n - 1, n - 1);
        let now = settled(near, keys, zero, n);
        assert forall|a: int, b: int| 0 <= b < a < n && #[trigger] near.near(a, b) implies now[a]
            == zero || now[b] == zero by {
            if a < n - 1 {
                assert(s[a] == zero || s[b] == zero);
                assert(now[a] == s[a] || now[a] == zero);
                assert(now[b] == s[b] || now[b] == zero);
            } else {
                assert(now[b] == zero || now[a] == zero);
            }
        }
        assert forall|x: int| 0 <= x < keys.len() implies #[trigger] now[x] == keys[x] || now[x]
            == zero by {
            assert(now[x] == s[x] || now[x] == zero);
            assert(s[x] == keys[x] || s[x] == zero);
        }
    }
}

/// After settling, of every two neighbours at least one is struck, and a
/// score that is not struck is unchanged.
pub proof fn law_settling_leaves_no_neighbours<P: Near>(
    near: &P,
    keys: Seq<u32>,
    zero: u32,
    a: int,
    b: int,
)
    requires
        0 <= b < a < keys.len(),
        near.near(a, b),
    ensures
        ({
            let done = settled(near, keys, zero, keys.len() as int);
            &&& done[a] == zero || done[b] == zero
            &&& done[a] == keys[a] || done[a] == zero
            &&& done[b] == keys[b] || done[b] == zero
        }),
{
    lemma_settled_effect(near, keys, zero, keys.len() as int);
    let done = settled(near, keys, zero, keys.len() as int);
    assert(done[a] == keys[a] || done[a] == zero);
    assert(done[b] == keys[b] || done[b] == zero);
}

/// The place of the first of the largest keys.
pub open spec fn is_first_peak(keys: Seq<u32>, at: int) -> bool {
    &&& 0 <= at < keys.len()
    &&& forall|i: int| 0 <= i < keys.len() ==> #[trigger] keys[i] <= keys[at]
    &&& forall|i: int| 0 <= i < at ==> #[trigger] keys[i] < keys[at]
}

/// The place of the last of the largest keys.
pub open spec fn is_last_peak(keys: Seq<u32>, at: int) -> bool {
    &&& 0 <= at < keys.len()
    &&& forall|i: int| 0 <= i < keys.len() ==> #[trigger] keys[i] <= keys[at]
    &&& forall|i: int| at < i < keys.len() ==> #[trigger] keys[i] < keys[at]
}

/// The first of the largest keys, if it exceeds `floor`.
pub fn first_peak_above(keys: &[u32], floor: u32) -> (peak: Option<usize>)
    ensures
        match peak {
            Some(at) => is_first_peak(keys@, at as int) && keys@[at as int] > floor,
            None => forall|i: int| 0 <= i < keys@.len() ==> #[trigger] keys@[i] <= floor,
        },
{
    let mut best: u32 = floor;
    let mut peak: Option<usize> = None;
    for i in 0..keys.len()
        invariant
            match peak {
                Some(at) => at < i && best == keys@[at as int] && best > floor && (forall|q: int|
                    0 <= q < i ==> #[trigger] keys@[q] <= best) && (forall|q: int|
                    0 <= q < at ==> #[trigger] keys@[q] < best),
                None => best == floor && (forall|q: int|
                    0 <= q < i ==> #[trigger] keys@[q] <= floor),
            },
    {
        if keys[i] > best {
            best = keys[i];
            peak = Some(i);
        }
    }
    peak
}

/// The last of the largest keys.
pub fn last_peak(keys: &[u32]) -> (at: usize)
    requires
        keys@.len() > 0,
    ensures
        is_last_peak(keys@, at as int),
{
    let mut at: usize = 0;
    for i in 1..keys.len()
        invariant
            at < i <= keys@.len(),
            forall|q: int| 0 <= q < i ==> #[trigger] keys@[q] <= keys@[at as int],
            forall|q: int| at < q < i ==> #[trigger] keys@[q] < keys@[at as int],
    {
        if keys[i] >= keys[at] {
            at = i;
        }
    }
    at
}

/// The value at place `k` of the keys in ascending order.
pub open spec fn is_nth_smallest(keys: Seq<u32>, k: int, v: u32) -> bool {
    exists|order: Seq<usize>|
        #[trigger] is_ranking(keys, order) && v == keys[order[keys.len() - 1 - k] as int]
}

/// The value at place `k` of the keys in ascending order.
pub fn nth_smallest(keys: &[u32], k: usize) -> (v: u32)
    requires
        k < keys@.len(),
    ensures
        is_nth_smallest(keys@, k as int, v),
{
    let order: Vec<usize> = rank_desc(keys);
    assert(is_ranking(keys@, order@));
    keys[order[keys.len() - 1 - k]]
}

/// The keys above `floor`, in their order.
pub open spec fn above(keys: Seq<u32>, floor: u32) -> Seq<u32> {
    keys.filter(|k: u32| k > floor)
}

/// The median of the keys above `floor`: the value in the middle of their
/// ascending order, the upper one when their number is even. `None` if no key
/// is above `floor`.
pub fn robust_median(keys: &[u32], floor: u32) -> (median: Option<u32>)
    ensures
        match median {
            Some(v) => above(keys@, floor).len() > 0 && is_nth_smallest(
                above(keys@, floor),
                above(keys@, floor).len() as int / 2,
                v,
            ),
            None => above(keys@, floor).len() == 0,
        },
{
    let mut high: Vec<u32> = Vec::new();
    let ghost pred = |k: u32| k > floor;
    assert(keys@.take(0).filter(pred) =~= Seq::<u32>::empty()) by {
        reveal(Seq::filter);
    }
    for i in 0..keys.len()
        invariant
            pred == (|k: u32| k > floor),
            high@ == keys@.take(i as int).filter(pred),
    {
        let key: u32 = keys[i];
        proof {
            let next = keys@.take(i + 1);
            assert(next.drop_last() =~= keys@.take(i as int));
            reveal(Seq::filter);
        }
        if key > floor {
            high.push(key);
        }
    }
    assert(keys@.take(keys@.len() as int) =~= keys@);
    if high.len() == 0 {
        return None;
    }
    Some(nth_smallest(&high, high.len() / 2))
}

/// The number that sign and size of a binary32 number's bits stand for, in an
/// order like that of the numbers.
pub open spec fn signed_size(bits: u32) -> int {
    if bits < 0x8000_0000 {
        bits as int
    } else {
        0x8000_0000 - bits
    }
}

/// Keys compare as the numbers do: the greater number has the greater key, and
/// what is above nought has a key above that of nought.
pub proof fn law_keys_compare_as_numbers(a: u32, b: u32, ka: u32, kb: u32)
    requires
        call_ensures(order_key, (a,), ka),
        call_ensures(order_key, (b,), kb),
    ensures
        signed_size(a) < signed_size(b) ==> ka < kb,
        ka == kb ==> a == b,
        signed_size(a) > 0 ==> ka > 0x8000_0000,
        signed_size(a) < 0 ==> ka < 0x8000_0000,
{
}

/// A ranking names every number once and the greatest keys first; of equal keys
/// the first comes first.
pub proof fn law_rankings_descend(keys: &[u32], order: Vec<usize>)
    requires
        call_ensures(rank_desc, (keys,), order),
    ensures
        order@.len() == keys@.len(),
        forall|i: usize| i < keys@.len() ==> #[trigger] order@.contains(i),
        forall|a: int, b: int|
            0 <= a < b < order@.len() ==> keys@[#[trigger] order@[a] as int]
                >= keys@[#[trigger] order@[b] as int] && (keys@[order@[a] as int]
                == keys@[order@[b] as int] ==> order@[a] < order@[b]),
{
    assert(is_ranking(keys@, order@));
    assert forall|i: usize| i < keys@.len() implies #[trigger] order@.contains(i) by {
        lemma_ranking_names_all(keys@, order@, i as int);
    }
    assert forall|a: int, b: int| 0 <= a < b < order@.len() implies keys@[
    #[trigger] order@[a] as int] >= keys@[#[trigger] order@[b] as int] && (keys@[order@[a] as int]
        == keys@[order@[b] as int] ==> order@[a] < order@[b]) by {
        assert(ranks_before(keys@, order@[a], order@[b]));
    }
}

/// The best are as many as wanted or all there are, best first, and nothing that
/// is left out is better than any of them.
pub proof fn law_nothing_better_is_left_out(
    keys: &[u32],
    limit: usize,
    best: Vec<usize>,
    a: int,
    i: usize,
)
    requires
        call_ensures(best_of, (keys, limit), best),
        0 <= a < best@.len(),
        i < keys@.len(),
        !best@.contains(i),
    ensures
        best@.len() == limit,
        keys@[i as int] <= keys@[best@[a] as int],
{
    let order = choose|order: Seq<usize>| #[trigger]
        is_ranking(keys@, order) && best@ == order.take(
            if limit < order.len() {
                limit as int
            } else {
                order.len() as int
            },
        );
    lemma_ranking_names_all(keys@, order, i as int);
    let p = choose|p: int| 0 <= p < order.len() && order[p] == i;
    if p < best@.len() {
        assert(best@[p] == i);
    } else {
        assert(best@[a] == order[a]);
        assert(ranks_before(keys@, order[a], order[p]));
    }
}

/// Different numbers of keys that are all no greater than `v`, or all no less.
pub open spec fn all_within(keys: Seq<u32>, numbers: Seq<usize>, v: u32, below: bool) -> bool {
    &&& numbers.no_duplicates()
    &&& forall|i: int|
        0 <= i < numbers.len() ==> #[trigger] numbers[i] < keys.len() && (if below {
            keys[numbers[i] as int] <= v
        } else {
            keys[numbers[i] as int] >= v
        })
}

/// The value at place `k` of the keys in ascending order has `k + 1` keys no
/// greater than it and all but `k` no less, and is one of them.
pub proof fn law_what_the_nth_smallest_is(keys: Seq<u32>, k: int, v: u32) -> (sides: (
    Seq<usize>,
    Seq<usize>,
))
    requires
        0 <= k < keys.len(),
        is_nth_smallest(keys, k, v),
    ensures
        keys.contains(v),
        sides.0.len() == k + 1,
        all_within(keys, sides.0, v, true),
        sides.1.len() == keys.len() - k,
        all_within(keys, sides.1, v, false),
{
    let order = choose|order: Seq<usize>| #[trigger]
        is_ranking(keys, order) && v == keys[order[keys.len() - 1 - k] as int];
    let at = keys.len() - 1 - k;
    assert(order[at] < keys.len());
    assert(keys[order[at] as int] == v);
    let low = order.skip(at);
    let high = order.take(at + 1);
    assert forall|i: int, j: int| 0 <= i < j < order.len() implies order[i] != order[j] by {
        assert(ranks_before(keys, order[i], order[j]));
    }
    assert(low.no_duplicates());
    assert(high.no_duplicates());
    assert forall|i: int| 0 <= i < low.len() implies #[trigger] low[i] < keys.len()
        && keys[low[i] as int] <= v by {
        assert(low[i] == order[at + i]);
        if i > 0 {
            assert(ranks_before(keys, order[at], order[at + i]));
        }
    }
    assert forall|i: int| 0 <= i < high.len() implies #[trigger] high[i] < keys.len()
        && keys[high[i] as int] >= v by {
        assert(high[i] == order[i]);
        if i < at {
            assert(ranks_before(keys, order[i], order[at]));
        }
    }
    (low, high)
}

} // verus!
