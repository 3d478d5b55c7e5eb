//! A guaranteed spreading pass over a slot table.
//!
//! The repair sweeps of the shuffle are a bounded heuristic; in practice they
//! remove every adjacent pair of slots with the same owner, but nothing about
//! them guarantees it.  This module supplies the guarantee.  Whenever the
//! most frequent owner holds at most half the slots, `spread_slots` rebuilds
//! the table into an order of exactly the same slots in which no two
//! neighbours share an owner: the slots are grouped by owner, most frequent
//! first, and the two halves of the grouped sequence are interleaved.

use vstd::prelude::*;

verus! {

use crate::counts::{
    occ, lemma_occ_le_len, lemma_occ_push, lemma_occ_concat, lemma_occ_constant,
    lemma_occ_none, lemma_occ_all, lemma_occ_take_succ, lemma_occ_take_le,
    lemma_occ_pos_exists, lemma_occ_pair_le, lemma_occ_is_multiset_count,
};

/// No two neighbouring entries are equal.
pub open spec fn no_adjacent(s: Seq<usize>) -> bool {
    forall|p: int| 0 <= p < s.len() - 1 ==> (#[trigger] s[p]) != s[p + 1]
}

/// Equal entries are contiguous: whatever stands between two equal entries
/// equals them too.
pub open spec fn convex(s: Seq<usize>) -> bool {
    forall|p: int, q: int, r: int|
        #![trigger s[p], s[q], s[r]]
        0 <= p <= q <= r < s.len() && s[p] == s[r] ==> s[q] == s[p]
}

/// Earlier entries belong to values that are at least as frequent.
pub open spec fn blocks_descending(s: Seq<usize>) -> bool {
    forall|p: int, q: int|
        #![trigger occ(s, s[p]), occ(s, s[q])]
        0 <= p <= q < s.len() ==> occ(s, s[p]) >= occ(s, s[q])
}

/// The counts in the first `k` cells of a counts table, added up.
spec fn sum_counts(s: Seq<usize>, k: int) -> nat
    decreases k,
{
    if k <= 0 {
        0
    } else {
        sum_counts(s, k - 1) + s[k - 1] as nat
    }
}

proof fn lemma_sum_counts_update(s: Seq<usize>, i: int, x: usize, k: int)
    requires
        0 <= i < s.len(),
        k <= s.len(),
    ensures
        i < k ==> sum_counts(s.update(i, x), k) + s[i] == sum_counts(s, k) + x,
        i >= k ==> sum_counts(s.update(i, x), k) == sum_counts(s, k),
    decreases k,
{
    if k > 0 {
        lemma_sum_counts_update(s, i, x, k - 1);
    }
}

proof fn lemma_sum_counts_bound(s: Seq<usize>, v: int, k: int)
    requires
        0 <= v < k <= s.len(),
    ensures
        s[v] <= sum_counts(s, k),
    decreases k,
{
    if v < k - 1 {
        lemma_sum_counts_bound(s, v, k - 1);
    }
}

proof fn lemma_sum_counts_all_zero(s: Seq<usize>, k: int)
    requires
        k <= s.len(),
        forall|w: int| 0 <= w < k ==> (#[trigger] s[w]) == 0,
    ensures
        sum_counts(s, k) == 0,
    decreases k,
{
    if k > 0 {
        lemma_sum_counts_all_zero(s, k - 1);
    }
}

/// Per-value counts add up like per-value occurrence counts.
proof fn lemma_sum_counts_matches(s: Seq<usize>, o: Seq<usize>, k: int)
    requires
        k <= s.len(),
        k <= usize::MAX,
        forall|w: int| 0 <= w < k ==> (#[trigger] s[w]) == occ(o, w as usize),
    ensures
        sum_counts(s, k) == crate::counts::sum_occ(o, k),
    decreases k,
{
    if k > 0 {
        lemma_sum_counts_matches(s, o, k - 1);
    }
}

/// A value filling the whole span `a..=b` occurs at least that often.
proof fn lemma_occ_span(s: Seq<usize>, a: int, b: int, v: usize)
    requires
        0 <= a <= b < s.len(),
        forall|q: int| a <= q <= b ==> s[q] == v,
    ensures
        occ(s, v) >= b + 1 - a,
{
    let pre = s.subrange(0, a);
    let mid = s.subrange(a, b + 1);
    let suf = s.subrange(b + 1, s.len() as int);
    assert(s =~= (pre + mid) + suf);
    lemma_occ_concat(pre + mid, suf, v);
    lemma_occ_concat(pre, mid, v);
    assert forall|q: int| 0 <= q < mid.len() implies mid[q] == v by {
        assert(mid[q] == s[a + q]);
    }
    lemma_occ_all(mid, v);
}

/// In a convex table whose most frequent value fits at most half of it, an
/// entry of the first half differs from the entry one half-length later.
proof fn lemma_halves_first(g: Seq<usize>, k: int, h: int, maxc: int)
    requires
        convex(g),
        forall|v: usize| #[trigger] occ(g, v) <= maxc,
        2 * maxc <= g.len(),
        h == g.len() - g.len() as int / 2,
        0 <= k,
        h + k < g.len(),
    ensures
        g[k] != g[h + k],
{
    let n = g.len() as int;
    if g[k] == g[h + k] {
        let v = g[k];
        assert forall|q: int| k <= q <= h + k implies g[q] == v by {
            assert(g[k] == v && g[h + k] == v);
        }
        lemma_occ_span(g, k, h + k, v);
        assert(occ(g, v) <= maxc);
        assert(2 * (n / 2) <= n);
        assert(false);
    }
}

/// With the blocks additionally in non-increasing frequency order, an entry
/// of the second half differs from the next entry of the first half.
proof fn lemma_halves_second(g: Seq<usize>, j: int, h: int, maxc: int)
    requires
        convex(g),
        blocks_descending(g),
        forall|v: usize| #[trigger] occ(g, v) <= maxc,
        2 * maxc <= g.len(),
        maxc >= 1,
        h == g.len() - g.len() as int / 2,
        0 <= j,
        j + 1 < h,
        h + j < g.len(),
    ensures
        g[h + j] != g[j + 1],
{
    let n = g.len() as int;
    if g[h + j] == g[j + 1] {
        let v = g[j + 1];
        assert forall|q: int| j + 1 <= q <= h + j implies g[q] == v by {
            assert(g[j + 1] == v && g[h + j] == v);
        }
        lemma_occ_span(g, j + 1, h + j, v);
        assert(occ(g, v) >= h);
        assert(2 * (n / 2) <= n);
        let u = g[0];
        if u == v {
            assert forall|q: int| 0 <= q <= h + j implies g[q] == v by {
                assert(g[0] == v && g[h + j] == v);
            }
            lemma_occ_span(g, 0, h + j, v);
            assert(false);
        }
        assert(occ(g, g[0]) >= occ(g, g[j + 1]));
        lemma_occ_pair_le(g, u, v);
        assert(occ(g, u) == h);
        assert(occ(g, v) == h);
        // every slot of the block is v, so u's further occurrences lie beyond
        let pre = g.subrange(0, j + 1);
        let mid = g.subrange(j + 1, h + j + 1);
        let suf = g.subrange(h + j + 1, n);
        assert(g =~= (pre + mid) + suf);
        lemma_occ_concat(pre + mid, suf, u);
        lemma_occ_concat(pre, mid, u);
        lemma_occ_le_len(pre, u);
        assert forall|q: int| 0 <= q < mid.len() implies mid[q] != u by {
            assert(mid[q] == g[j + 1 + q]);
        }
        lemma_occ_none(mid, u);
        assert(occ(suf, u) > 0);
        lemma_occ_pos_exists(suf, u);
        let t = choose|t: int| 0 <= t < suf.len() && suf[t] == u;
        assert(g[h + j + 1 + t] == u);
        // u before and after the block, v inside: convexity is violated
        assert(g[0] == u && g[j + 1] == v && g[h + j + 1 + t] == u);
        assert(g[j + 1] == u);
        assert(false);
    }
}

/// Rebuild a slot table into an order of exactly the same slots in which no
/// two neighbouring slots share an owner.  Possible whenever the most
/// frequent owner holds at most half the slots.
pub(crate) fn spread_slots(order: &mut Vec<usize>, m: usize, maxc: usize)
    requires
        old(order)@.len() >= 1,
        maxc >= 1,
        2 * maxc <= old(order)@.len(),
        forall|k: int| 0 <= k < old(order)@.len() ==> (#[trigger] old(order)@[k]) < m,
        forall|v: usize| #[trigger] occ(old(order)@, v) <= maxc,
    ensures
        final(order)@.len() == old(order)@.len(),
        final(order)@.to_multiset() == old(order)@.to_multiset(),
        forall|k: int| 0 <= k < final(order)@.len() ==> (#[trigger] final(order)@[k]) < m,
        forall|v: usize| #[trigger] occ(final(order)@, v) == occ(old(order)@, v),
        no_adjacent(final(order)@),
{
    let n = order.len();
    let ghost order0 = order@;

    // count the slots each owner holds
    let mut rem: Vec<usize> = Vec::new();
    while rem.len() < m
        invariant
            rem@.len() <= m,
            forall|w: int| 0 <= w < rem@.len() ==> (#[trigger] rem@[w]) == 0,
        decreases m - rem@.len(),
    {
        rem.push(0);
    }
    proof {
        assert(order0.take(0) =~= Seq::<usize>::empty());
    }
    let mut k: usize = 0;
    while k < n
        invariant
            order@ == order0,
            order0 == old(order)@,
            n == order0.len(),
            rem@.len() == m,
            k <= n,
            forall|v: usize| #[trigger] occ(order0, v) <= maxc,
            forall|p: int| 0 <= p < order0.len() ==> (#[trigger] order0[p]) < m,
            forall|w: int|
                0 <= w < m ==> (#[trigger] rem@[w]) == occ(order0.take(k as int), w as usize),
        decreases n - k,
    {
        let idx = order[k];
        let c = rem[idx];
        proof {
            lemma_occ_take_succ(order0, k as int, idx);
            lemma_occ_take_le(order0, k as int + 1, idx);
            assert(occ(order0, idx) <= maxc);
        }
        rem[idx] = c + 1;
        k += 1;
        proof {
            assert forall|w: int|
                0 <= w < m implies (#[trigger] rem@[w]) == occ(
                order0.take(k as int),
                w as usize,
            ) by {
                lemma_occ_take_succ(order0, k as int - 1, w as usize);
            }
        }
    }
    proof {
        assert(order0.take(n as int) =~= order0);
        lemma_sum_counts_matches(rem@, order0, m as int);
        crate::counts::lemma_sum_occ_len(order0, m as int);
    }

    // group the slots by owner, most frequent first
    let mut g: Vec<usize> = Vec::new();
    while g.len() < n
        invariant
            order@ == order0,
            order0 == old(order)@,
            n == order0.len(),
            n >= 1,
            rem@.len() == m,
            g@.len() <= n,
            forall|v: usize| #[trigger] occ(order0, v) <= maxc,
            forall|p: int| 0 <= p < order0.len() ==> (#[trigger] order0[p]) < m,
            sum_counts(rem@, m as int) + g@.len() == n,
            forall|w: int|
                0 <= w < m ==> occ(g@, w as usize) + (#[trigger] rem@[w]) == occ(
                    order0,
                    w as usize,
                ),
            forall|p: int| 0 <= p < g@.len() ==> (#[trigger] g@[p]) < m,
            forall|p: int| 0 <= p < g@.len() ==> rem@[(#[trigger] g@[p]) as int] == 0,
            convex(g@),
            blocks_descending(g@),
            forall|p: int, w: int|
                #![trigger occ(g@, g@[p]), rem@[w]]
                0 <= p < g@.len() && 0 <= w < m ==> occ(g@, g@[p]) >= rem@[w],
        decreases n - g@.len(),
    {
        // the most frequent owner still remaining
        let mut best: usize = 0;
        let mut bestc: usize = 0;
        let mut v: usize = 0;
        while v < m
            invariant
                v <= m,
                rem@.len() == m,
                forall|w: int| 0 <= w < v ==> (#[trigger] rem@[w]) <= bestc,
                bestc > 0 ==> (best as int) < m && rem@[best as int] == bestc,
                bestc == 0 ==> (forall|w: int| 0 <= w < v ==> (#[trigger] rem@[w]) == 0),
            decreases m - v,
        {
            let c = rem[v];
            if c > bestc {
                best = v;
                bestc = c;
            }
            v += 1;
        }
        proof {
            if bestc == 0 {
                lemma_sum_counts_all_zero(rem@, m as int);
                assert(false);
            }
            lemma_sum_counts_bound(rem@, best as int, m as int);
            assert forall|p: int| 0 <= p < g@.len() implies g@[p] != best by {
                assert(rem@[g@[p] as int] == 0);
            }
            lemma_occ_none(g@, best);
        }
        let ghost g0 = g@;
        let ghost rem0 = rem@;
        let mut cnt: usize = 0;
        while cnt < bestc
            invariant
                cnt <= bestc,
                bestc >= 1,
                (best as int) < m,
                g0.len() + bestc <= n,
                g@ == g0 + Seq::new(cnt as nat, |q: int| best),
            decreases bestc - cnt,
        {
            g.push(best);
            proof {
                assert(g@ =~= g0 + Seq::new(cnt as nat + 1, |q: int| best));
            }
            cnt += 1;
        }
        rem[best] = 0;
        proof {
            let block = Seq::new(bestc as nat, |q: int| best);
            assert(g@ == g0 + block);
            assert(rem@ == rem0.update(best as int, 0));
            lemma_sum_counts_update(rem0, best as int, 0, m as int);
            assert forall|x: usize| #[trigger]
                occ(g@, x) == occ(g0, x) + (if x == best {
                    bestc as nat
                } else {
                    0nat
                }) by {
                lemma_occ_concat(g0, block, x);
                lemma_occ_constant(bestc as nat, best, x);
            }
            assert forall|w: int|
                0 <= w < m implies occ(g@, w as usize) + (#[trigger] rem@[w]) == occ(
                order0,
                w as usize,
            ) by {
                assert(occ(g0, w as usize) + rem0[w] == occ(order0, w as usize));
            }
            assert forall|p: int, q: int, r: int|
                #![trigger g@[p], g@[q], g@[r]]
                0 <= p <= q <= r < g@.len() && g@[p] == g@[r] implies g@[q] == g@[p] by {
                if r < g0.len() {
                    assert(g0[p] == g@[p] && g0[q] == g@[q] && g0[r] == g@[r]);
                } else if p >= g0.len() {
                    assert(g@[p] == best && g@[q] == best && g@[r] == best);
                } else {
                    assert(g@[p] == g0[p]);
                    assert(g0[p] != best);
                    assert(g@[r] == best);
                }
            }
            assert forall|p: int, q: int|
                #![trigger occ(g@, g@[p]), occ(g@, g@[q])]
                0 <= p <= q < g@.len() implies occ(g@, g@[p]) >= occ(g@, g@[q]) by {
                if q < g0.len() {
                    assert(g@[p] == g0[p] && g@[q] == g0[q]);
                    assert(g0[p] != best && g0[q] != best);
                    assert(occ(g0, g0[p]) >= occ(g0, g0[q]));
                } else if p >= g0.len() {
                    assert(g@[p] == best && g@[q] == best);
                } else {
                    assert(g@[p] == g0[p] && g0[p] != best);
                    assert(g@[q] == best);
                    assert(occ(g0, g0[p]) >= rem0[best as int]);
                }
            }
            assert forall|p: int, w: int|
                #![trigger occ(g@, g@[p]), rem@[w]]
                0 <= p < g@.len() && 0 <= w < m implies occ(g@, g@[p]) >= rem@[w] by {
                assert(rem0[w] <= bestc);
                assert(rem@[w] <= rem0[w]);
                if p < g0.len() {
                    assert(g@[p] == g0[p] && g0[p] != best);
                    assert(occ(g0, g0[p]) >= rem0[w]);
                } else {
                    assert(g@[p] == best);
                }
            }
        }
    }
    proof {
        assert forall|v2: usize| #[trigger] occ(g@, v2) == occ(order0, v2) by {
            if (v2 as int) < m {
                lemma_sum_counts_bound(rem@, v2 as int, m as int);
                assert(rem@[v2 as int] == 0);
            } else {
                assert forall|p: int| 0 <= p < g@.len() implies g@[p] != v2 by {
                    assert(g@[p] < m);
                }
                assert forall|p: int| 0 <= p < order0.len() implies order0[p] != v2 by {
                    assert(order0[p] < m);
                }
                lemma_occ_none(g@, v2);
                lemma_occ_none(order0, v2);
            }
        }
    }

    // interleave the two halves of the grouped sequence
    let h = n - n / 2;
    let mut res: Vec<usize> = Vec::new();
    let mut ka: usize = 0;
    proof {
        assert(g@.take(0) =~= Seq::<usize>::empty());
        assert(g@.subrange(h as int, h as int) =~= Seq::<usize>::empty());
    }
    while ka < h
        invariant
            n == g@.len(),
            n >= 1,
            h == n - n / 2,
            maxc >= 1,
            2 * maxc <= n,
            convex(g@),
            blocks_descending(g@),
            forall|v2: usize| #[trigger] occ(g@, v2) <= maxc,
            forall|p: int| 0 <= p < g@.len() ==> (#[trigger] g@[p]) < m,
            ka <= h,
            res@.len() == ka as int + (if ka as int <= n - h {
                ka as int
            } else {
                n - h
            }),
            forall|v2: usize| #[trigger]
                occ(res@, v2) == occ(g@.take(ka as int), v2) + occ(
                    g@.subrange(
                        h as int,
                        h as int + (if ka as int <= n - h {
                            ka as int
                        } else {
                            n - h
                        }),
                    ),
                    v2,
                ),
            no_adjacent(res@),
            1 <= ka < h ==> res@.len() > 0 && res@.last() == g@[h + ka - 1],
            forall|p: int| 0 <= p < res@.len() ==> (#[trigger] res@[p]) < m,
        decreases h - ka,
    {
        proof {
            assert(2 * h <= n + 1);
        }
        let x = g[ka];
        proof {
            if ka >= 1 {
                lemma_halves_second(g@, ka as int - 1, h as int, maxc as int);
                assert(g@[h + ka - 1] != g@[ka as int]);
            }
        }
        let ghost res0 = res@;
        res.push(x);
        proof {
            lemma_occ_take_succ(g@, ka as int, x);
            assert forall|v2: usize| #[trigger]
                occ(res@, v2) == occ(g@.take(ka as int + 1), v2) + occ(
                g@.subrange(
                    h as int,
                    h as int + (if ka as int <= n - h {
                        ka as int
                    } else {
                        n - h
                    }),
                ),
                v2,
            ) by {
                lemma_occ_push(res0, x, v2);
                lemma_occ_take_succ(g@, ka as int, v2);
            }
            assert forall|p: int| 0 <= p < res@.len() - 1 implies (#[trigger] res@[p]) != res@[p + 1] by {
                if p < res0.len() - 1 {
                    assert(res0[p] != res0[p + 1]);
                } else {
                    assert(res@[p] == res0.last() && res@[p + 1] == x);
                }
            }
        }
        if h + ka < n {
            let y = g[h + ka];
            proof {
                lemma_halves_first(g@, ka as int, h as int, maxc as int);
                assert(g@[ka as int] != g@[h + ka]);
            }
            let ghost res1 = res@;
            res.push(y);
            proof {
                assert(ka as int <= n - h);
                assert(ka as int + 1 <= n - h || ka as int + 1 > n - h);
                let sb0 = g@.subrange(h as int, h as int + ka as int);
                let sb1 = g@.subrange(h as int, h as int + ka as int + 1);
                assert(sb1 =~= sb0.push(y));
                assert forall|v2: usize| #[trigger]
                    occ(res@, v2) == occ(g@.take(ka as int + 1), v2) + occ(sb1, v2) by {
                    lemma_occ_push(res1, y, v2);
                    lemma_occ_push(sb0, y, v2);
                }
                assert forall|p: int| 0 <= p < res@.len() - 1 implies (#[trigger] res@[p]) != res@[p + 1] by {
                    if p < res1.len() - 1 {
                        assert(res1[p] != res1[p + 1]);
                    } else {
                        assert(res@[p] == x && res@[p + 1] == y);
                    }
                }
            }
        } else {
            proof {
                assert(ka as int == n - h);
            }
        }
        ka += 1;
        proof {
            assert(res@.len() == ka as int + (if ka as int <= n - h {
                ka as int
            } else {
                n - h
            }));
        }
    }
    proof {
        assert(res@.len() == n);
        assert(g@ =~= g@.take(h as int) + g@.subrange(h as int, n as int));
        assert forall|v2: usize| #[trigger] occ(res@, v2) == occ(g@, v2) by {
            lemma_occ_concat(g@.take(h as int), g@.subrange(h as int, n as int), v2);
        }
    }
    *order = res;
    proof {
        broadcast use vstd::multiset::group_multiset_axioms;

        assert forall|v2: usize| #[trigger] occ(order@, v2) == occ(order0, v2) by {}
        assert(order@.to_multiset() =~= order0.to_multiset()) by {
            assert forall|v2: usize|
                order@.to_multiset().count(v2) == order0.to_multiset().count(v2) by {
                lemma_occ_is_multiset_count(order@, v2);
                lemma_occ_is_multiset_count(order0, v2);
            }
        }
    }
}

} // verus!
