//! Occurrence counts over slot tables.
//!
//! A slot table is a sequence of item indices.  Most invariants of the shuffle
//! engine are phrased in terms of how often a given index occurs in such a
//! sequence, so this module defines that count and proves the handful of facts
//! about it that the rest of the crate leans on.

use vstd::prelude::*;

verus! {

use vstd::multiset::Multiset;
use vstd::seq_lib::group_to_multiset_ensures;

/// `n` copies of one value.
pub open spec fn copies<T>(x: T, n: nat) -> Multiset<T>
    decreases n,
{
    if n == 0 {
        Multiset::empty()
    } else {
        copies(x, (n - 1) as nat).insert(x)
    }
}

/// How many entries of `s` equal `v`.
pub open spec fn occ(s: Seq<usize>, v: usize) -> nat
    decreases s.len(),
{
    if s.len() == 0 {
        0
    } else {
        occ(s.drop_last(), v) + if s.last() == v {
            1nat
        } else {
            0nat
        }
    }
}

pub proof fn lemma_occ_le_len(s: Seq<usize>, v: usize)
    ensures
        occ(s, v) <= s.len(),
    decreases s.len(),
{
    if s.len() > 0 {
        lemma_occ_le_len(s.drop_last(), v);
    }
}

pub proof fn lemma_occ_push(s: Seq<usize>, x: usize, v: usize)
    ensures
        occ(s.push(x), v) == occ(s, v) + if x == v {
            1nat
        } else {
            0nat
        },
{
    assert(s.push(x).drop_last() =~= s);
    assert(s.push(x).last() == x);
}

pub proof fn lemma_occ_concat(a: Seq<usize>, b: Seq<usize>, v: usize)
    ensures
        occ(a + b, v) == occ(a, v) + occ(b, v),
    decreases b.len(),
{
    if b.len() == 0 {
        assert(a + b =~= a);
    } else {
        assert((a + b).drop_last() =~= a + b.drop_last());
        lemma_occ_concat(a, b.drop_last(), v);
    }
}

pub proof fn lemma_occ_constant(n: nat, x: usize, v: usize)
    ensures
        occ(Seq::new(n, |k: int| x), v) == if x == v {
            n
        } else {
            0nat
        },
    decreases n,
{
    if n > 0 {
        assert(Seq::new(n, |k: int| x).drop_last() =~= Seq::new((n - 1) as nat, |k: int| x));
        lemma_occ_constant((n - 1) as nat, x, v);
    }
}

pub proof fn lemma_occ_take_succ(s: Seq<usize>, t: int, v: usize)
    requires
        0 <= t < s.len(),
    ensures
        occ(s.take(t + 1), v) == occ(s.take(t), v) + if s[t] == v {
            1nat
        } else {
            0nat
        },
{
    assert(s.take(t + 1).drop_last() =~= s.take(t));
    assert(s.take(t + 1).last() == s[t]);
}

pub proof fn lemma_occ_take_le(s: Seq<usize>, t: int, v: usize)
    requires
        0 <= t <= s.len(),
    ensures
        occ(s.take(t), v) <= occ(s, v),
    decreases s.len() - t,
{
    if t == s.len() {
        assert(s.take(t) =~= s);
    } else {
        lemma_occ_take_succ(s, t, v);
        lemma_occ_take_le(s, t + 1, v);
    }
}

/// The count of `v` agrees with the multiset view of the sequence.
pub proof fn lemma_occ_is_multiset_count(s: Seq<usize>, v: usize)
    ensures
        occ(s, v) == s.to_multiset().count(v),
    decreases s.len(),
{
    broadcast use group_to_multiset_ensures;

    if s.len() == 0 {
        assert(s.to_multiset().count(v) == 0) by {
            assert(!s.contains(v));
        }
    } else {
        let s0 = s.drop_last();
        lemma_occ_is_multiset_count(s0, v);
        assert(s =~= s0.push(s.last()));
        assert(s0.push(s.last()).to_multiset() =~= s0.to_multiset().insert(s.last()));
    }
}

pub proof fn lemma_occ_none(s: Seq<usize>, v: usize)
    requires
        forall|k: int| 0 <= k < s.len() ==> s[k] != v,
    ensures
        occ(s, v) == 0,
    decreases s.len(),
{
    if s.len() > 0 {
        lemma_occ_none(s.drop_last(), v);
    }
}

pub proof fn lemma_occ_all(s: Seq<usize>, v: usize)
    requires
        forall|k: int| 0 <= k < s.len() ==> s[k] == v,
    ensures
        occ(s, v) == s.len(),
    decreases s.len(),
{
    if s.len() > 0 {
        lemma_occ_all(s.drop_last(), v);
    }
}

/// A positive count names a position.
pub proof fn lemma_occ_pos_exists(s: Seq<usize>, v: usize)
    requires
        occ(s, v) > 0,
    ensures
        exists|k: int| 0 <= k < s.len() && s[k] == v,
    decreases s.len(),
{
    if s.last() == v {
        assert(s[s.len() - 1] == v);
    } else {
        lemma_occ_pos_exists(s.drop_last(), v);
        let k = choose|k: int| 0 <= k < s.drop_last().len() && s.drop_last()[k] == v;
        assert(s[k] == v);
    }
}

/// Two different values cannot together fill more than the whole sequence.
pub proof fn lemma_occ_pair_le(s: Seq<usize>, u: usize, v: usize)
    requires
        u != v,
    ensures
        occ(s, u) + occ(s, v) <= s.len(),
    decreases s.len(),
{
    if s.len() > 0 {
        lemma_occ_pair_le(s.drop_last(), u, v);
    }
}

/// A sequence holding fewer than `s.len()` copies of `v` must hold something else.
pub proof fn lemma_occ_exists_diff(s: Seq<usize>, v: usize)
    requires
        occ(s, v) < s.len(),
    ensures
        exists|k: int| 0 <= k < s.len() && s[k] != v,
{
    if forall|k: int| 0 <= k < s.len() ==> s[k] == v {
        lemma_occ_all(s, v);
        assert(false);
    }
}

/// The counts of the first `k` indices, added up.
pub open spec fn sum_occ(s: Seq<usize>, k: int) -> nat
    decreases k,
{
    if k <= 0 {
        0
    } else {
        sum_occ(s, k - 1) + occ(s, (k - 1) as usize)
    }
}

proof fn lemma_sum_occ_empty(s: Seq<usize>, k: int)
    requires
        s.len() == 0,
    ensures
        sum_occ(s, k) == 0,
    decreases k,
{
    if k > 0 {
        lemma_sum_occ_empty(s, k - 1);
    }
}

proof fn lemma_sum_occ_step(s: Seq<usize>, k: int)
    requires
        s.len() > 0,
        0 <= s.last() < k,
        k <= usize::MAX + 1,
    ensures
        sum_occ(s, k) == sum_occ(s.drop_last(), k) + 1,
    decreases k,
{
    if k > 0 {
        if s.last() < k - 1 {
            lemma_sum_occ_step(s, k - 1);
            assert(s.last() != (k - 1) as usize);
        } else {
            lemma_sum_occ_same(s, k - 1);
            assert(s.last() == (k - 1) as usize);
        }
    }
}

proof fn lemma_sum_occ_same(s: Seq<usize>, k: int)
    requires
        s.len() > 0,
        s.last() >= k,
    ensures
        sum_occ(s, k) == sum_occ(s.drop_last(), k),
    decreases k,
{
    if k > 0 {
        lemma_sum_occ_same(s, k - 1);
        assert(s.last() != (k - 1) as usize);
    }
}

/// When every entry of `s` lies below `k`, the per-index counts add up to the length.
pub proof fn lemma_sum_occ_len(s: Seq<usize>, k: int)
    requires
        forall|p: int| 0 <= p < s.len() ==> s[p] < k,
        k <= usize::MAX + 1,
    ensures
        sum_occ(s, k) == s.len(),
    decreases s.len(),
{
    if s.len() == 0 {
        lemma_sum_occ_empty(s, k);
    } else {
        let s0 = s.drop_last();
        assert(forall|p: int| 0 <= p < s0.len() ==> s0[p] < k);
        lemma_sum_occ_len(s0, k);
        lemma_sum_occ_step(s, k);
    }
}

/// Exchanging two entries of a sequence leaves its multiset alone.
pub proof fn lemma_swap_preserves_multiset(s: Seq<usize>, a: int, b: int)
    requires
        0 <= a < s.len(),
        0 <= b < s.len(),
    ensures
        s.update(a, s[b]).update(b, s[a]).to_multiset() == s.to_multiset(),
{
    broadcast use group_to_multiset_ensures;
    broadcast use vstd::multiset::group_multiset_axioms;

    if a == b {
        assert(s.update(a, s[b]).update(b, s[a]) =~= s);
    } else {
        let s1 = s.update(a, s[b]);
        let s2 = s1.update(b, s[a]);
        vstd::seq_lib::to_multiset_update(s, a, s[b]);
        vstd::seq_lib::to_multiset_update(s1, b, s[a]);
        assert(s1[b] == s[b]);
        assert(s.contains(s[a]));
        assert(s.contains(s[b]));
        assert(s.to_multiset().count(s[a]) > 0);
        assert(s.to_multiset().count(s[b]) > 0);
        assert(s2.to_multiset() =~= s.to_multiset());
    }
}

/// Entries drawn from the same multiset satisfy the same upper bound.
pub proof fn lemma_bounds_from_multiset(s1: Seq<usize>, s2: Seq<usize>, bound: int)
    requires
        s1.to_multiset() == s2.to_multiset(),
        forall|k: int| 0 <= k < s1.len() ==> s1[k] < bound,
    ensures
        forall|k: int| 0 <= k < s2.len() ==> s2[k] < bound,
{
    broadcast use group_to_multiset_ensures;

    assert forall|k: int| 0 <= k < s2.len() implies s2[k] < bound by {
        let v = s2[k];
        assert(s2.contains(v));
        assert(s2.to_multiset().count(v) > 0);
        assert(s1.contains(v));
        let p = choose|p: int| 0 <= p < s1.len() && s1[p] == v;
        assert(s1[p] < bound);
    }
}

/// Two sequences with equal multisets have equal counts everywhere.
pub proof fn lemma_occ_from_multiset(s1: Seq<usize>, s2: Seq<usize>, v: usize)
    requires
        s1.to_multiset() == s2.to_multiset(),
    ensures
        occ(s1, v) == occ(s2, v),
{
    lemma_occ_is_multiset_count(s1, v);
    lemma_occ_is_multiset_count(s2, v);
}

} // verus!
