//! The two-level composition: a shuffle of shuffles.
//!
//! Each bucket's own `TaggedShuffle` is registered as a single weighted item
//! of an outer `TaggedShuffle`, with weight equal to the bucket's slot count.
//! Flattened iteration walks the outer order and, on each visit of a bucket,
//! emits that bucket's next not-yet-emitted item.  The flattened sequence
//! therefore has one element per inner slot, and its multiset is the union of
//! the bucket multisets — proved below as `lemma_nested_multiset`.

use vstd::prelude::*;

verus! {

use crate::counts::{
    occ, lemma_occ_concat, lemma_occ_constant, lemma_occ_none, lemma_occ_from_multiset,
    lemma_occ_take_succ, lemma_occ_take_le, sum_occ, lemma_sum_occ_len,
};
use crate::rng::{fresh_rng, rng_from_seed};
use crate::shuffle::{ShuffleView, TaggedShuffle};
use crate::spread::no_adjacent;
use vstd::seq_lib::group_to_multiset_ensures;
use vstd::multiset::{Multiset, group_multiset_axioms};

impl<T> ShuffleView<TaggedShuffle<T>> {
    /// A well-formed two-level structure: the outer table is well formed,
    /// every bucket is well formed, and bucket `b` owns exactly as many outer
    /// slots as it has inner slots.
    pub open spec fn nested_wf(self) -> bool {
        &&& self.wf()
        &&& forall|b: int| 0 <= b < self.items.len() ==> (#[trigger] self.items[b]).wf()
        &&& forall|b: int|
            0 <= b < self.items.len() ==> occ(self.order, b as usize) == (
            #[trigger] self.items[b])@.order.len()
    }

    /// The flattened sequence: at outer step `t` the visited bucket emits the
    /// inner item whose cursor equals the number of earlier visits.
    pub open spec fn nested_seq(self) -> Seq<T> {
        Seq::new(
            self.order.len(),
            |t: int|
                self.items[self.order[t] as int].expansion()[occ(
                    self.order.take(t),
                    self.order[t],
                ) as int],
        )
    }
}

/// The union of the expansion multisets of the first `k` buckets.
pub open spec fn buckets_multiset<T>(buckets: Seq<TaggedShuffle<T>>, k: int) -> Multiset<T>
    decreases k,
{
    if k <= 0 {
        Multiset::empty()
    } else {
        buckets_multiset(buckets, k - 1).add(buckets[k - 1].expansion().to_multiset())
    }
}

/// The total slot count of the first `k` buckets.
pub open spec fn buckets_total<T>(buckets: Seq<TaggedShuffle<T>>, k: int) -> nat
    decreases k,
{
    if k <= 0 {
        0
    } else {
        buckets_total(buckets, k - 1) + buckets[k - 1]@.order.len()
    }
}

/// The union of the bucket expansions, restricted for each bucket to the
/// slots already emitted after `t` outer steps.
spec fn taken_multiset<T>(v: ShuffleView<TaggedShuffle<T>>, t: int, k: int) -> Multiset<T>
    decreases k,
{
    if k <= 0 {
        Multiset::empty()
    } else {
        taken_multiset(v, t, k - 1).add(
            v.items[k - 1].expansion().take(
                occ(v.order.take(t), (k - 1) as usize) as int,
            ).to_multiset(),
        )
    }
}

pub(crate) proof fn lemma_empty_to_multiset<T>()
    ensures
        Seq::<T>::empty().to_multiset() == Multiset::<T>::empty(),
{
    broadcast use group_to_multiset_ensures;
    broadcast use group_multiset_axioms;

    assert(Seq::<T>::empty().to_multiset().len() == 0);
    assert(Seq::<T>::empty().to_multiset() =~= Multiset::<T>::empty());
}

proof fn lemma_taken_multiset_zero<T>(v: ShuffleView<TaggedShuffle<T>>, k: int)
    ensures
        taken_multiset(v, 0, k) == Multiset::<T>::empty(),
    decreases k,
{
    broadcast use group_multiset_axioms;

    if k > 0 {
        lemma_taken_multiset_zero(v, k - 1);
        assert(v.order.take(0) =~= Seq::<usize>::empty());
        let e = v.items[k - 1].expansion();
        assert(e.take(0) =~= Seq::<T>::empty());
        lemma_empty_to_multiset::<T>();
        assert(taken_multiset(v, 0, k) =~= Multiset::<T>::empty());
    }
}

/// One outer step at position `t` adds exactly the emitted element to the
/// union of the already-emitted prefixes.
proof fn lemma_taken_multiset_step<T>(v: ShuffleView<TaggedShuffle<T>>, t: int, k: int)
    requires
        v.nested_wf(),
        0 <= t < v.order.len(),
        0 <= k <= v.items.len(),
        v.items.len() <= usize::MAX,
    ensures
        taken_multiset(v, t + 1, k) == if (v.order[t] as int) < k {
            taken_multiset(v, t, k).insert(v.nested_seq()[t])
        } else {
            taken_multiset(v, t, k)
        },
    decreases k,
{
    broadcast use group_to_multiset_ensures;
    broadcast use group_multiset_axioms;

    if k > 0 {
        lemma_taken_multiset_step(v, t, k - 1);
        let b = v.order[t];
        let bu = (k - 1) as usize;
        lemma_occ_take_succ(v.order, t, bu);
        let j = occ(v.order.take(t), bu) as int;
        let e = v.items[k - 1].expansion();
        if b == bu {
            lemma_occ_take_le(v.order, t + 1, bu);
            assert(occ(v.order, bu) == v.items[k - 1]@.order.len());
            assert(j + 1 <= e.len());
            assert(e.take(j + 1) =~= e.take(j).push(e[j]));
            assert(e.take(j).push(e[j]).to_multiset() =~= e.take(j).to_multiset().insert(e[j]));
            assert(v.nested_seq()[t] == e[j]);
            assert(taken_multiset(v, t + 1, k) =~= taken_multiset(v, t, k).insert(
                v.nested_seq()[t],
            ));
        } else {
            assert(occ(v.order.take(t + 1), bu) == occ(v.order.take(t), bu));
            if (b as int) < k {
                assert(taken_multiset(v, t + 1, k) =~= taken_multiset(v, t, k).insert(
                    v.nested_seq()[t],
                ));
            }
        }
    }
}

/// After `t` outer steps, the multiset of emitted elements is the union of the
/// per-bucket emitted prefixes.
proof fn lemma_nested_prefix<T>(v: ShuffleView<TaggedShuffle<T>>, t: int)
    requires
        v.nested_wf(),
        0 <= t <= v.order.len(),
        v.items.len() <= usize::MAX,
    ensures
        v.nested_seq().take(t).to_multiset() == taken_multiset(v, t, v.items.len() as int),
    decreases t,
{
    broadcast use group_to_multiset_ensures;

    let kk = v.items.len() as int;
    if t == 0 {
        lemma_taken_multiset_zero(v, kk);
        assert(v.nested_seq().take(0) =~= Seq::<T>::empty());
        lemma_empty_to_multiset::<T>();
    } else {
        lemma_nested_prefix(v, t - 1);
        let s = v.nested_seq();
        assert(s.take(t) =~= s.take(t - 1).push(s[t - 1]));
        assert(s.take(t - 1).push(s[t - 1]).to_multiset() =~= s.take(t - 1).to_multiset().insert(
            s[t - 1],
        ));
        lemma_taken_multiset_step(v, t - 1, kk);
        assert((v.order[t - 1] as int) < kk);
    }
}

/// Once the outer order is exhausted, every bucket has emitted all its slots.
proof fn lemma_taken_full<T>(v: ShuffleView<TaggedShuffle<T>>, k: int)
    requires
        v.nested_wf(),
        0 <= k <= v.items.len(),
        v.items.len() <= usize::MAX,
    ensures
        taken_multiset(v, v.order.len() as int, k) == buckets_multiset(v.items, k),
    decreases k,
{
    if k > 0 {
        lemma_taken_full(v, k - 1);
        let n = v.order.len() as int;
        let bu = (k - 1) as usize;
        assert(v.order.take(n) =~= v.order);
        assert(occ(v.order, bu) == v.items[k - 1]@.order.len());
        let e = v.items[k - 1].expansion();
        assert(e.take(occ(v.order.take(n), bu) as int) =~= e);
    }
}

proof fn lemma_buckets_total<T>(v: ShuffleView<TaggedShuffle<T>>, k: int)
    requires
        v.nested_wf(),
        0 <= k <= v.items.len(),
        v.items.len() <= usize::MAX,
    ensures
        sum_occ(v.order, k) == buckets_total(v.items, k),
    decreases k,
{
    if k > 0 {
        lemma_buckets_total(v, k - 1);
        assert(occ(v.order, (k - 1) as usize) == v.items[k - 1]@.order.len());
    }
}

/// Law of the nested length and multiset: flattened iteration yields exactly
/// one element per inner slot — its length is the sum of the bucket weights,
/// and its multiset is the union of the bucket multisets.
pub proof fn lemma_nested_multiset<T>(v: ShuffleView<TaggedShuffle<T>>)
    requires
        v.nested_wf(),
        v.items.len() <= usize::MAX,
    ensures
        v.nested_seq().len() == v.order.len(),
        v.nested_seq().len() == buckets_total(v.items, v.items.len() as int),
        v.nested_seq().to_multiset() == buckets_multiset(v.items, v.items.len() as int),
{
    let kk = v.items.len() as int;
    let n = v.order.len() as int;
    lemma_buckets_total(v, kk);
    lemma_sum_occ_len(v.order, kk);
    lemma_nested_prefix(v, n);
    assert(v.nested_seq().take(n) =~= v.nested_seq());
    lemma_taken_full(v, kk);
}

impl<T> TaggedShuffle<TaggedShuffle<T>> {
    /// Register an already-populated bucket as one weighted item of the outer
    /// sequence.  Its outer weight is its total slot count, fixed here once
    /// and for all.
    pub fn nested_add(&mut self, item: TaggedShuffle<T>)
        requires
            old(self)@.nested_wf(),
            item.wf(),
        ensures
            final(self)@.nested_wf(),
            final(self)@.items == old(self)@.items.push(item),
            final(self)@.order == old(self)@.order + Seq::new(
                item@.order.len(),
                |q: int| old(self)@.items.len() as usize,
            ),
            final(self)@.max_same == if item@.order.len() > old(self)@.max_same {
                item@.order.len() as usize
            } else {
                old(self)@.max_same
            },
    {
        let bcount = self.items_len();
        let len = item.len();
        self.addn(item, len);
        proof {
            let oldo = old(self)@.order;
            let newb = bcount;
            let tail = Seq::new(len as nat, |q: int| newb);
            assert(self@.order =~= oldo + tail);
            assert forall|k: int| 0 <= k < oldo.len() implies oldo[k] != newb by {
                assert(oldo[k] < old(self)@.items.len());
            }
            assert forall|b: int|
                0 <= b < self@.items.len() implies occ(self@.order, b as usize) == (
            #[trigger] self@.items[b])@.order.len() by {
                lemma_occ_concat(oldo, tail, b as usize);
                lemma_occ_constant(len as nat, newb, b as usize);
                if b < old(self)@.items.len() {
                    assert(occ(oldo, b as usize) == old(self)@.items[b]@.order.len());
                    assert(b as usize != newb);
                } else {
                    lemma_occ_none(oldo, newb);
                }
            }
        }
    }

    /// Shuffle every bucket independently, then the outer order, all with the
    /// same lookahead bound and the same source of randomness.  Bucket
    /// contents and sizes are preserved, each up to reordering.
    pub(crate) fn nested_shuffle_core(&mut self, max_lookahead: usize, rng: &mut rand::rngs::StdRng)
        requires
            old(self)@.nested_wf(),
        ensures
            final(self)@.nested_wf(),
            final(self)@.items.len() == old(self)@.items.len(),
            final(self)@.order.len() == old(self)@.order.len(),
            final(self)@.order.to_multiset() == old(self)@.order.to_multiset(),
            final(self)@.max_same == old(self)@.max_same,
            forall|b: int|
                0 <= b < old(self)@.items.len() ==> {
                    &&& (#[trigger] final(self)@.items[b])@.items == old(self)@.items[b]@.items
                    &&& final(self)@.items[b]@.order.len() == old(self)@.items[b]@.order.len()
                    &&& final(self)@.items[b].expansion().to_multiset() == old(
                        self,
                    )@.items[b].expansion().to_multiset()
                },
            (max_lookahead >= 2 && 2 * old(self)@.max_same <= old(self)@.order.len())
                ==> no_adjacent(final(self)@.order),
    {
        let k = self.items_len();
        let mut b: usize = 0;
        while b < k
            invariant
                old(self)@.nested_wf(),
                k == self@.items.len(),
                b <= k,
                self@.order == old(self)@.order,
                self@.max_same == old(self)@.max_same,
                self@.items.len() == old(self)@.items.len(),
                forall|p: int| b <= p < k ==> self@.items[p] == old(self)@.items[p],
                forall|p: int|
                    0 <= p < b ==> {
                        &&& (#[trigger] self@.items[p]).wf()
                        &&& self@.items[p]@.items == old(self)@.items[p]@.items
                        &&& self@.items[p]@.order.len() == old(self)@.items[p]@.order.len()
                        &&& self@.items[p].expansion().to_multiset() == old(
                            self,
                        )@.items[p].expansion().to_multiset()
                    },
            decreases k - b,
        {
            let bucket = self.item_at_mut(b);
            bucket.shuffle_core(max_lookahead, rng);
            b += 1;
        }
        proof {
            assert(self.wf());
        }
        self.shuffle_core(max_lookahead, rng);
        proof {
            assert forall|b2: int|
                0 <= b2 < self@.items.len() implies occ(self@.order, b2 as usize) == (
            #[trigger] self@.items[b2])@.order.len() by {
                lemma_occ_from_multiset(self@.order, old(self)@.order, b2 as usize);
            }
        }
    }

    /// Shuffle every bucket, then the outer order (see `nested_shuffle_core`).
    pub fn nested_shuffle(&mut self, max_lookahead: usize)
        requires
            old(self)@.nested_wf(),
        ensures
            final(self)@.nested_wf(),
            final(self)@.items.len() == old(self)@.items.len(),
            final(self)@.order.len() == old(self)@.order.len(),
            final(self)@.order.to_multiset() == old(self)@.order.to_multiset(),
            final(self)@.max_same == old(self)@.max_same,
            forall|b: int|
                0 <= b < old(self)@.items.len() ==> {
                    &&& (#[trigger] final(self)@.items[b])@.items == old(self)@.items[b]@.items
                    &&& final(self)@.items[b]@.order.len() == old(self)@.items[b]@.order.len()
                    &&& final(self)@.items[b].expansion().to_multiset() == old(
                        self,
                    )@.items[b].expansion().to_multiset()
                },
            (max_lookahead >= 2 && 2 * old(self)@.max_same <= old(self)@.order.len())
                ==> no_adjacent(final(self)@.order),
    {
        let mut rng = fresh_rng();
        self.nested_shuffle_core(max_lookahead, &mut rng);
    }

    /// Like `nested_shuffle`, but reproducible from `seed`.
    pub fn nested_shuffle_seeded(&mut self, max_lookahead: usize, seed: u64)
        requires
            old(self)@.nested_wf(),
        ensures
            final(self)@.nested_wf(),
            final(self)@.items.len() == old(self)@.items.len(),
            final(self)@.order.len() == old(self)@.order.len(),
            final(self)@.order.to_multiset() == old(self)@.order.to_multiset(),
            final(self)@.max_same == old(self)@.max_same,
            forall|b: int|
                0 <= b < old(self)@.items.len() ==> {
                    &&& (#[trigger] final(self)@.items[b])@.items == old(self)@.items[b]@.items
                    &&& final(self)@.items[b]@.order.len() == old(self)@.items[b]@.order.len()
                    &&& final(self)@.items[b].expansion().to_multiset() == old(
                        self,
                    )@.items[b].expansion().to_multiset()
                },
            (max_lookahead >= 2 && 2 * old(self)@.max_same <= old(self)@.order.len())
                ==> no_adjacent(final(self)@.order),
    {
        let mut rng = rng_from_seed(seed);
        self.nested_shuffle_core(max_lookahead, &mut rng);
    }

    /// A fresh, independent cursor over the flattened sequence.  Iteration is
    /// read-only apart from the cursor state the call owns.
    pub fn nested_iter(&self) -> (it: TaggedShuffleNestedIterator<T>)
        requires
            self@.nested_wf(),
        ensures
            it.wf(),
            it.shuffle == self,
            it.outer == 0,
    {
        let k = self.items_len();
        let mut inner: Vec<usize> = Vec::new();
        while inner.len() < k
            invariant
                inner@.len() <= k,
                forall|p: int| 0 <= p < inner@.len() ==> (#[trigger] inner@[p]) == 0,
            decreases k - inner@.len(),
        {
            inner.push(0);
        }
        proof {
            assert(self@.order.take(0) =~= Seq::<usize>::empty());
        }
        TaggedShuffleNestedIterator { shuffle: self, outer: 0, inner }
    }
}

/// A cursor over the flattened two-level sequence: an outer position plus one
/// inner cursor per bucket.
pub struct TaggedShuffleNestedIterator<'a, T> {
    pub shuffle: &'a TaggedShuffle<TaggedShuffle<T>>,
    pub outer: usize,
    pub inner: Vec<usize>,
}

impl<'a, T> TaggedShuffleNestedIterator<'a, T> {
    /// Each bucket's cursor equals the number of visits that bucket has had.
    pub open spec fn wf(self) -> bool {
        &&& self.shuffle@.nested_wf()
        &&& self.outer <= self.shuffle@.order.len()
        &&& self.inner@.len() == self.shuffle@.items.len()
        &&& forall|b: int|
            0 <= b < self.inner@.len() ==> (#[trigger] self.inner@[b]) == occ(
                self.shuffle@.order.take(self.outer as int),
                b as usize,
            )
    }

    /// The next element of the flattened sequence, or `None` once the outer
    /// order is exhausted.  The result is a function of the underlying
    /// structure and the cursor alone.
    pub fn next(&mut self) -> (r: Option<&'a T>)
        requires
            old(self).wf(),
        ensures
            final(self).wf(),
            final(self).shuffle == old(self).shuffle,
            old(self).outer < old(self).shuffle@.order.len() ==> {
                &&& r matches Some(x) && *x == old(self).shuffle@.nested_seq()[old(
                    self,
                ).outer as int]
                &&& final(self).outer == old(self).outer + 1
            },
            old(self).outer >= old(self).shuffle@.order.len() ==> {
                &&& r is None
                &&& *final(self) == *old(self)
            },
    {
        if self.outer >= self.shuffle.len() {
            return None;
        }
        let ghost o = self.shuffle@.order;
        let ghost t = self.outer as int;
        let ilen = self.inner.len();
        let b = self.shuffle.slot(self.outer);
        let j = self.inner[b];
        proof {
            lemma_occ_take_succ(o, t, b);
            lemma_occ_take_le(o, t + 1, b);
            assert(occ(o, b) == self.shuffle@.items[b as int]@.order.len());
            assert(j < self.shuffle@.items[b as int]@.order.len());
        }
        self.inner[b] = j + 1;
        let out = match self.shuffle.get(self.outer) {
            Some(bucket) => bucket.get(j),
            None => None,
        };
        self.outer += 1;
        proof {
            assert forall|b2: int|
                0 <= b2 < self.inner@.len() implies (#[trigger] self.inner@[b2]) == occ(
                o.take(t + 1),
                b2 as usize,
            ) by {
                assert(self.inner@.len() == ilen);
                lemma_occ_take_succ(o, t, b2 as usize);
                if b2 == b as int {
                    assert(self.inner@[b2] == j + 1);
                } else {
                    assert(b2 as usize != b);
                    assert(self.inner@[b2] == old(self).inner@[b2]);
                }
            }
        }
        out
    }
}

} // verus!
