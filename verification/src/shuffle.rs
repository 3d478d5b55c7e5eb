//! The weighted shuffle sequence.
//!
//! A `TaggedShuffle` holds a table of items and a slot table (`order`) with one
//! entry per unit of weight; slot `k` holds the index of the item that owns it.
//! Shuffling permutes the slot table, runs a bounded repair sweep that breaks
//! up runs of slots owned by the same item, and, whenever the lookahead bound
//! admits a window and no owner holds more than half the slots, finishes with
//! a guaranteed spreading pass: the result then provably has no two
//! neighbouring slots with the same owner.  Whatever the repair does, the
//! multiset of slots — and so the multiset of emitted items — never changes.

use vstd::prelude::*;

verus! {

use crate::counts::{
    occ, lemma_occ_le_len, lemma_occ_push, lemma_occ_concat, lemma_occ_constant,
    lemma_occ_none, lemma_occ_exists_diff, lemma_occ_from_multiset,
    lemma_swap_preserves_multiset, lemma_bounds_from_multiset,
};
use crate::rng::{fresh_rng, rng_from_seed, shuffle_slice};
use crate::spread::{no_adjacent, spread_slots};
use vstd::seq_lib::group_to_multiset_ensures;
use vstd::multiset::{Multiset, group_multiset_axioms};
use vstd::arithmetic::div_mod::lemma_fundamental_div_mod;

/// The mathematical content of a `TaggedShuffle`: the item table, the slot
/// table, and the largest weight ever added.
pub struct ShuffleView<T> {
    pub items: Seq<T>,
    pub order: Seq<usize>,
    pub max_same: usize,
}

impl<T> ShuffleView<T> {
    /// Every slot names a valid item, and no item owns more slots than
    /// `max_same`.
    pub open spec fn wf(self) -> bool {
        &&& self.max_same >= 1
        &&& forall|k: int| 0 <= k < self.order.len() ==> (#[trigger] self.order[k]) < self.items.len()
        &&& forall|v: usize| #[trigger] occ(self.order, v) <= self.max_same
    }

    /// The sequence a full iteration yields: slot `k` resolves to its item.
    pub open spec fn expansion(self) -> Seq<T> {
        Seq::new(self.order.len(), |k: int| self.items[self.order[k] as int])
    }

    /// `self` is `other` with its slot table permuted: same items, same bound,
    /// and the same slots as a multiset.
    pub open spec fn reorders(self, other: ShuffleView<T>) -> bool {
        &&& self.items == other.items
        &&& self.max_same == other.max_same
        &&& self.order.len() == other.order.len()
        &&& self.order.to_multiset() == other.order.to_multiset()
    }
}

/// Law of multiset preservation: a reordering of the slot table never changes
/// the multiset of items that iteration yields.  Together with `addn`, which
/// appends exactly `num` slots for its item, this pins down the output of
/// `iter` after any number of shuffles: each added item shows up exactly as
/// often as its weight says.
pub proof fn lemma_multiset_preservation<T>(pre: ShuffleView<T>, post: ShuffleView<T>)
    requires
        pre.wf(),
        post.reorders(pre),
    ensures
        post.expansion().to_multiset() == pre.expansion().to_multiset(),
        post.expansion().len() == pre.expansion().len(),
{
    lemma_bounds_from_multiset(pre.order, post.order, pre.items.len() as int);
    lemma_map_multiset(pre.items, pre.order, post.order);
}

/// Each item repeated by the number of slots it owns, over the first `k`
/// items of the table.  The count `occ(v.order, i)` is item `i`'s weight:
/// exactly the slots `addn` appended for it.
pub open spec fn weights_multiset<T>(v: ShuffleView<T>, k: int) -> Multiset<T>
    decreases k,
{
    if k <= 0 {
        Multiset::empty()
    } else {
        weights_multiset(v, k - 1).add(
            crate::counts::copies(v.items[k - 1], occ(v.order, (k - 1) as usize)),
        )
    }
}

/// The prefix analogue of `weights_multiset`: only the slots among the first
/// `t` of the table are counted.
spec fn prefix_weights<T>(v: ShuffleView<T>, t: int, k: int) -> Multiset<T>
    decreases k,
{
    if k <= 0 {
        Multiset::empty()
    } else {
        prefix_weights(v, t, k - 1).add(
            crate::counts::copies(v.items[k - 1], occ(v.order.take(t), (k - 1) as usize)),
        )
    }
}

proof fn lemma_prefix_weights_zero<T>(v: ShuffleView<T>, k: int)
    ensures
        prefix_weights(v, 0, k) == Multiset::<T>::empty(),
    decreases k,
{
    broadcast use group_multiset_axioms;

    if k > 0 {
        lemma_prefix_weights_zero(v, k - 1);
        assert(v.order.take(0) =~= Seq::<usize>::empty());
        assert(prefix_weights(v, 0, k) =~= Multiset::<T>::empty());
    }
}

proof fn lemma_prefix_weights_step<T>(v: ShuffleView<T>, t: int, k: int)
    requires
        v.wf(),
        0 <= t < v.order.len(),
        0 <= k <= v.items.len(),
        v.items.len() <= usize::MAX,
    ensures
        prefix_weights(v, t + 1, k) == if (v.order[t] as int) < k {
            prefix_weights(v, t, k).insert(v.expansion()[t])
        } else {
            prefix_weights(v, t, k)
        },
    decreases k,
{
    broadcast use group_multiset_axioms;

    if k > 0 {
        lemma_prefix_weights_step(v, t, k - 1);
        let b = v.order[t];
        let bu = (k - 1) as usize;
        crate::counts::lemma_occ_take_succ(v.order, t, bu);
        if b == bu {
            assert(v.expansion()[t] == v.items[k - 1]);
            assert(prefix_weights(v, t + 1, k) =~= prefix_weights(v, t, k).insert(
                v.expansion()[t],
            ));
        } else {
            if (b as int) < k {
                assert(prefix_weights(v, t + 1, k) =~= prefix_weights(v, t, k).insert(
                    v.expansion()[t],
                ));
            }
        }
    }
}

proof fn lemma_expansion_prefix<T>(v: ShuffleView<T>, t: int)
    requires
        v.wf(),
        0 <= t <= v.order.len(),
        v.items.len() <= usize::MAX,
    ensures
        v.expansion().take(t).to_multiset() == prefix_weights(v, t, v.items.len() as int),
    decreases t,
{
    broadcast use group_to_multiset_ensures;

    let kk = v.items.len() as int;
    if t == 0 {
        lemma_prefix_weights_zero(v, kk);
        assert(v.expansion().take(0) =~= Seq::<T>::empty());
        assert(Seq::<T>::empty().to_multiset().len() == 0);
        assert(Seq::<T>::empty().to_multiset() =~= Multiset::<T>::empty());
    } else {
        lemma_expansion_prefix(v, t - 1);
        let s = v.expansion();
        assert(s.take(t) =~= s.take(t - 1).push(s[t - 1]));
        assert(s.take(t - 1).push(s[t - 1]).to_multiset() =~= s.take(t - 1).to_multiset().insert(
            s[t - 1],
        ));
        lemma_prefix_weights_step(v, t - 1, kk);
        assert((v.order[t - 1] as int) < kk);
    }
}

proof fn lemma_prefix_weights_full<T>(v: ShuffleView<T>, k: int)
    requires
        0 <= k,
    ensures
        prefix_weights(v, v.order.len() as int, k) == weights_multiset(v, k),
    decreases k,
{
    if k > 0 {
        lemma_prefix_weights_full(v, k - 1);
        assert(v.order.take(v.order.len() as int) =~= v.order);
    }
}

/// Law of weighted content: iteration yields every registered item exactly as
/// often as it owns slots — its weight.  The length of the yielded sequence
/// is the slot count, and its multiset is the union, over the item table, of
/// each item repeated by its weight.
pub proof fn lemma_expansion_weights<T>(v: ShuffleView<T>)
    requires
        v.wf(),
        v.items.len() <= usize::MAX,
    ensures
        v.expansion().len() == v.order.len(),
        v.expansion().to_multiset() == weights_multiset(v, v.items.len() as int),
{
    let kk = v.items.len() as int;
    let n = v.order.len() as int;
    lemma_expansion_prefix(v, n);
    assert(v.expansion().take(n) =~= v.expansion());
    lemma_prefix_weights_full(v, kk);
}

/// Mapping two index sequences with equal multisets through the same item
/// table gives equal multisets of items.
proof fn lemma_map_multiset<T>(items: Seq<T>, o1: Seq<usize>, o2: Seq<usize>)
    requires
        o1.to_multiset() == o2.to_multiset(),
        forall|k: int| 0 <= k < o1.len() ==> o1[k] < items.len(),
        forall|k: int| 0 <= k < o2.len() ==> o2[k] < items.len(),
    ensures
        map_slots(items, o1).to_multiset() == map_slots(items, o2).to_multiset(),
    decreases o1.len(),
{
    broadcast use group_to_multiset_ensures;
    broadcast use group_multiset_axioms;

    if o1.len() == 0 {
        assert(o1.to_multiset().len() == 0);
        assert(o2.len() == 0);
        assert(map_slots(items, o1) =~= Seq::<T>::empty());
        assert(map_slots(items, o2) =~= Seq::<T>::empty());
        assert(map_slots(items, o1).to_multiset() =~= map_slots(items, o2).to_multiset());
    } else {
        let x = o1.last();
        let o1r = o1.drop_last();
        assert(o1.contains(x));
        assert(o1.to_multiset().count(x) > 0);
        assert(o2.contains(x));
        let p = choose|p: int| 0 <= p < o2.len() && o2[p] == x;
        let o2r = o2.remove(p);
        assert(o1 =~= o1r.push(x));
        assert(o1r.push(x).to_multiset() =~= o1r.to_multiset().insert(x));
        vstd::seq_lib::to_multiset_remove(o2, p);
        assert(o1r.to_multiset() =~= o2r.to_multiset());
        assert(forall|k: int| 0 <= k < o2r.len() ==> o2r[k] < items.len());
        lemma_map_multiset(items, o1r, o2r);
        assert(map_slots(items, o1) =~= map_slots(items, o1r).push(items[x as int]));
        assert(map_slots(items, o1r).push(items[x as int]).to_multiset()
            =~= map_slots(items, o1r).to_multiset().insert(items[x as int]));
        assert(map_slots(items, o2r) =~= map_slots(items, o2).remove(p));
        vstd::seq_lib::to_multiset_remove(map_slots(items, o2), p);
        assert(map_slots(items, o2)[p] == items[x as int]);
        assert(map_slots(items, o2).contains(items[x as int]));
        assert(map_slots(items, o2).to_multiset().count(items[x as int]) > 0);
        assert(map_slots(items, o2).to_multiset()
            =~= map_slots(items, o2r).to_multiset().insert(items[x as int]));
    }
}

spec fn map_slots<T>(items: Seq<T>, o: Seq<usize>) -> Seq<T> {
    Seq::new(o.len(), |k: int| items[o[k] as int])
}

/// Circular advance by `d` positions in a table of length `n`.
spec fn wrap_spec(a: int, d: int, n: int) -> int {
    if a + d < n {
        a + d
    } else {
        a + d - n
    }
}

fn wrap_add(a: usize, d: usize, n: usize) -> (r: usize)
    requires
        a < n,
        d < n,
    ensures
        r == wrap_spec(a as int, d as int, n as int),
        r < n,
{
    if d < n - a {
        a + d
    } else {
        d - (n - a)
    }
}

fn wrap_inc(a: usize, n: usize) -> (r: usize)
    requires
        a < n,
    ensures
        r == wrap_spec(a as int, 1, n as int),
        r < n,
{
    if a + 1 < n {
        a + 1
    } else {
        0
    }
}

fn sat_inc(a: usize) -> (r: usize)
    ensures
        r == if a < usize::MAX {
            a + 1
        } else {
            a as int
        },
{
    if a < usize::MAX {
        a + 1
    } else {
        a
    }
}

/// A window of `l >= 2` positions per slot only fits when the most frequent
/// item owns at most half the table.
proof fn lemma_lookahead_bound(n: int, m: int, l: int)
    requires
        m >= 1,
        n >= 0,
        l <= n / m,
        l >= 2,
    ensures
        2 * m <= n,
{
    lemma_fundamental_div_mod(n, m);
    vstd::arithmetic::div_mod::lemma_mod_division_less_than_divisor(n, m);
    let q = n / m;
    assert(2 * m <= m * q) by (nonlinear_arith)
        requires
            q >= 2,
            m >= 1,
    ;
}

proof fn lemma_div_le(n: int, m: int)
    requires
        n >= 0,
        m >= 1,
    ensures
        0 <= n / m <= n,
{
    vstd::arithmetic::div_mod::lemma_div_pos_is_pos(n, m);
    vstd::arithmetic::div_mod::lemma_div_nonincreasing(n, m);
}

proof fn lemma_two_le_div(n: int, m: int)
    requires
        m >= 1,
        2 * m <= n,
    ensures
        n / m >= 2,
{
    vstd::arithmetic::div_mod::lemma_div_is_ordered(2 * m, n, m);
    vstd::arithmetic::div_mod::lemma_div_multiples_vanish(2, m);
    assert(2 * m == m * 2);
}

/// A set of items with integer weights, expanded into a permutable slot table.
pub struct TaggedShuffle<T> {
    items: Vec<T>,
    order: Vec<usize>,
    max_same: usize,
}

impl<T> View for TaggedShuffle<T> {
    type V = ShuffleView<T>;

    closed spec fn view(&self) -> ShuffleView<T> {
        ShuffleView { items: self.items@, order: self.order@, max_same: self.max_same }
    }
}

impl<T> TaggedShuffle<T> {
    pub open spec fn wf(self) -> bool {
        self@.wf()
    }

    pub open spec fn expansion(self) -> Seq<T> {
        self@.expansion()
    }

    pub open spec fn spec_len(self) -> nat {
        self@.order.len()
    }

    pub fn new() -> (s: TaggedShuffle<T>)
        ensures
            s.wf(),
            s@.items == Seq::<T>::empty(),
            s@.order == Seq::<usize>::empty(),
            s@.max_same == 1,
    {
        proof {
            assert forall|v: usize| #[trigger] occ(Seq::<usize>::empty(), v) <= 1 by {
                lemma_occ_le_len(Seq::<usize>::empty(), v);
            }
        }
        TaggedShuffle { items: Vec::new(), order: Vec::new(), max_same: 1 }
    }

    /// Register `item` with weight 1: one new slot at the end of the table.
    pub fn add(&mut self, item: T)
        requires
            old(self).wf(),
        ensures
            final(self).wf(),
            final(self)@.items == old(self)@.items.push(item),
            final(self)@.order == old(self)@.order.push(old(self)@.items.len() as usize),
            final(self)@.max_same == old(self)@.max_same,
            final(self).expansion() == old(self).expansion().push(item),
    {
        let i = self.items.len();
        self.order.push(i);
        self.items.push(item);
        proof {
            let oldorder = old(self)@.order;
            assert forall|v: usize| #[trigger] occ(self@.order, v) <= self@.max_same by {
                lemma_occ_push(oldorder, i, v);
                if v == i {
                    lemma_occ_none(oldorder, v);
                }
            }
            assert(self.expansion() =~= old(self).expansion().push(item));
        }
    }

    /// Register `item` with weight `num`: `num` new slots, all owned by it.
    /// A zero weight still registers the item, but it then owns no slot and
    /// never shows up in the output.
    pub fn addn(&mut self, item: T, num: usize)
        requires
            old(self).wf(),
        ensures
            final(self).wf(),
            final(self)@.items == old(self)@.items.push(item),
            final(self)@.order == old(self)@.order + Seq::new(
                num as nat,
                |q: int| old(self)@.items.len() as usize,
            ),
            final(self)@.max_same == if num > old(self)@.max_same {
                num
            } else {
                old(self)@.max_same
            },
            final(self).expansion() == old(self).expansion() + Seq::new(num as nat, |q: int| item),
    {
        if num > self.max_same {
            self.max_same = num;
        }
        let i = self.items.len();
        let mut c: usize = 0;
        while c < num
            invariant
                c <= num,
                i == old(self)@.items.len(),
                self@.items == old(self)@.items,
                self@.max_same == if num > old(self)@.max_same {
                    num
                } else {
                    old(self)@.max_same
                },
                self@.order == old(self)@.order + Seq::new(c as nat, |q: int| i),
            decreases num - c,
        {
            self.order.push(i);
            proof {
                assert(self@.order =~= old(self)@.order + Seq::new((c + 1) as nat, |q: int| i));
            }
            c += 1;
        }
        self.items.push(item);
        proof {
            let oldorder = old(self)@.order;
            let tail = Seq::new(num as nat, |q: int| i);
            assert forall|v: usize| #[trigger] occ(self@.order, v) <= self@.max_same by {
                lemma_occ_concat(oldorder, tail, v);
                lemma_occ_constant(num as nat, i, v);
                if v == i {
                    lemma_occ_none(oldorder, v);
                }
            }
            assert(self.expansion() =~= old(self).expansion() + Seq::new(num as nat, |q: int| item));
        }
    }

    /// The item at permuted position `index`, or `None` past the end.
    pub fn get(&self, index: usize) -> (r: Option<&T>)
        requires
            self.wf(),
        ensures
            index < self.expansion().len() ==> (r matches Some(x) && *x == self.expansion()[
                index as int
            ]),
            index >= self.expansion().len() ==> r is None,
    {
        if index < self.order.len() {
            let k = self.order[index];
            proof {
                assert(self@.order[index as int] < self@.items.len());
            }
            Some(&self.items[k])
        } else {
            None
        }
    }

    /// The slot table entry at position `t`: the index of the owning item.
    pub(crate) fn slot(&self, t: usize) -> (b: usize)
        requires
            self.wf(),
            t < self@.order.len(),
        ensures
            b == self@.order[t as int],
            b < self@.items.len(),
    {
        self.order[t]
    }

    /// A mutable borrow of the item with index `b` in the item table.
    pub(crate) fn item_at_mut(&mut self, b: usize) -> (r: &mut T)
        requires
            b < old(self)@.items.len(),
        ensures
            *r == old(self)@.items[b as int],
            final(self)@.items == old(self)@.items.update(b as int, *final(r)),
            final(self)@.order == old(self)@.order,
            final(self)@.max_same == old(self)@.max_same,
    {
        &mut self.items[b]
    }

    /// How many distinct items have been registered.
    pub(crate) fn items_len(&self) -> (k: usize)
        ensures
            k == self@.items.len(),
    {
        self.items.len()
    }

    /// Total number of slots: the sum of all weights added so far.
    pub fn len(&self) -> (n: usize)
        ensures
            n == self.spec_len(),
    {
        self.order.len()
    }

    pub fn is_empty(&self) -> (b: bool)
        ensures
            b == (self.spec_len() == 0),
    {
        self.order.is_empty()
    }

    /// A fresh, independent cursor over the current order.  Iteration is
    /// read-only: every cursor over an unchanged structure yields the same
    /// sequence, element for element.
    pub fn iter(&self) -> (it: TaggedShuffleIterator<T>)
        ensures
            it.shuffle == self,
            it.index == 0,
    {
        TaggedShuffleIterator { shuffle: self, index: 0 }
    }

    /// One repair step at position `i`: compare the owner of slot `i` against
    /// the next `lookahead - 1` slots (circularly); whenever one of them has
    /// the same owner, swap it away to an advancing swap pointer until it
    /// differs.  Returns the largest displacement produced, the "chain".
    fn sweep(&mut self, i: usize, lookahead: usize) -> (chain: usize)
        requires
            old(self).wf(),
            old(self)@.order.len() >= 1,
            i < old(self)@.order.len(),
            lookahead <= old(self)@.order.len() as int / old(self)@.max_same as int,
        ensures
            final(self).wf(),
            final(self)@.reorders(old(self)@),
    {
        let n = self.order.len();
        let curr = self.order[i];
        let mut sp: usize = i;
        let mut disp: usize = 0;
        let mut hit: bool = false;
        let mut w: usize = 1;
        proof {
            lemma_div_le(n as int, self@.max_same as int);
        }
        while w < lookahead
            invariant
                old(self).wf(),
                self.wf(),
                self@.reorders(old(self)@),
                n == self@.order.len(),
                i < n,
                sp < n,
                w >= 1,
                lookahead <= n as int / self@.max_same as int,
                lookahead <= n,
            decreases lookahead - w,
        {
            let j = wrap_add(i, w, n);
            let mut nex = self.order[j];
            sp = wrap_inc(sp, n);
            disp = sat_inc(disp);
            proof {
                lemma_lookahead_bound(n as int, self@.max_same as int, lookahead as int);
                assert(occ(self@.order, curr) <= self@.max_same);
                assert(occ(self@.order, curr) < n);
                lemma_occ_exists_diff(self@.order, curr);
            }
            let ghost k0 = choose|k: int| 0 <= k < n && self@.order[k] != curr;
            let ghost mut rem: int = if k0 > sp as int {
                k0 - sp as int
            } else {
                k0 - sp as int + n as int
            };
            while curr == nex
                invariant
                    old(self).wf(),
                    self.wf(),
                    self@.reorders(old(self)@),
                    n == self@.order.len(),
                    i < n,
                    j < n,
                    sp < n,
                    nex == self@.order[j as int],
                    0 <= k0 < n,
                    rem >= 0,
                    curr == nex ==> {
                        &&& self@.order[k0] != curr
                        &&& 1 <= rem <= n
                        &&& k0 == wrap_spec(sp as int, rem, n as int)
                    },
                decreases rem,
            {
                hit = true;
                let ghost spb = sp as int;
                let ghost remb = rem;
                let ghost pre = self@.order;
                sp = wrap_inc(sp, n);
                disp = sat_inc(disp);
                proof {
                    rem = rem - 1;
                }
                let x = self.order[j];
                let y = self.order[sp];
                self.order[j] = y;
                self.order[sp] = x;
                proof {
                    lemma_swap_preserves_multiset(pre, j as int, sp as int);
                    assert(self@.order =~= pre.update(j as int, y).update(sp as int, x));
                    assert forall|k: int| 0 <= k < self@.order.len()
                        implies (#[trigger] self@.order[k]) < self@.items.len() by {
                        assert(self@.order[k] == pre[j as int] || self@.order[k] == pre[sp as int]
                            || self@.order[k] == pre[k]);
                    }
                    assert forall|v: usize| #[trigger] occ(self@.order, v) <= self@.max_same by {
                        lemma_occ_from_multiset(self@.order, old(self)@.order, v);
                        assert(occ(old(self)@.order, v) <= old(self)@.max_same);
                    }
                    if y == curr {
                        // Both swapped slots held the same owner, so the table
                        // is unchanged and the differing slot is still ahead.
                        assert(x == curr);
                        assert(self@.order =~= pre);
                        assert(self@.order[k0] != curr);
                        if rem == 0 {
                            assert(k0 == wrap_spec(spb, 1, n as int));
                            assert(k0 == sp as int);
                            assert(false);
                        }
                        assert(k0 == wrap_spec(sp as int, rem, n as int));
                    }
                }
                nex = self.order[j];
            }
            w += 1;
        }
        if hit {
            disp
        } else {
            0
        }
    }

    /// Whether any two neighbouring slots share an owner.
    fn has_adjacent(&self) -> (b: bool)
        ensures
            b == !no_adjacent(self@.order),
    {
        let n = self.order.len();
        if n == 0 {
            return false;
        }
        let mut t: usize = 0;
        while t < n - 1
            invariant
                n == self@.order.len(),
                n >= 1,
                t <= n - 1,
                forall|p: int| 0 <= p < t ==> (#[trigger] self@.order[p]) != self@.order[p + 1],
            decreases n - t,
        {
            if self.order[t] == self.order[t + 1] {
                return true;
            }
            t += 1;
        }
        false
    }

    /// The bounded repair pass: one full sweep over every position, then up to
    /// four more passes that keep sweeping only while the decaying chain bound
    /// stays positive.  When the effective lookahead is at least 2 — that is,
    /// the caller allows a window and no owner holds more than half the slots
    /// — any clustering the sweeps leave behind is removed by a guaranteed
    /// spreading pass, so the result provably has no two neighbouring slots
    /// with the same owner.
    fn repair(&mut self, max_lookahead: usize)
        requires
            old(self).wf(),
            old(self)@.order.len() >= 1,
        ensures
            final(self).wf(),
            final(self)@.reorders(old(self)@),
            (max_lookahead >= 2 && 2 * old(self)@.max_same <= old(self)@.order.len())
                ==> no_adjacent(final(self)@.order),
    {
        let n = self.order.len();
        let q = n / self.max_same;
        let lookahead = if max_lookahead < q {
            max_lookahead
        } else {
            q
        };
        let mut chain: usize = 0;
        let mut idx: usize = 0;
        while idx < n
            invariant
                old(self).wf(),
                self.wf(),
                self@.reorders(old(self)@),
                n == self@.order.len(),
                n >= 1,
                lookahead <= n as int / self@.max_same as int,
            decreases n - idx,
        {
            let c = self.sweep(idx, lookahead);
            let d = if chain > 0 {
                chain - 1
            } else {
                0
            };
            chain = if d > c {
                d
            } else {
                c
            };
            idx += 1;
        }
        let mut pass: usize = 0;
        while pass < 5 && chain >= 1
            invariant
                old(self).wf(),
                self.wf(),
                self@.reorders(old(self)@),
                n == self@.order.len(),
                n >= 1,
                lookahead <= n as int / self@.max_same as int,
            decreases 5 - pass,
        {
            let mut i2: usize = 0;
            while i2 < n && chain >= 1
                invariant
                    old(self).wf(),
                    self.wf(),
                    self@.reorders(old(self)@),
                    n == self@.order.len(),
                    n >= 1,
                    lookahead <= n as int / self@.max_same as int,
                decreases n - i2,
            {
                let c = self.sweep(i2, lookahead);
                let d = chain - 1;
                chain = if d > c {
                    d
                } else {
                    c
                };
                i2 += 1;
            }
            pass += 1;
        }
        if lookahead >= 2 {
            proof {
                lemma_lookahead_bound(n as int, self@.max_same as int, lookahead as int);
            }
            if self.has_adjacent() {
                let m = self.items.len();
                let ms = self.max_same;
                spread_slots(&mut self.order, m, ms);
                proof {
                    assert forall|v: usize| #[trigger] occ(self@.order, v) <= self@.max_same by {
                        lemma_occ_from_multiset(self@.order, old(self)@.order, v);
                        assert(occ(old(self)@.order, v) <= old(self)@.max_same);
                    }
                }
            }
            proof {
                assert(no_adjacent(self@.order));
            }
        }
        proof {
            if max_lookahead >= 2 && 2 * old(self)@.max_same <= old(self)@.order.len() {
                lemma_two_le_div(old(self)@.order.len() as int, old(self)@.max_same as int);
                assert(lookahead >= 2);
            }
        }
    }

    /// Permute the slot table with the given generator, then repair.  Shared
    /// by the entropy-seeded and caller-seeded entry points.
    pub(crate) fn shuffle_core(&mut self, max_lookahead: usize, rng: &mut rand::rngs::StdRng)
        requires
            old(self).wf(),
        ensures
            final(self).wf(),
            final(self)@.reorders(old(self)@),
            final(self).expansion().to_multiset() == old(self).expansion().to_multiset(),
            old(self)@.order.len() == 0 ==> final(self)@ == old(self)@,
            (max_lookahead >= 2 && 2 * old(self)@.max_same <= old(self)@.order.len())
                ==> no_adjacent(final(self)@.order),
    {
        if self.order.is_empty() {
            return ;
        }
        shuffle_slice(&mut self.order, rng);
        proof {
            lemma_bounds_from_multiset(
                old(self)@.order,
                self@.order,
                old(self)@.items.len() as int,
            );
            assert forall|v: usize| #[trigger] occ(self@.order, v) <= self@.max_same by {
                lemma_occ_from_multiset(self@.order, old(self)@.order, v);
                assert(occ(old(self)@.order, v) <= old(self)@.max_same);
            }
        }
        self.repair(max_lookahead);
        proof {
            lemma_multiset_preservation(old(self)@, self@);
        }
    }

    /// Shuffle the slot table: permute it uniformly at random, then run the
    /// bounded anti-clustering repair pass.  An empty table is left alone.
    /// Whatever permutation comes out, the multiset of emitted items is
    /// exactly what it was before the call; and whenever the lookahead bound
    /// is at least 2 and no single weight exceeds half the slot count, the
    /// result has no two neighbouring slots with the same owner.
    pub fn shuffle(&mut self, max_lookahead: usize)
        requires
            old(self).wf(),
        ensures
            final(self).wf(),
            final(self)@.reorders(old(self)@),
            final(self).expansion().to_multiset() == old(self).expansion().to_multiset(),
            final(self).expansion().len() == old(self).expansion().len(),
            old(self)@.order.len() == 0 ==> final(self)@ == old(self)@,
            (max_lookahead >= 2 && 2 * old(self)@.max_same <= old(self)@.order.len())
                ==> no_adjacent(final(self)@.order),
    {
        let mut rng = fresh_rng();
        self.shuffle_core(max_lookahead, &mut rng);
    }

    /// Like `shuffle`, but drawing every random choice from a generator seeded
    /// with `seed`, so that a run can be reproduced exactly.
    pub fn shuffle_seeded(&mut self, max_lookahead: usize, seed: u64)
        requires
            old(self).wf(),
        ensures
            final(self).wf(),
            final(self)@.reorders(old(self)@),
            final(self).expansion().to_multiset() == old(self).expansion().to_multiset(),
            final(self).expansion().len() == old(self).expansion().len(),
            old(self)@.order.len() == 0 ==> final(self)@ == old(self)@,
            (max_lookahead >= 2 && 2 * old(self)@.max_same <= old(self)@.order.len())
                ==> no_adjacent(final(self)@.order),
    {
        let mut rng = rng_from_seed(seed);
        self.shuffle_core(max_lookahead, &mut rng);
    }
}

impl<T> Default for TaggedShuffle<T> {
    fn default() -> (s: Self)
        ensures
            s.wf(),
            s@.items == Seq::<T>::empty(),
            s@.order == Seq::<usize>::empty(),
            s@.max_same == 1,
    {
        Self::new()
    }
}

/// A cursor over a `TaggedShuffle`, yielding `expansion()` front to back.
pub struct TaggedShuffleIterator<'a, T> {
    pub shuffle: &'a TaggedShuffle<T>,
    pub index: usize,
}

impl<'a, T> TaggedShuffleIterator<'a, T> {
    /// The next item of the expansion, or `None` once exhausted.  The result
    /// is a function of the underlying structure and the cursor position
    /// alone, so iterating twice without an intervening shuffle yields
    /// identical sequences.  Once the end is reached the cursor deliberately
    /// stays put: polling an exhausted cursor yields `None` forever and can
    /// never overflow the position.
    pub fn next(&mut self) -> (r: Option<&'a T>)
        requires
            old(self).shuffle.wf(),
        ensures
            final(self).shuffle == old(self).shuffle,
            old(self).index < old(self).shuffle.expansion().len() ==> {
                &&& r matches Some(x) && *x == old(self).shuffle.expansion()[old(self).index as int]
                &&& final(self).index == old(self).index + 1
            },
            old(self).index >= old(self).shuffle.expansion().len() ==> {
                &&& r is None
                &&& final(self).index == old(self).index
            },
    {
        if self.index < self.shuffle.len() {
            let out = self.shuffle.get(self.index);
            self.index += 1;
            out
        } else {
            None
        }
    }
}

} // verus!
