//! The multiset counter: repeated occurrences of equal items are accumulated
//! into (item, count) pairs.
//!
//! The counter is an association list with pairwise-inequivalent keys; its
//! whole behaviour is pinned by `count_of`, the number of occurrences it
//! records for any query key.

use vstd::prelude::*;

verus! {

use crate::keys::KeyEq;

/// The number of occurrences `entries` records for `item`: the sum of the
/// counts of all entries whose key equals it.
pub open spec fn count_of<T: KeyEq>(entries: Seq<(T, usize)>, item: T) -> nat
    decreases entries.len(),
{
    if entries.len() == 0 {
        0
    } else {
        count_of(entries.drop_last(), item) + if entries.last().0.key_equal(&item) {
            entries.last().1 as nat
        } else {
            0nat
        }
    }
}

proof fn lemma_count_of_none<T: KeyEq>(entries: Seq<(T, usize)>, item: T)
    requires
        forall|p: int| 0 <= p < entries.len() ==> !(#[trigger] entries[p]).0.key_equal(&item),
    ensures
        count_of(entries, item) == 0,
    decreases entries.len(),
{
    if entries.len() > 0 {
        lemma_count_of_none(entries.drop_last(), item);
    }
}

proof fn lemma_count_of_push<T: KeyEq>(entries: Seq<(T, usize)>, key: T, num: usize, y: T)
    ensures
        count_of(entries.push((key, num)), y) == count_of(entries, y) + if key.key_equal(&y) {
            num as nat
        } else {
            0nat
        },
{
    assert(entries.push((key, num)).drop_last() =~= entries);
}

/// Raising one entry's count by `add` raises the recorded occurrences of
/// exactly the keys equal to that entry's key.
proof fn lemma_count_of_bump<T: KeyEq>(
    e1: Seq<(T, usize)>,
    e2: Seq<(T, usize)>,
    idx: int,
    add: nat,
    y: T,
)
    requires
        0 <= idx < e1.len(),
        e2.len() == e1.len(),
        forall|q: int| 0 <= q < e1.len() && q != idx ==> e2[q] == e1[q],
        e2[idx].0 == e1[idx].0,
        e2[idx].1 == e1[idx].1 + add,
    ensures
        count_of(e2, y) == count_of(e1, y) + if e1[idx].0.key_equal(&y) {
            add
        } else {
            0nat
        },
    decreases e1.len(),
{
    if idx == e1.len() - 1 {
        assert(e1.drop_last() =~= e2.drop_last());
    } else {
        lemma_count_of_bump(e1.drop_last(), e2.drop_last(), idx, add, y);
        assert(e2.last() == e1.last());
    }
}

/// A multiset counter.
pub struct Counter<T: KeyEq> {
    entries: Vec<(T, usize)>,
}

impl<T: KeyEq> View for Counter<T> {
    type V = Seq<(T, usize)>;

    closed spec fn view(&self) -> Seq<(T, usize)> {
        self.entries@
    }
}

impl<T: KeyEq> Counter<T> {
    /// No two entries record keys that count as equal.
    pub open spec fn wf(self) -> bool {
        forall|p: int, q: int|
            #![trigger self@[p].0.key_equal(&self@[q].0)]
            0 <= p < q < self@.len() ==> !self@[p].0.key_equal(&self@[q].0)
    }

    pub fn new() -> (c: Counter<T>)
        ensures
            c.wf(),
            c@ == Seq::<(T, usize)>::empty(),
    {
        Counter { entries: Vec::new() }
    }

    /// Record one occurrence of `item`.
    pub fn add(&mut self, item: T)
        requires
            old(self).wf(),
            count_of(old(self)@, item) + 1 <= usize::MAX,
        ensures
            final(self).wf(),
            forall|y: T|
                count_of(final(self)@, y) == count_of(old(self)@, y) + (
                if item.key_equal(&y) {
                    1nat
                } else {
                    0nat
                }),
            count_of(final(self)@, item) == count_of(old(self)@, item) + 1,
            (exists|p: int|
                0 <= p < old(self)@.len() && (#[trigger] old(self)@[p]).0.key_equal(&item))
                ==> final(self)@.len() == old(self)@.len(),
            (forall|p: int|
                0 <= p < old(self)@.len() ==> !(#[trigger] old(self)@[p]).0.key_equal(&item))
                ==> final(self)@ == old(self)@.push((item, 1)),
    {
        self.addn(item, 1);
    }

    /// Record `num` occurrences of `item` at once.  Adding zero occurrences
    /// is a no-op: nothing is registered and nothing changes.
    pub fn addn(&mut self, item: T, num: usize)
        requires
            old(self).wf(),
            count_of(old(self)@, item) + num <= usize::MAX,
        ensures
            final(self).wf(),
            forall|y: T|
                count_of(final(self)@, y) == count_of(old(self)@, y) + (
                if item.key_equal(&y) {
                    num as nat
                } else {
                    0nat
                }),
            count_of(final(self)@, item) == count_of(old(self)@, item) + num,
            num == 0 ==> final(self)@ == old(self)@,
            num > 0 && (exists|p: int|
                0 <= p < old(self)@.len() && (#[trigger] old(self)@[p]).0.key_equal(&item))
                ==> final(self)@.len() == old(self)@.len(),
            num > 0 && (forall|p: int|
                0 <= p < old(self)@.len() ==> !(#[trigger] old(self)@[p]).0.key_equal(&item))
                ==> final(self)@ == old(self)@.push((item, num)),
    {
        if num == 0 {
            return ;
        }
        let n = self.entries.len();
        let mut idx: usize = 0;
        while idx < n
            invariant
                old(self).wf(),
                count_of(old(self)@, item) + num <= usize::MAX,
                *self == *old(self),
                n == self@.len(),
                idx <= n,
                forall|p: int|
                    0 <= p < idx ==> !(#[trigger] self@[p]).0.key_equal(&item),
            decreases n - idx,
        {
            let hit = self.entries[idx].0.key_eq(&item);
            if hit {
                proof {
                    lemma_count_of_single(old(self)@, item, idx as int);
                }
                let cnt = self.entries[idx].1;
                let e = &mut self.entries[idx];
                e.1 = cnt + num;
                proof {
                    let e1 = old(self)@;
                    let e2 = self@;
                    assert(e2 =~= e1.update(
                        idx as int,
                        (e1[idx as int].0, (e1[idx as int].1 + num) as usize),
                    ));
                    assert forall|y: T|
                        count_of(e2, y) == count_of(e1, y) + (
                    if item.key_equal(&y) {
                        num as nat
                    } else {
                        0nat
                    }) by {
                        lemma_count_of_bump(e1, e2, idx as int, num as nat, y);
                        T::lemma_key_equal_laws(&e1[idx as int].0, &item, &y);
                        T::lemma_key_equal_laws(&item, &e1[idx as int].0, &y);
                    }
                    T::lemma_key_equal_laws(&item, &item, &item);
                    assert forall|p: int, q: int|
                        #![trigger e2[p].0.key_equal(&e2[q].0)]
                        0 <= p < q < e2.len() implies !e2[p].0.key_equal(&e2[q].0) by {
                        assert(e2[p].0 == e1[p].0);
                        assert(e2[q].0 == e1[q].0);
                    }
                }
                return ;
            }
            idx += 1;
        }
        self.entries.push((item, num));
        proof {
            let e1 = old(self)@;
            let e2 = self@;
            assert(e2 == e1.push((item, num)));
            lemma_count_of_none(e1, item);
            assert forall|y: T|
                count_of(e2, y) == count_of(e1, y) + (
            if item.key_equal(&y) {
                num as nat
            } else {
                0nat
            }) by {
                lemma_count_of_push(e1, item, num, y);
            }
            T::lemma_key_equal_laws(&item, &item, &item);
            assert forall|p: int, q: int|
                #![trigger e2[p].0.key_equal(&e2[q].0)]
                0 <= p < q < e2.len() implies !e2[p].0.key_equal(&e2[q].0) by {
                if q == e1.len() {
                    assert(!e1[p].0.key_equal(&item));
                } else {
                    assert(e2[p].0 == e1[p].0);
                    assert(e2[q].0 == e1[q].0);
                }
            }
        }
    }

    /// The recorded (item, count) pairs, one per item added with a positive
    /// total.  Insertion order is incidental; the contract of `addn` fixes
    /// the counts, not the order.
    pub fn iter(&self) -> (r: &Vec<(T, usize)>)
        ensures
            r@ == self@,
    {
        &self.entries
    }

    /// How many occurrences of `item` are recorded.
    pub fn count(&self, item: &T) -> (c: usize)
        requires
            self.wf(),
        ensures
            c as nat == count_of(self@, *item),
    {
        let n = self.entries.len();
        let mut idx: usize = 0;
        while idx < n
            invariant
                self.wf(),
                n == self@.len(),
                idx <= n,
                forall|p: int| 0 <= p < idx ==> !(#[trigger] self@[p]).0.key_equal(item),
            decreases n - idx,
        {
            let entry = &self.entries[idx];
            if entry.0.key_eq(item) {
                proof {
                    lemma_count_of_single(self@, *item, idx as int);
                }
                return entry.1;
            }
            idx += 1;
        }
        proof {
            lemma_count_of_none(self@, *item);
        }
        0
    }
}

impl<T: KeyEq> Default for Counter<T> {
    fn default() -> (c: Self)
        ensures
            c.wf(),
            c@ == Seq::<(T, usize)>::empty(),
    {
        Self::new()
    }
}

/// With pairwise-inequivalent keys, a matching entry carries the whole count.
proof fn lemma_count_of_single<T: KeyEq>(entries: Seq<(T, usize)>, item: T, p: int)
    requires
        forall|a: int, b: int|
            #![trigger entries[a].0.key_equal(&entries[b].0)]
            0 <= a < b < entries.len() ==> !entries[a].0.key_equal(&entries[b].0),
        0 <= p < entries.len(),
        entries[p].0.key_equal(&item),
    ensures
        count_of(entries, item) == entries[p].1,
    decreases entries.len(),
{
    let last = entries.len() - 1;
    if p == last {
        assert forall|q: int|
            0 <= q < entries.drop_last().len() implies !(
        #[trigger] entries.drop_last()[q]).0.key_equal(&item) by {
            if entries[q].0.key_equal(&item) {
                T::lemma_key_equal_laws(&entries[p].0, &item, &entries[q].0);
                T::lemma_key_equal_laws(&entries[q].0, &item, &entries[p].0);
                assert(entries[q].0.key_equal(&entries[p].0));
                assert(false);
            }
        }
        lemma_count_of_none(entries.drop_last(), item);
    } else {
        if entries[last].0.key_equal(&item) {
            T::lemma_key_equal_laws(&entries[p].0, &item, &entries[last].0);
            T::lemma_key_equal_laws(&entries[last].0, &item, &entries[p].0);
            assert(entries[p].0.key_equal(&entries[last].0));
            assert(false);
        }
        assert(entries.drop_last()[p] == entries[p]);
        lemma_count_of_single(entries.drop_last(), item, p);
    }
}

} // verus!
