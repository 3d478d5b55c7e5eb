//! Bucket assembly: items are grouped into buckets by a normalized band key,
//! with a per-item weight derived from an optional rating, and the whole map
//! is turned into a shuffled two-level sequence.

use vstd::prelude::*;

verus! {

use crate::counter::{Counter, count_of};
use crate::counts::copies;
use crate::keys::KeyEq;
use crate::shuffle::TaggedShuffle;
use vstd::multiset::Multiset;
use vstd::seq_lib::lemma_multiset_commutative;

/// What `str::trim` returns for these characters.
pub uninterp spec fn trimmed_of(s: Seq<char>) -> Seq<char>;

/// What `str::to_lowercase` returns for these characters.
pub uninterp spec fn lower_of(s: Seq<char>) -> Seq<char>;

/// The normalized form of a band key: trimmed, then lowercased.
pub open spec fn normalized(s: Seq<char>) -> Seq<char> {
    lower_of(trimmed_of(s))
}

/// Relies on `str::trim`: the same characters with leading and trailing
/// whitespace removed — a function of the characters alone.
#[verifier::external_body]
fn trim_str<'a>(s: &'a str) -> (r: &'a str)
    ensures
        r@ == trimmed_of(s@),
{
    s.trim()
}

/// Relies on `str::to_lowercase`: the Unicode lowercase mapping of the
/// characters — a function of the characters alone.
#[verifier::external_body]
fn lower_str(s: &str) -> (r: String)
    ensures
        r@ == lower_of(s@),
{
    s.to_lowercase()
}

/// The weight an optional 0–255 rating maps to: ratings below 200 give
/// weight 1, ratings of 200 and above give weight 2; no rating gives 1.
pub open spec fn weight_of_rating(rating: Option<u8>) -> nat {
    match rating {
        Some(r) => (r / 200 + 1) as nat,
        None => 1nat,
    }
}

/// The occurrences recorded for `item` in the bucket keyed `key`.
pub open spec fn playlist_count(
    buckets: Seq<(String, Counter<String>)>,
    key: Seq<char>,
    item: String,
) -> nat
    decreases buckets.len(),
{
    if buckets.len() == 0 {
        0
    } else {
        playlist_count(buckets.drop_last(), key, item) + if buckets.last().0@ == key {
            count_of(buckets.last().1@, item)
        } else {
            0nat
        }
    }
}

proof fn lemma_playlist_count_none(
    buckets: Seq<(String, Counter<String>)>,
    key: Seq<char>,
    item: String,
)
    requires
        forall|p: int| 0 <= p < buckets.len() ==> (#[trigger] buckets[p]).0@ != key,
    ensures
        playlist_count(buckets, key, item) == 0,
    decreases buckets.len(),
{
    if buckets.len() > 0 {
        lemma_playlist_count_none(buckets.drop_last(), key, item);
    }
}

/// With pairwise-distinct keys, the bucket at `idx` carries the whole count
/// for its key.
proof fn lemma_playlist_count_at(
    buckets: Seq<(String, Counter<String>)>,
    key: Seq<char>,
    item: String,
    idx: int,
)
    requires
        forall|p: int, q: int|
            #![trigger buckets[p].0@, buckets[q].0@]
            0 <= p < q < buckets.len() ==> buckets[p].0@ != buckets[q].0@,
        0 <= idx < buckets.len(),
        buckets[idx].0@ == key,
    ensures
        playlist_count(buckets, key, item) == count_of(buckets[idx].1@, item),
    decreases buckets.len(),
{
    let last = buckets.len() - 1;
    if idx == last {
        assert forall|p: int|
            0 <= p < buckets.drop_last().len() implies (
        #[trigger] buckets.drop_last()[p]).0@ != key by {
            assert(buckets[p].0@ != buckets[last].0@);
        }
        lemma_playlist_count_none(buckets.drop_last(), key, item);
    } else {
        assert(buckets[last].0@ != key);
        assert(buckets.drop_last()[idx] == buckets[idx]);
        lemma_playlist_count_at(buckets.drop_last(), key, item, idx);
    }
}

/// Replacing the counter of one bucket shifts the counts of its own key by
/// the counter's difference and leaves every other key alone.
proof fn lemma_playlist_count_update(
    e1: Seq<(String, Counter<String>)>,
    e2: Seq<(String, Counter<String>)>,
    idx: int,
    k: Seq<char>,
    item: String,
)
    requires
        0 <= idx < e1.len(),
        e2.len() == e1.len(),
        forall|q: int| 0 <= q < e1.len() && q != idx ==> e2[q] == e1[q],
        e2[idx].0 == e1[idx].0,
    ensures
        e1[idx].0@ == k ==> playlist_count(e2, k, item) + count_of(e1[idx].1@, item)
            == playlist_count(e1, k, item) + count_of(e2[idx].1@, item),
        e1[idx].0@ != k ==> playlist_count(e2, k, item) == playlist_count(e1, k, item),
    decreases e1.len(),
{
    if idx == e1.len() - 1 {
        assert(e1.drop_last() =~= e2.drop_last());
    } else {
        lemma_playlist_count_update(e1.drop_last(), e2.drop_last(), idx, k, item);
        assert(e2.last() == e1.last());
    }
}

proof fn lemma_playlist_count_push(
    e1: Seq<(String, Counter<String>)>,
    key: String,
    ctr: Counter<String>,
    k: Seq<char>,
    item: String,
)
    ensures
        playlist_count(e1.push((key, ctr)), k, item) == playlist_count(e1, k, item) + if key@
            == k {
            count_of(ctr@, item)
        } else {
            0nat
        },
{
    assert(e1.push((key, ctr)).drop_last() =~= e1);
}

/// The multiset a counter stands for: each entry contributes its key,
/// repeated count times.
pub open spec fn counter_multiset(entries: Seq<(String, usize)>) -> Multiset<String>
    decreases entries.len(),
{
    if entries.len() == 0 {
        Multiset::empty()
    } else {
        counter_multiset(entries.drop_last()).add(
            copies(entries.last().0, entries.last().1 as nat),
        )
    }
}

/// The total count a counter records.
pub open spec fn counter_total(entries: Seq<(String, usize)>) -> nat
    decreases entries.len(),
{
    if entries.len() == 0 {
        0
    } else {
        counter_total(entries.drop_last()) + entries.last().1 as nat
    }
}

proof fn lemma_copies_seq<T>(x: T, n: nat)
    ensures
        Seq::new(n, |q: int| x).to_multiset() == copies(x, n),
    decreases n,
{
    broadcast use vstd::seq_lib::group_to_multiset_ensures;
    broadcast use vstd::multiset::group_multiset_axioms;

    if n == 0 {
        assert(Seq::new(0, |q: int| x) =~= Seq::<T>::empty());
        assert(Seq::<T>::empty().to_multiset().len() == 0);
        assert(Seq::<T>::empty().to_multiset() =~= Multiset::<T>::empty());
    } else {
        lemma_copies_seq(x, (n - 1) as nat);
        assert(Seq::new(n, |q: int| x) =~= Seq::new((n - 1) as nat, |q: int| x).push(x));
        assert(Seq::new((n - 1) as nat, |q: int| x).push(x).to_multiset() =~= Seq::new(
            (n - 1) as nat,
            |q: int| x,
        ).to_multiset().insert(x));
    }
}

/// The multiset of songs the first `k` buckets of a playlist hold, each song
/// repeated as often as its recorded count.
pub open spec fn playlist_multiset(buckets: Seq<(String, Counter<String>)>, k: int) -> Multiset<
    String,
>
    decreases k,
{
    if k <= 0 {
        Multiset::empty()
    } else {
        playlist_multiset(buckets, k - 1).add(counter_multiset(buckets[k - 1].1@))
    }
}

/// The total count the first `k` buckets of a playlist record.
pub open spec fn playlist_total(buckets: Seq<(String, Counter<String>)>, k: int) -> nat
    decreases k,
{
    if k <= 0 {
        0
    } else {
        playlist_total(buckets, k - 1) + counter_total(buckets[k - 1].1@)
    }
}

/// Buckets that carry a playlist's counters slot for slot add up to the same
/// union and the same total.
proof fn lemma_buckets_carry_playlist(
    r_items: Seq<TaggedShuffle<String>>,
    buckets: Seq<(String, Counter<String>)>,
    k: int,
)
    requires
        r_items.len() == buckets.len(),
        forall|b: int|
            0 <= b < buckets.len() ==> {
                &&& (#[trigger] r_items[b]).expansion().to_multiset() == counter_multiset(
                    buckets[b].1@,
                )
                &&& r_items[b]@.order.len() == counter_total(buckets[b].1@)
            },
        0 <= k <= buckets.len(),
    ensures
        crate::nested::buckets_multiset(r_items, k) == playlist_multiset(buckets, k),
        crate::nested::buckets_total(r_items, k) == playlist_total(buckets, k),
    decreases k,
{
    if k > 0 {
        lemma_buckets_carry_playlist(r_items, buckets, k - 1);
    }
}

/// A playlist: one multiset counter of items per normalized band key.
pub struct Playlist {
    buckets: Vec<(String, Counter<String>)>,
}

impl View for Playlist {
    type V = Seq<(String, Counter<String>)>;

    closed spec fn view(&self) -> Seq<(String, Counter<String>)> {
        self.buckets@
    }
}

impl Playlist {
    /// Band keys are pairwise distinct and every counter is well formed.
    pub open spec fn wf(self) -> bool {
        &&& forall|p: int, q: int|
            #![trigger self@[p].0@, self@[q].0@]
            0 <= p < q < self@.len() ==> self@[p].0@ != self@[q].0@
        &&& forall|p: int| 0 <= p < self@.len() ==> (#[trigger] self@[p]).1.wf()
    }

    pub fn new() -> (pl: Playlist)
        ensures
            pl.wf(),
            pl@ == Seq::<(String, Counter<String>)>::empty(),
    {
        Playlist { buckets: Vec::new() }
    }

    /// Add a song under the given band with an optional 0–255 rating.  The
    /// band key is trimmed and lowercased; the rating maps to a weight of 1
    /// or 2.  The song's recorded count under that key grows by the weight;
    /// nothing else changes.
    pub fn add(&mut self, file: String, band: String, rating: Option<u8>)
        requires
            old(self).wf(),
            playlist_count(old(self)@, normalized(band@), file) + weight_of_rating(rating)
                <= usize::MAX,
        ensures
            final(self).wf(),
            forall|it: String|
                #![trigger playlist_count(final(self)@, normalized(band@), it)]
                playlist_count(final(self)@, normalized(band@), it) == playlist_count(
                    old(self)@,
                    normalized(band@),
                    it,
                ) + (if file@ == it@ {
                    weight_of_rating(rating)
                } else {
                    0nat
                }),
            forall|k: Seq<char>, it: String|
                k != normalized(band@) ==> #[trigger] playlist_count(final(self)@, k, it)
                    == playlist_count(old(self)@, k, it),
    {
        let trimmed = trim_str(band.as_str());
        let key = lower_str(trimmed);
        let times_u8: u8 = match rating {
            Some(r) => r / 200 + 1,
            None => 1,
        };
        let times: usize = times_u8 as usize;
        let n = self.buckets.len();
        let mut idx: usize = 0;
        while idx < n
            invariant
                old(self).wf(),
                playlist_count(old(self)@, normalized(band@), file) + weight_of_rating(rating)
                    <= usize::MAX,
                *self == *old(self),
                n == self@.len(),
                idx <= n,
                key@ == normalized(band@),
                times == weight_of_rating(rating),
                forall|p: int| 0 <= p < idx ==> (#[trigger] self@[p]).0@ != key@,
            decreases n - idx,
        {
            let pair = &self.buckets[idx];
            let hit = pair.0.key_eq(&key);
            if hit {
                proof {
                    lemma_playlist_count_at(old(self)@, key@, file, idx as int);
                }
                let ctr = &mut self.buckets[idx].1;
                ctr.addn(file, times);
                proof {
                    let e1 = old(self)@;
                    let e2 = self@;
                    assert(e2.len() == e1.len());
                    assert(e2[idx as int].0 == e1[idx as int].0);
                    assert forall|it: String|
                        #![trigger playlist_count(e2, normalized(band@), it)]
                        playlist_count(e2, normalized(band@), it) == playlist_count(
                            e1,
                            normalized(band@),
                            it,
                        ) + (if file@ == it@ {
                            weight_of_rating(rating)
                        } else {
                            0nat
                        }) by {
                        lemma_playlist_count_update(e1, e2, idx as int, normalized(band@), it);
                        assert(file.key_equal(&it) == (file@ == it@));
                    }
                    assert forall|k: Seq<char>, it: String|
                        k != normalized(band@) implies #[trigger] playlist_count(e2, k, it)
                        == playlist_count(e1, k, it) by {
                        lemma_playlist_count_update(e1, e2, idx as int, k, it);
                    }
                    assert forall|p: int, q: int|
                        #![trigger e2[p].0@, e2[q].0@]
                        0 <= p < q < e2.len() implies e2[p].0@ != e2[q].0@ by {
                        assert(e2[p].0 == e1[p].0);
                        assert(e2[q].0 == e1[q].0);
                    }
                    assert forall|p: int| 0 <= p < e2.len() implies (#[trigger] e2[p]).1.wf() by {
                        if p != idx as int {
                            assert(e2[p] == e1[p]);
                        }
                    }
                }
                return ;
            }
            idx += 1;
        }
        let mut ctr: Counter<String> = Counter::new();
        ctr.addn(file, times);
        self.buckets.push((key, ctr));
        proof {
            let e1 = old(self)@;
            let e2 = self@;
            let pushed = e2[e1.len() as int];
            assert(e2 == e1.push(pushed));
            assert forall|it: String|
                #![trigger playlist_count(e2, normalized(band@), it)]
                playlist_count(e2, normalized(band@), it) == playlist_count(
                    e1,
                    normalized(band@),
                    it,
                ) + (if file@ == it@ {
                    weight_of_rating(rating)
                } else {
                    0nat
                }) by {
                lemma_playlist_count_push(e1, pushed.0, pushed.1, normalized(band@), it);
                assert(file.key_equal(&it) == (file@ == it@));
            }
            assert forall|k: Seq<char>, it: String|
                k != normalized(band@) implies #[trigger] playlist_count(e2, k, it)
                == playlist_count(e1, k, it) by {
                lemma_playlist_count_push(e1, pushed.0, pushed.1, k, it);
            }
            assert forall|p: int, q: int|
                #![trigger e2[p].0@, e2[q].0@]
                0 <= p < q < e2.len() implies e2[p].0@ != e2[q].0@ by {
                if q == e1.len() {
                    assert(e1[p].0@ != key@);
                }
            }
        }
    }

    /// Add a song only when its recorded count can still grow by the weight
    /// without overflowing; reports whether it did.  The plain `add` assumes
    /// that headroom; this entry point checks it first.
    pub fn try_add(&mut self, file: String, band: String, rating: Option<u8>) -> (ok: bool)
        requires
            old(self).wf(),
        ensures
            final(self).wf(),
            ok == (playlist_count(old(self)@, normalized(band@), file) + weight_of_rating(rating)
                <= usize::MAX),
            ok ==> forall|it: String|
                #![trigger playlist_count(final(self)@, normalized(band@), it)]
                playlist_count(final(self)@, normalized(band@), it) == playlist_count(
                    old(self)@,
                    normalized(band@),
                    it,
                ) + (if file@ == it@ {
                    weight_of_rating(rating)
                } else {
                    0nat
                }),
            ok ==> forall|k: Seq<char>, it: String|
                k != normalized(band@) ==> #[trigger] playlist_count(final(self)@, k, it)
                    == playlist_count(old(self)@, k, it),
            !ok ==> *final(self) == *old(self),
    {
        let trimmed = trim_str(band.as_str());
        let key = lower_str(trimmed);
        let times_u8: u8 = match rating {
            Some(r) => r / 200 + 1,
            None => 1,
        };
        let times: usize = times_u8 as usize;
        let n = self.buckets.len();
        let mut idx: usize = 0;
        while idx < n
            invariant
                old(self).wf(),
                *self == *old(self),
                n == self@.len(),
                idx <= n,
                key@ == normalized(band@),
                times == weight_of_rating(rating),
                forall|p: int| 0 <= p < idx ==> (#[trigger] self@[p]).0@ != key@,
            decreases n - idx,
        {
            let pair = &self.buckets[idx];
            let hit = pair.0.key_eq(&key);
            if hit {
                let have = pair.1.count(&file);
                proof {
                    lemma_playlist_count_at(old(self)@, key@, file, idx as int);
                }
                if have <= usize::MAX - times {
                    self.add(file, band, rating);
                    return true;
                } else {
                    return false;
                }
            }
            idx += 1;
        }
        proof {
            lemma_playlist_count_none(old(self)@, key@, file);
        }
        self.add(file, band, rating);
        true
    }

    /// Build the two-level shuffle: one inner sequence per bucket, holding
    /// each recorded item with its count as weight, wrapped in an outer
    /// sequence keyed by bucket size, both levels shuffled with a lookahead
    /// bound of 10.  Every bucket's item multiset is carried over exactly, so
    /// flattened iteration emits every recorded song exactly count times.
    pub fn shuffle(&self) -> (r: TaggedShuffle<TaggedShuffle<String>>)
        requires
            self.wf(),
        ensures
            r@.nested_wf(),
            r@.items.len() == self@.len(),
            forall|b: int|
                0 <= b < self@.len() ==> {
                    &&& (#[trigger] r@.items[b]).expansion().to_multiset() == counter_multiset(
                        self@[b].1@,
                    )
                    &&& r@.items[b]@.order.len() == counter_total(self@[b].1@)
                },
            r@.nested_seq().to_multiset() == playlist_multiset(self@, self@.len() as int),
            r@.nested_seq().len() == playlist_total(self@, self@.len() as int),
    {
        broadcast use vstd::seq_lib::group_to_multiset_ensures;
        broadcast use vstd::multiset::group_multiset_axioms;

        let mut ts: TaggedShuffle<TaggedShuffle<String>> = TaggedShuffle::new();
        let nb = self.buckets.len();
        let mut bi: usize = 0;
        while bi < nb
            invariant
                self.wf(),
                nb == self@.len(),
                bi <= nb,
                ts@.nested_wf(),
                ts@.items.len() == bi,
                forall|b: int|
                    0 <= b < bi ==> {
                        &&& (#[trigger] ts@.items[b]).expansion().to_multiset() == counter_multiset(
                            self@[b].1@,
                        )
                        &&& ts@.items[b]@.order.len() == counter_total(self@[b].1@)
                    },
            decreases nb - bi,
        {
            let mut inner: TaggedShuffle<String> = TaggedShuffle::new();
            let pair = &self.buckets[bi];
            let entries = pair.1.iter();
            let m = entries.len();
            proof {
                crate::nested::lemma_empty_to_multiset::<String>();
                assert(inner.expansion() =~= Seq::<String>::empty());
                assert(entries@.take(0) =~= Seq::<(String, usize)>::empty());
            }
            let mut ei: usize = 0;
            while ei < m
                invariant
                    inner.wf(),
                    entries@ == self@[bi as int].1@,
                    m == entries@.len(),
                    ei <= m,
                    inner.expansion().to_multiset() == counter_multiset(entries@.take(ei as int)),
                    inner@.order.len() == counter_total(entries@.take(ei as int)),
                decreases m - ei,
            {
                let entry = &entries[ei];
                let item = entry.0.clone();
                let w = entry.1;
                let ghost pre_exp = inner.expansion();
                proof {
                    assert(item == entries@[ei as int].0);
                }
                inner.addn(item, w);
                proof {
                    broadcast use vstd::seq_lib::group_to_multiset_ensures;
                    broadcast use vstd::multiset::group_multiset_axioms;

                    let sw = Seq::new(w as nat, |q: int| item);
                    assert(inner.expansion() =~= pre_exp + sw);
                    lemma_multiset_commutative(pre_exp, sw);
                    lemma_copies_seq(item, w as nat);
                    let pre = entries@.take(ei as int);
                    let post = entries@.take(ei as int + 1);
                    assert(post.drop_last() =~= pre);
                    assert(post.last() == entries@[ei as int]);
                    assert(counter_multiset(post) == counter_multiset(pre).add(
                        copies(item, w as nat),
                    ));
                    assert(sw.to_multiset() == copies(item, w as nat));
                    assert(pre_exp.to_multiset() == counter_multiset(pre));
                    assert((pre_exp + sw).to_multiset() == pre_exp.to_multiset().add(
                        sw.to_multiset(),
                    ));
                    assert(inner.expansion().to_multiset() == (pre_exp + sw).to_multiset());
                    assert(inner.expansion().to_multiset() == counter_multiset(post));
                }
                ei += 1;
            }
            proof {
                assert(entries@.take(m as int) =~= entries@);
            }
            ts.nested_add(inner);
            bi += 1;
        }
        ts.nested_shuffle(10);
        proof {
            lemma_buckets_carry_playlist(ts@.items, self@, nb as int);
            crate::nested::lemma_nested_multiset(ts@);
        }
        ts
    }
}

impl Default for Playlist {
    fn default() -> (pl: Self)
        ensures
            pl.wf(),
            pl@ == Seq::<(String, Counter<String>)>::empty(),
    {
        Self::new()
    }
}

} // verus!
