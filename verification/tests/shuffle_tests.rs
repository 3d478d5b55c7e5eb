use tagshuffle::counter::Counter;
use tagshuffle::shuffle::TaggedShuffle;

fn collect(ts: &TaggedShuffle<usize>) -> Vec<usize> {
    let mut v: Vec<usize> = Vec::new();
    let mut it = ts.iter();
    while let Some(x) = it.next() {
        v.push(*x);
    }
    v
}

#[test]
fn test_counter() {
    let mut cnt = Counter::new();
    cnt.add(0);
    cnt.add(2);
    cnt.addn(5, 10);
    cnt.addn(0, 2);
    let mut iter: Vec<(i32, usize)> = cnt.iter().iter().map(|(a, b)| (*a, *b)).collect();
    iter.sort();
    assert_eq!(iter, vec![(0, 3), (2, 1), (5, 10)]);
}

#[test]
fn shuffle_test_shuffle() {
    for _ in 0..10 {
        let mut ts = TaggedShuffle::new();
        for i in 0..4 {
            ts.addn(i, i + 1);
        }
        ts.shuffle(10);
        let v = collect(&ts);
        assert!(v.windows(2).all(|w| w[0] != w[1]));
    }
}

#[test]
fn test_nested_shuffle() {
    let mut ts = TaggedShuffle::new();
    for i in 0..4 {
        let mut ts2 = TaggedShuffle::new();
        ts2.addn(i, 4);
        ts.nested_add(ts2);
    }
    ts.nested_shuffle(10);
    // adjacent outer picks are different buckets; buckets are told apart by
    // their (distinct) first item
    let mut outer: Vec<usize> = Vec::new();
    let mut it = ts.iter();
    while let Some(b) = it.next() {
        outer.push(*b.get(0).unwrap());
    }
    assert_eq!(outer.len(), 16);
    assert!(outer.windows(2).all(|w| w[0] != w[1]));
    // adjacent flattened items differ as well
    let mut flat: Vec<usize> = Vec::new();
    let mut nit = ts.nested_iter();
    while let Some(x) = nit.next() {
        flat.push(*x);
    }
    assert_eq!(flat.len(), 16);
    assert!(flat.windows(2).all(|w| w[0] != w[1]));
}

#[test]
fn counter_count_reports_recorded_occurrences() {
    let mut cnt = Counter::new();
    assert_eq!(cnt.count(&7), 0);
    cnt.addn(7, 4);
    cnt.add(3);
    cnt.addn(7, 1);
    assert_eq!(cnt.count(&7), 5);
    assert_eq!(cnt.count(&3), 1);
    assert_eq!(cnt.count(&99), 0);
}

#[test]
fn counter_zero_weight_is_a_no_op() {
    let mut cnt: Counter<i32> = Counter::new();
    cnt.addn(4, 0);
    assert_eq!(cnt.count(&4), 0);
    assert_eq!(cnt.iter().len(), 0);
    cnt.addn(4, 2);
    cnt.addn(4, 0);
    assert_eq!(cnt.count(&4), 2);
    assert_eq!(cnt.iter().len(), 1);
}

#[test]
fn empty_shuffle_is_a_no_op() {
    let mut ts: TaggedShuffle<usize> = TaggedShuffle::new();
    ts.shuffle(10);
    assert_eq!(ts.len(), 0);
    assert!(ts.is_empty());
    assert!(ts.get(0).is_none());
    let mut it = ts.iter();
    assert!(it.next().is_none());
    assert!(it.next().is_none());
}

#[test]
fn zero_weight_item_never_appears() {
    let mut ts = TaggedShuffle::new();
    ts.addn(1, 3);
    ts.addn(9, 0);
    ts.addn(2, 3);
    ts.shuffle(10);
    let v = collect(&ts);
    assert_eq!(v.len(), 6);
    assert!(!v.contains(&9));
}

#[test]
fn shuffle_preserves_weights_as_counts() {
    let mut ts = TaggedShuffle::new();
    for i in 0..5 {
        ts.addn(i, i + 1);
    }
    for round in 0..3 {
        ts.shuffle(2 + round);
        let v = collect(&ts);
        assert_eq!(v.len(), 15);
        for i in 0..5 {
            assert_eq!(v.iter().filter(|x| **x == i).count(), i + 1);
        }
    }
}

#[test]
fn iteration_is_idempotent() {
    let mut ts = TaggedShuffle::new();
    for i in 0..6 {
        ts.addn(i, 2);
    }
    ts.shuffle(10);
    let first = collect(&ts);
    let second = collect(&ts);
    assert_eq!(first, second);
}

#[test]
fn seeded_shuffle_is_reproducible() {
    let mut a = TaggedShuffle::new();
    let mut b = TaggedShuffle::new();
    for i in 0..16 {
        a.add(i);
        b.add(i);
    }
    a.shuffle_seeded(0, 42);
    b.shuffle_seeded(0, 42);
    assert_eq!(collect(&a), collect(&b));
}

#[test]
fn different_seeds_give_different_orders() {
    let mut a = TaggedShuffle::new();
    let mut b = TaggedShuffle::new();
    for i in 0..16 {
        a.add(i);
        b.add(i);
    }
    // no lookahead: the orders are the raw permutations the generator picked
    a.shuffle_seeded(0, 1);
    b.shuffle_seeded(0, 2);
    assert_ne!(collect(&a), collect(&b));
}

#[test]
fn no_adjacent_repeats_across_seeds() {
    // largest weight (4) is at most half the slot count (10) and the
    // lookahead bound is at least 2, so no two adjacent positions may
    // reference the same item
    for seed in 0..100 {
        let mut ts = TaggedShuffle::new();
        for i in 0..4 {
            ts.addn(i, i + 1);
        }
        ts.shuffle_seeded(10, seed);
        let v = collect(&ts);
        assert!(v.windows(2).all(|w| w[0] != w[1]), "seed {} clustered: {:?}", seed, v);
    }
}

#[test]
fn no_adjacent_repeats_for_boundary_weights() {
    // weight distributions whose largest weight sits at or near half the
    // slot count, the hardest inputs the bound still admits
    let cases: Vec<Vec<usize>> = vec![
        vec![3, 3],
        vec![5, 5],
        vec![4, 2, 2],
        vec![2, 2, 2, 2],
        vec![8, 4, 4],
        vec![1, 7, 8],
    ];
    for ws in cases.iter() {
        for seed in 0..300u64 {
            let mut ts = TaggedShuffle::new();
            for (i, w) in ws.iter().enumerate() {
                ts.addn(i, *w);
            }
            ts.shuffle_seeded(10, seed);
            let v = collect(&ts);
            assert!(
                v.windows(2).all(|w| w[0] != w[1]),
                "weights {:?} seed {} clustered: {:?}",
                ws,
                seed,
                v
            );
        }
    }
}

#[test]
fn nested_iteration_is_idempotent() {
    let mut ts = TaggedShuffle::new();
    for i in 0..3 {
        let mut ts2 = TaggedShuffle::new();
        ts2.addn(i, 2);
        ts2.addn(10 + i, 1);
        ts.nested_add(ts2);
    }
    ts.nested_shuffle_seeded(10, 7);
    let mut first: Vec<usize> = Vec::new();
    let mut it = ts.nested_iter();
    while let Some(x) = it.next() {
        first.push(*x);
    }
    let mut second: Vec<usize> = Vec::new();
    let mut it2 = ts.nested_iter();
    while let Some(x) = it2.next() {
        second.push(*x);
    }
    assert_eq!(first, second);
    assert_eq!(first.len(), 9);
}

#[test]
fn nested_iteration_emits_every_slot_once() {
    let mut ts = TaggedShuffle::new();
    let mut expected: Vec<usize> = Vec::new();
    for i in 0..4 {
        let mut ts2 = TaggedShuffle::new();
        ts2.addn(i, 3);
        ts2.add(100 + i);
        ts.nested_add(ts2);
        expected.extend([i, i, i, 100 + i]);
    }
    ts.nested_shuffle(10);
    let mut flat: Vec<usize> = Vec::new();
    let mut it = ts.nested_iter();
    while let Some(x) = it.next() {
        flat.push(*x);
    }
    assert_eq!(flat.len(), expected.len());
    flat.sort();
    expected.sort();
    assert_eq!(flat, expected);
}
