use tagshuffle::playlist::Playlist;
use tagshuffle::shuffle::TaggedShuffle;

fn flatten(ts: &TaggedShuffle<TaggedShuffle<String>>) -> Vec<String> {
    let mut v: Vec<String> = Vec::new();
    let mut it = ts.nested_iter();
    while let Some(x) = it.next() {
        v.push(x.clone());
    }
    v
}

#[test]
fn main_test_shuffle() {
    let mut pl = Playlist::new();
    pl.add(String::from("a"), String::from("a"), None);
    pl.add(String::from("b"), String::from("a"), Some(199));
    pl.add(String::from("c"), String::from("b"), Some(200));
    pl.add(String::from("d"), String::from("b"), Some(201));

    let ts = pl.shuffle();
    let shuff = flatten(&ts);

    assert!(shuff.contains(&String::from("a")));
    assert!(shuff.contains(&String::from("b")));
    assert!(shuff.contains(&String::from("c")));
    assert!(shuff.contains(&String::from("d")));
    assert_eq!(shuff.len(), 6);
}

#[test]
fn two_buckets_unit_weights_yield_a_permutation() {
    let mut pl = Playlist::new();
    pl.add(String::from("x"), String::from("a"), None);
    pl.add(String::from("y"), String::from("a"), None);
    pl.add(String::from("z"), String::from("b"), None);
    pl.add(String::from("w"), String::from("b"), None);

    let ts = pl.shuffle();
    let mut shuff = flatten(&ts);
    assert_eq!(shuff.len(), 4);
    shuff.sort();
    let mut expected = vec![
        String::from("w"),
        String::from("x"),
        String::from("y"),
        String::from("z"),
    ];
    expected.sort();
    assert_eq!(shuff, expected);
}

#[test]
fn rating_formula_drives_multiplicity() {
    let mut pl = Playlist::new();
    pl.add(String::from("x"), String::from("a"), Some(0));
    pl.add(String::from("y"), String::from("a"), Some(199));
    pl.add(String::from("z"), String::from("b"), Some(200));
    pl.add(String::from("w"), String::from("b"), Some(201));

    let ts = pl.shuffle();
    let shuff = flatten(&ts);
    assert_eq!(shuff.len(), 6);
    let count = |s: &str| shuff.iter().filter(|x| x.as_str() == s).count();
    assert_eq!(count("x"), 1);
    assert_eq!(count("y"), 1);
    assert_eq!(count("z"), 2);
    assert_eq!(count("w"), 2);
}

#[test]
fn band_keys_are_trimmed_and_lowercased() {
    let mut pl = Playlist::new();
    pl.add(String::from("x"), String::from("A"), None);
    pl.add(String::from("y"), String::from("  a  "), None);

    // both songs land in one bucket, so the single bucket holds both slots
    let ts = pl.shuffle();
    let mut it = ts.iter();
    let bucket = it.next().expect("one bucket expected");
    assert_eq!(bucket.len(), 2);
}

#[test]
fn try_add_accepts_ordinary_inputs() {
    let mut pl = Playlist::new();
    assert!(pl.try_add(String::from("x"), String::from("a"), Some(250)));
    assert!(pl.try_add(String::from("x"), String::from("a"), Some(250)));
    let ts = pl.shuffle();
    assert_eq!(flatten(&ts).len(), 4);
}

#[test]
fn empty_playlist_shuffles_to_nothing() {
    let pl = Playlist::new();
    let ts = pl.shuffle();
    assert_eq!(ts.len(), 0);
    let mut it = ts.nested_iter();
    assert!(it.next().is_none());
}
