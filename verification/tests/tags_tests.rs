use tagshuffle::tags::{parse_artist_from_path, rating_from_popm, rating_from_text100};

#[test]
fn test_path_band() {
    let path = String::from("a");
    assert!(parse_artist_from_path(&path).is_empty());
    let path = format!("{}/{}", path, "b");
    assert_eq!(parse_artist_from_path(&path), "a");
    let path = format!("{}/{}", path, "c");
    assert_eq!(parse_artist_from_path(&path), "a");
    let path = format!("{}/{}", path, "d");
    assert_eq!(parse_artist_from_path(&path), "b");
}

#[test]
fn path_artist_skips_dot_and_empty_components() {
    assert_eq!(parse_artist_from_path("./a/b/c"), "a");
    assert_eq!(parse_artist_from_path("a//b/c"), "a");
    assert_eq!(parse_artist_from_path("/a/b"), "a");
    assert_eq!(parse_artist_from_path(""), "");
    assert_eq!(parse_artist_from_path("/a"), "");
}

#[test]
fn path_artist_skips_parent_dir_components() {
    assert_eq!(parse_artist_from_path("../f"), "");
    assert_eq!(parse_artist_from_path("../a/f"), "a");
    assert_eq!(parse_artist_from_path("a/../b/f"), "a");
    assert_eq!(parse_artist_from_path("..a/b/f"), "..a");
}

#[test]
fn popm_rating_is_fifth_byte_from_the_end() {
    assert_eq!(rating_from_popm(&[1, 2, 3, 4, 5]), None);
    assert_eq!(rating_from_popm(&[9, 200, 0, 0, 0, 0]), Some(200));
    assert_eq!(rating_from_popm(&[9, 9, 128, 1, 2, 3, 4]), Some(128));
    assert_eq!(rating_from_popm(&[]), None);
}

#[test]
fn text_rating_scales_to_255() {
    assert_eq!(rating_from_text100(0), 0);
    assert_eq!(rating_from_text100(1), 2);
    assert_eq!(rating_from_text100(50), 125);
    assert_eq!(rating_from_text100(100), 250);
    assert_eq!(rating_from_text100(102), 255);
}
