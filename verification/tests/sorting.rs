//! The order of texts.

use plouf_rs::sorting::sort_unique;

fn sorted(texts: &[&str]) -> Vec<String> {
    sort_unique(texts.iter().map(|t| t.to_string()).collect())
}

#[test]
fn texts_are_sorted_by_their_characters_and_kept_once() {
    assert_eq!(sorted(&["b", "a", "b", "", "ab", "B"]), vec!["", "B", "a", "ab", "b"]);
    assert!(sorted(&[]).is_empty());
}

#[test]
fn the_order_is_that_of_the_bytes() {
    let mut texts = vec!["é", "z", "\u{ffff}", "\u{10000}", "e", "\u{fffd}"];
    let ours = sorted(&texts);
    texts.sort();
    assert_eq!(ours, texts);
}
