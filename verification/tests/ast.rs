//! Names and spans of source text.

use plouf_rs::ast::{bytes, dequalify, slice, span};
use plouf_rs::syntax::parse;

#[test]
fn bytes_that_are_no_text_are_replaced() {
    assert_eq!(bytes("héllo".as_bytes()), "héllo");
    assert_eq!(bytes(&[0x61, 0xff, 0x62]), "a\u{fffd}b");
    assert_eq!(bytes(&[]), "");
}

#[test]
fn a_qualified_name_keeps_its_last_segment() {
    assert_eq!(dequalify("App\\Models\\User"), "User");
    assert_eq!(dequalify("User"), "User");
    assert_eq!(dequalify("App\\"), "");
}

#[test]
fn a_slice_splits_no_character() {
    assert_eq!(slice("aéb", 0, 1), Some("a"));
    assert_eq!(slice("aéb", 1, 3), Some("é"));
    assert_eq!(slice("aéb", 1, 2), None);
    assert_eq!(slice("aéb", 3, 4), Some("b"));
    assert_eq!(slice("aéb", 4, 4), Some(""));
    assert_eq!(slice("aéb", 3, 5), None);
    assert_eq!(slice("aéb", 3, 1), None);
}

#[test]
fn a_span_is_cut_at_the_end() {
    assert_eq!(span("hello", 1, 3), "el");
    assert_eq!(span("hello", 3, 99), "lo");
    assert_eq!(span("hello", 9, 99), "");
    assert_eq!(span("hello", 3, 1), "");
    assert_eq!(span("é", 1, 2), "");
}

#[test]
fn a_syntax_tree_has_the_spans_of_its_parts() {
    let code = "<?php // é\nfunction f() {}";
    let t = parse(code);
    assert_eq!(t.kind, "Program");
    let statement = t.all("Statement");
    let f = statement.iter().find_map(|s| s.child("Function")).unwrap();
    assert_eq!(&code[f.start as usize..f.end as usize], "function f() {}");
    assert_eq!(f.child("LocalIdentifier").unwrap().text, "f");
    assert!(f.child("Method").is_none());
    // Code with errors still has a tree.
    assert_eq!(parse("<?php class {").kind, "Program");
}
