use trie_rs::path::node::after;
use trie_rs::path::node::lcs;
use trie_rs::path::node::parse_key;
use trie_rs::path::node::substr;
use trie_rs::path::Params;
use trie_rs::path::PathParseError;

#[test]
fn substr_takes_prefix_before_needle() {
    assert_eq!(substr("abc/def", "/"), "abc");
    assert_eq!(substr("abc", "/"), "abc");
    assert_eq!(substr("", "/"), "");
    assert_eq!(substr("a/b/c", "/"), "a");
    assert_eq!(substr("abcd", "bc"), "a");
}

#[test]
fn after_takes_suffix_from_needle() {
    assert_eq!(after("abc/def", "/"), "/def");
    assert_eq!(after("a/b/c", "/"), "/b/c");
    assert_eq!(after("abc", "c"), "");
    assert_eq!(after("abcd", "bc"), "bcd");
}

#[test]
fn lcs_counts_common_prefix() {
    assert_eq!(lcs("abc", "abd"), 2);
    assert_eq!(lcs("abc", "abc"), 3);
    assert_eq!(lcs("x", "y"), 0);
    assert_eq!(lcs("", "abc"), 0);
}

#[test]
fn parse_key_splits_and_validates() {
    assert_eq!(parse_key("/a/b/c").unwrap(), vec!["a", "b", "c"]);
    assert_eq!(parse_key("//a//").unwrap(), vec!["a"]);
    assert_eq!(parse_key("").unwrap(), Vec::<String>::new());
    assert_eq!(parse_key("/a/:id/*").unwrap(), vec!["a", ":id", "*"]);
    match parse_key("/a/:/b") {
        Err(PathParseError::InsufficientLength) => {}
        _ => panic!("a bare parameter marker must be rejected"),
    }
    match parse_key("/a/*/b/c") {
        Err(PathParseError::UnexpectedToken(t)) => assert_eq!(t, "b"),
        _ => panic!("a segment after the wildcard must be rejected"),
    }
}

#[test]
fn params_keep_capture_order_and_overflow_inline_storage() {
    let mut p = Params::new();
    assert_eq!(p.get("a"), None);
    p.insert("a", "1");
    p.insert("b", "2");
    p.insert("c", "3");
    p.insert("d", "4");
    // the fifth capture spills from the inline slots to the list
    p.insert("e", "5");
    p.insert("a", "6");
    assert_eq!(p.get("a"), Some("1"));
    assert_eq!(p.get("b"), Some("2"));
    assert_eq!(p.get("c"), Some("3"));
    assert_eq!(p.get("d"), Some("4"));
    assert_eq!(p.get("e"), Some("5"));
    assert_eq!(p.get("z"), None);
}
