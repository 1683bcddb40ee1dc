use trie_rs::path::PathParseError;
use trie_rs::path::PathTrie;

#[test]
fn test_node_get() {
    let mut builder = PathTrie::builder();

    builder.insert("/api/todos", 1);
    builder.insert("/api/todo/:id", 2);

    builder.insert("/api/lists", 3);
    builder.insert("/api/list/:id", 4);

    builder.insert("/api/auth/register", 5);
    builder.insert("/api/auth/login", 6);
    builder.insert("/api/auth/logout", 7);

    builder.insert("/a/b/c/d/e/*", 8);
    builder.insert("/a/d/c/d/e/*", -8);
    builder.insert("/a/de/c/d/e/*", -9);
    builder.insert("/a/de/d/d/e/*", -9);
    builder.insert("/a/def/d/d/e/*", -10);
    builder.insert("/api/hello/:name", 9);
    builder.insert("/api/hello/:name/:addr", 10);
    builder.insert("/api/hello/:name/:age", 11);
    builder.insert("/api/hello/:name/addr", 12);
    builder.insert("/api/goodbye/:name", 13);

    builder.insert("*", 404);
    builder.insert("/:user/profile", 14);

    let trie = builder.finalize();

    // the parameter child stands after the static children
    assert_eq!(trie.children()[2].path(), ":user");

    match trie.get("/name/profile") {
        Some((v, p)) if *v == 14 && p.get("user") == Some("name") => assert!(true),
        _ => panic!("lookup of /name/profile went wrong"),
    };

    match trie.get("/api/todos") {
        Some((v, _)) if *v == 1 => assert!(true),
        _ => panic!("lookup of /api/todos went wrong"),
    };

    match trie.get("/api/todo/5") {
        Some((v, p)) if *v == 2 && p.get("id") == Some("5") => assert!(true),
        _ => panic!("lookup of /api/todo/5 went wrong"),
    };

    match trie.get("/api/todo/a2") {
        Some((v, p)) if *v == 2 && p.get("id") == Some("a2") => assert!(true),
        _ => panic!("lookup of /api/todo/a2 went wrong"),
    };

    match trie.get("/a/b/c/d/e/wildcard") {
        Some((v, p)) if *v == 8 && p.get("*") == Some("wildcard") => assert!(true),
        _ => panic!("lookup of /a/b/c/d/e/wildcard went wrong"),
    }
    match trie.get("/a/def/d/d/e/wildcard") {
        Some((v, p)) if *v == -10 && p.get("*") == Some("wildcard") => assert!(true),
        _ => panic!("lookup of /a/def/d/d/e/wildcard went wrong"),
    }

    match trie.get("/api/hello/world/1") {
        Some((v, p)) => {
            assert_eq!(*v, 11);

            let name = p.get("name");
            assert_eq!(name, Some("world"));

            let age = p.get("age");
            assert_eq!(age, Some("1"));
        }
        _ => panic!("lookup of /api/hello/world/1 went wrong"),
    }
}

#[test]
fn scenario_routes() {
    let mut builder = PathTrie::builder();
    builder.insert("/api/todos", 1);
    builder.insert("/api/todo/:id", 2);
    builder.insert("/a/b/c/d/e/*", 8);
    builder.insert("*", 404);
    builder.insert("/:user/profile", 14);
    let trie = builder.finalize();

    let (v, p) = trie.get("/api/todos").unwrap();
    assert_eq!(*v, 1);
    assert_eq!(p.get("id"), None);

    let (v, p) = trie.get("/api/todo/5").unwrap();
    assert_eq!(*v, 2);
    assert_eq!(p.get("id"), Some("5"));

    let (v, p) = trie.get("/a/b/c/d/e/anything/here").unwrap();
    assert_eq!(*v, 8);
    assert_eq!(p.get("*"), Some("anything/here"));

    let (v, p) = trie.get("/name/profile").unwrap();
    assert_eq!(*v, 14);
    assert_eq!(p.get("user"), Some("name"));
}

#[test]
fn precedence_static_then_param_then_wildcard() {
    // a static sibling wins over the parameter child
    let mut trie = PathTrie::new();
    trie.insert("/a/b", 1).unwrap();
    trie.insert("/a/:x", 2).unwrap();
    let (v, p) = trie.get("/a/b").unwrap();
    assert_eq!(*v, 1);
    assert_eq!(p.get("x"), None);
    let (v, p) = trie.get("/a/c").unwrap();
    assert_eq!(*v, 2);
    assert_eq!(p.get("x"), Some("c"));

    // inserting the wildcard collides with the parameter child and
    // replaces it; the static sibling still wins over the wildcard
    trie.insert("/a/*", 3).unwrap();
    let (v, _) = trie.get("/a/b").unwrap();
    assert_eq!(*v, 1);
    let (v, p) = trie.get("/a/c").unwrap();
    assert_eq!(*v, 3);
    assert_eq!(p.get("*"), Some("c"));
    let (v, p) = trie.get("/a/c/d").unwrap();
    assert_eq!(*v, 3);
    assert_eq!(p.get("*"), Some("c/d"));
}

#[test]
fn idempotent_insert_keeps_later_value() {
    let mut trie = PathTrie::new();
    assert_eq!(trie.insert("/x/y", 1).unwrap(), None);
    assert_eq!(trie.insert("/x/y", 2).unwrap(), Some(1));
    let (v, _) = trie.get("/x/y").unwrap();
    assert_eq!(*v, 2);
    // still exactly one route below /x
    assert_eq!(trie.children().len(), 1);
    assert_eq!(trie.children()[0].children().len(), 1);
}

#[test]
fn compression_is_transparent_to_lookups() {
    let routes: [(&str, i32); 5] = [
        ("/api/todos", 1),
        ("/api/todo/:id", 2),
        ("/deep/static/chain/here", 3),
        ("/deep/static/other", 4),
        ("/:user/profile", 14),
    ];
    let queries = [
        "/api/todos",
        "/api/todo/7",
        "/deep/static/chain/here",
        "/deep/static/other",
        "/deep/static/chain",
        "/someone/profile",
        "/missing",
    ];

    let mut plain = PathTrie::new();
    let mut builder = PathTrie::builder();
    for (pat, val) in routes.iter() {
        plain.insert(pat, *val).unwrap();
        builder.insert(pat, *val).unwrap();
    }
    let compressed = builder.finalize();

    for q in queries.iter() {
        let a = plain.get(q).map(|(v, _)| *v);
        let b = compressed.get(q).map(|(v, _)| *v);
        assert_eq!(a, b);
    }
}

#[test]
fn prune_discards_nested_routes() {
    let mut trie = PathTrie::new();
    trie.insert("/a/b", 1).unwrap();
    trie.insert("/a/b/c", 2).unwrap();
    trie.insert("/a/x", 3).unwrap();

    assert_eq!(trie.remove("/a/b", true), Some(1));
    assert!(trie.get("/a/b").is_none());
    assert!(trie.get("/a/b/c").is_none());
    let (v, _) = trie.get("/a/x").unwrap();
    assert_eq!(*v, 3);
}

#[test]
fn plain_remove_keeps_nested_routes() {
    let mut trie = PathTrie::new();
    trie.insert("/a/b", 1).unwrap();
    trie.insert("/a/b/c", 2).unwrap();

    assert_eq!(trie.remove("/a/b", false), Some(1));
    assert!(trie.get("/a/b").is_none());
    let (v, _) = trie.get("/a/b/c").unwrap();
    assert_eq!(*v, 2);

    // removing the deeper route too leaves no dead branch behind
    assert_eq!(trie.remove("/a/b/c", false), Some(2));
    assert_eq!(trie.children().len(), 0);
}

#[test]
fn remove_unknown_is_a_no_op() {
    let mut trie = PathTrie::new();
    trie.insert("/a/b", 1).unwrap();
    assert_eq!(trie.remove("/a/zzz", true), None);
    assert_eq!(trie.remove("/other", false), None);
    let (v, _) = trie.get("/a/b").unwrap();
    assert_eq!(*v, 1);
}

#[test]
fn parameter_rename_replaces_the_subtree() {
    let mut trie = PathTrie::new();
    trie.insert("/u/:id/posts", 1).unwrap();
    trie.insert("/u/:name", 2).unwrap();

    // the rename dropped the old subtree under :id
    assert!(trie.get("/u/7/posts").is_none());
    let (v, p) = trie.get("/u/7").unwrap();
    assert_eq!(*v, 2);
    assert_eq!(p.get("name"), Some("7"));
}

#[test]
fn slashes_are_normalized_in_patterns() {
    let mut trie = PathTrie::new();
    trie.insert("//a///b//", 1).unwrap();
    let (v, _) = trie.get("/a/b").unwrap();
    assert_eq!(*v, 1);
}

#[test]
fn bad_patterns_are_rejected_and_change_nothing() {
    let mut trie = PathTrie::new();
    trie.insert("/a", 1).unwrap();

    match trie.insert("/x/:/y", 2) {
        Err(PathParseError::InsufficientLength) => {}
        _ => panic!("a bare parameter marker must be rejected"),
    }
    match trie.insert("/x/*/y", 3) {
        Err(PathParseError::UnexpectedToken(t)) => assert_eq!(t, "y"),
        _ => panic!("a segment after the wildcard must be rejected"),
    }
    // the rejected patterns left no trace
    assert!(trie.get("/x/anything").is_none());
    assert_eq!(trie.children().len(), 1);
    let (v, _) = trie.get("/a").unwrap();
    assert_eq!(*v, 1);
}

#[test]
fn wildcard_matches_whole_remainder_at_root() {
    let mut trie = PathTrie::new();
    trie.insert("*", 404).unwrap();
    let (v, p) = trie.get("/any/thing/at/all").unwrap();
    assert_eq!(*v, 404);
    assert_eq!(p.get("*"), Some("any/thing/at/all"));
}

#[test]
fn splitting_preserves_earlier_routes() {
    let mut builder = PathTrie::builder();
    builder.insert("/assets/images/logo", 1);
    let trie = builder.finalize();
    // the chain below /assets is now one merged node
    assert_eq!(trie.children()[0].path(), "assets/images/logo");

    let mut trie = trie;
    trie.insert("/assets/images/icon", 2).unwrap();
    let (v, _) = trie.get("/assets/images/logo").unwrap();
    assert_eq!(*v, 1);
    let (v, _) = trie.get("/assets/images/icon").unwrap();
    assert_eq!(*v, 2);
}
