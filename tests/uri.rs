use gateway::uri::{normalize_term, normalized};

#[test]
fn test_uri_normalize() {
    assert_eq!(
        normalized(String::from("/test/../../test1/./t\u{0435}st2?test1=1&test2=2&test3#ref")),
        String::from("/test1/t%D0%B5st2?test1=1&test2=2&test3#ref")
    );
}

#[test]
fn empty_and_root_paths() {
    assert_eq!(normalized(String::from("")), "");
    assert_eq!(normalized(String::from("/")), "/");
    assert_eq!(normalized(String::from("/..")), "");
    assert_eq!(normalized(String::from("/.")), "");
}

#[test]
fn dot_segments_collapse() {
    assert_eq!(normalized(String::from("/a/b/../c")), "/a/c");
    assert_eq!(normalized(String::from("/a/./b")), "/a/b");
    assert_eq!(normalized(String::from("/a/%2E%2E/b")), "/b");
    assert_eq!(normalized(String::from("//a")), "//a");
}

#[test]
fn normalizing_twice_changes_nothing() {
    for s in [
        "/test/../../test1/./t\u{0435}st2?test1=1&test2=2&test3#ref",
        "/a%2fb/%41?x=1&x=2&y#",
        "/a/%2E%2E/b/%zz",
        "?q",
        "/%C3%A9t%C3%A9",
    ] {
        let once = normalized(String::from(s));
        assert_eq!(normalized(once.clone()), once);
    }
}

#[test]
fn percent_encoding_is_canonical() {
    assert_eq!(normalize_term(String::from("%41")), "A");
    assert_eq!(normalize_term(String::from("a%2fb")), "a%2Fb");
    assert_eq!(normalize_term(String::from("a b")), "a%20b");
    assert_eq!(normalize_term(String::from("\u{e9}")), "%C3%A9");
    assert_eq!(normalize_term(String::from("%zz")), "");
    assert_eq!(normalize_term(String::from("%F8%80%80%80")), "");
}

#[test]
fn repeated_query_names_keep_first_place() {
    assert_eq!(normalized(String::from("/p?b=1&a=2&b=3")), "/p?b=3&a=2");
    assert_eq!(normalized(String::from("/p?")), "/p?");
}
