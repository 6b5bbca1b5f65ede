use gateway::head::{parse_request_head, HeadParse};
use gateway::nocase::{HeaderMap, NoCaseStr};

#[test]
fn no_case_test() {
    let str1 = NoCaseStr::new("TEST");
    let str2 = NoCaseStr::new("test");
    assert_eq!(str1, str2);
}

#[test]
fn no_case_differs_on_other_letters() {
    assert_ne!(NoCaseStr::new("Host"), NoCaseStr::new("Hosts"));
    assert_eq!(NoCaseStr::new("Content-Length").inner_value(), "Content-Length");
}

#[test]
fn header_lookup_ignores_case() {
    let mut h = HeaderMap::new();
    h.insert("Content-Type", "text/plain");
    assert_eq!(h.get("content-type"), Some("text/plain"));
    assert_eq!(h.get("CONTENT-TYPE"), Some("text/plain"));
    assert_eq!(h.get("Content-Type"), h.get("cOnTeNt-TyPe"));
    assert_eq!(h.get("Accept"), None);
}

#[test]
fn header_insert_keeps_first_spelling_and_place() {
    let mut h = HeaderMap::new();
    h.insert("Host", "a");
    h.insert("Accept", "b");
    h.insert("HOST", "c");
    assert_eq!(h.len(), 2);
    assert_eq!(h.entry(0), ("Host", "c"));
    assert_eq!(h.entry(1), ("Accept", "b"));
}

#[test]
fn header_value_containing_colon_space() {
    let buf = b"GET / HTTP/1.1\r\nX-Note: a: b\r\n\r\n";
    match parse_request_head(buf) {
        HeadParse::Complete(h, n) => {
            assert_eq!(h.headers.get("x-note"), Some("a: b"));
            assert_eq!(n, buf.len());
        }
        _ => panic!("head not parsed"),
    }
}
