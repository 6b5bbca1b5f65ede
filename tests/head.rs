use gateway::head::{
    parse_request_head, parse_response_head, read_line, refusal_response, serialize_request_head,
    serialize_response_head, trim_str, HeadParse, Refusal,
};
use gateway::message::{refusal_for, ListenerConnection};

#[test]
fn request_head_parses_and_keeps_the_rest() {
    let buf = b"GET /api/x?a=1 HTTP/1.1\r\nHost: a.example.com\r\n\r\nBODY";
    match parse_request_head(buf) {
        HeadParse::Complete(h, n) => {
            assert_eq!(h.method.inner_value(), "GET");
            assert_eq!(h.uri, "/api/x?a=1");
            assert_eq!(h.version, "1.1");
            assert_eq!(h.headers.get("host"), Some("a.example.com"));
            assert_eq!(&buf[n..], b"BODY");
            assert_eq!(
                serialize_request_head(&h),
                "GET /api/x?a=1 HTTP/1.1\r\nHost: a.example.com\r\n\r\n"
            );
        }
        _ => panic!("head not parsed"),
    }
}

#[test]
fn request_line_with_trailing_whitespace() {
    match parse_request_head(b"GET / HTTP/1.0   \r\n\r\n") {
        HeadParse::Complete(h, _) => assert_eq!(h.version, "1.0"),
        _ => panic!("head not parsed"),
    }
}

#[test]
fn bad_request_lines_are_refused() {
    assert!(matches!(parse_request_head(b"GET /\r\n\r\n"), HeadParse::Invalid));
    assert!(matches!(parse_request_head(b"GET / HTTP/2.0\r\n\r\n"), HeadParse::Invalid));
    assert!(matches!(parse_request_head(b"GET / FTP/1.1\r\n\r\n"), HeadParse::Invalid));
    assert!(matches!(parse_request_head(b"GET  / HTTP/1.1\r\n\r\n"), HeadParse::Invalid));
}

#[test]
fn incomplete_heads_wait_for_more() {
    assert!(matches!(parse_request_head(b"GET / HTTP/1.1"), HeadParse::Incomplete));
    assert!(matches!(parse_request_head(b"GET / HTTP/1.1\r\nHost: x\r\n"), HeadParse::Incomplete));
}

#[test]
fn response_head_parses() {
    let buf = b"HTTP/1.1 200 OK\r\nContent-length: 2\r\n\r\nOK";
    match parse_response_head(buf) {
        HeadParse::Complete(h, n) => {
            assert_eq!(h.code, 200);
            assert_eq!(h.version, "1.1");
            assert_eq!(h.status_line, "HTTP/1.1 200 OK");
            assert_eq!(&buf[n..], b"OK");
            let mut out = serialize_response_head(&h).into_bytes();
            out.extend_from_slice(&buf[n..]);
            assert_eq!(out, buf.to_vec());
        }
        _ => panic!("head not parsed"),
    }
    assert!(matches!(parse_response_head(b"HTTP/1.1 abc\r\n\r\n"), HeadParse::Invalid));
    assert!(matches!(parse_response_head(b"HTTP/1.1 70000\r\n\r\n"), HeadParse::Invalid));
}

#[test]
fn lines_drop_non_ascii_bytes() {
    let (line, next) = read_line(b"ab\xc3\xa9c\nrest", 0).unwrap();
    assert_eq!(line, "abc");
    assert_eq!(next, 6);
    assert_eq!(read_line(b"no newline", 0), None);
    assert_eq!(trim_str(" \t x y \r"), "x y");
}

#[test]
fn refusals_are_minimal_responses() {
    assert_eq!(
        refusal_response(Refusal::RouteNotFound),
        "HTTP/1.0 404\r\nConnection: close\r\nContent-length: 15\r\n\r\nRoute not found"
    );
    assert_eq!(
        refusal_response(Refusal::NoAvailableBackends),
        "HTTP/1.0 503\r\nConnection: close\r\nContent-length: 21\r\n\r\nNo available backends"
    );
    let r: ListenerConnection<u8> = ListenerConnection::NoAvailableMember;
    assert_eq!(refusal_for(&r), Some(Refusal::NoAvailableBackends));
    let r: ListenerConnection<u8> = ListenerConnection::ClusterNotFound;
    assert_eq!(refusal_for(&r), Some(Refusal::ClusterNotFound));
    let r: ListenerConnection<u8> = ListenerConnection::BufferOverLimit;
    assert_eq!(refusal_for(&r), Some(Refusal::OutOfMemory));
    let r: ListenerConnection<u8> = ListenerConnection::ListenerBuffer(1);
    assert_eq!(refusal_for(&r), None);
}
