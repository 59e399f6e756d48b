use forward_proxy::forwarder::{outbound, serialize};
use forward_proxy::parser::parse;
use forward_proxy::request::{Header, Request};

fn header(key: &str, value: &str) -> Header {
    Header { key: key.to_string(), value: value.to_string() }
}

fn request(verb: &str, path: &str, headers: Vec<Header>) -> Request {
    Request {
        verb: verb.to_string(),
        scheme: "http".to_string(),
        hostname: "example.com".to_string(),
        path: path.to_string(),
        headers,
    }
}

#[test]
fn round_trip_request_is_forwarded() {
    let raw = b"GET http://example.com/foo/bar HTTP/1.1\r\nHost: example.com\r\nX-Test: 1\r\nX-Test: 2\r\n\r\n";
    let parsed = parse(raw).unwrap();
    assert_eq!(
        serialize(&parsed),
        b"GET /foo/bar HTTP/1.1\r\nHost: example.com\r\nX-Test: 1\r\nX-Test: 2\r\nConnection: close\r\n\r\n"
    );
}

#[test]
fn request_without_headers_is_forwarded() {
    assert_eq!(
        outbound(&request("DELETE", "", vec![])),
        "DELETE / HTTP/1.1\r\nConnection: close\r\n\r\n"
    );
}

#[test]
fn outbound_ends_with_connection_close_and_an_empty_line() {
    let requests = [
        request("GET", "a", vec![]),
        request("GET", "a", vec![header("Connection", "keep-alive")]),
        request("POST", "a/b", vec![header("A", "1"), header("B", ""), header("", "")]),
    ];
    for r in requests {
        let text = outbound(&r);
        assert!(text.ends_with("\r\nConnection: close\r\n\r\n"));
        let lines: Vec<&str> = text.split("\r\n").collect();
        assert_eq!(lines.len(), r.headers.len() + 4);
        assert_eq!(lines[lines.len() - 3], "Connection: close");
        assert_eq!(lines.iter().position(|line| line.is_empty()), Some(lines.len() - 2));
    }
}

#[test]
fn outbound_version_is_http_1_1() {
    let old = parse(b"GET http://example.com/x HTTP/1.0\r\n\r\n").unwrap();
    let text = outbound(&old);
    assert_eq!(text, "GET /x HTTP/1.1\r\nConnection: close\r\n\r\n");
    let odd = parse(b"GET http://example.com/x SPDY/9\r\n\r\n").unwrap();
    assert_eq!(outbound(&odd), text);
}

#[test]
fn headers_keep_their_order_and_their_repeats() {
    let r = request(
        "GET",
        "p",
        vec![header("Set-Cookie", "a"), header("Accept", "*/*"), header("Set-Cookie", "b")],
    );
    assert_eq!(
        outbound(&r),
        "GET /p HTTP/1.1\r\nSet-Cookie: a\r\nAccept: */*\r\nSet-Cookie: b\r\nConnection: close\r\n\r\n"
    );
}

#[test]
fn serialize_writes_utf8() {
    let r = request("GET", "caf\u{e9}", vec![]);
    assert_eq!(serialize(&r), "GET /caf\u{e9} HTTP/1.1\r\nConnection: close\r\n\r\n".as_bytes());
    assert_eq!(serialize(&r), outbound(&r).into_bytes());
}
