use forward_proxy::parser::{parse, parse_headers, parse_text};
use forward_proxy::request::{Header, ProxyError, Request};

fn header(key: &str, value: &str) -> Header {
    Header { key: key.to_string(), value: value.to_string() }
}

#[test]
fn round_trip_request_is_parsed() {
    let raw = b"GET http://example.com/foo/bar HTTP/1.1\r\nHost: example.com\r\nX-Test: 1\r\nX-Test: 2\r\n\r\n";
    let request = parse(raw).unwrap();
    assert_eq!(request.verb, "GET");
    assert_eq!(request.scheme, "http");
    assert_eq!(request.hostname, "example.com");
    assert_eq!(request.path, "foo/bar");
    assert_eq!(
        request.headers,
        vec![header("Host", "example.com"), header("X-Test", "1"), header("X-Test", "2")]
    );
}

#[test]
fn target_that_is_no_absolute_uri_is_malformed() {
    assert_eq!(parse(b"GET /foo HTTP/1.1\r\n\r\n"), Err(ProxyError::MalformedRequest));
}

#[test]
fn request_line_with_fewer_than_three_tokens_is_malformed() {
    assert_eq!(parse(b"GET http://example.com/\r\n\r\n"), Err(ProxyError::MalformedRequest));
    assert_eq!(parse(b"GET\r\n\r\n"), Err(ProxyError::MalformedRequest));
    assert_eq!(parse(b""), Err(ProxyError::MalformedRequest));
}

#[test]
fn target_without_a_slash_after_the_host_is_malformed() {
    assert_eq!(parse(b"GET http://example.com HTTP/1.1\r\n\r\n"), Err(ProxyError::MalformedRequest));
}

#[test]
fn empty_path_is_accepted() {
    let request = parse(b"GET http://example.com/ HTTP/1.1\r\n\r\n").unwrap();
    assert_eq!(request.hostname, "example.com");
    assert_eq!(request.path, "");
    assert!(request.headers.is_empty());
}

#[test]
fn header_line_without_separator_is_dropped() {
    let raw = b"GET http://h/p HTTP/1.1\r\nHost: h\r\nnonsense\r\nKey:value\r\nAccept: */*\r\n\r\n";
    let request = parse(raw).unwrap();
    assert_eq!(request.headers, vec![header("Host", "h"), header("Accept", "*/*")]);
    let without = parse(b"GET http://h/p HTTP/1.1\r\nHost: h\r\nAccept: */*\r\n\r\n").unwrap();
    assert_eq!(request, without);
}

#[test]
fn header_is_cut_at_the_first_separator() {
    let request = parse(b"GET http://h/p HTTP/1.1\r\nX: a: b\r\n: \r\n\r\n").unwrap();
    assert_eq!(request.headers, vec![header("X", "a: b"), header("", "")]);
}

#[test]
fn headers_end_at_the_first_empty_line() {
    let raw = b"POST http://h/p HTTP/1.1\r\nA: 1\r\n\r\nB: 2\r\nC: 3\r\n";
    let request = parse(raw).unwrap();
    assert_eq!(request.verb, "POST");
    assert_eq!(request.headers, vec![header("A", "1")]);
}

#[test]
fn request_without_the_empty_line_keeps_its_last_line() {
    let request = parse(b"GET http://h/p HTTP/1.1\r\nA: 1\r\nB: 2").unwrap();
    assert_eq!(request.headers, vec![header("A", "1"), header("B", "2")]);
}

#[test]
fn protocol_version_of_the_client_is_not_kept() {
    let old = parse(b"GET http://h/p HTTP/1.0\r\nA: 1\r\n\r\n").unwrap();
    let new = parse(b"GET http://h/p HTTP/1.1\r\nA: 1\r\n\r\n").unwrap();
    assert_eq!(old, new);
}

#[test]
fn tokens_after_the_third_are_passed_over() {
    let request = parse(b"GET http://h/p HTTP/1.1 extra tokens\r\n\r\n").unwrap();
    assert_eq!(request.verb, "GET");
    assert_eq!(request.path, "p");
}

#[test]
fn tokens_are_delimited_by_any_whitespace() {
    let request = parse(b"GET\thttp://a.test/x\tHTTP/1.1\r\n\r\n").unwrap();
    assert_eq!(request.verb, "GET");
    assert_eq!(request.scheme, "http");
    assert_eq!(request.hostname, "a.test");
    assert_eq!(request.path, "x");
    let plain = parse(b"GET http://a.test/x HTTP/1.1\r\n\r\n").unwrap();
    assert_eq!(request, plain);
    assert_eq!(parse(b"GET  http://a.test/x \t HTTP/1.1\r\n\r\n"), Ok(plain.clone()));
    assert_eq!(parse(b"  GET http://a.test/x HTTP/1.1 \r\n\r\n"), Ok(plain.clone()));
    assert_eq!(parse(b"GET\nhttp://a.test/x\rHTTP/1.1\r\n\r\n"), Ok(plain.clone()));
    assert_eq!(parse("GET\u{a0}http://a.test/x\u{3000}HTTP/1.1\r\n\r\n".as_bytes()), Ok(plain));
}

#[test]
fn whitespace_alone_makes_no_token() {
    assert_eq!(parse(b"GET http://h/p \t \r\n\r\n"), Err(ProxyError::MalformedRequest));
    assert_eq!(parse(b" \t \r\n\r\n"), Err(ProxyError::MalformedRequest));
}

#[test]
fn scheme_is_the_run_of_word_characters_before_the_colon() {
    let request = parse(b"GET x-y://h/p HTTP/1.1\r\n\r\n").unwrap();
    assert_eq!(request.scheme, "y");
    assert_eq!(request.hostname, "h");
    let request = parse(b"GET ://h/p HTTP/1.1\r\n\r\n").unwrap();
    assert_eq!(request.scheme, "");
}

#[test]
fn host_ends_at_the_first_slash_after_the_scheme() {
    let request = parse(b"GET a://b://c/d HTTP/1.1\r\n\r\n").unwrap();
    assert_eq!(request.scheme, "a");
    assert_eq!(request.hostname, "b:");
    assert_eq!(request.path, "/c/d");
    let request = parse(b"GET http:///p HTTP/1.1\r\n\r\n").unwrap();
    assert_eq!(request.hostname, "");
    assert_eq!(request.path, "p");
}

#[test]
fn bytes_that_are_no_utf8_are_replaced() {
    let raw = b"GET http://h/p HTTP/1.1\r\nX: a\xffb\r\n\r\n";
    let request = parse(raw).unwrap();
    assert_eq!(request.headers, vec![header("X", "a\u{fffd}b")]);
}

#[test]
fn utf8_in_the_request_is_kept() {
    let request = parse("GET http://h/caf\u{e9} HTTP/1.1\r\nX: \u{fc}\r\n\r\n".as_bytes()).unwrap();
    assert_eq!(request.path, "caf\u{e9}");
    assert_eq!(request.headers, vec![header("X", "\u{fc}")]);
}

#[test]
fn parse_text_agrees_with_parse() {
    let text = "PUT http://example.com/a/b HTTP/1.1\r\nHost: example.com\r\n\r\n";
    assert_eq!(parse_text(text), parse(text.as_bytes()));
    let expected = Request {
        verb: "PUT".to_string(),
        scheme: "http".to_string(),
        hostname: "example.com".to_string(),
        path: "a/b".to_string(),
        headers: vec![header("Host", "example.com")],
    };
    assert_eq!(parse_text(text), Ok(expected));
}

#[test]
fn parse_headers_walks_the_lines_in_order() {
    let lines = vec![
        "Set-Cookie: a=1".to_string(),
        "junk".to_string(),
        "Set-Cookie: b=2".to_string(),
        "".to_string(),
        "Late: 1".to_string(),
    ];
    assert_eq!(
        parse_headers(&lines),
        vec![header("Set-Cookie", "a=1"), header("Set-Cookie", "b=2")]
    );
    assert_eq!(parse_headers(&[]), vec![]);
}
