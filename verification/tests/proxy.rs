use tnnl::proxy::{
    absorb_head_chunk, bad_gateway_response, extract_authorization, extract_host, headers_end,
    host_scan_in_bounds, is_chunked, not_found_response, parse_content_length,
    parse_request_line, parse_response_status, unauthorized_response, HeadProgress,
    MAX_HEADER_SIZE,
};

#[test]
fn extract_host_basic() {
    let req = b"GET / HTTP/1.1\r\nHost: example.com\r\n\r\n";
    assert_eq!(extract_host(req), Some("example.com".into()));
}

#[test]
fn extract_host_strips_port() {
    let req = b"GET / HTTP/1.1\r\nHost: example.com:8080\r\n\r\n";
    assert_eq!(extract_host(req), Some("example.com".into()));
}

#[test]
fn extract_host_case_insensitive() {
    let req = b"GET / HTTP/1.1\r\nHOST: Example.COM\r\n\r\n";
    assert_eq!(extract_host(req), Some("example.com".into()));
}

#[test]
fn extract_host_missing() {
    let req = b"GET / HTTP/1.1\r\nContent-Type: text/plain\r\n\r\n";
    assert_eq!(extract_host(req), None);
}

#[test]
fn parse_request_line_get() {
    let req = b"GET /api/users HTTP/1.1\r\nHost: x\r\n\r\n";
    assert_eq!(parse_request_line(req), ("GET".into(), "/api/users".into()));
}

#[test]
fn parse_request_line_post_with_query() {
    let req = b"POST /webhook?secret=abc HTTP/1.1\r\n\r\n";
    assert_eq!(
        parse_request_line(req),
        ("POST".into(), "/webhook?secret=abc".into())
    );
}

#[test]
fn parse_request_line_garbage() {
    assert_eq!(parse_request_line(b"nothttp"), ("?".into(), "?".into()));
}

#[test]
fn parse_response_status_200() {
    assert_eq!(parse_response_status(b"HTTP/1.1 200 OK\r\n"), 200);
}

#[test]
fn parse_response_status_404() {
    assert_eq!(parse_response_status(b"HTTP/1.1 404 Not Found\r\n"), 404);
}

#[test]
fn parse_response_status_empty_returns_502() {
    assert_eq!(parse_response_status(b""), 502);
}

#[test]
fn parse_content_length_present() {
    let headers = b"HTTP/1.1 200 OK\r\nContent-Length: 42\r\n\r\n";
    assert_eq!(parse_content_length(headers), 42);
}

#[test]
fn parse_content_length_missing() {
    let headers = b"HTTP/1.1 200 OK\r\nContent-Type: text/plain\r\n\r\n";
    assert_eq!(parse_content_length(headers), 0);
}

#[test]
fn parse_content_length_case_insensitive() {
    let headers = b"HTTP/1.1 200 OK\r\ncontent-length: 99\r\n\r\n";
    assert_eq!(parse_content_length(headers), 99);
}

#[test]
fn is_chunked_true() {
    let headers = b"HTTP/1.1 200 OK\r\nTransfer-Encoding: chunked\r\n\r\n";
    assert!(is_chunked(headers));
}

#[test]
fn is_chunked_false_when_missing() {
    let headers = b"HTTP/1.1 200 OK\r\nContent-Length: 10\r\n\r\n";
    assert!(!is_chunked(headers));
}

#[test]
fn is_chunked_case_insensitive() {
    let headers = b"HTTP/1.1 200 OK\r\ntransfer-encoding: CHUNKED\r\n\r\n";
    assert!(is_chunked(headers));
}

#[test]
fn headers_end_found() {
    let buf = b"GET / HTTP/1.1\r\nHost: x\r\n\r\nbody";
    let end = headers_end(buf).unwrap();
    assert_eq!(&buf[end..], b"body");
}

#[test]
fn headers_end_not_found() {
    assert_eq!(headers_end(b"GET / HTTP/1.1\r\nHost: x"), None);
}

#[test]
fn extract_host_trims_and_stops_at_blank_line() {
    let req = b"GET / HTTP/1.1\r\nX-A: 1\r\nHost:   api.Example.com  \r\n\r\n";
    assert_eq!(extract_host(req), Some("api.example.com".into()));
    let after_blank = b"GET / HTTP/1.1\r\n\r\nHost: late.com\r\n\r\n";
    assert_eq!(extract_host(after_blank), None);
}

#[test]
fn extract_host_skips_request_line_and_short_lines() {
    // The request line is never read as a header, and "host:" alone has no value.
    assert_eq!(extract_host(b"Host: first.com\r\nHost:\r\n\r\n"), None);
}

#[test]
fn extract_host_rejects_invalid_utf8() {
    assert_eq!(extract_host(b"GET / HTTP/1.1\r\nHost: a\xff.com\r\n\r\n"), None);
}

#[test]
fn extract_host_lowercases_unicode() {
    let req = "GET / HTTP/1.1\r\nHost: ÄBC.example\r\n\r\n";
    assert_eq!(extract_host(req.as_bytes()), Some("äbc.example".into()));
}

#[test]
fn host_scan_finds_unsplittable_line() {
    // The sixth byte of this header line continues the character `é`.
    let req = "GET / HTTP/1.1\r\nabcdé: x\r\n\r\n";
    assert!(!host_scan_in_bounds(req.as_bytes()));
    assert!(host_scan_in_bounds(b"GET / HTTP/1.1\r\nHost: x\r\n\r\n"));
}

#[test]
fn extract_authorization_value() {
    let req = b"GET / HTTP/1.1\r\nAUTHORIZATION:  Basic dXNlcjpwYXNz \r\n\r\n";
    assert_eq!(extract_authorization(req), Some("Basic dXNlcjpwYXNz".into()));
    assert_eq!(extract_authorization(b"GET / HTTP/1.1\r\nHost: x\r\n\r\n"), None);
}

#[test]
fn content_length_unparsable_is_zero() {
    assert_eq!(parse_content_length(b"HTTP/1.1 200 OK\r\nContent-Length: abc\r\n\r\n"), 0);
    assert_eq!(parse_content_length(b"HTTP/1.1 200 OK\r\nContent-Length:  +7 \r\n\r\n"), 7);
    assert_eq!(parse_content_length(b"\xff\r\nContent-Length: 5\r\n\r\n"), 0);
}

#[test]
fn content_length_first_matching_line_wins() {
    let headers = b"HTTP/1.1 200 OK\r\nContent-Length: 3\r\nContent-Length: 9\r\n\r\n";
    assert_eq!(parse_content_length(headers), 3);
}

#[test]
fn is_chunked_first_transfer_encoding_decides() {
    let headers = b"HTTP/1.1 200 OK\r\nTransfer-Encoding: gzip\r\nTransfer-Encoding: chunked\r\n\r\n";
    assert!(!is_chunked(headers));
}

#[test]
fn response_status_edge_cases() {
    assert_eq!(parse_response_status(b"HTTP/1.1   301   Moved\r\n"), 301);
    assert_eq!(parse_response_status(b"HTTP/1.1 abc\r\n"), 502);
    assert_eq!(parse_response_status(b"HTTP/1.1 70000 Huge\r\n"), 502);
    assert_eq!(parse_response_status(b"HTTP/1.1"), 502);
}

#[test]
fn request_line_without_second_space() {
    assert_eq!(parse_request_line(b"GET /x"), ("GET".into(), "/x".into()));
    assert_eq!(parse_request_line(b"\xff /x"), ("?".into(), "?".into()));
}

#[test]
fn head_chunks_accumulate() {
    let mut buf = Vec::new();
    assert!(matches!(absorb_head_chunk(&mut buf, b"GET / HTTP/1.1\r\n"), HeadProgress::NeedMore));
    assert!(matches!(absorb_head_chunk(&mut buf, b"Host: x\r\n\r\nbody"), HeadProgress::Complete));
    assert_eq!(buf, b"GET / HTTP/1.1\r\nHost: x\r\n\r\nbody".to_vec());
    let mut big = Vec::new();
    let chunk = vec![b'a'; MAX_HEADER_SIZE + 1];
    assert!(matches!(absorb_head_chunk(&mut big, &chunk), HeadProgress::TooLarge));
}

#[test]
fn canned_responses() {
    assert_eq!(
        bad_gateway_response(),
        b"HTTP/1.1 502 Bad Gateway\r\nContent-Type: text/plain\r\nContent-Length: 39\r\nConnection: close\r\n\r\nFailed to connect to upstream service.\n".to_vec()
    );
    assert_eq!(
        not_found_response(),
        b"HTTP/1.1 404 Not Found\r\nContent-Type: text/plain\r\nContent-Length: 26\r\nConnection: close\r\n\r\nNo tunnel for this domain\n".to_vec()
    );
    assert_eq!(
        unauthorized_response(),
        b"HTTP/1.1 401 Unauthorized\r\nWWW-Authenticate: Basic realm=\"tnnl\"\r\nContent-Length: 0\r\nConnection: close\r\n\r\n".to_vec()
    );
}

#[test]
fn status_comes_from_the_first_line() {
    assert_eq!(parse_response_status(b"HTTP/1.1\r\n200 OK"), 502);
    assert_eq!(parse_response_status(b"H\r\n1"), 502);
    assert_eq!(parse_response_status(b"HTTP/1.1 abc OK\r\n"), 502);
    assert_eq!(parse_response_status(b"HTTP/1.1 201 Created\r\n\r\n\xff\xfe"), 201);
}

#[test]
fn request_line_ignores_bytes_after_it() {
    assert_eq!(
        parse_request_line(b"GET /x HTTP/1.1\r\n\r\n\xff"),
        ("GET".into(), "/x".into())
    );
    assert_eq!(parse_request_line(b"G /\r\n\xff"), ("G".into(), "/".into()));
}
