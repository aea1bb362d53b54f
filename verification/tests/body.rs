use tnnl::body::{
    decode_pass, body_read_want, chunk_scan_overflows, decode_chunks, rebuild_resp_headers, ChunkStep,
    BODY_CAP, READ_CHUNK,
};

#[test]
fn decode_complete_chunked_body() {
    let raw = b"4\r\nWiki\r\n5\r\npedia\r\n0\r\n\r\n";
    let mut body = Vec::new();
    assert!(!chunk_scan_overflows(raw, 0));
    assert!(matches!(decode_chunks(raw, &mut body), ChunkStep::Done));
    assert_eq!(body, b"Wikipedia".to_vec());
}

#[test]
fn decode_chunk_extensions_and_spaces() {
    let raw = b" a ;name=value\r\n0123456789\r\n0\r\n\r\n";
    let mut body = Vec::new();
    assert!(matches!(decode_chunks(raw, &mut body), ChunkStep::Done));
    assert_eq!(body, b"0123456789".to_vec());
}

#[test]
fn decode_partial_chunk_asks_for_more() {
    let raw = b"4\r\nWiki\r\n5\r\nped";
    let mut body = Vec::new();
    match decode_chunks(raw, &mut body) {
        ChunkStep::NeedMore(pos) => assert_eq!(pos, 9),
        ChunkStep::Done => panic!("body is not complete"),
    }
    assert_eq!(body, b"Wiki".to_vec());
    // The rest arrives: the consumed prefix is dropped and decoding continues.
    let mut rest = raw[9..].to_vec();
    rest.extend_from_slice(b"ia\r\n0\r\n\r\n");
    assert!(matches!(decode_chunks(&rest, &mut body), ChunkStep::Done));
    assert_eq!(body, b"Wikipedia".to_vec());
}

#[test]
fn decode_terminal_chunk_needs_trailing_crlf() {
    let mut body = Vec::new();
    match decode_chunks(b"0\r\n", &mut body) {
        ChunkStep::NeedMore(pos) => assert_eq!(pos, 0),
        ChunkStep::Done => panic!("the final CRLF has not arrived"),
    }
    assert!(body.is_empty());
}

#[test]
fn decode_bad_size_ends_body() {
    // A size that does not parse counts as zero, which ends the body.
    let mut body = Vec::new();
    assert!(matches!(decode_chunks(b"zz\r\nabc\r\n\r\n", &mut body), ChunkStep::Done));
    assert!(body.is_empty());
}

#[test]
fn decode_stops_at_cap() {
    let mut body = vec![0u8; BODY_CAP - 2];
    let raw = b"3\r\nabc\r\n3\r\ndef\r\n0\r\n\r\n";
    assert!(matches!(decode_chunks(raw, &mut body), ChunkStep::Done));
    assert_eq!(body.len(), BODY_CAP + 1);
    assert_eq!(&body[BODY_CAP - 2..], b"abc");
}

#[test]
fn overflowing_chunk_size_is_found() {
    let raw = b"ffffffffffffffff\r\nabc\r\n";
    assert!(chunk_scan_overflows(raw, 0));
    assert!(!chunk_scan_overflows(b"3\r\nabc\r\n", 0));
}

#[test]
fn read_want_is_bounded() {
    assert_eq!(body_read_want(0, 10), 10);
    assert_eq!(body_read_want(10, 10), 0);
    assert_eq!(body_read_want(12, 10), 0);
    assert_eq!(body_read_want(0, 100_000), READ_CHUNK);
    assert_eq!(body_read_want(BODY_CAP - 5, usize::MAX), 5);
    assert_eq!(body_read_want(BODY_CAP, usize::MAX), 0);
}

#[test]
fn rebuild_unchunked_headers() {
    let headers = b"HTTP/1.1 200 OK\r\nTransfer-Encoding: chunked\r\nContent-Type: text/plain\r\ncontent-length: 3\r\n\r\n";
    assert_eq!(
        rebuild_resp_headers(headers, 9),
        b"HTTP/1.1 200 OK\r\nContent-Length: 9\r\nContent-Type: text/plain\r\n\r\n".to_vec()
    );
}

#[test]
fn rebuild_skips_dropped_status_line() {
    // No Content-Length is added when the first line itself is dropped.
    let headers = b"Transfer-Encoding: chunked\r\nX-A: 1\r\n\r\n";
    assert_eq!(rebuild_resp_headers(headers, 4), b"X-A: 1\r\n\r\n".to_vec());
}

#[test]
fn rebuild_reads_invalid_utf8_lossily() {
    let headers = b"HTTP/1.1 200 OK\r\nX-B: \xff\r\n\r\n";
    let mut expected = b"HTTP/1.1 200 OK\r\nContent-Length: 0\r\nX-B: ".to_vec();
    expected.extend_from_slice("\u{fffd}".as_bytes());
    expected.extend_from_slice(b"\r\n\r\n");
    assert_eq!(rebuild_resp_headers(headers, 0), expected);
}

fn feed(initial: &[u8], pieces: &[&[u8]]) -> Vec<u8> {
    let mut raw = initial.to_vec();
    let mut body = Vec::new();
    let mut next = pieces.iter();
    loop {
        assert!(!chunk_scan_overflows(&raw, body.len()));
        if decode_pass(&mut raw, &mut body) {
            break;
        }
        match next.next() {
            Some(p) => raw.extend_from_slice(p),
            None => break,
        }
    }
    body
}

#[test]
fn chunked_body_does_not_depend_on_the_split() {
    let whole: &[u8] = b"4\r\nWiki\r\n5;x=y\r\npedia\r\nE\r\n in\r\n\r\nchunks.\r\n0\r\n\r\n";
    let expected = b"Wikipedia in\r\n\r\nchunks.".to_vec();
    assert_eq!(feed(whole, &[]), expected);
    for cut in 0..=whole.len() {
        assert_eq!(feed(&whole[..cut], &[&whole[cut..]]), expected, "cut at {cut}");
    }
    let singles: Vec<&[u8]> = whole.chunks(1).collect();
    assert_eq!(feed(b"", &singles), expected);
    let threes: Vec<&[u8]> = whole[2..].chunks(3).collect();
    assert_eq!(feed(&whole[..2], &threes), expected);
}
