//! The tunnel client's rules: reconnect backoff, the basic-auth gate in front
//! of the local service, how a response body is read and forwarded, and the
//! capture and replay of requests.
use vstd::prelude::*;
use vstd::string::StringSliceAdditionalSpecFns;
use vstd::utf8::{decode_utf8, decode_utf8_encode_utf8, encode_utf8, valid_utf8};
use crate::body::{rebuild_resp_headers, rebuilt_head};
use crate::codec::{b64_encode, decode_b64, encode_b64, lemma_b64_roundtrip, str_eq};
use crate::proxy::{
    authorization_bytes, authorization_name, authorization_scan_ok, chunked_spec,
    content_length_spec, extract_authorization, headers_end, is_chunked, parse_content_length,
    prefixed_header,
};
use crate::store::StoredRequest;
use crate::text::{append_bytes, blank_line_at, lossy_utf8, utf8_lossy};

verus! {

/// Seconds to wait before the first reconnect.
pub const INITIAL_BACKOFF_SECS: u64 = 1;

/// Longest wait between reconnects, in seconds.
pub const MAX_BACKOFF_SECS: u64 = 30;

/// The wait after another failed attempt: doubled, at most `MAX_BACKOFF_SECS`.
pub open spec fn backoff_after(secs: nat) -> nat {
    if 2 * secs < MAX_BACKOFF_SECS {
        2 * secs
    } else {
        MAX_BACKOFF_SECS as nat
    }
}

/// The wait after another failed attempt (see `backoff_after`).
pub fn next_backoff(secs: u64) -> (r: u64)
    ensures
        r == backoff_after(secs as nat),
{
    if secs < MAX_BACKOFF_SECS / 2 {
        2 * secs
    } else {
        MAX_BACKOFF_SECS
    }
}

/// Reconnect waits grow and stay bounded: from any wait between the first one
/// and the cap, the next wait is no shorter and never above the cap.
pub proof fn lemma_backoff_bounded(secs: nat)
    requires
        INITIAL_BACKOFF_SECS <= secs <= MAX_BACKOFF_SECS,
    ensures
        secs <= backoff_after(secs) <= MAX_BACKOFF_SECS,
{
}

/// How a tunnel session ended.
pub enum SessionEnd {
    /// The user asked the client to stop.
    Shutdown,
    /// The server closed the connection.
    Dropped,
    /// Connecting, the handshake or the connection failed.
    Failed,
}

/// What the client does after a session ends.
pub enum Reconnect {
    /// Exit.
    Stop,
    /// Wait `wait` seconds and connect again; the wait after that is `next`.
    Retry { wait: u64, next: u64 },
}

/// The client stops only when asked to; a dropped or failed connection is
/// tried again after the current wait, and the wait grows (see `backoff_after`).
pub fn after_session(end: SessionEnd, backoff: u64) -> (r: Reconnect)
    ensures
        end is Shutdown ==> r is Stop,
        !(end is Shutdown) ==> r == (Reconnect::Retry {
            wait: backoff,
            next: backoff_after(backoff as nat) as u64,
        }),
{
    match end {
        SessionEnd::Shutdown => Reconnect::Stop,
        _ => Reconnect::Retry { wait: backoff, next: next_backoff(backoff) },
    }
}

/// The `Authorization` value a request must carry when the tunnel is
/// protected with `user:pass`: `Basic ` and the base64 of `user:pass`.
pub fn basic_auth_header(user_pass: &str) -> (r: String)
    ensures
        r@ == "Basic "@ + b64_encode(user_pass.spec_bytes()),
{
    let mut r = "Basic ".to_owned();
    let enc = encode_b64(user_pass.as_bytes());
    r.append(enc.as_str());
    r
}

/// Whether a request passes the tunnel's basic auth: always when none is
/// configured, else when its first `Authorization` value is exactly the
/// expected one.
pub open spec fn authorized_spec(expected: Option<Seq<char>>, headers: Seq<u8>) -> bool {
    match expected {
        None => true,
        Some(e) => valid_utf8(headers) && prefixed_header(headers, authorization_name()) is Some
            && decode_utf8(authorization_bytes(headers)) == e,
    }
}

/// The basic-auth gate (see `authorized_spec`).
pub fn request_authorized(expected: Option<&str>, headers: &[u8]) -> (r: bool)
    requires
        expected is Some ==> authorization_scan_ok(headers@),
    ensures
        r == authorized_spec(
            match expected {
                Some(e) => Some(e@),
                None => None,
            },
            headers@,
        ),
        expected is None ==> r,
        expected matches Some(e) ==> (r <==> (valid_utf8(headers@) && prefixed_header(
            headers@,
            authorization_name(),
        ) is Some && decode_utf8(authorization_bytes(headers@)) == e@)),
{
    match expected {
        None => true,
        Some(e) => match extract_authorization(headers) {
            None => false,
            Some(v) => str_eq(v.as_str(), e),
        },
    }
}

/// Basic auth admits a request exactly when the value found by
/// `extract_authorization` (the first `Authorization` line among the header
/// lines, wherever it stands, trimmed) is the expected one; with no expected
/// value every request passes.
pub proof fn lemma_gate_is_extracted_value(expected: Option<Seq<char>>, headers: Seq<u8>)
    ensures
        expected is None ==> authorized_spec(expected, headers),
        expected matches Some(e) ==> (authorized_spec(expected, headers) <==> (valid_utf8(headers)
            && prefixed_header(headers, authorization_name()) is Some && decode_utf8(
            authorization_bytes(headers),
        ) == e)),
{
}

/// Split point between headers and the body bytes read with them: just
/// after the first blank line, or the end of the buffer when there is none.
pub fn head_split(head: &[u8]) -> (r: usize)
    ensures
        r <= head@.len(),
        (exists|j: int| blank_line_at(head@, j)) ==> r >= 4 && blank_line_at(head@, r - 4)
            && forall|k: int| 0 <= k < r - 4 ==> !blank_line_at(head@, k),
        !(exists|j: int| blank_line_at(head@, j)) ==> r == head@.len(),
{
    match headers_end(head) {
        Some(e) => e,
        None => head.len(),
    }
}

/// How a response body is read in full.
pub enum BodyPlan {
    /// Read this many bytes (`Content-Length` above zero).
    Exact(usize),
    /// Decode chunks.
    Chunked,
    /// Keep what arrived with the headers.
    AsIs,
}

/// Chooses how to read a response body from its headers: by a non-zero
/// `Content-Length` first, else by chunks when chunked, else as it is.
pub fn plan_body(headers: &[u8]) -> (r: BodyPlan)
    ensures
        content_length_spec(headers@) > 0 ==> r == BodyPlan::Exact(
            content_length_spec(headers@) as usize,
        ),
        content_length_spec(headers@) == 0 && chunked_spec(headers@) ==> r is Chunked,
        content_length_spec(headers@) == 0 && !chunked_spec(headers@) ==> r is AsIs,
{
    let cl = parse_content_length(headers);
    if cl > 0 {
        BodyPlan::Exact(cl)
    } else if is_chunked(headers) {
        BodyPlan::Chunked
    } else {
        BodyPlan::AsIs
    }
}

/// The headers forwarded with a fully read body: rebuilt for the unchunked
/// body when the response was chunked, else unchanged.
pub fn forward_headers(headers: &[u8], body_len: usize) -> (r: Vec<u8>)
    ensures
        chunked_spec(headers@) ==> r@ == rebuilt_head(headers@, body_len as nat),
        !chunked_spec(headers@) ==> r@ == headers@,
{
    if is_chunked(headers) {
        rebuild_resp_headers(headers, body_len)
    } else {
        vstd::slice::slice_to_vec(headers)
    }
}

/// The record kept of a forwarded request: its header block read with
/// replacement characters for invalid UTF-8, and its body in base64.
pub fn capture_request(
    id: u64,
    port: u16,
    method: String,
    path: String,
    headers: &[u8],
    body: &[u8],
) -> (r: StoredRequest)
    ensures
        r.id == id,
        r.port == port,
        r.method == method,
        r.path == path,
        r.raw_headers@ == lossy_utf8(headers@),
        valid_utf8(headers@) ==> r.raw_headers@ == decode_utf8(headers@),
        r.body_b64@ == b64_encode(body@),
{
    StoredRequest {
        id,
        port,
        method,
        path,
        raw_headers: utf8_lossy(headers),
        body_b64: encode_b64(body),
    }
}

/// The bytes a replay sends: the stored headers, then the decoded body (no
/// body when the stored base64 does not decode).
pub fn replay_payload(req: &StoredRequest) -> (r: Vec<u8>)
    ensures
        (exists|v: Seq<u8>| b64_encode(v) == req.body_b64@) ==> exists|v: Seq<u8>|
            b64_encode(v) == req.body_b64@ && r@ == encode_utf8(req.raw_headers@) + v,
        !(exists|v: Seq<u8>| b64_encode(v) == req.body_b64@) ==> r@ == encode_utf8(
            req.raw_headers@,
        ),
{
    let mut out = vstd::slice::slice_to_vec(req.raw_headers.as_str().as_bytes());
    match decode_b64(req.body_b64.as_str()) {
        Some(body) => {
            append_bytes(&mut out, body.as_slice());
        },
        None => {},
    }
    out
}

/// A replay sends back exactly what was captured: the header block and the
/// very body bytes that were forwarded.
pub proof fn lemma_replay_roundtrip(
    captured: StoredRequest,
    headers: Seq<u8>,
    body: Seq<u8>,
    sent: Seq<u8>,
)
    requires
        valid_utf8(headers),
        captured.raw_headers@ == decode_utf8(headers),
        captured.body_b64@ == b64_encode(body),
        (exists|v: Seq<u8>| b64_encode(v) == captured.body_b64@) ==> exists|v: Seq<u8>|
            b64_encode(v) == captured.body_b64@ && sent == encode_utf8(captured.raw_headers@)
                + v,
    ensures
        sent == headers + body,
{
    assert(exists|v: Seq<u8>| b64_encode(v) == captured.body_b64@) by {
        assert(b64_encode(body) == captured.body_b64@);
    }
    let v = choose|v: Seq<u8>|
        b64_encode(v) == captured.body_b64@ && sent == encode_utf8(captured.raw_headers@) + v;
    lemma_b64_roundtrip(body, v);
    decode_utf8_encode_utf8(headers);
}

} // verus!
