//! The control channel between client and server: its messages, their
//! newline framing, the client's authentication request and the server's
//! check of it.
use vstd::prelude::*;
use vstd::string::StringSliceAdditionalSpecFns;
use vstd::utf8::encode_utf8;
pub use crate::codec::compute_hmac;
use crate::codec::{b64_encode, hmac_sha256, str_eq};
use crate::proxy::{first_byte, lemma_first_byte, lemma_first_byte_sub};

verus! {

/// Longest control message line, in bytes, without its newline.
pub const MAX_CONTROL_MSG: usize = 4096;

/// Messages on the control stream, one JSON object per line.
#[derive(Debug)]
#[allow(inconsistent_fields)]
pub enum ControlMsg {
    /// Client to server: subdomain request and HMAC proof.
    /// The client picks `nonce`; `hmac` is HMAC-SHA256(secret, nonce) when the
    /// client has a secret.
    Auth { subdomain: Option<String>, nonce: String, hmac: Option<String> },
    /// Server to client: the tunnel is live.
    AuthOk { subdomain: String, url: String },
    /// Server to client: the tunnel was refused.
    Error { message: String },
}

/// The characters of an optional string.
pub open spec fn opt_view(o: Option<String>) -> Option<Seq<char>> {
    match o {
        Some(s) => Some(s@),
        None => None,
    }
}

/// The `hmac` field a client with `token` sends for `nonce`: none for an
/// empty token, else base64 of HMAC-SHA256(token, nonce).
pub open spec fn client_proof(token: Seq<char>, nonce: Seq<char>) -> Option<Seq<char>> {
    if token.len() == 0 {
        None
    } else {
        Some(b64_encode(hmac_sha256(encode_utf8(token), encode_utf8(nonce))))
    }
}

/// Whether a server with `secret` accepts the proof `provided` for `nonce`:
/// an open server accepts every client; otherwise the proof must be base64 of
/// HMAC-SHA256(secret, nonce).
pub open spec fn proof_accepted(
    secret: Option<Seq<char>>,
    nonce: Seq<char>,
    provided: Option<Seq<char>>,
) -> bool {
    match secret {
        None => true,
        Some(s) => provided == Some(b64_encode(hmac_sha256(encode_utf8(s), encode_utf8(nonce)))),
    }
}

/// A JSON-encoded control message framed as one line.
pub fn frame_line(json: &[u8]) -> (r: Vec<u8>)
    ensures
        r@ == json@.push(10u8),
{
    let mut out: Vec<u8> = Vec::new();
    crate::text::append_bytes(&mut out, json);
    out.push(10);
    out
}

/// What to do after one byte of a control line has been read.
pub enum LineStep {
    /// The newline arrived: the buffer holds the whole line.
    Complete,
    /// Keep reading.
    Continue,
    /// The line grew past `MAX_CONTROL_MSG` bytes.
    TooLarge,
}

/// One step of collecting a control line: a newline completes it (and is
/// not kept); any other byte is appended, and the line is too large once it
/// passes `MAX_CONTROL_MSG` bytes.
pub open spec fn step_line(buf: Seq<u8>, byte: u8) -> (Seq<u8>, LineStep) {
    if byte == 10u8 {
        (buf, LineStep::Complete)
    } else if buf.len() + 1 > MAX_CONTROL_MSG {
        (buf.push(byte), LineStep::TooLarge)
    } else {
        (buf.push(byte), LineStep::Continue)
    }
}

/// Feeding `bytes` one at a time to the line collector, from `buf`, until a
/// step says anything other than `Continue`.
pub open spec fn feed_line(buf: Seq<u8>, bytes: Seq<u8>) -> (Seq<u8>, LineStep)
    decreases bytes.len(),
{
    if bytes.len() == 0 {
        (buf, LineStep::Continue)
    } else {
        let (next, step) = step_line(buf, bytes[0]);
        match step {
            LineStep::Continue => feed_line(next, bytes.drop_first()),
            _ => (next, step),
        }
    }
}

/// Adds one byte read from the control stream to the line being collected
/// (see `step_line`).
pub fn absorb_control_byte(buf: &mut Vec<u8>, byte: u8) -> (r: LineStep)
    ensures
        (final(buf)@, r) == step_line(old(buf)@, byte),
{
    if byte == 10 {
        return LineStep::Complete;
    }
    buf.push(byte);
    if buf.len() > MAX_CONTROL_MSG {
        LineStep::TooLarge
    } else {
        LineStep::Continue
    }
}

proof fn lemma_feed_rest(buf: Seq<u8>, rest: Seq<u8>)
    requires
        buf.len() + rest.len() <= MAX_CONTROL_MSG,
        forall|i: int| 0 <= i < rest.len() ==> rest[i] != 10u8,
    ensures
        feed_line(buf, rest.push(10u8)) == (buf + rest, LineStep::Complete),
    decreases rest.len(),
{
    if rest.len() == 0 {
        assert(rest.push(10u8) =~= seq![10u8]);
        assert(seq![10u8].drop_first() =~= Seq::<u8>::empty());
        assert(buf + rest =~= buf);
    } else {
        let tail = rest.drop_first();
        assert(rest.push(10u8).drop_first() =~= tail.push(10u8));
        assert(rest.push(10u8)[0] == rest[0]);
        lemma_feed_rest(buf.push(rest[0]), tail);
        assert(buf.push(rest[0]) + tail =~= buf + rest);
    }
}

/// A control line is read back as it was framed: the JSON of a message
/// (which holds no newline and fits in `MAX_CONTROL_MSG` bytes), framed by
/// `frame_line` and fed byte by byte to an empty collector, completes with
/// exactly that JSON.
pub proof fn lemma_frame_roundtrip(json: Seq<u8>)
    requires
        json.len() <= MAX_CONTROL_MSG,
        forall|i: int| 0 <= i < json.len() ==> json[i] != 10u8,
    ensures
        feed_line(Seq::empty(), json.push(10u8)) == (json, LineStep::Complete),
{
    lemma_feed_rest(Seq::empty(), json);
    assert(Seq::<u8>::empty() + json =~= json);
}

proof fn lemma_read_line_from(buf: Seq<u8>, s: Seq<u8>)
    requires
        buf.len() <= MAX_CONTROL_MSG,
    ensures
        ({
            let k = first_byte(s, 0, s.len() as int, 10u8);
            &&& k < s.len() && buf.len() + k <= MAX_CONTROL_MSG ==> feed_line(buf, s) == (buf
                + s.subrange(0, k), LineStep::Complete)
            &&& buf.len() + k > MAX_CONTROL_MSG ==> feed_line(buf, s) == (buf + s.subrange(
                0,
                MAX_CONTROL_MSG + 1 - buf.len(),
            ), LineStep::TooLarge)
            &&& k == s.len() && buf.len() + s.len() <= MAX_CONTROL_MSG ==> feed_line(buf, s) == (
            buf + s, LineStep::Continue)
        }),
    decreases s.len(),
{
    let n = s.len() as int;
    lemma_first_byte(s, 0, n, 10u8);
    if n == 0 {
        assert(buf + s =~= buf);
        assert(buf + s.subrange(0, 0) =~= buf);
    } else if s[0] == 10u8 {
        assert(buf + s.subrange(0, 0) =~= buf);
    } else {
        let tail = s.drop_first();
        lemma_first_byte_sub(s, 1, 1, n, 10u8);
        assert(tail =~= s.subrange(1, n));
        let k = first_byte(s, 0, n, 10u8);
        assert(k == first_byte(s, 1, n, 10u8));
        let k2 = first_byte(tail, 0, tail.len() as int, 10u8);
        assert(k2 == k - 1);
        if buf.len() + 1 > MAX_CONTROL_MSG {
            assert(buf.push(s[0]) =~= buf + s.subrange(0, MAX_CONTROL_MSG + 1 - buf.len()));
        } else {
            lemma_read_line_from(buf.push(s[0]), tail);
            let b2 = buf.push(s[0]);
            if k < n && buf.len() + k <= MAX_CONTROL_MSG {
                assert(b2 + tail.subrange(0, k2) =~= buf + s.subrange(0, k));
            }
            if buf.len() + k > MAX_CONTROL_MSG {
                assert(b2 + tail.subrange(0, MAX_CONTROL_MSG + 1 - b2.len()) =~= buf + s.subrange(
                    0,
                    MAX_CONTROL_MSG + 1 - buf.len(),
                ));
            }
            if k == n && buf.len() + n <= MAX_CONTROL_MSG {
                assert(b2 + tail =~= buf + s);
            }
        }
    }
}

/// Reading a control line from a stream that yields the bytes `s`: when its
/// first newline comes within `MAX_CONTROL_MSG` bytes the line is the bytes
/// before it; when no newline comes within `MAX_CONTROL_MSG` bytes the line is
/// too large after `MAX_CONTROL_MSG + 1` bytes; when the stream ends first,
/// reading is still under way (the stream closed).
pub proof fn lemma_read_line(s: Seq<u8>)
    ensures
        ({
            let k = first_byte(s, 0, s.len() as int, 10u8);
            &&& k < s.len() && k <= MAX_CONTROL_MSG ==> feed_line(Seq::empty(), s) == (
            s.subrange(0, k), LineStep::Complete)
            &&& k > MAX_CONTROL_MSG ==> feed_line(Seq::empty(), s) == (s.subrange(
                0,
                MAX_CONTROL_MSG + 1,
            ), LineStep::TooLarge)
            &&& k == s.len() && s.len() <= MAX_CONTROL_MSG ==> feed_line(Seq::empty(), s) == (s,
            LineStep::Continue)
        }),
{
    lemma_read_line_from(Seq::empty(), s);
    let k = first_byte(s, 0, s.len() as int, 10u8);
    lemma_first_byte(s, 0, s.len() as int, 10u8);
    if k <= s.len() {
        assert(Seq::<u8>::empty() + s.subrange(0, k) =~= s.subrange(0, k));
    }
    if k > MAX_CONTROL_MSG {
        assert(Seq::<u8>::empty() + s.subrange(0, MAX_CONTROL_MSG + 1) =~= s.subrange(
            0,
            MAX_CONTROL_MSG + 1,
        ));
    }
    assert(Seq::<u8>::empty() + s =~= s);
}

/// The client's `Auth` message: the requested subdomain, the nonce, and the
/// HMAC proof of its token (none when the token is empty).
pub fn auth_request(token: &str, subdomain: Option<&str>, nonce: String) -> (r: ControlMsg)
    ensures
        r matches ControlMsg::Auth { subdomain: s, nonce: n, hmac: h } && n@ == nonce@
            && opt_view(s) == (match subdomain {
            Some(x) => Some(x@),
            None => None,
        }) && opt_view(h) == client_proof(token@, nonce@),
{
    let hmac = if token.is_empty() {
        None
    } else {
        Some(compute_hmac(token, nonce.as_str()))
    };
    let sub = match subdomain {
        Some(x) => Some(x.to_owned()),
        None => None,
    };
    ControlMsg::Auth { subdomain: sub, nonce, hmac }
}

/// How the server answered an `Auth` message.
pub enum AuthReply {
    /// The tunnel is live at this URL.
    Live(String),
    /// The server refused with this message.
    Refused(String),
    /// The server sent something other than `AuthOk` or `Error`.
    Unexpected,
}

/// Reads the server's answer to `Auth`.
pub fn auth_reply(resp: ControlMsg) -> (r: AuthReply)
    ensures
        match resp {
            ControlMsg::AuthOk { url, .. } => r matches AuthReply::Live(u) && u@ == url@,
            ControlMsg::Error { message } => r matches AuthReply::Refused(m) && m@ == message@,
            ControlMsg::Auth { .. } => r is Unexpected,
        },
{
    match resp {
        ControlMsg::AuthOk { url, .. } => AuthReply::Live(url),
        ControlMsg::Error { message } => AuthReply::Refused(message),
        ControlMsg::Auth { .. } => AuthReply::Unexpected,
    }
}

/// Whether the client's proof equals the expected one.
pub fn hmac_matches(expected: &str, provided: Option<&str>) -> (r: bool)
    ensures
        r == (provided matches Some(p) && p@ == expected@),
{
    match provided {
        Some(p) => str_eq(p, expected),
        None => false,
    }
}

/// The server's check of an `Auth` message (see `proof_accepted`).
pub fn secret_accepted(secret: Option<&str>, nonce: &str, provided: Option<&str>) -> (r: bool)
    ensures
        r == proof_accepted(
            match secret {
                Some(s) => Some(s@),
                None => None,
            },
            nonce@,
            match provided {
                Some(p) => Some(p@),
                None => None,
            },
        ),
{
    match secret {
        None => true,
        Some(s) => {
            let expected = compute_hmac(s, nonce);
            hmac_matches(expected.as_str(), provided)
        },
    }
}

/// A client and a server that share a non-empty secret agree: the proof the
/// client sends is the one the server accepts, whatever the nonce.
pub proof fn lemma_shared_secret_accepted(secret: Seq<char>, nonce: Seq<char>)
    requires
        secret.len() > 0,
    ensures
        proof_accepted(Some(secret), nonce, client_proof(secret, nonce)),
{
}

/// An open server (no secret) accepts every client, with or without a proof.
pub proof fn lemma_open_server_accepts(nonce: Seq<char>, provided: Option<Seq<char>>)
    ensures
        proof_accepted(None, nonce, provided),
{
}

/// A server with a secret refuses a client that sends no proof, which is what
/// a client with an empty token does.
pub proof fn lemma_no_proof_refused(secret: Seq<char>, nonce: Seq<char>)
    ensures
        !proof_accepted(Some(secret), nonce, client_proof(Seq::empty(), nonce)),
{
}

} // verus!
