//! What the request log shows: status words and colours, the clock column,
//! request columns, header rows of inspected messages, the shape of JSON
//! lines for colouring, and the preview of long bodies.
use vstd::prelude::*;
use vstd::string::StringSliceAdditionalSpecFns;
use vstd::utf8::{decode_utf8, encode_utf8, encode_utf8_valid_utf8, valid_utf8};
use crate::proxy::{find_byte, first_byte, lemma_first_byte, lemma_first_byte_sub};
use crate::text::{
    ascii_ieq, decimal, ieq_at, lemma_ascii_valid, lemma_trim_utf8, lemma_utf8_after_ascii, lemma_utf8_split,
    push_decimal, string_of, trim, trim_range, trim_start,
};

verus! {

/// Lines shown of an inspected body before the rest is summarised.
pub const BODY_PREVIEW_LINES: usize = 30;

/// The reason phrase shown next to a status code ("" for codes not listed).
pub open spec fn status_text_spec(status: u16) -> Seq<char> {
    if status == 200 {
        "OK"@
    } else if status == 201 {
        "Created"@
    } else if status == 204 {
        "No Content"@
    } else if status == 301 {
        "Moved Permanently"@
    } else if status == 302 {
        "Found"@
    } else if status == 304 {
        "Not Modified"@
    } else if status == 400 {
        "Bad Request"@
    } else if status == 401 {
        "Unauthorized"@
    } else if status == 403 {
        "Forbidden"@
    } else if status == 404 {
        "Not Found"@
    } else if status == 405 {
        "Method Not Allowed"@
    } else if status == 422 {
        "Unprocessable Entity"@
    } else if status == 429 {
        "Too Many Requests"@
    } else if status == 500 {
        "Internal Server Error"@
    } else if status == 502 {
        "Bad Gateway"@
    } else if status == 503 {
        "Service Unavailable"@
    } else {
        ""@
    }
}

/// The reason phrase of a status code (see `status_text_spec`).
pub fn status_text(status: u16) -> (r: &'static str)
    ensures
        r@ == status_text_spec(status),
{
    match status {
        200 => "OK",
        201 => "Created",
        204 => "No Content",
        301 => "Moved Permanently",
        302 => "Found",
        304 => "Not Modified",
        400 => "Bad Request",
        401 => "Unauthorized",
        403 => "Forbidden",
        404 => "Not Found",
        405 => "Method Not Allowed",
        422 => "Unprocessable Entity",
        429 => "Too Many Requests",
        500 => "Internal Server Error",
        502 => "Bad Gateway",
        503 => "Service Unavailable",
        _ => "",
    }
}

/// The reason phrases registered for HTTP status codes (RFC 9110, with
/// `429 Too Many Requests` from RFC 6585, and `422` under its RFC 4918 name
/// `Unprocessable Entity`).
pub open spec fn registered_phrase(code: u16) -> Option<Seq<char>> {
    match code {
        100 => Some("Continue"@),
        101 => Some("Switching Protocols"@),
        200 => Some("OK"@),
        201 => Some("Created"@),
        202 => Some("Accepted"@),
        203 => Some("Non-Authoritative Information"@),
        204 => Some("No Content"@),
        205 => Some("Reset Content"@),
        206 => Some("Partial Content"@),
        300 => Some("Multiple Choices"@),
        301 => Some("Moved Permanently"@),
        302 => Some("Found"@),
        303 => Some("See Other"@),
        304 => Some("Not Modified"@),
        305 => Some("Use Proxy"@),
        307 => Some("Temporary Redirect"@),
        308 => Some("Permanent Redirect"@),
        400 => Some("Bad Request"@),
        401 => Some("Unauthorized"@),
        402 => Some("Payment Required"@),
        403 => Some("Forbidden"@),
        404 => Some("Not Found"@),
        405 => Some("Method Not Allowed"@),
        406 => Some("Not Acceptable"@),
        407 => Some("Proxy Authentication Required"@),
        408 => Some("Request Timeout"@),
        409 => Some("Conflict"@),
        410 => Some("Gone"@),
        411 => Some("Length Required"@),
        412 => Some("Precondition Failed"@),
        413 => Some("Content Too Large"@),
        414 => Some("URI Too Long"@),
        415 => Some("Unsupported Media Type"@),
        416 => Some("Range Not Satisfiable"@),
        417 => Some("Expectation Failed"@),
        421 => Some("Misdirected Request"@),
        422 => Some("Unprocessable Entity"@),
        426 => Some("Upgrade Required"@),
        429 => Some("Too Many Requests"@),
        500 => Some("Internal Server Error"@),
        501 => Some("Not Implemented"@),
        502 => Some("Bad Gateway"@),
        503 => Some("Service Unavailable"@),
        504 => Some("Gateway Timeout"@),
        505 => Some("HTTP Version Not Supported"@),
        _ => None,
    }
}

/// The log never shows a wrong reason phrase: whatever phrase it shows next
/// to a status code is the one registered for that code, and the codes of the
/// canned answers all get theirs.
pub proof fn lemma_status_text_registered(code: u16)
    ensures
        status_text_spec(code).len() > 0 ==> registered_phrase(code) == Some(status_text_spec(code)),
        code == 200 || code == 301 || code == 401 || code == 404 || code == 502 ==> Some(
            status_text_spec(code),
        ) == registered_phrase(code),
{
    reveal_strlit("");
}

/// Colour of a status code in the log.
#[derive(Debug, PartialEq, Eq, Structural)]
pub enum StatusColor {
    Green,
    Cyan,
    Yellow,
    Red,
}

/// Success green, redirects cyan, client errors yellow, everything else red.
pub fn status_color(status: u16) -> (r: StatusColor)
    ensures
        200 <= status <= 299 ==> r == StatusColor::Green,
        300 <= status <= 399 ==> r == StatusColor::Cyan,
        400 <= status <= 499 ==> r == StatusColor::Yellow,
        (status < 200 || status > 499) ==> r == StatusColor::Red,
{
    if 200 <= status && status <= 299 {
        StatusColor::Green
    } else if 300 <= status && status <= 399 {
        StatusColor::Cyan
    } else if 400 <= status && status <= 499 {
        StatusColor::Yellow
    } else {
        StatusColor::Red
    }
}

/// A number with at least two digits.
pub open spec fn two_digits(n: nat) -> Seq<u8> {
    if n < 10 {
        seq![48u8] + decimal(n)
    } else {
        decimal(n)
    }
}

/// `mm:ss` for a number of seconds: minutes and seconds, each at least two
/// digits.
pub open spec fn clock_label_spec(secs: nat) -> Seq<u8> {
    two_digits(secs / 60) + seq![58u8] + two_digits(secs % 60)
}

proof fn lemma_decimal_ascii(n: nat)
    ensures
        forall|i: int| 0 <= i < decimal(n).len() ==> decimal(n)[i] <= 0x7f,
    decreases n,
{
    if n >= 10 {
        lemma_decimal_ascii(n / 10);
        let d = decimal(n);
        assert forall|i: int| 0 <= i < d.len() implies d[i] <= 0x7f by {
            if i < decimal(n / 10).len() {
                assert(d[i] == decimal(n / 10)[i]);
            }
        }
    }
}

fn push_two_digits(out: &mut Vec<u8>, n: u64)
    ensures
        final(out)@ == old(out)@ + two_digits(n as nat),
{
    if n < 10 {
        out.push(48);
        let ghost mid = out@;
        push_decimal(out, n);
        assert(final(out)@ =~= old(out)@ + two_digits(n as nat));
    } else {
        push_decimal(out, n);
    }
}

/// Value of an ASCII digit.
pub open spec fn digit_of(b: u8) -> int {
    b as int - 48
}

proof fn lemma_two_digits(n: nat)
    requires
        n < 100,
    ensures
        two_digits(n).len() == 2,
        is_digit(two_digits(n)[0]) && is_digit(two_digits(n)[1]),
        digit_of(two_digits(n)[0]) * 10 + digit_of(two_digits(n)[1]) == n,
{
    if n >= 10 {
        assert(decimal(n) == decimal(n / 10) + seq![(48 + n % 10) as u8]);
        assert(decimal(n / 10) == seq![(48 + n / 10) as u8]);
    }
}

proof fn lemma_decimal_len(n: nat)
    ensures
        decimal(n).len() >= 1,
        n >= 10 ==> decimal(n).len() >= 2,
    decreases n,
{
    if n >= 10 {
        lemma_decimal_len(n / 10);
    }
}

/// The clock column reads as `mm:ss`: it ends with a `:` and the two digits
/// of the seconds past the minute, and, below 100 minutes, it is exactly five
/// characters, the first two being the digits of the minutes.
pub proof fn lemma_clock_label_reads(secs: nat)
    ensures
        ({
            let r = clock_label_spec(secs);
            let n = r.len() as int;
            &&& n >= 5
            &&& r[n - 3] == 58u8
            &&& is_digit(r[n - 2]) && is_digit(r[n - 1])
            &&& digit_of(r[n - 2]) * 10 + digit_of(r[n - 1]) == secs % 60
            &&& secs < 6000 ==> (n == 5 && is_digit(r[0]) && is_digit(r[1]) && digit_of(r[0]) * 10
                + digit_of(r[1]) == secs / 60)
        }),
{
    let m = secs / 60;
    lemma_two_digits(secs % 60);
    let a = two_digits(m);
    let b = two_digits(secs % 60);
    let r = clock_label_spec(secs);
    assert(r == a + seq![58u8] + b);
    if m < 100 {
        lemma_two_digits(m);
    } else {
        lemma_decimal_len(m);
    }
    assert(a.len() >= 2);
    assert(r[r.len() - 3] == 58u8);
    assert(r[r.len() - 2] == b[0]);
    assert(r[r.len() - 1] == b[1]);
    if secs < 6000 {
        assert(r[0] == a[0] && r[1] == a[1]);
    }
}

/// The clock column of the log for `secs` seconds since start.
pub fn clock_label(secs: u64) -> (r: String)
    ensures
        r@ == decode_utf8(clock_label_spec(secs as nat)),
{
    let mut out: Vec<u8> = Vec::new();
    push_two_digits(&mut out, secs / 60);
    out.push(58);
    push_two_digits(&mut out, secs % 60);
    assert(out@ =~= clock_label_spec(secs as nat));
    proof {
        lemma_decimal_ascii(secs as nat / 60);
        lemma_decimal_ascii(secs as nat % 60);
        let s = clock_label_spec(secs as nat);
        assert forall|i: int| 0 <= i < s.len() implies s[i] <= 0x7f by {
            let a = two_digits(secs as nat / 60);
            let b = two_digits(secs as nat % 60);
            if i < a.len() {
                if secs / 60 < 10 && i >= 1 {
                    assert(a[i] == decimal(secs as nat / 60)[i - 1]);
                }
            } else if i > a.len() {
                if secs % 60 < 10 && i - a.len() - 1 >= 1 {
                    assert(b[i - a.len() - 1] == decimal(secs as nat % 60)[i - a.len() - 2]);
                }
            }
        }
        lemma_ascii_valid(s);
    }
    let n = out.len();
    assert(out@.subrange(0, n as int) =~= out@);
    string_of(out.as_slice(), 0, n)
}

/// Index of the `:` that ends a JSON key at the start of `s` (which starts
/// with the key's opening quote): scanning from index 1, a backslash skips the
/// next byte, the first unescaped `"` ends the key, and the key counts only
/// when a `:` follows it directly.
pub open spec fn key_colon_from(s: Seq<u8>, i: int) -> Option<int>
    decreases s.len() + 1 - i,
{
    if i < 1 || i >= s.len() {
        None
    } else if s[i] == 92u8 {
        key_colon_from(s, i + 2)
    } else if s[i] == 34u8 {
        if i + 1 < s.len() && s[i + 1] == 58u8 {
            Some(i + 1)
        } else {
            None
        }
    } else {
        key_colon_from(s, i + 1)
    }
}

/// Where the key of a JSON line (see `key_colon_from`) ends.
pub fn find_key_colon(s: &str) -> (r: Option<usize>)
    ensures
        match r {
            Some(c) => key_colon_from(s.spec_bytes(), 1) == Some(c as int),
            None => key_colon_from(s.spec_bytes(), 1) is None,
        },
{
    let b = s.as_bytes();
    let n = b.len();
    let mut i: usize = 1;
    while i < n
        invariant
            n == b@.len(),
            b@ == s.spec_bytes(),
            1 <= i,
            i <= n + 1,
            key_colon_from(b@, 1) == key_colon_from(b@, i as int),
        decreases n + 1 - i,
    {
        if b[i] == 92 {
            if n - i <= 2 {
                assert(key_colon_from(b@, i + 2) is None);
                return None;
            }
            i = i + 2;
        } else if b[i] == 34 {
            i = i + 1;
            if i < n && b[i] == 58 {
                return Some(i);
            }
            return None;
        } else {
            i = i + 1;
        }
    }
    None
}

/// Lines as `str::lines` yields them from `start` on: split at `\n`, a `\r`
/// before a `\n` dropped, no empty line after a final `\n`. Each line is given
/// by its bounds.
pub open spec fn lf_lines_from(s: Seq<u8>, start: int) -> Seq<(int, int)>
    decreases s.len() - start,
{
    if start < 0 || start >= s.len() {
        Seq::empty()
    } else {
        let nl = first_byte(s, start, s.len() as int, 10u8);
        proof {
            lemma_first_byte(s, start, s.len() as int, 10u8);
        }
        if nl >= s.len() {
            seq![(start, s.len() as int)]
        } else {
            let end = if nl > start && s[nl - 1] == 13u8 {
                nl - 1
            } else {
                nl
            };
            seq![(start, end)] + lf_lines_from(s, nl + 1)
        }
    }
}

/// The lines of `s` (see `lf_lines_from`).
pub open spec fn lf_lines(s: Seq<u8>) -> Seq<(int, int)> {
    lf_lines_from(s, 0)
}

/// `content-type`
pub open spec fn content_type_name() -> Seq<u8> {
    seq![99u8, 111u8, 110u8, 116u8, 101u8, 110u8, 116u8, 45u8, 116u8, 121u8, 112u8, 101u8]
}

/// The first line (from the `k`-th on) whose text before its first `:` is
/// `content-type` (ASCII case ignored): the bounds of its value, trimmed.
pub open spec fn content_type_from(s: Seq<u8>, lines: Seq<(int, int)>, k: int) -> Option<(int, int)>
    decreases lines.len() - k,
{
    if k < 0 || k >= lines.len() {
        None
    } else {
        let (a, b) = lines[k];
        let c = first_byte(s, a, b, 58u8);
        if c < b && ascii_ieq(s.subrange(a, c), content_type_name()) {
            Some((c + 1, b))
        } else {
            content_type_from(s, lines, k + 1)
        }
    }
}

/// The `Content-Type` value of a header block (empty when it has none),
/// trimmed.
pub open spec fn content_type_spec(s: Seq<u8>) -> Seq<u8> {
    match content_type_from(s, lf_lines(s), 0) {
        Some((a, b)) => trim(s.subrange(a, b)),
        None => Seq::empty(),
    }
}

proof fn lemma_lf_lines_bounds(s: Seq<u8>, start: int)
    requires
        0 <= start,
    ensures
        forall|k: int|
            0 <= k < lf_lines_from(s, start).len() ==> start <= (#[trigger] lf_lines_from(
                s,
                start,
            )[k]).0 <= lf_lines_from(s, start)[k].1 <= s.len(),
        forall|k: int|
            0 <= k < lf_lines_from(s, start).len() ==> (lf_lines_from(s, start)[k].1 < s.len()
                ==> (s[(#[trigger] lf_lines_from(s, start)[k]).1] == 10u8 || s[lf_lines_from(
                s,
                start,
            )[k].1] == 13u8)),
        forall|k: int|
            0 <= k < lf_lines_from(s, start).len() ==> ((#[trigger] lf_lines_from(s, start)[k]).0
                == start || (lf_lines_from(s, start)[k].0 > 0 && s[lf_lines_from(s, start)[k].0
                - 1] == 10u8)),
    decreases s.len() - start,
{
    if start < s.len() {
        lemma_first_byte(s, start, s.len() as int, 10u8);
        let nl = first_byte(s, start, s.len() as int, 10u8);
        if nl < s.len() {
            lemma_lf_lines_bounds(s, nl + 1);
            let rest = lf_lines_from(s, nl + 1);
            let all = lf_lines_from(s, start);
            assert forall|k: int| 1 <= k < all.len() implies all[k] == rest[k - 1] by {}
        }
    }
}

/// Walks the `str::lines` lines of `b`.
fn next_lf_line(b: &[u8], start: usize) -> (r: (usize, usize, usize))
    requires
        start < b@.len(),
    ensures
        ({
            let (a, e, next) = r;
            &&& lf_lines_from(b@, start as int).len() > 0
            &&& lf_lines_from(b@, start as int)[0] == (a as int, e as int)
            &&& lf_lines_from(b@, start as int).drop_first() == lf_lines_from(b@, next as int)
            &&& start < next <= b@.len()
            &&& a == start
        }),
{
    let n = b.len();
    let nl = find_byte(b, start, n, 10);
    proof {
        lemma_first_byte(b@, start as int, n as int, 10u8);
    }
    if nl >= n {
        assert(lf_lines_from(b@, n as int) =~= Seq::<(int, int)>::empty());
        assert(lf_lines_from(b@, start as int).drop_first() =~= Seq::<(int, int)>::empty());
        (start, n, n)
    } else {
        let end = if nl > start && b[nl - 1] == 13 {
            nl - 1
        } else {
            nl
        };
        assert(lf_lines_from(b@, start as int).drop_first() =~= lf_lines_from(b@, nl + 1));
        (start, end, nl + 1)
    }
}

/// The `Content-Type` of raw headers (see `content_type_spec`).
pub fn extract_content_type(headers: &str) -> (r: String)
    ensures
        r@ == decode_utf8(content_type_spec(headers.spec_bytes())),
        valid_utf8(content_type_spec(headers.spec_bytes())),
{
    let b = headers.as_bytes();
    let n = b.len();
    let name: [u8; 12] = [99, 111, 110, 116, 101, 110, 116, 45, 116, 121, 112, 101];
    assert(name@ =~= content_type_name());
    let ghost lines = lf_lines(b@);
    let mut start: usize = 0;
    let ghost mut k: int = 0;
    proof {
        encode_utf8_valid_utf8(headers@);
        lemma_lf_lines_bounds(b@, 0);
    }
    while start < n
        invariant
            n == b@.len(),
            b@ == headers.spec_bytes(),
            valid_utf8(b@),
            name@ == content_type_name(),
            lines == lf_lines(b@),
            0 <= k <= lines.len(),
            start <= n + 1,
            lf_lines_from(b@, start as int) == lines.subrange(k, lines.len() as int),
            content_type_from(b@, lines, 0) == content_type_from(b@, lines, k),
            forall|j: int|
                0 <= j < lines.len() ==> 0 <= (#[trigger] lines[j]).0 <= lines[j].1 <= b@.len(),
            forall|j: int|
                0 <= j < lines.len() ==> (lines[j].1 < b@.len() ==> (b@[(#[trigger] lines[j]).1]
                    == 10u8 || b@[lines[j].1] == 13u8)),
            forall|j: int|
                0 <= j < lines.len() ==> ((#[trigger] lines[j]).0 == 0 || b@[lines[j].0 - 1]
                    == 10u8),
        decreases n + 1 - start,
    {
        let (a, e, next) = next_lf_line(b, start);
        proof {
            assert(lines[k] == lf_lines_from(b@, start as int)[0]);
            assert(lines.subrange(k + 1, lines.len() as int) =~= lines.subrange(
                k,
                lines.len() as int,
            ).drop_first());
        }
        let c = find_byte(b, a, e, 58);
        proof {
            lemma_first_byte(b@, a as int, e as int, 58u8);
        }
        if c < e && c - a == 12 && ieq_at(b, a, &name) {
            proof {
                assert(b@.subrange(a as int, c as int) =~= b@.subrange(a as int, a + 12));
                if a > 0 {
                    lemma_utf8_after_ascii(b@, a - 1);
                } else {
                    assert(b@.subrange(0, b@.len() as int) =~= b@);
                }
                let t = b@.subrange(a as int, b@.len() as int);
                lemma_utf8_after_ascii(t, c - a);
                assert(t.subrange(c - a + 1, t.len() as int) =~= b@.subrange(c + 1, b@.len() as int));
                let u = b@.subrange(c + 1, b@.len() as int);
                if e < n {
                    assert(u[e - c - 1] == b@[e as int]);
                }
                lemma_utf8_split(u, e - c - 1);
                assert(u.subrange(0, e - c - 1) =~= b@.subrange(c + 1, e as int));
                lemma_trim_utf8(b@.subrange(c + 1, e as int));
            }
            let (ta, tb) = trim_range(b, c + 1, e);
            return string_of(b, ta, tb);
        }
        proof {
            if c < e && ascii_ieq(b@.subrange(a as int, c as int), content_type_name()) {
                assert(false);
            }
        }
        start = next;
        proof {
            k = k + 1;
        }
    }
    proof {
        assert(lines.subrange(k, lines.len() as int).len() == 0);
    }
    String::new()
}

/// How a JSON value is coloured in an inspected body.
#[derive(Debug, PartialEq, Eq, Structural)]
pub enum ValueKind {
    /// `true` or `false`.
    Boolean,
    /// `null`.
    Null,
    /// A lone bracket or brace.
    Bracket,
    /// Text that starts and ends with `"`.
    Quoted,
    /// Text that reads as a floating-point number.
    Number,
    /// Anything else.
    Plain,
}

pub open spec fn is_digit(b: u8) -> bool {
    48 <= b <= 57
}

/// Index just past the run of ASCII digits that starts at `i`.
pub open spec fn digit_run(s: Seq<u8>, i: int) -> int
    decreases s.len() - i,
{
    if 0 <= i < s.len() && is_digit(s[i]) {
        digit_run(s, i + 1)
    } else {
        i
    }
}

/// Whether `s[i..]` is an exponent's sign and digits: an optional `+` or
/// `-`, then at least one digit, then nothing.
pub open spec fn exponent_tail(s: Seq<u8>, i: int) -> bool {
    let j = if 0 <= i < s.len() && (s[i] == 43u8 || s[i] == 45u8) {
        i + 1
    } else {
        i
    };
    digit_run(s, j) > j && digit_run(s, j) == s.len()
}

/// A decimal number as the standard library's float parser reads it: digits,
/// optionally a `.` and more digits (at least one digit in all), optionally
/// `e` or `E` and an exponent.
pub open spec fn decimal_literal(s: Seq<u8>) -> bool {
    let e1 = digit_run(s, 0);
    let has_dot = e1 < s.len() && s[e1] == 46u8;
    let m_end = if has_dot {
        digit_run(s, e1 + 1)
    } else {
        e1
    };
    let digits = if has_dot {
        e1 + (m_end - e1 - 1)
    } else {
        e1
    };
    &&& digits >= 1
    &&& (m_end == s.len() || ((s[m_end] == 101u8 || s[m_end] == 69u8) && exponent_tail(
        s,
        m_end + 1,
    )))
}

/// `inf`, `infinity` and `nan`, in any ASCII case.
pub open spec fn special_float(s: Seq<u8>) -> bool {
    ascii_ieq(s, seq![105u8, 110u8, 102u8]) || ascii_ieq(
        s,
        seq![105u8, 110u8, 102u8, 105u8, 110u8, 105u8, 116u8, 121u8],
    ) || ascii_ieq(s, seq![110u8, 97u8, 110u8])
}

/// Whether `s` parses as an `f64`: an optional sign, then a special value or
/// a decimal number.
pub open spec fn float_literal(s: Seq<u8>) -> bool {
    let body = if s.len() > 0 && (s[0] == 43u8 || s[0] == 45u8) {
        s.drop_first()
    } else {
        s
    };
    special_float(body) || decimal_literal(body)
}

fn skip_digits(b: &[u8], i: usize) -> (r: usize)
    requires
        i <= b@.len(),
    ensures
        r as int == digit_run(b@, i as int),
        i <= r <= b@.len(),
{
    let n = b.len();
    let mut k = i;
    while k < n && 48 <= b[k] && b[k] <= 57
        invariant
            i <= k <= n,
            n == b@.len(),
            digit_run(b@, i as int) == digit_run(b@, k as int),
        decreases n - k,
    {
        k = k + 1;
    }
    k
}

fn is_decimal_literal(b: &[u8], start: usize) -> (r: bool)
    requires
        start <= b@.len(),
    ensures
        r == decimal_literal(b@.subrange(start as int, b@.len() as int)),
{
    let ghost t = b@.subrange(start as int, b@.len() as int);
    let n = b.len();
    proof {
        lemma_digit_run_shift(b@, start as int, start as int);
    }
    let e1 = skip_digits(b, start);
    let has_dot = e1 < n && b[e1] == 46;
    let m_end = if has_dot {
        proof {
            lemma_digit_run_shift(b@, start as int, e1 + 1);
        }
        skip_digits(b, e1 + 1)
    } else {
        e1
    };
    let digits = if has_dot {
        (e1 - start) + (m_end - e1 - 1)
    } else {
        e1 - start
    };
    if has_dot {
        assert(t[e1 - start] == b@[e1 as int]);
    } else if e1 < n {
        assert(t[e1 - start] == b@[e1 as int]);
    }
    if digits < 1 {
        return false;
    }
    if m_end == n {
        return true;
    }
    assert(t[m_end - start] == b@[m_end as int]);
    if !(b[m_end] == 101 || b[m_end] == 69) {
        return false;
    }
    let i = m_end + 1;
    let j = if i < n && (b[i] == 43 || b[i] == 45) {
        i + 1
    } else {
        i
    };
    if i < n {
        assert(t[i - start] == b@[i as int]);
    }
    proof {
        lemma_digit_run_shift(b@, start as int, j as int);
    }
    let k = skip_digits(b, j);
    k > j && k == n
}

proof fn lemma_digit_run_shift(s: Seq<u8>, start: int, i: int)
    requires
        0 <= start <= i <= s.len(),
    ensures
        digit_run(s.subrange(start, s.len() as int), i - start) == digit_run(s, i) - start,
    decreases s.len() - i,
{
    let t = s.subrange(start, s.len() as int);
    if i < s.len() {
        assert(t[i - start] == s[i]);
        if is_digit(s[i]) {
            lemma_digit_run_shift(s, start, i + 1);
        }
    }
}

fn is_float_literal(b: &[u8]) -> (r: bool)
    ensures
        r == float_literal(b@),
{
    let n = b.len();
    let start: usize = if n > 0 && (b[0] == 43 || b[0] == 45) {
        1
    } else {
        0
    };
    let ghost body = b@.subrange(start as int, n as int);
    assert(body =~= (if b@.len() > 0 && (b@[0] == 43u8 || b@[0] == 45u8) {
        b@.drop_first()
    } else {
        b@
    }));
    let inf: [u8; 3] = [105, 110, 102];
    let infinity: [u8; 8] = [105, 110, 102, 105, 110, 105, 116, 121];
    let nan: [u8; 3] = [110, 97, 110];
    assert(inf@ =~= seq![105u8, 110u8, 102u8]);
    assert(infinity@ =~= seq![105u8, 110u8, 102u8, 105u8, 110u8, 105u8, 116u8, 121u8]);
    assert(nan@ =~= seq![110u8, 97u8, 110u8]);
    let rest = n - start;
    let special = (rest == 3 && ieq_at(b, start, &inf)) || (rest == 8 && ieq_at(b, start, &infinity))
        || (rest == 3 && ieq_at(b, start, &nan));
    special || is_decimal_literal(b, start)
}

/// The colour class of a JSON value as printed.
pub open spec fn value_kind_spec(v: Seq<u8>) -> ValueKind {
    if v == seq![116u8, 114u8, 117u8, 101u8] || v == seq![102u8, 97u8, 108u8, 115u8, 101u8] {
        ValueKind::Boolean
    } else if v == seq![110u8, 117u8, 108u8, 108u8] {
        ValueKind::Null
    } else if v == seq![123u8] || v == seq![125u8] || v == seq![91u8] || v == seq![93u8] {
        ValueKind::Bracket
    } else if v.len() > 0 && v[0] == 34u8 && v[v.len() - 1] == 34u8 {
        ValueKind::Quoted
    } else if float_literal(v) {
        ValueKind::Number
    } else {
        ValueKind::Plain
    }
}

fn bytes_eq(b: &[u8], lit: &[u8]) -> (r: bool)
    ensures
        r == (b@ == lit@),
{
    if b.len() != lit.len() {
        return false;
    }
    let n = b.len();
    let mut i: usize = 0;
    while i < n
        invariant
            n == b@.len(),
            n == lit@.len(),
            i <= n,
            forall|k: int| 0 <= k < i ==> b@[k] == lit@[k],
        decreases n - i,
    {
        if b[i] != lit[i] {
            return false;
        }
        i = i + 1;
    }
    assert(b@ =~= lit@);
    true
}

/// The colour class of a printed JSON value (see `value_kind_spec`).
pub fn value_kind(v: &str) -> (r: ValueKind)
    ensures
        r == value_kind_spec(v.spec_bytes()),
{
    let b = v.as_bytes();
    let t: [u8; 4] = [116, 114, 117, 101];
    let f: [u8; 5] = [102, 97, 108, 115, 101];
    let nl: [u8; 4] = [110, 117, 108, 108];
    let o: [u8; 1] = [123];
    let c: [u8; 1] = [125];
    let lb: [u8; 1] = [91];
    let rb: [u8; 1] = [93];
    assert(t@ =~= seq![116u8, 114u8, 117u8, 101u8]);
    assert(f@ =~= seq![102u8, 97u8, 108u8, 115u8, 101u8]);
    assert(nl@ =~= seq![110u8, 117u8, 108u8, 108u8]);
    assert(o@ =~= seq![123u8]);
    assert(c@ =~= seq![125u8]);
    assert(lb@ =~= seq![91u8]);
    assert(rb@ =~= seq![93u8]);
    if bytes_eq(b, &t) || bytes_eq(b, &f) {
        ValueKind::Boolean
    } else if bytes_eq(b, &nl) {
        ValueKind::Null
    } else if bytes_eq(b, &o) || bytes_eq(b, &c) || bytes_eq(b, &lb) || bytes_eq(b, &rb) {
        ValueKind::Bracket
    } else if b.len() > 0 && b[0] == 34 && b[b.len() - 1] == 34 {
        ValueKind::Quoted
    } else if is_float_literal(b) {
        ValueKind::Number
    } else {
        ValueKind::Plain
    }
}

/// How a line of pretty-printed JSON splits for colouring. Offsets are byte
/// offsets into the line; the indentation is the line's leading whitespace.
#[derive(Debug, PartialEq, Eq, Structural)]
pub enum JsonShape {
    /// The rest of the line is `{`, `}`, `},`, `[`, `]` or `],`.
    Punct,
    /// A key (up to `key_end`), a value (`value_start..value_end`), and
    /// whether a `,` follows the value.
    Keyed { key_end: usize, value_start: usize, value_end: usize, comma: bool },
    /// A value (from the end of the indentation to `value_end`), and whether a
    /// `,` follows it.
    Plain { value_end: usize, comma: bool },
}

/// A line of pretty-printed JSON: where its indentation ends and its shape.
#[derive(Debug, PartialEq, Eq, Structural)]
pub struct JsonLine {
    pub indent_end: usize,
    pub shape: JsonShape,
}

/// The bracket lines: `{`, `}`, `},`, `[`, `]`, `],`.
pub open spec fn bracket_line(t: Seq<u8>) -> bool {
    ||| t == seq![123u8]
    ||| t == seq![125u8]
    ||| t == seq![125u8, 44u8]
    ||| t == seq![91u8]
    ||| t == seq![93u8]
    ||| t == seq![93u8, 44u8]
}

/// Whether the text from `from` to the end of `s` is non-empty and ends with `,`.
pub open spec fn ends_with_comma(s: Seq<u8>, from: int) -> bool {
    from < s.len() && s[s.len() - 1] == 44u8
}

/// The shape of a line of pretty-printed JSON.
pub open spec fn json_line_spec(s: Seq<u8>) -> JsonLine {
    let t0 = s.len() - trim_start(s).len();
    let t = s.subrange(t0, s.len() as int);
    if bracket_line(t) {
        JsonLine { indent_end: t0 as usize, shape: JsonShape::Punct }
    } else if t.len() > 0 && t[0] == 34u8 && key_colon_from(t, 1) is Some {
        let c = key_colon_from(t, 1).unwrap();
        let after = s.subrange(t0 + c + 1, s.len() as int);
        let vs = s.len() - trim_start(after).len();
        let comma = ends_with_comma(s, vs);
        JsonLine {
            indent_end: t0 as usize,
            shape: JsonShape::Keyed {
                key_end: (t0 + c) as usize,
                value_start: vs as usize,
                value_end: (if comma {
                    s.len() - 1
                } else {
                    s.len() as int
                }) as usize,
                comma,
            },
        }
    } else {
        let comma = ends_with_comma(s, t0);
        JsonLine {
            indent_end: t0 as usize,
            shape: JsonShape::Plain {
                value_end: (if comma {
                    s.len() - 1
                } else {
                    s.len() as int
                }) as usize,
                comma,
            },
        }
    }
}

proof fn lemma_key_colon_shift(s: Seq<u8>, t0: int, i: int)
    requires
        0 <= t0 <= s.len(),
        1 <= i,
    ensures
        key_colon_from(s.subrange(t0, s.len() as int), i) == (match key_colon_from_at(s, t0, i) {
            Some(c) => Some(c),
            None => None::<int>,
        }),
    decreases s.len() + 1 - (t0 + i),
{
    let t = s.subrange(t0, s.len() as int);
    if i < t.len() {
        assert(t[i] == s[t0 + i]);
        if i + 1 < t.len() {
            assert(t[i + 1] == s[t0 + i + 1]);
        }
        if t[i] == 92u8 {
            lemma_key_colon_shift(s, t0, i + 2);
        } else if t[i] != 34u8 {
            lemma_key_colon_shift(s, t0, i + 1);
        }
    }
}

/// `key_colon_from` on `s[t0..]`, reading `s` directly.
pub open spec fn key_colon_from_at(s: Seq<u8>, t0: int, i: int) -> Option<int>
    decreases s.len() + 1 - (t0 + i),
{
    if i < 1 || t0 + i >= s.len() || t0 < 0 {
        None
    } else if s[t0 + i] == 92u8 {
        key_colon_from_at(s, t0, i + 2)
    } else if s[t0 + i] == 34u8 {
        if t0 + i + 1 < s.len() && s[t0 + i + 1] == 58u8 {
            Some(i + 1)
        } else {
            None
        }
    } else {
        key_colon_from_at(s, t0, i + 1)
    }
}

fn key_colon_in(b: &[u8], t0: usize) -> (r: Option<usize>)
    requires
        t0 <= b@.len(),
    ensures
        match r {
            Some(c) => key_colon_from_at(b@, t0 as int, 1) == Some(c as int) && t0 + c < b@.len(),
            None => key_colon_from_at(b@, t0 as int, 1) is None,
        },
{
    let n = b.len();
    if n - t0 <= 1 {
        return None;
    }
    let mut i: usize = 1;
    while i < n - t0
        invariant
            n == b@.len(),
            t0 <= n,
            1 <= i,
            key_colon_from_at(b@, t0 as int, 1) == key_colon_from_at(b@, t0 as int, i as int),
        decreases n - t0 - i,
    {
        if b[t0 + i] == 92 {
            if n - t0 - i <= 2 {
                assert(key_colon_from_at(b@, t0 as int, i + 2) is None);
                return None;
            }
            i = i + 2;
        } else if b[t0 + i] == 34 {
            if t0 + i + 1 < n && b[t0 + i + 1] == 58 {
                return Some(i + 1);
            }
            return None;
        } else {
            i = i + 1;
        }
    }
    None
}

/// The shape of a line of pretty-printed JSON (see `json_line_spec`).
#[verifier::rlimit(50)]
pub fn json_line(line: &str) -> (r: JsonLine)
    ensures
        r == json_line_spec(line.spec_bytes()),
{
    let b = line.as_bytes();
    let n = b.len();
    let t0 = crate::text::trim_start_range(b, 0, n);
    assert(b@.subrange(0, n as int) =~= b@);
    let ghost t = b@.subrange(t0 as int, n as int);
    let rest = n - t0;
    let is_bracket = (rest == 1 && (b[t0] == 123 || b[t0] == 125 || b[t0] == 91 || b[t0] == 93))
        || (rest == 2 && (b[t0] == 125 || b[t0] == 93) && b[t0 + 1] == 44);
    proof {
        if rest == 1 {
            assert(t[0] == b@[t0 as int]);
        }
        if rest == 2 {
            assert(t[0] == b@[t0 as int]);
            assert(t[1] == b@[t0 + 1]);
        }
        if rest == 1 && (b@[t0 as int] == 123u8) {
            assert(t =~= seq![123u8]);
        }
        if rest == 1 && (b@[t0 as int] == 125u8) {
            assert(t =~= seq![125u8]);
        }
        if rest == 1 && (b@[t0 as int] == 91u8) {
            assert(t =~= seq![91u8]);
        }
        if rest == 1 && (b@[t0 as int] == 93u8) {
            assert(t =~= seq![93u8]);
        }
        if rest == 2 && b@[t0 as int] == 125u8 && b@[t0 + 1] == 44u8 {
            assert(t =~= seq![125u8, 44u8]);
        }
        if rest == 2 && b@[t0 as int] == 93u8 && b@[t0 + 1] == 44u8 {
            assert(t =~= seq![93u8, 44u8]);
        }
    }
    if is_bracket {
        return JsonLine { indent_end: t0, shape: JsonShape::Punct };
    }
    proof {
        lemma_key_colon_shift(b@, t0 as int, 1);
        if rest > 0 {
            assert(t[0] == b@[t0 as int]);
        }
    }
    if rest > 0 && b[t0] == 34 {
        match key_colon_in(b, t0) {
            Some(c) => {
                let vs = crate::text::trim_start_range(b, t0 + c + 1, n);
                let comma = vs < n && b[n - 1] == 44;
                let value_end = if comma {
                    n - 1
                } else {
                    n
                };
                return JsonLine {
                    indent_end: t0,
                    shape: JsonShape::Keyed { key_end: t0 + c, value_start: vs, value_end, comma },
                };
            },
            None => {},
        }
    }
    let comma = t0 < n && b[n - 1] == 44;
    let value_end = if comma {
        n - 1
    } else {
        n
    };
    JsonLine { indent_end: t0, shape: JsonShape::Plain { value_end, comma } }
}

proof fn lemma_key_colon_bounds(t: Seq<u8>, i: int)
    requires
        1 <= i,
    ensures
        key_colon_from(t, i) matches Some(c) ==> i < c < t.len() && t[c] == 58u8,
    decreases t.len() + 1 - i,
{
    if i < t.len() {
        if t[i] == 92u8 {
            lemma_key_colon_bounds(t, i + 2);
        } else if t[i] != 34u8 {
            lemma_key_colon_bounds(t, i + 1);
        }
    }
}

proof fn lemma_trim_start_suffix(x: Seq<u8>)
    ensures
        trim_start(x).len() <= x.len(),
        trim_start(x) == x.subrange(x.len() - trim_start(x).len(), x.len() as int),
    decreases x.len(),
{
    let k = crate::text::ws_prefix_len(x);
    if k == 0 {
        assert(x.subrange(0, x.len() as int) =~= x);
    } else {
        let y = x.subrange(k, x.len() as int);
        lemma_trim_start_suffix(y);
        assert(y.subrange(y.len() - trim_start(y).len(), y.len() as int) =~= x.subrange(
            x.len() - trim_start(y).len(),
            x.len() as int,
        ));
    }
}

/// A line of pretty-printed JSON splits into its pieces and nothing else:
/// the indentation is the leading whitespace; a bracket line is the bracket
/// after it; a keyed line is the key, its `:`, whitespace, the value and an
/// optional `,`; any other line is the value and an optional `,`. Putting the
/// pieces back in order gives the line.
pub proof fn lemma_json_line_pieces(s: Seq<u8>)
    requires
        s.len() <= usize::MAX,
    ensures
        ({
            let l = json_line_spec(s);
            let i = l.indent_end as int;
            &&& i <= s.len()
            &&& trim_start(s) == s.subrange(i, s.len() as int)
            &&& match l.shape {
                JsonShape::Punct => bracket_line(s.subrange(i, s.len() as int)),
                JsonShape::Keyed { key_end, value_start, value_end, comma } => {
                    &&& i < key_end < value_start <= value_end <= s.len()
                    &&& s[key_end as int] == 58u8
                    &&& trim_start(s.subrange(key_end + 1, s.len() as int)) == s.subrange(
                        value_start as int,
                        s.len() as int,
                    )
                    &&& (if comma {
                        value_end + 1 == s.len() && s[value_end as int] == 44u8
                    } else {
                        value_end == s.len()
                    })
                },
                JsonShape::Plain { value_end, comma } => {
                    &&& i <= value_end
                    &&& (if comma {
                        value_end + 1 == s.len() && s[value_end as int] == 44u8
                    } else {
                        value_end == s.len()
                    })
                },
            }
        }),
{
    lemma_trim_start_suffix(s);
    let t0 = s.len() - trim_start(s).len();
    let t = s.subrange(t0, s.len() as int);
    if !bracket_line(t) && t.len() > 0 && t[0] == 34u8 && key_colon_from(t, 1) is Some {
        let c = key_colon_from(t, 1).unwrap();
        lemma_key_colon_bounds(t, 1);
        assert(s[t0 + c] == t[c]);
        let after = s.subrange(t0 + c + 1, s.len() as int);
        lemma_trim_start_suffix(after);
        let vs = s.len() - trim_start(after).len();
        assert(after.subrange(after.len() - trim_start(after).len(), after.len() as int)
            =~= s.subrange(vs, s.len() as int));
    }
}

proof fn lemma_piece_valid(s: Seq<u8>, a: int, e: int)
    requires
        valid_utf8(s),
        0 <= a <= e <= s.len(),
        a == 0 || s[a - 1] <= 0x7f,
        e == s.len() || s[e] <= 0x7f,
    ensures
        valid_utf8(s.subrange(a, e)),
{
    if a > 0 {
        lemma_utf8_after_ascii(s, a - 1);
    } else {
        assert(s.subrange(0, s.len() as int) =~= s);
    }
    let t = s.subrange(a, s.len() as int);
    if e < s.len() {
        assert(t[e - a] == s[e]);
    }
    lemma_utf8_split(t, e - a);
    assert(t.subrange(0, e - a) =~= s.subrange(a, e));
}

/// The first `k` lines joined with `\n`, as characters.
pub open spec fn joined_lines(s: Seq<u8>, ls: Seq<(int, int)>) -> Seq<char>
    decreases ls.len(),
{
    if ls.len() == 0 {
        Seq::empty()
    } else if ls.len() == 1 {
        decode_utf8(s.subrange(ls[0].0, ls[0].1))
    } else {
        joined_lines(s, ls.drop_last()) + seq!['\n'] + decode_utf8(
            s.subrange(ls.last().0, ls.last().1),
        )
    }
}

/// A long body is cut to its first `BODY_PREVIEW_LINES` lines: those lines
/// joined with `\n`, and the number of lines left out. `None` when the text
/// has no more lines than that.
pub fn preview(text: &str) -> (r: Option<(String, usize)>)
    ensures
        lf_lines(text.spec_bytes()).len() <= BODY_PREVIEW_LINES ==> r is None,
        lf_lines(text.spec_bytes()).len() > BODY_PREVIEW_LINES ==> (r matches Some((shown, rest))
            && shown@ == joined_lines(
            text.spec_bytes(),
            lf_lines(text.spec_bytes()).subrange(0, BODY_PREVIEW_LINES as int),
        ) && rest == lf_lines(text.spec_bytes()).len() - BODY_PREVIEW_LINES),
{
    let b = text.as_bytes();
    let n = b.len();
    let ghost lines = lf_lines(b@);
    proof {
        encode_utf8_valid_utf8(text@);
        lemma_lf_lines_bounds(b@, 0);
    }
    let mut shown = String::new();
    let mut count: usize = 0;
    let mut start: usize = 0;
    while start < n
        invariant
            n == b@.len(),
            b@ == text.spec_bytes(),
            valid_utf8(b@),
            lines == lf_lines(b@),
            count <= lines.len(),
            count <= start,
            start <= n,
            lf_lines_from(b@, start as int) == lines.subrange(count as int, lines.len() as int),
            shown@ == joined_lines(
                b@,
                lines.subrange(
                    0,
                    if count < BODY_PREVIEW_LINES {
                        count as int
                    } else {
                        BODY_PREVIEW_LINES as int
                    },
                ),
            ),
            forall|j: int|
                0 <= j < lines.len() ==> 0 <= (#[trigger] lines[j]).0 <= lines[j].1 <= b@.len(),
            forall|j: int|
                0 <= j < lines.len() ==> (lines[j].1 < b@.len() ==> (b@[(#[trigger] lines[j]).1]
                    == 10u8 || b@[lines[j].1] == 13u8)),
            forall|j: int|
                0 <= j < lines.len() ==> ((#[trigger] lines[j]).0 == 0 || b@[lines[j].0 - 1]
                    == 10u8),
            count > 0 ==> start > 0,
        decreases n + 1 - start,
    {
        let (a, e, next) = next_lf_line(b, start);
        proof {
            assert(lines[count as int] == lf_lines_from(b@, start as int)[0]);
            assert(lines.subrange(count + 1, lines.len() as int) =~= lines.subrange(
                count as int,
                lines.len() as int,
            ).drop_first());
        }
        if count < BODY_PREVIEW_LINES {
            proof {
                lemma_piece_valid(b@, a as int, e as int);
                let pre = lines.subrange(0, count + 1);
                assert(pre.drop_last() =~= lines.subrange(0, count as int));
                assert(pre.last() == lines[count as int]);
            }
            if count > 0 {
                shown.append("\n");
                proof {
                    reveal_strlit("\n");
                }
            }
            let piece = string_of(b, a, e);
            shown.append(piece.as_str());
            proof {
                if count == 0 {
                    assert(lines.subrange(0, 0).len() == 0);
                    assert(shown@ =~= joined_lines(b@, lines.subrange(0, 1)));
                } else {
                    assert(shown@ =~= joined_lines(b@, lines.subrange(0, count + 1)));
                }
            }
        }
        count = count + 1;
        start = next;
    }
    proof {
        assert(lines.subrange(count as int, lines.len() as int).len() == 0);
    }
    if count > BODY_PREVIEW_LINES {
        Some((shown, count - BODY_PREVIEW_LINES))
    } else {
        None
    }
}

/// Whether a body holds only whitespace.
pub fn body_is_blank(body: &str) -> (r: bool)
    ensures
        r == (trim(body.spec_bytes()).len() == 0),
{
    let b = body.as_bytes();
    let (x, y) = trim_range(b, 0, b.len());
    assert(b@.subrange(0, b@.len() as int) =~= b@);
    x == y
}

/// `application/json`
pub open spec fn json_media_type() -> Seq<u8> {
    seq![97u8, 112u8, 112u8, 108u8, 105u8, 99u8, 97u8, 116u8, 105u8, 111u8, 110u8, 47u8, 106u8, 115u8, 111u8, 110u8]
}

/// Whether `pat` occurs in `s`.
pub open spec fn contains_bytes(s: Seq<u8>, pat: Seq<u8>) -> bool {
    exists|i: int| 0 <= i && i + pat.len() <= s.len() && #[trigger] s.subrange(i, i + pat.len()) == pat
}

/// A body is shown as JSON when its content type mentions
/// `application/json`, or when, trimmed, it starts with `{` or `[`.
pub open spec fn looks_like_json_spec(content_type: Seq<u8>, body: Seq<u8>) -> bool {
    contains_bytes(content_type, json_media_type()) || (trim(body).len() > 0 && (trim(body)[0]
        == 123u8 || trim(body)[0] == 91u8))
}

/// Whether a body is shown as JSON (see `looks_like_json_spec`).
pub fn looks_like_json(content_type: &str, body: &str) -> (r: bool)
    ensures
        r == looks_like_json_spec(content_type.spec_bytes(), body.spec_bytes()),
{
    let c = content_type.as_bytes();
    let pat: [u8; 16] = [97, 112, 112, 108, 105, 99, 97, 116, 105, 111, 110, 47, 106, 115, 111, 110];
    assert(pat@ =~= json_media_type());
    let n = c.len();
    let mut found = false;
    if n >= 16 {
        let mut i: usize = 0;
        while i <= n - 16
            invariant
                n == c@.len(),
                c@ == content_type.spec_bytes(),
                n >= 16,
                pat@ == json_media_type(),
                i <= n - 15,
                forall|k: int| 0 <= k < i ==> #[trigger] c@.subrange(k, k + 16) != json_media_type(),
            ensures
                forall|k: int|
                    0 <= k <= n - 16 ==> #[trigger] c@.subrange(k, k + 16) != json_media_type(),
            decreases n - 15 - i,
        {
            if bytes_eq(&c[i..i + 16], &pat) {
                assert(c@.subrange(i as int, i + json_media_type().len()) == json_media_type());
                return true;
            }
            i = i + 1;
        }
    }
    proof {
        assert forall|i: int| 0 <= i && i + 16 <= c@.len() implies #[trigger] c@.subrange(
            i,
            i + json_media_type().len(),
        ) != json_media_type() by {}
    }
    let b = body.as_bytes();
    let (x, y) = trim_range(b, 0, b.len());
    assert(b@.subrange(0, b@.len() as int) =~= b@);
    if x < y {
        assert(b@.subrange(x as int, y as int)[0] == b@[x as int]);
        b[x] == 123 || b[x] == 91
    } else {
        false
    }
}

/// A JSON text re-printed by `serde_json` with two-space indentation, or
/// `None` when it does not parse as JSON.
pub uninterp spec fn json_pretty(text: Seq<char>) -> Option<Seq<char>>;

/// `serde_json::from_str::<serde_json::Value>` then `to_string_pretty`: the
/// result named `json_pretty` (objects keep their keys in sorted order, as
/// the `Value` map of `serde_json` without `preserve_order` does).
#[verifier::external_body]
fn serde_pretty(text: &str) -> (r: Option<String>)
    ensures
        crate::protocol::opt_view(r) == json_pretty(text@),
{
    match serde_json::from_str::<serde_json::Value>(text) {
        Ok(v) => serde_json::to_string_pretty(&v).ok(),
        Err(_) => None,
    }
}

/// The text shown for the bytes of an inspected message: their UTF-8
/// reading, with replacement characters where they are not UTF-8.
pub fn display_text(bytes: &[u8]) -> (r: String)
    ensures
        r@ == crate::text::lossy_utf8(bytes@),
        valid_utf8(bytes@) ==> r@ == decode_utf8(bytes@),
{
    crate::text::utf8_lossy(bytes)
}

/// How an inspected body is shown.
pub enum BodyDisplay {
    /// Nothing: the body holds only whitespace.
    Blank,
    /// Re-printed as indented JSON.
    Json(String),
    /// As it is.
    Raw,
}

/// How an inspected body is shown: nothing when it is blank; re-printed as
/// JSON when it looks like JSON (see `looks_like_json_spec`, with the
/// `Content-Type` of its headers) and parses as JSON; else as it is.
pub fn body_display(raw_headers: &str, body: &str) -> (r: BodyDisplay)
    ensures
        trim(body.spec_bytes()).len() == 0 ==> r is Blank,
        trim(body.spec_bytes()).len() > 0 && looks_like_json_spec(
            content_type_spec(raw_headers.spec_bytes()),
            body.spec_bytes(),
        ) && json_pretty(body@) is Some ==> (r matches BodyDisplay::Json(p) && p@ == json_pretty(
            body@,
        ).unwrap()),
        trim(body.spec_bytes()).len() > 0 && !(looks_like_json_spec(
            content_type_spec(raw_headers.spec_bytes()),
            body.spec_bytes(),
        ) && json_pretty(body@) is Some) ==> r is Raw,
{
    if body_is_blank(body) {
        return BodyDisplay::Blank;
    }
    let ct = extract_content_type(raw_headers);
    proof {
        vstd::utf8::decode_utf8_encode_utf8(content_type_spec(raw_headers.spec_bytes()));
    }
    if looks_like_json(ct.as_str(), body) {
        match serde_pretty(body) {
            Some(p) => BodyDisplay::Json(p),
            None => BodyDisplay::Raw,
        }
    } else {
        BodyDisplay::Raw
    }
}

/// Width inside the start-up banner's border: at least 40 columns, and 4
/// more than the widest row shown (the inspect row only when shown).
pub open spec fn banner_width_spec(url_w: nat, local_w: nat, inspect_w: Option<nat>) -> nat {
    let a: nat = if url_w + 4 > 40 {
        url_w + 4
    } else {
        40
    };
    let b: nat = if local_w + 4 > a {
        local_w + 4
    } else {
        a
    };
    match inspect_w {
        Some(w) => if w + 4 > b {
            w + 4
        } else {
            b
        },
        None => b,
    }
}

/// Width inside the start-up banner's border (see `banner_width_spec`).
pub fn banner_width(url_w: usize, local_w: usize, inspect_w: Option<usize>) -> (r: usize)
    requires
        url_w + 4 <= usize::MAX,
        local_w + 4 <= usize::MAX,
        inspect_w matches Some(w) ==> w + 4 <= usize::MAX,
    ensures
        r == banner_width_spec(
            url_w as nat,
            local_w as nat,
            match inspect_w {
                Some(w) => Some(w as nat),
                None => None,
            },
        ),
{
    let mut w: usize = 40;
    if url_w + 4 > w {
        w = url_w + 4;
    }
    if local_w + 4 > w {
        w = local_w + 4;
    }
    match inspect_w {
        Some(iw) => {
            if iw + 4 > w {
                w = iw + 4;
            }
        },
        None => {},
    }
    w
}

/// Spaces that fill a banner row whose content is `vis` columns wide, inside
/// a border `inner` columns wide with two columns of margin on each side.
pub fn banner_pad(inner: usize, vis: usize) -> (r: usize)
    requires
        vis + 4 <= usize::MAX,
    ensures
        r == banner_pad_spec(inner as nat, vis as nat),
{
    inner.saturating_sub(vis + 4)
}

/// Spaces that fill a banner row `vis` columns wide inside a border `inner`
/// columns wide: what is left after the row and its four columns of margin.
pub open spec fn banner_pad_spec(inner: nat, vis: nat) -> nat {
    if inner >= vis + 4 {
        (inner - vis - 4) as nat
    } else {
        0
    }
}

/// Display width of text in terminal columns, as the `console` crate
/// measures it (escape codes count for nothing).
pub uninterp spec fn text_width(s: Seq<char>) -> nat;

/// `console::measure_text_width`: the width named `text_width`.
#[verifier::external_body]
fn measure_text_width(s: &str) -> (r: usize)
    ensures
        r == text_width(s@),
{
    console::measure_text_width(s)
}

/// The banner row with the tunnel's address.
pub open spec fn url_row(url: Seq<char>) -> Seq<char> {
    "➜  "@ + url
}

/// The banner row with the local service.
pub open spec fn local_row(host: Seq<char>, port: u16) -> Seq<char> {
    "↳  "@ + host + seq![':'] + decode_utf8(decimal(port as nat))
}

/// The banner row shown in inspect mode.
pub open spec fn inspect_row() -> Seq<char> {
    "inspect mode"@
}

/// The start-up banner's layout: the width inside its border, and the
/// padding of its rows in order (address, local service, then the inspect
/// row when shown).
pub struct BannerLayout {
    pub width: usize,
    pub pads: Vec<usize>,
}

/// Whether a row of this width leaves room for its margin.
pub open spec fn fits_margin(w: nat) -> bool {
    w + 4 <= usize::MAX
}

/// The layout of the start-up banner for these rows (see
/// `banner_width_spec` and `banner_pad_spec`), measured as the `console`
/// crate measures them. `None` when a row is so wide that the width with its
/// margin passes `usize::MAX`.
pub fn banner_layout(url: &str, local_host: &str, local_port: u16, inspect: bool) -> (r: Option<
    BannerLayout,
>)
    ensures
        ({
            let uw = text_width(url_row(url@));
            let lw = text_width(local_row(local_host@, local_port));
            let iw = text_width(inspect_row());
            let ok = fits_margin(uw) && fits_margin(lw) && (inspect ==> fits_margin(iw));
            &&& r is None <==> !ok
            &&& r matches Some(l) ==> ({
                let w = banner_width_spec(uw, lw, if inspect { Some(iw) } else { None });
                &&& l.width == w
                &&& l.pads@ == (if inspect {
                    seq![
                        banner_pad_spec(w, uw) as usize,
                        banner_pad_spec(w, lw) as usize,
                        banner_pad_spec(w, iw) as usize,
                    ]
                } else {
                    seq![banner_pad_spec(w, uw) as usize, banner_pad_spec(w, lw) as usize]
                })
            })
        }),
{
    let mut url_text = "➜  ".to_owned();
    proof {
        reveal_strlit("➜  ");
    }
    url_text.append(url);
    let mut local_text = "↳  ".to_owned();
    proof {
        reveal_strlit("↳  ");
    }
    local_text.append(local_host);
    local_text.append(":");
    proof {
        reveal_strlit(":");
    }
    let mut digits: Vec<u8> = Vec::new();
    push_decimal(&mut digits, local_port as u64);
    proof {
        lemma_decimal_ascii(local_port as nat);
        lemma_ascii_valid(digits@);
    }
    let n = digits.len();
    assert(digits@.subrange(0, n as int) =~= digits@);
    let port_text = string_of(digits.as_slice(), 0, n);
    local_text.append(port_text.as_str());
    let inspect_text = "inspect mode";
    let uw = measure_text_width(url_text.as_str());
    let lw = measure_text_width(local_text.as_str());
    let iw = measure_text_width(inspect_text);
    assert(url_text@ =~= url_row(url@));
    assert(local_text@ =~= local_row(local_host@, local_port));
    if uw > usize::MAX - 4 || lw > usize::MAX - 4 || (inspect && iw > usize::MAX - 4) {
        return None;
    }
    let w = banner_width(uw, lw, if inspect {
        Some(iw)
    } else {
        None
    });
    let mut pads: Vec<usize> = Vec::new();
    pads.push(banner_pad(w, uw));
    pads.push(banner_pad(w, lw));
    if inspect {
        pads.push(banner_pad(w, iw));
    }
    assert(pads@ =~= (if inspect {
        seq![
            banner_pad_spec(w as nat, uw as nat) as usize,
            banner_pad_spec(w as nat, lw as nat) as usize,
            banner_pad_spec(w as nat, iw as nat) as usize,
        ]
    } else {
        seq![banner_pad_spec(w as nat, uw as nat) as usize, banner_pad_spec(w as nat, lw as nat) as usize]
    }));
    Some(BannerLayout { width: w, pads })
}

/// `s` padded with spaces to `w` characters (unchanged when it is longer).
pub open spec fn pad_right(s: Seq<char>, w: nat) -> Seq<char> {
    if s.len() < w {
        s + Seq::new((w - s.len()) as nat, |i: int| ' ')
    } else {
        s
    }
}

/// `s` padded with spaces to `width` characters, as `{:<width}` does.
pub fn pad_column(s: &str, width: usize) -> (r: String)
    ensures
        r@ == pad_right(s@, width as nat),
{
    let mut out = s.to_owned();
    let n = s.unicode_len();
    let mut k = n;
    assert(out@ =~= s@ + Seq::new(0, |i: int| ' '));
    while k < width
        invariant
            n == s@.len(),
            n <= k,
            k <= width || k == n,
            out@ == s@ + Seq::new((k - n) as nat, |i: int| ' '),
        decreases width - k,
    {
        out.append(" ");
        proof {
            reveal_strlit(" ");
        }
        k = k + 1;
        assert(out@ =~= s@ + Seq::new((k - n) as nat, |i: int| ' '));
    }
    out
}

/// Paths longer than 26 bytes are cut to 25 bytes and an ellipsis; shorter
/// ones are padded to 26 characters. Cutting a string slice must fall on a
/// character boundary, so paths whose 26th byte continues a character are
/// left out.
pub open spec fn path_column_ok(path: Seq<u8>) -> bool {
    path.len() > 26 ==> !vstd::utf8::is_continuation_byte(path[25])
}

/// Whether `path_column` can cut `path` (see `path_column_ok`).
pub fn path_column_in_bounds(path: &str) -> (r: bool)
    ensures
        r == path_column_ok(path.spec_bytes()),
{
    let b = path.as_bytes();
    !(b.len() > 26 && 0x80 <= b[25] && b[25] <= 0xbf)
}

/// The path column of the request log (see `path_column_ok`).
pub fn path_column(path: &str) -> (r: String)
    requires
        path_column_ok(path.spec_bytes()),
    ensures
        path.spec_bytes().len() > 26 ==> r@ == decode_utf8(path.spec_bytes().subrange(0, 25))
            + seq!['…'],
        path.spec_bytes().len() <= 26 ==> r@ == pad_right(path@, 26),
{
    let b = path.as_bytes();
    if b.len() > 26 {
        proof {
            encode_utf8_valid_utf8(path@);
            lemma_utf8_split(b@, 25);
        }
        let mut out = string_of(b, 0, 25);
        out.append("…");
        proof {
            reveal_strlit("…");
        }
        out
    } else {
        pad_column(path, 26)
    }
}

/// The id column of the request log: `#` and the id, padded to three characters.
pub fn id_column(id: u64) -> (r: String)
    ensures
        r@ == seq!['#'] + pad_right(decode_utf8(decimal(id as nat)), 3),
{
    let mut digits: Vec<u8> = Vec::new();
    push_decimal(&mut digits, id);
    proof {
        lemma_decimal_ascii(id as nat);
        lemma_ascii_valid(digits@);
    }
    let n = digits.len();
    assert(digits@.subrange(0, n as int) =~= digits@);
    let num = string_of(digits.as_slice(), 0, n);
    let padded = pad_column(num.as_str(), 3);
    let mut out = "#".to_owned();
    proof {
        reveal_strlit("#");
    }
    out.append(padded.as_str());
    out
}

/// A header shown when a message is inspected.
#[derive(Debug)]
pub struct HeaderRow {
    pub name: String,
    pub value: String,
}

/// `HTTP/`
pub open spec fn http_prefix() -> Seq<u8> {
    seq![72u8, 84u8, 84u8, 80u8, 47u8]
}

/// Header names left out of inspected requests: `accept-encoding`, `connection`.
pub open spec fn skipped_request_name(name: Seq<u8>) -> bool {
    ascii_ieq(name, seq![97u8, 99u8, 99u8, 101u8, 112u8, 116u8, 45u8, 101u8, 110u8, 99u8, 111u8, 100u8, 105u8, 110u8, 103u8])
        || ascii_ieq(name, seq![99u8, 111u8, 110u8, 110u8, 101u8, 99u8, 116u8, 105u8, 111u8, 110u8])
}

/// Header names left out of inspected responses: `server`, `date`,
/// `connection`, `transfer-encoding`.
pub open spec fn skipped_response_name(name: Seq<u8>) -> bool {
    ascii_ieq(name, seq![115u8, 101u8, 114u8, 118u8, 101u8, 114u8]) || ascii_ieq(
        name,
        seq![100u8, 97u8, 116u8, 101u8],
    ) || ascii_ieq(name, seq![99u8, 111u8, 110u8, 110u8, 101u8, 99u8, 116u8, 105u8, 111u8, 110u8])
        || ascii_ieq(name, seq![116u8, 114u8, 97u8, 110u8, 115u8, 102u8, 101u8, 114u8, 45u8, 101u8, 110u8, 99u8, 111u8, 100u8, 105u8, 110u8, 103u8])
}

/// The row a header line gives: trimmed, not empty (and, for responses, not
/// the status line), with a `:`, and a name not left out: the name before the
/// first `:` and the trimmed value after it.
pub open spec fn row_of(s: Seq<u8>, l: (int, int), request: bool) -> Option<(Seq<u8>, Seq<u8>)> {
    let t = trim(s.subrange(l.0, l.1));
    let c = first_byte(t, 0, t.len() as int, 58u8);
    if t.len() == 0 {
        None
    } else if !request && t.len() >= 5 && t.subrange(0, 5) == http_prefix() {
        None
    } else if c >= t.len() {
        None
    } else if (request && skipped_request_name(t.subrange(0, c))) || (!request
        && skipped_response_name(t.subrange(0, c))) {
        None
    } else {
        Some((t.subrange(0, c), trim(t.subrange(c + 1, t.len() as int))))
    }
}

/// The rows of the given lines, in order.
pub open spec fn rows_of(s: Seq<u8>, ls: Seq<(int, int)>, request: bool) -> Seq<(Seq<u8>, Seq<u8>)>
    decreases ls.len(),
{
    if ls.len() == 0 {
        Seq::empty()
    } else {
        let rest = rows_of(s, ls.drop_first(), request);
        match row_of(s, ls[0], request) {
            Some(r) => seq![r] + rest,
            None => rest,
        }
    }
}

/// The lines whose rows are shown: after the request line for a request,
/// all of them for a response.
pub open spec fn shown_lines(s: Seq<u8>, request: bool) -> Seq<(int, int)> {
    if request && lf_lines(s).len() > 0 {
        lf_lines(s).drop_first()
    } else {
        lf_lines(s)
    }
}

fn skipped_name(b: &[u8], lo: usize, hi: usize, request: bool) -> (r: bool)
    requires
        lo <= hi <= b@.len(),
    ensures
        r == ((request && skipped_request_name(b@.subrange(lo as int, hi as int))) || (!request
            && skipped_response_name(b@.subrange(lo as int, hi as int)))),
{
    let ae: [u8; 15] = [97, 99, 99, 101, 112, 116, 45, 101, 110, 99, 111, 100, 105, 110, 103];
    let co: [u8; 10] = [99, 111, 110, 110, 101, 99, 116, 105, 111, 110];
    let se: [u8; 6] = [115, 101, 114, 118, 101, 114];
    let da: [u8; 4] = [100, 97, 116, 101];
    let te: [u8; 17] = [116, 114, 97, 110, 115, 102, 101, 114, 45, 101, 110, 99, 111, 100, 105, 110, 103];
    assert(ae@ =~= seq![97u8, 99u8, 99u8, 101u8, 112u8, 116u8, 45u8, 101u8, 110u8, 99u8, 111u8, 100u8, 105u8, 110u8, 103u8]);
    assert(co@ =~= seq![99u8, 111u8, 110u8, 110u8, 101u8, 99u8, 116u8, 105u8, 111u8, 110u8]);
    assert(se@ =~= seq![115u8, 101u8, 114u8, 118u8, 101u8, 114u8]);
    assert(da@ =~= seq![100u8, 97u8, 116u8, 101u8]);
    assert(te@ =~= seq![116u8, 114u8, 97u8, 110u8, 115u8, 102u8, 101u8, 114u8, 45u8, 101u8, 110u8, 99u8, 111u8, 100u8, 105u8, 110u8, 103u8]);
    let n = hi - lo;
    let is_co = n == 10 && ieq_at(b, lo, &co);
    if request {
        (n == 15 && ieq_at(b, lo, &ae)) || is_co
    } else {
        (n == 6 && ieq_at(b, lo, &se)) || (n == 4 && ieq_at(b, lo, &da)) || is_co || (n == 17
            && ieq_at(b, lo, &te))
    }
}

/// Rows of the headers shown when a request (`request`) or a response is
/// inspected (see `rows_of` and `shown_lines`).
pub fn header_rows(raw_headers: &str, request: bool) -> (r: Vec<HeaderRow>)
    ensures
        r@.len() == rows_of(raw_headers.spec_bytes(), shown_lines(raw_headers.spec_bytes(), request), request).len(),
        forall|i: int|
            0 <= i < r@.len() ==> (#[trigger] r@[i]).name@ == decode_utf8(
                rows_of(raw_headers.spec_bytes(), shown_lines(raw_headers.spec_bytes(), request), request)[i].0,
            ) && r@[i].value@ == decode_utf8(
                rows_of(raw_headers.spec_bytes(), shown_lines(raw_headers.spec_bytes(), request), request)[i].1,
            ),
{
    let b = raw_headers.as_bytes();
    let n = b.len();
    let ghost all = lf_lines(b@);
    let ghost lines = shown_lines(b@, request);
    let ghost target = rows_of(b@, lines, request);
    proof {
        encode_utf8_valid_utf8(raw_headers@);
        lemma_lf_lines_bounds(b@, 0);
    }
    let mut out: Vec<HeaderRow> = Vec::new();
    let mut start: usize = 0;
    let ghost mut k: int = 0;
    let ghost mut done: Seq<(Seq<u8>, Seq<u8>)> = Seq::empty();
    if request && n > 0 {
        let (a, e, next) = next_lf_line(b, 0);
        start = next;
        proof {
            k = 1;
        }
    }
    proof {
        if request && all.len() > 0 {
            assert(lines =~= all.subrange(1, all.len() as int));
        } else {
            assert(lines =~= all.subrange(0, all.len() as int));
        }
        assert(lf_lines_from(b@, start as int) == all.subrange(k, all.len() as int));
        assert(target =~= done + rows_of(b@, all.subrange(k, all.len() as int), request));
    }
    while start < n
        invariant
            n == b@.len(),
            b@ == raw_headers.spec_bytes(),
            valid_utf8(b@),
            all == lf_lines(b@),
            0 <= k <= all.len(),
            start <= n,
            lf_lines_from(b@, start as int) == all.subrange(k, all.len() as int),
            target == done + rows_of(b@, all.subrange(k, all.len() as int), request),
            out@.len() == done.len(),
            forall|i: int|
                0 <= i < out@.len() ==> (#[trigger] out@[i]).name@ == decode_utf8(done[i].0)
                    && out@[i].value@ == decode_utf8(done[i].1),
            forall|j: int|
                0 <= j < all.len() ==> 0 <= (#[trigger] all[j]).0 <= all[j].1 <= b@.len(),
            forall|j: int|
                0 <= j < all.len() ==> (all[j].1 < b@.len() ==> (b@[(#[trigger] all[j]).1]
                    == 10u8 || b@[all[j].1] == 13u8)),
            forall|j: int|
                0 <= j < all.len() ==> ((#[trigger] all[j]).0 == 0 || b@[all[j].0 - 1] == 10u8),
        decreases n + 1 - start,
    {
        let (a, e, next) = next_lf_line(b, start);
        let ghost rest = all.subrange(k, all.len() as int);
        proof {
            assert(all[k] == lf_lines_from(b@, start as int)[0]);
            assert(all.subrange(k + 1, all.len() as int) =~= rest.drop_first());
            assert(rest[0] == all[k]);
            lemma_piece_valid(b@, a as int, e as int);
            lemma_trim_utf8(b@.subrange(a as int, e as int));
        }
        let (ta, tb) = trim_range(b, a, e);
        let ghost t = b@.subrange(ta as int, tb as int);
        let c = find_byte(b, ta, tb, 58);
        proof {
            lemma_first_byte(b@, ta as int, tb as int, 58u8);
            lemma_first_byte_sub(b@, ta as int, ta as int, tb as int, 58u8);
            if tb - ta >= 5 {
                assert(t.subrange(0, 5) =~= b@.subrange(ta as int, ta + 5));
            }
            if c < tb {
                assert(t.subrange(0, c - ta) =~= b@.subrange(ta as int, c as int));
            }
        }
        let http: [u8; 5] = [72, 84, 84, 80, 47];
        assert(http@ =~= http_prefix());
        let mut keep = tb > ta;
        if keep && !request && tb - ta >= 5 {
            let h = &b[ta..ta + 5];
            if bytes_eq(h, &http) {
                keep = false;
            }
        }
        if keep && c >= tb {
            keep = false;
        }
        if keep && skipped_name(b, ta, c, request) {
            keep = false;
        }
        if keep {
            proof {
                lemma_utf8_split(t, c - ta);
                assert(t.subrange(0, c - ta) =~= b@.subrange(ta as int, c as int));
                lemma_utf8_after_ascii(t, c - ta);
                assert(t.subrange(c - ta + 1, t.len() as int) =~= b@.subrange(c + 1, tb as int));
                lemma_trim_utf8(b@.subrange(c + 1, tb as int));
            }
            let (va, vb) = trim_range(b, c + 1, tb);
            let name = string_of(b, ta, c);
            let value = string_of(b, va, vb);
            out.push(HeaderRow { name, value });
            proof {
                let row = (b@.subrange(ta as int, c as int), b@.subrange(va as int, vb as int));
                assert(row_of(b@, all[k], request) == Some(row));
                assert(rows_of(b@, rest, request) =~= seq![row] + rows_of(
                    b@,
                    all.subrange(k + 1, all.len() as int),
                    request,
                ));
                done = done.push(row);
                assert(target =~= done + rows_of(b@, all.subrange(k + 1, all.len() as int), request));
            }
        } else {
            proof {
                assert(row_of(b@, all[k], request) is None);
                assert(rows_of(b@, rest, request) =~= rows_of(
                    b@,
                    all.subrange(k + 1, all.len() as int),
                    request,
                ));
            }
        }
        start = next;
        proof {
            k = k + 1;
        }
    }
    proof {
        assert(all.subrange(k, all.len() as int).len() == 0);
        assert(target =~= done);
    }
    out
}

/// The first line of raw headers (empty when there is none).
pub open spec fn first_lf_line(s: Seq<u8>) -> Seq<u8> {
    if lf_lines(s).len() > 0 {
        s.subrange(lf_lines(s)[0].0, lf_lines(s)[0].1)
    } else {
        Seq::empty()
    }
}

/// Method and path shown for an inspected request: the text of the first
/// line before its first space, and the text between that space and the
/// next one (or the line's end); no path when the line has no space.
pub open spec fn request_summary_spec(s: Seq<u8>) -> (Seq<u8>, Option<Seq<u8>>) {
    let l = first_lf_line(s);
    let p = first_byte(l, 0, l.len() as int, 32u8);
    if p >= l.len() {
        (l, None)
    } else {
        (l.subrange(0, p), Some(l.subrange(p + 1, first_byte(l, p + 1, l.len() as int, 32u8))))
    }
}

/// Method and path of an inspected request (see `request_summary_spec`);
/// the path is `/` when the first line has no space.
pub fn request_summary(raw_headers: &str) -> (r: (String, String))
    ensures
        r.0@ == decode_utf8(request_summary_spec(raw_headers.spec_bytes()).0),
        r.1@ == (match request_summary_spec(raw_headers.spec_bytes()).1 {
            Some(p) => decode_utf8(p),
            None => seq!['/'],
        }),
{
    let b = raw_headers.as_bytes();
    let n = b.len();
    proof {
        encode_utf8_valid_utf8(raw_headers@);
        lemma_lf_lines_bounds(b@, 0);
    }
    let (a, e) = if n > 0 {
        let (a, e, next) = next_lf_line(b, 0);
        proof {
            lemma_piece_valid(b@, a as int, e as int);
        }
        (a, e)
    } else {
        (0, 0)
    };
    let ghost l = b@.subrange(a as int, e as int);
    assert(l == first_lf_line(b@));
    proof {
        if n == 0 {
            assert(valid_utf8(l)) by {
                assert(l.len() == 0);
            }
        }
    }
    let p = find_byte(b, a, e, 32);
    proof {
        lemma_first_byte(b@, a as int, e as int, 32u8);
        lemma_first_byte_sub(b@, a as int, a as int, e as int, 32u8);
    }
    if p >= e {
        let slash = "/";
        proof {
            reveal_strlit("/");
        }
        return (string_of(b, a, e), slash.to_owned());
    }
    let q = find_byte(b, p + 1, e, 32);
    proof {
        lemma_first_byte(b@, p + 1, e as int, 32u8);
        lemma_first_byte_sub(b@, a as int, p + 1, e as int, 32u8);
        lemma_utf8_split(l, p - a);
        assert(l.subrange(0, p - a) =~= b@.subrange(a as int, p as int));
        lemma_utf8_after_ascii(l, p - a);
        let u = l.subrange(p - a + 1, l.len() as int);
        assert(u =~= b@.subrange(p + 1, e as int));
        if q < e {
            assert(u[q - p - 1] == b@[q as int]);
        }
        lemma_utf8_split(u, q - p - 1);
        assert(u.subrange(0, q - p - 1) =~= b@.subrange(p + 1, q as int));
        assert(l.subrange(p - a + 1, q - a) =~= b@.subrange(p + 1, q as int));
    }
    (string_of(b, a, p), string_of(b, p + 1, q))
}

proof fn lemma_first_byte_concat(p: Seq<u8>, r: Seq<u8>, i: int, c: u8)
    requires
        0 <= i <= r.len(),
    ensures
        first_byte(p + r, p.len() + i, (p.len() + r.len()) as int, c) == p.len() + first_byte(
            r,
            i,
            r.len() as int,
            c,
        ),
    decreases r.len() - i,
{
    if i < r.len() {
        assert((p + r)[p.len() + i] == r[i]);
        if r[i] != c {
            lemma_first_byte_concat(p, r, i + 1, c);
        }
    }
}

proof fn lemma_lf_lines_concat(p: Seq<u8>, r: Seq<u8>, i: int)
    requires
        0 <= i,
    ensures
        lf_lines_from(p + r, p.len() + i).len() == lf_lines_from(r, i).len(),
        forall|k: int|
            0 <= k < lf_lines_from(r, i).len() ==> #[trigger] lf_lines_from(p + r, p.len() + i)[k]
                == (lf_lines_from(r, i)[k].0 + p.len(), lf_lines_from(r, i)[k].1 + p.len()),
    decreases r.len() - i,
{
    let s = p + r;
    let m = p.len() as int;
    if i < r.len() {
        lemma_first_byte_concat(p, r, i, 10u8);
        lemma_first_byte(r, i, r.len() as int, 10u8);
        let nl = first_byte(r, i, r.len() as int, 10u8);
        if nl < r.len() {
            if nl > i {
                assert(s[m + nl - 1] == r[nl - 1]);
            }
            lemma_lf_lines_concat(p, r, nl + 1);
            let ls = lf_lines_from(s, m + i);
            let lr = lf_lines_from(r, i);
            assert forall|k: int| 0 <= k < lr.len() implies #[trigger] ls[k] == (lr[k].0 + m, lr[k].1
                + m) by {
                if k > 0 {
                    assert(ls[k] == lf_lines_from(s, m + nl + 1)[k - 1]);
                    assert(lr[k] == lf_lines_from(r, nl + 1)[k - 1]);
                }
            }
        }
    }
}

proof fn lemma_rows_shift(
    p: Seq<u8>,
    r: Seq<u8>,
    ls: Seq<(int, int)>,
    lr: Seq<(int, int)>,
    request: bool,
)
    requires
        ls.len() == lr.len(),
        forall|k: int| 0 <= k < lr.len() ==> 0 <= (#[trigger] lr[k]).0 <= lr[k].1 <= r.len(),
        forall|k: int|
            0 <= k < lr.len() ==> #[trigger] ls[k] == (lr[k].0 + p.len(), lr[k].1 + p.len()),
    ensures
        rows_of(p + r, ls, request) == rows_of(r, lr, request),
    decreases lr.len(),
{
    if lr.len() > 0 {
        let (x, y) = lr[0];
        assert(ls[0] == (x + p.len(), y + p.len()));
        assert((p + r).subrange(x + p.len(), y + p.len()) =~= r.subrange(x, y));
        assert forall|k: int| 0 <= k < lr.drop_first().len() implies 0 <= (
        #[trigger] lr.drop_first()[k]).0 <= lr.drop_first()[k].1 <= r.len() by {
            assert(lr.drop_first()[k] == lr[k + 1]);
        }
        assert forall|k: int| 0 <= k < lr.drop_first().len() implies #[trigger] ls.drop_first()[k]
            == (lr.drop_first()[k].0 + p.len(), lr.drop_first()[k].1 + p.len()) by {
            assert(lr.drop_first()[k] == lr[k + 1]);
            assert(ls.drop_first()[k] == ls[k + 1]);
        }
        lemma_rows_shift(p, r, ls.drop_first(), lr.drop_first(), request);
    }
}

/// A request's rows never come from its request line: for a request line
/// `line` (no newline in it) followed by the header lines `rest`, the rows
/// shown are the rows of `rest` alone, whatever the request line holds; a
/// request of just a request line shows no rows.
pub proof fn lemma_request_rows_skip_request_line(line: Seq<u8>, rest: Seq<u8>)
    requires
        forall|i: int| 0 <= i < line.len() ==> line[i] != 10u8,
    ensures
        rows_of(line + seq![10u8] + rest, shown_lines(line + seq![10u8] + rest, true), true)
            == rows_of(rest, lf_lines(rest), true),
        rows_of(line, shown_lines(line, true), true).len() == 0,
{
    let p = line + seq![10u8];
    let s = p + rest;
    let m = p.len() as int;
    lemma_first_byte_concat(line, seq![10u8] + rest, 0, 10u8);
    assert(s =~= line + (seq![10u8] + rest));
    assert((seq![10u8] + rest)[0] == 10u8);
    lemma_first_byte(line, 0, line.len() as int, 10u8);
    assert(first_byte(s, 0, s.len() as int, 10u8) == line.len()) by {
        lemma_first_byte(s, 0, s.len() as int, 10u8);
        let f = first_byte(s, 0, s.len() as int, 10u8);
        if f < line.len() {
            assert(s[f] == line[f]);
        }
        assert(s[line.len() as int] == 10u8);
    }
    let all = lf_lines(s);
    assert(all.drop_first() =~= lf_lines_from(s, m));
    lemma_lf_lines_concat(p, rest, 0);
    lemma_lf_lines_bounds(rest, 0);
    lemma_rows_shift(p, rest, lf_lines_from(s, m), lf_lines_from(rest, 0), true);
    if line.len() > 0 {
        lemma_first_byte(line, 0, line.len() as int, 10u8);
        assert(lf_lines(line).len() == 1);
        assert(lf_lines(line).drop_first().len() == 0);
    }
}

} // verus!
