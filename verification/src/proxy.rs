//! HTTP/1.1 head inspection: where the header block ends, the `Host`,
//! `Authorization`, `Transfer-Encoding` and `Content-Length` headers, the
//! request line and the response status.
use vstd::prelude::*;
use vstd::string::StringSliceAdditionalSpecFns;
use vstd::utf8::{decode_utf8, encode_utf8, is_continuation_byte, valid_utf8};
use crate::text::{
    ascii_ieq, blank_line_at, crlf_at, decimal, ieq_at, lemma_line_end, lemma_trim_utf8,
    lemma_utf8_after_ascii, lemma_utf8_split, line_end, parse_unsigned, parse_unsigned_range, string_of, trim,
    trim_range, utf8_str,
};

verus! {

/// Largest header block `read_http_head` accepts, in bytes.
pub const MAX_HEADER_SIZE: usize = 8192;

/// `host:`
pub open spec fn host_name() -> Seq<u8> {
    seq![104u8, 111u8, 115u8, 116u8, 58u8]
}

/// `authorization:`
pub open spec fn authorization_name() -> Seq<u8> {
    seq![97u8, 117u8, 116u8, 104u8, 111u8, 114u8, 105u8, 122u8, 97u8, 116u8, 105u8, 111u8, 110u8, 58u8]
}

/// `transfer-encoding`
pub open spec fn transfer_encoding_name() -> Seq<u8> {
    seq![116u8, 114u8, 97u8, 110u8, 115u8, 102u8, 101u8, 114u8, 45u8, 101u8, 110u8, 99u8, 111u8, 100u8, 105u8, 110u8, 103u8]
}

/// `content-length`
pub open spec fn content_length_name() -> Seq<u8> {
    seq![99u8, 111u8, 110u8, 116u8, 101u8, 110u8, 116u8, 45u8, 108u8, 101u8, 110u8, 103u8, 116u8, 104u8]
}

/// `chunked`
pub open spec fn chunked_word() -> Seq<u8> {
    seq![99u8, 104u8, 117u8, 110u8, 107u8, 101u8, 100u8]
}

/// Header lines from `start` on, up to the first empty line: bounds of the rest
/// of the first line longer than `name` that begins with `name` (ASCII case
/// ignored).
pub open spec fn prefixed_line_from(s: Seq<u8>, start: int, name: Seq<u8>) -> Option<(int, int)>
    decreases s.len() - start,
{
    if start < 0 || start > s.len() {
        None
    } else {
        let end = line_end(s, start);
        proof {
            lemma_line_end(s, start);
        }
        if end == start {
            None
        } else if end - start > name.len() && ascii_ieq(
            s.subrange(start, start + name.len()),
            name,
        ) {
            Some((start + name.len(), end))
        } else if end < s.len() {
            prefixed_line_from(s, end + 2, name)
        } else {
            None
        }
    }
}

/// The header lines are those after the first line of `s`.
pub open spec fn prefixed_header(s: Seq<u8>, name: Seq<u8>) -> Option<(int, int)> {
    let e = line_end(s, 0);
    if e < s.len() {
        prefixed_line_from(s, e + 2, name)
    } else {
        None
    }
}

/// The scan of `prefixed_line_from` cuts each line it reads that is longer than
/// `name` after `name.len()` bytes; on a string slice that cut must fall on a
/// character boundary, else the scan panics.
pub open spec fn prefixed_cuts_ok_from(s: Seq<u8>, start: int, name: Seq<u8>) -> bool
    decreases s.len() - start,
{
    if start < 0 || start > s.len() {
        true
    } else {
        let end = line_end(s, start);
        proof {
            lemma_line_end(s, start);
        }
        if end == start {
            true
        } else if end - start > name.len() {
            &&& !is_continuation_byte(s[start + name.len()])
            &&& (ascii_ieq(s.subrange(start, start + name.len()), name) || (end < s.len()
                ==> prefixed_cuts_ok_from(s, end + 2, name)))
        } else {
            end < s.len() ==> prefixed_cuts_ok_from(s, end + 2, name)
        }
    }
}

pub open spec fn prefixed_cuts_ok(s: Seq<u8>, name: Seq<u8>) -> bool {
    let e = line_end(s, 0);
    e < s.len() ==> prefixed_cuts_ok_from(s, e + 2, name)
}

/// Index of the first `c` in `s[lo..hi]`, or `hi`.
pub open spec fn first_byte(s: Seq<u8>, lo: int, hi: int, c: u8) -> int
    decreases hi - lo,
{
    if lo >= hi {
        hi
    } else if s[lo] == c {
        lo
    } else {
        first_byte(s, lo + 1, hi, c)
    }
}

pub proof fn lemma_first_byte(s: Seq<u8>, lo: int, hi: int, c: u8)
    requires
        0 <= lo <= hi <= s.len(),
    ensures
        lo <= first_byte(s, lo, hi, c) <= hi,
        first_byte(s, lo, hi, c) < hi ==> s[first_byte(s, lo, hi, c)] == c,
        forall|j: int| lo <= j < first_byte(s, lo, hi, c) ==> s[j] != c,
    decreases hi - lo,
{
    if lo < hi && s[lo] != c {
        lemma_first_byte(s, lo + 1, hi, c);
    }
}

/// Lines of `s` from `start` on (all of them, blank or not): bounds of the
/// value after the first `:` of the first line whose text before that `:`
/// equals `name` (ASCII case ignored).
pub open spec fn field_from(s: Seq<u8>, start: int, name: Seq<u8>) -> Option<(int, int)>
    decreases s.len() - start,
{
    if start < 0 || start > s.len() {
        None
    } else {
        let end = line_end(s, start);
        proof {
            lemma_line_end(s, start);
        }
        let c = first_byte(s, start, end, 58u8);
        if c < end && ascii_ieq(s.subrange(start, c), name) {
            Some((c + 1, end))
        } else if end < s.len() {
            field_from(s, end + 2, name)
        } else {
            None
        }
    }
}

/// Value bounds of the field `name` in `s`, as `field_from` from the first line.
pub open spec fn field(s: Seq<u8>, name: Seq<u8>) -> Option<(int, int)> {
    field_from(s, 0, name)
}

/// The `Host` value: trimmed, cut before its first `:`.
pub open spec fn host_bytes(s: Seq<u8>) -> Seq<u8> {
    let (a, b) = prefixed_header(s, host_name()).unwrap();
    let t = trim(s.subrange(a, b));
    t.subrange(0, first_byte(t, 0, t.len() as int, 58u8))
}

/// Unicode lower-casing as `str::to_lowercase` does it.
pub uninterp spec fn unicode_lowercase(s: Seq<char>) -> Seq<char>;

/// ASCII lower-casing of one character; other characters are unchanged.
pub open spec fn ascii_lower_char(c: char) -> char {
    if 'A' <= c <= 'Z' {
        ((c as u32) + 32) as char
    } else {
        c
    }
}

/// Whether every character of `s` is ASCII.
pub open spec fn all_ascii(s: Seq<char>) -> bool {
    forall|i: int| 0 <= i < s.len() ==> (s[i] as u32) < 128
}

/// `str::to_lowercase`: the result is the Unicode lower-case mapping of the
/// input (named by `unicode_lowercase`, which this crate does not spell out).
/// On ASCII text that mapping lower-cases `A`..`Z` and keeps every other
/// character, as the Unicode case tables give it.
#[verifier::external_body]
fn to_lowercase(s: &str) -> (r: String)
    ensures
        r@ == unicode_lowercase(s@),
        all_ascii(s@) ==> r@ == s@.map_values(|c: char| ascii_lower_char(c)),
{
    s.to_lowercase()
}

/// Index just past the line that starts at `from`.
pub fn find_line_end(buf: &[u8], from: usize) -> (r: usize)
    requires
        from <= buf@.len(),
    ensures
        r as int == line_end(buf@, from as int),
{
    let n = buf.len();
    let mut i = from;
    while n > 0 && i < n - 1
        invariant
            from <= i <= n,
            n == buf@.len(),
            line_end(buf@, from as int) == line_end(buf@, i as int),
        decreases n - i,
    {
        if buf[i] == 13 && buf[i + 1] == 10 {
            return i;
        }
        i = i + 1;
    }
    n
}

/// Index of the first `c` in `buf[lo..hi]`, or `hi`.
pub fn find_byte(buf: &[u8], lo: usize, hi: usize, c: u8) -> (r: usize)
    requires
        lo <= hi <= buf@.len(),
    ensures
        r as int == first_byte(buf@, lo as int, hi as int, c),
{
    let mut i = lo;
    while i < hi
        invariant
            lo <= i <= hi <= buf@.len(),
            first_byte(buf@, lo as int, hi as int, c) == first_byte(buf@, i as int, hi as int, c),
        decreases hi - i,
    {
        if buf[i] == c {
            return i;
        }
        i = i + 1;
    }
    hi
}

fn find_prefixed_header(buf: &[u8], name: &[u8]) -> (r: Option<(usize, usize)>)
    requires
        prefixed_cuts_ok(buf@, name@),
    ensures
        match r {
            Some((a, b)) => prefixed_header(buf@, name@) == Some((a as int, b as int)),
            None => prefixed_header(buf@, name@) is None,
        },
        r matches Some((a, b)) ==> a < b <= buf@.len() && !is_continuation_byte(buf@[a as int])
            && (b < buf@.len() ==> buf@[b as int] == 13u8),
{
    let n = buf.len();
    let first = find_line_end(buf, 0);
    if first >= n {
        return None;
    }
    proof {
        lemma_line_end(buf@, 0);
    }
    let nl = name.len();
    let mut start = first + 2;
    loop
        invariant
            n == buf@.len(),
            nl == name@.len(),
            start <= n,
            prefixed_header(buf@, name@) == prefixed_line_from(buf@, start as int, name@),
            prefixed_cuts_ok_from(buf@, start as int, name@),
        decreases n - start,
    {
        let end = find_line_end(buf, start);
        proof {
            lemma_line_end(buf@, start as int);
        }
        if end == start {
            return None;
        }
        if end - start > nl && ieq_at(buf, start, name) {
            return Some((start + nl, end));
        }
        if end >= n {
            return None;
        }
        start = end + 2;
    }
}

/// Exactly the inputs on which the scan of `extract_host` reads without
/// panicking: the `requires` of `extract_host`.
pub open spec fn host_scan_ok(buf: Seq<u8>) -> bool {
    valid_utf8(buf) ==> prefixed_cuts_ok(buf, host_name())
}

/// Exactly the inputs on which the scan of `extract_authorization` reads
/// without panicking: the `requires` of `extract_authorization`.
pub open spec fn authorization_scan_ok(buf: Seq<u8>) -> bool {
    valid_utf8(buf) ==> prefixed_cuts_ok(buf, authorization_name())
}

fn cuts_ok(buf: &[u8], name: &[u8]) -> (r: bool)
    ensures
        r == prefixed_cuts_ok(buf@, name@),
{
    let n = buf.len();
    let first = find_line_end(buf, 0);
    if first >= n {
        return true;
    }
    proof {
        lemma_line_end(buf@, 0);
    }
    let nl = name.len();
    let mut start = first + 2;
    loop
        invariant
            n == buf@.len(),
            nl == name@.len(),
            start <= n,
            prefixed_cuts_ok(buf@, name@) == prefixed_cuts_ok_from(buf@, start as int, name@),
        decreases n - start,
    {
        let end = find_line_end(buf, start);
        proof {
            lemma_line_end(buf@, start as int);
        }
        if end == start {
            return true;
        }
        if end - start > nl {
            let b = buf[start + nl];
            if 0x80 <= b && b <= 0xbf {
                return false;
            }
            if ieq_at(buf, start, name) {
                return true;
            }
        }
        if end >= n {
            return true;
        }
        start = end + 2;
    }
}

fn host_literal() -> (r: [u8; 5])
    ensures
        r@ == host_name(),
{
    let r: [u8; 5] = [104, 111, 115, 116, 58];
    assert(r@ =~= host_name());
    r
}

fn authorization_literal() -> (r: [u8; 14])
    ensures
        r@ == authorization_name(),
{
    let r: [u8; 14] = [97, 117, 116, 104, 111, 114, 105, 122, 97, 116, 105, 111, 110, 58];
    assert(r@ =~= authorization_name());
    r
}

/// Whether `extract_host` can read `buf` (see `host_scan_ok`).
pub fn host_scan_in_bounds(buf: &[u8]) -> (r: bool)
    ensures
        r == host_scan_ok(buf@),
{
    if utf8_str(buf).is_none() {
        return true;
    }
    let name = host_literal();
    cuts_ok(buf, &name)
}

/// Whether `extract_authorization` can read `buf` (see `authorization_scan_ok`).
pub fn authorization_scan_in_bounds(buf: &[u8]) -> (r: bool)
    ensures
        r == authorization_scan_ok(buf@),
{
    if utf8_str(buf).is_none() {
        return true;
    }
    let name = authorization_literal();
    cuts_ok(buf, &name)
}

proof fn lemma_value_valid(s: Seq<u8>, a: int, b: int)
    requires
        valid_utf8(s),
        0 <= a <= b <= s.len(),
        a < b ==> !is_continuation_byte(s[a]),
        b < s.len() ==> s[b] == 13u8,
    ensures
        valid_utf8(s.subrange(a, b)),
{
    lemma_utf8_split(s, a);
    let t = s.subrange(a, s.len() as int);
    if b < s.len() {
        assert(t[b - a] == s[b]);
    }
    lemma_utf8_split(t, b - a);
    assert(t.subrange(0, b - a) =~= s.subrange(a, b));
}

/// The host a request is addressed to: the value of its first `Host` header
/// (before the blank line ending the header block), trimmed, without a port,
/// lower-cased. `None` when the bytes are not UTF-8 or there is no such header.
pub fn extract_host(buf: &[u8]) -> (r: Option<String>)
    requires
        host_scan_ok(buf@),
    ensures
        r is Some <==> valid_utf8(buf@) && prefixed_header(buf@, host_name()) is Some,
        r matches Some(h) ==> h@ == unicode_lowercase(decode_utf8(host_bytes(buf@))),
        all_ascii(decode_utf8(host_bytes(buf@))) ==> (r matches Some(h) ==> h@ == decode_utf8(
            host_bytes(buf@),
        ).map_values(|c: char| ascii_lower_char(c))),
{
    if utf8_str(buf).is_none() {
        return None;
    }
    let name = host_literal();
    match find_prefixed_header(buf, &name) {
        None => None,
        Some((a, b)) => {
            proof {
                lemma_value_valid(buf@, a as int, b as int);
            }
            let (ta, tb) = trim_range(buf, a, b);
            let c = find_byte(buf, ta, tb, 58);
            let ghost t = buf@.subrange(ta as int, tb as int);
            proof {
                lemma_trim_utf8(buf@.subrange(a as int, b as int));
                lemma_first_byte(buf@, ta as int, tb as int, 58u8);
                assert(first_byte(t, 0, t.len() as int, 58u8) == c - ta) by {
                    lemma_first_byte_sub(buf@, ta as int, ta as int, tb as int, 58u8);
                }
                lemma_utf8_split(t, c - ta);
                assert(t.subrange(0, c - ta) =~= buf@.subrange(ta as int, c as int));
            }
            let raw = string_of(buf, ta, c);
            Some(to_lowercase(raw.as_str()))
        },
    }
}

/// `first_byte` on a subrange is `first_byte` on the whole, shifted.
pub proof fn lemma_first_byte_sub(s: Seq<u8>, lo: int, k: int, hi: int, c: u8)
    requires
        0 <= lo <= k <= hi <= s.len(),
    ensures
        first_byte(s.subrange(lo, hi), k - lo, hi - lo, c) == first_byte(s, k, hi, c) - lo,
    decreases hi - k,
{
    if k < hi {
        assert(s.subrange(lo, hi)[k - lo] == s[k]);
        if s[k] != c {
            lemma_first_byte_sub(s, lo, k + 1, hi, c);
        }
    }
}

/// Index of the first byte after the header block (just after the first `\r\n\r\n`).
pub fn headers_end(buf: &[u8]) -> (r: Option<usize>)
    ensures
        match r {
            Some(e) => 4 <= e <= buf@.len() && blank_line_at(buf@, e - 4) && forall|j: int|
                0 <= j < e - 4 ==> !blank_line_at(buf@, j),
            None => forall|j: int| !blank_line_at(buf@, j),
        },
{
    let n = buf.len();
    if n < 4 {
        return None;
    }
    let mut i: usize = 0;
    while i < n - 3
        invariant
            n == buf@.len(),
            n >= 4,
            i <= n - 3,
            forall|j: int| 0 <= j < i ==> !blank_line_at(buf@, j),
        decreases n - i,
    {
        if buf[i] == 13 && buf[i + 1] == 10 && buf[i + 2] == 13 && buf[i + 3] == 10 {
            return Some(i + 4);
        }
        i = i + 1;
    }
    None
}

/// The value of the first `Authorization` header (before the blank line
/// ending the header block), trimmed. `None` when the bytes are not UTF-8 or
/// there is no such header.
pub fn extract_authorization(buf: &[u8]) -> (r: Option<String>)
    requires
        authorization_scan_ok(buf@),
    ensures
        r is Some <==> valid_utf8(buf@) && prefixed_header(buf@, authorization_name()) is Some,
        r matches Some(v) ==> v@ == decode_utf8(authorization_bytes(buf@)),
{
    if utf8_str(buf).is_none() {
        return None;
    }
    let name = authorization_literal();
    match find_prefixed_header(buf, &name) {
        None => None,
        Some((a, b)) => {
            proof {
                lemma_value_valid(buf@, a as int, b as int);
                lemma_trim_utf8(buf@.subrange(a as int, b as int));
            }
            let (ta, tb) = trim_range(buf, a, b);
            Some(string_of(buf, ta, tb))
        },
    }
}

/// The `Authorization` value, trimmed.
pub open spec fn authorization_bytes(s: Seq<u8>) -> Seq<u8> {
    let (a, b) = prefixed_header(s, authorization_name()).unwrap();
    trim(s.subrange(a, b))
}

fn find_field(buf: &[u8], name: &[u8]) -> (r: Option<(usize, usize)>)
    ensures
        match r {
            Some((a, b)) => field(buf@, name@) == Some((a as int, b as int)) && a <= b <= buf@.len(),
            None => field(buf@, name@) is None,
        },
{
    let n = buf.len();
    let mut start: usize = 0;
    loop
        invariant
            n == buf@.len(),
            start <= n,
            field(buf@, name@) == field_from(buf@, start as int, name@),
        decreases n - start,
    {
        let end = find_line_end(buf, start);
        proof {
            lemma_line_end(buf@, start as int);
        }
        let c = find_byte(buf, start, end, 58);
        proof {
            lemma_first_byte(buf@, start as int, end as int, 58u8);
        }
        if c < end && c - start == name.len() && ieq_at(buf, start, name) {
            return Some((c + 1, end));
        }
        if end >= n {
            return None;
        }
        start = end + 2;
    }
}

fn transfer_encoding_literal() -> (r: [u8; 17])
    ensures
        r@ == transfer_encoding_name(),
{
    let r: [u8; 17] = [116, 114, 97, 110, 115, 102, 101, 114, 45, 101, 110, 99, 111, 100, 105, 110, 103];
    assert(r@ =~= transfer_encoding_name());
    r
}

fn content_length_literal() -> (r: [u8; 14])
    ensures
        r@ == content_length_name(),
{
    let r: [u8; 14] = [99, 111, 110, 116, 101, 110, 116, 45, 108, 101, 110, 103, 116, 104];
    assert(r@ =~= content_length_name());
    r
}

fn chunked_literal() -> (r: [u8; 7])
    ensures
        r@ == chunked_word(),
{
    let r: [u8; 7] = [99, 104, 117, 110, 107, 101, 100];
    assert(r@ =~= chunked_word());
    r
}

/// Whether the first `Transfer-Encoding` field says `chunked`.
pub open spec fn chunked_spec(s: Seq<u8>) -> bool {
    valid_utf8(s) && match field(s, transfer_encoding_name()) {
        Some((a, b)) => ascii_ieq(trim(s.subrange(a, b)), chunked_word()),
        None => false,
    }
}

/// True when the bytes are UTF-8 and the first `Transfer-Encoding` field of any
/// line is `chunked` (ASCII case and surrounding whitespace ignored).
pub fn is_chunked(headers: &[u8]) -> (r: bool)
    ensures
        r == chunked_spec(headers@),
{
    if utf8_str(headers).is_none() {
        return false;
    }
    let name = transfer_encoding_literal();
    match find_field(headers, &name) {
        None => false,
        Some((a, b)) => {
            let (ta, tb) = trim_range(headers, a, b);
            let word = chunked_literal();
            tb - ta == 7 && ieq_at(headers, ta, &word)
        },
    }
}

/// The value of the first `Content-Length` field, or 0 when the bytes are not
/// UTF-8, there is no such field, or its value is not a `usize`.
pub open spec fn content_length_spec(s: Seq<u8>) -> nat {
    if !valid_utf8(s) {
        0
    } else {
        match field(s, content_length_name()) {
            Some((a, b)) => match parse_unsigned(trim(s.subrange(a, b)), 10, usize::MAX as nat) {
                Some(v) => v,
                None => 0,
            },
            None => 0,
        }
    }
}

/// The value of the first `Content-Length` field (see `content_length_spec`).
pub fn parse_content_length(buf: &[u8]) -> (r: usize)
    ensures
        r as nat == content_length_spec(buf@),
{
    if utf8_str(buf).is_none() {
        return 0;
    }
    let name = content_length_literal();
    match find_field(buf, &name) {
        None => 0,
        Some((a, b)) => {
            let (ta, tb) = trim_range(buf, a, b);
            match parse_unsigned_range(buf, ta, tb, 10, usize::MAX) {
                Some(v) => v,
                None => 0,
            }
        },
    }
}

/// Whether `b` is ASCII whitespace as `u8::is_ascii_whitespace` defines it.
pub open spec fn is_ascii_ws(b: u8) -> bool {
    b == 32u8 || b == 9u8 || b == 10u8 || b == 12u8 || b == 13u8
}

/// First index at or after `i` that does not hold ASCII whitespace, or `s.len()`.
pub open spec fn skip_ws(s: Seq<u8>, i: int) -> int
    decreases s.len() - i,
{
    if i < 0 || i >= s.len() {
        s.len() as int
    } else if is_ascii_ws(s[i]) {
        skip_ws(s, i + 1)
    } else {
        i
    }
}

/// First index at or after `i` that holds ASCII whitespace, or `s.len()`.
pub open spec fn token_end(s: Seq<u8>, i: int) -> int
    decreases s.len() - i,
{
    if i < 0 || i >= s.len() {
        s.len() as int
    } else if is_ascii_ws(s[i]) {
        i
    } else {
        token_end(s, i + 1)
    }
}

pub proof fn lemma_skip_ws(s: Seq<u8>, i: int)
    requires
        0 <= i <= s.len(),
    ensures
        i <= skip_ws(s, i) <= s.len(),
        skip_ws(s, i) < s.len() ==> !is_ascii_ws(s[skip_ws(s, i)]),
    decreases s.len() - i,
{
    if i < s.len() && is_ascii_ws(s[i]) {
        lemma_skip_ws(s, i + 1);
    }
}

pub proof fn lemma_token_end(s: Seq<u8>, i: int)
    requires
        0 <= i <= s.len(),
    ensures
        i <= token_end(s, i) <= s.len(),
        i < s.len() && !is_ascii_ws(s[i]) ==> i < token_end(s, i),
    decreases s.len() - i,
{
    if i < s.len() && !is_ascii_ws(s[i]) {
        lemma_token_end(s, i + 1);
    }
}

/// Bounds of the `k`-th (from 0) run of non-whitespace bytes at or after `i`,
/// as `split_ascii_whitespace().nth(k)` finds it.
pub open spec fn token(s: Seq<u8>, i: int, k: nat) -> Option<(int, int)>
    decreases s.len() - i,
{
    if i < 0 || i > s.len() {
        None
    } else {
        let a = skip_ws(s, i);
        proof {
            lemma_skip_ws(s, i);
            lemma_token_end(s, a);
        }
        if a >= s.len() {
            None
        } else {
            let b = token_end(s, a);
            if k == 0 {
                Some((a, b))
            } else {
                token(s, b, (k - 1) as nat)
            }
        }
    }
}

/// The first line of `s`: the bytes before its first `\r\n` (all of them
/// when it has none).
pub open spec fn first_line(s: Seq<u8>) -> Seq<u8> {
    s.subrange(0, line_end(s, 0))
}

/// The status code of a response head, read from its first line: the second
/// whitespace-separated token of that line as a `u16`, or 502 when the line
/// is not UTF-8, has no second token, or that token is not a `u16`.
pub open spec fn response_status_spec(s: Seq<u8>) -> u16 {
    let f = first_line(s);
    if !valid_utf8(f) {
        502
    } else {
        match token(f, 0, 1) {
            Some((a, b)) => match parse_unsigned(f.subrange(a, b), 10, 65535) {
                Some(v) => v as u16,
                None => 502,
            },
            None => 502,
        }
    }
}

fn find_token(buf: &[u8], k: usize) -> (r: Option<(usize, usize)>)
    ensures
        match r {
            Some((a, b)) => token(buf@, 0, k as nat) == Some((a as int, b as int)) && a <= b
                <= buf@.len(),
            None => token(buf@, 0, k as nat) is None,
        },
{
    let n = buf.len();
    let mut i: usize = 0;
    let mut left = k;
    loop
        invariant
            n == buf@.len(),
            i <= n,
            token(buf@, 0, k as nat) == token(buf@, i as int, left as nat),
        decreases n - i,
    {
        let mut a = i;
        while a < n && (buf[a] == 32 || buf[a] == 9 || buf[a] == 10 || buf[a] == 12 || buf[a]
            == 13)
            invariant
                i <= a <= n,
                n == buf@.len(),
                skip_ws(buf@, i as int) == skip_ws(buf@, a as int),
            decreases n - a,
        {
            a = a + 1;
        }
        if a >= n {
            return None;
        }
        let mut b = a;
        while b < n && !(buf[b] == 32 || buf[b] == 9 || buf[b] == 10 || buf[b] == 12 || buf[b]
            == 13)
            invariant
                a <= b <= n,
                n == buf@.len(),
                token_end(buf@, a as int) == token_end(buf@, b as int),
            decreases n - b,
        {
            b = b + 1;
        }
        if left == 0 {
            return Some((a, b));
        }
        left = left - 1;
        i = b;
    }
}

/// The status code of an HTTP response head (see `response_status_spec`).
pub fn parse_response_status(buf: &[u8]) -> (r: u16)
    ensures
        r == response_status_spec(buf@),
{
    let fe = find_line_end(buf, 0);
    proof {
        lemma_line_end(buf@, 0);
    }
    let first = &buf[0..fe];
    assert(first@ =~= first_line(buf@));
    if utf8_str(first).is_none() {
        return 502;
    }
    match find_token(first, 1) {
        None => 502,
        Some((a, b)) => match parse_unsigned_range(first, a, b, 10, 65535) {
            Some(v) => v as u16,
            None => 502,
        },
    }
}

/// Method and target of a request line: the text before the first space of
/// the first line, and the text between that space and the next one (or the
/// end of the line). `None` when the first line holds no space.
pub open spec fn request_line_parts(s: Seq<u8>) -> Option<(int, int, int)> {
    let fe = line_end(s, 0);
    let p = first_byte(s, 0, fe, 32u8);
    if p >= fe {
        None
    } else {
        Some((p, p + 1, first_byte(s, p + 1, fe, 32u8)))
    }
}

fn question_mark() -> (r: String)
    ensures
        r@ == seq!['?'],
{
    let q = "?";
    proof {
        reveal_strlit("?");
    }
    q.to_owned()
}

/// Method and path of the request line, or `("?", "?")` when the first line
/// is not UTF-8 or has no space.
pub fn parse_request_line(buf: &[u8]) -> (r: (String, String))
    ensures
        !valid_utf8(first_line(buf@)) || request_line_parts(buf@) is None ==> r.0@ == seq!['?']
            && r.1@ == seq!['?'],
        valid_utf8(first_line(buf@)) && request_line_parts(buf@) is Some ==> ({
            let (p, m, q) = request_line_parts(buf@).unwrap();
            &&& r.0@ == decode_utf8(buf@.subrange(0, p))
            &&& r.1@ == decode_utf8(buf@.subrange(m, q))
        }),
{
    let fe = find_line_end(buf, 0);
    proof {
        lemma_line_end(buf@, 0);
    }
    let ghost f = buf@.subrange(0, fe as int);
    let first = &buf[0..fe];
    assert(first@ =~= f);
    if utf8_str(first).is_none() {
        return (question_mark(), question_mark());
    }
    let p = find_byte(buf, 0, fe, 32);
    proof {
        lemma_first_byte(buf@, 0, fe as int, 32u8);
    }
    if p >= fe {
        return (question_mark(), question_mark());
    }
    let q = find_byte(buf, p + 1, fe, 32);
    proof {
        lemma_first_byte(buf@, p + 1, fe as int, 32u8);
        assert(f[p as int] == buf@[p as int]);
        lemma_utf8_split(f, p as int);
        assert(f.subrange(0, p as int) =~= buf@.subrange(0, p as int));
        let t = f.subrange(p + 1, fe as int);
        lemma_utf8_after_ascii(f, p as int);
        if q < fe {
            assert(t[q - p - 1] == buf@[q as int]);
        }
        lemma_utf8_split(t, q - p - 1);
        assert(t.subrange(0, q - p - 1) =~= buf@.subrange(p + 1, q as int));
    }
    (string_of(buf, 0, p), string_of(buf, p + 1, q))
}

/// What to do after a chunk of a request or response head has been read.
pub enum HeadProgress {
    /// The buffer holds a complete header block.
    Complete,
    /// More bytes are needed.
    NeedMore,
    /// The buffer grew past `MAX_HEADER_SIZE` without a complete header block.
    TooLarge,
}

/// One chunk added to a buffered head: the bytes now buffered, and whether
/// they are too many, hold a complete header block, or need more.
pub open spec fn head_step(buf: Seq<u8>, chunk: Seq<u8>) -> (Seq<u8>, HeadProgress) {
    let b = buf + chunk;
    if b.len() > MAX_HEADER_SIZE {
        (b, HeadProgress::TooLarge)
    } else if exists|j: int| blank_line_at(b, j) {
        (b, HeadProgress::Complete)
    } else {
        (b, HeadProgress::NeedMore)
    }
}

/// Reading a head chunk by chunk from `buf`: steps (see `head_step`) while
/// more is needed and chunks remain. The bytes buffered and how it ended
/// (`NeedMore` when the input ended first).
pub open spec fn head_feed(buf: Seq<u8>, chunks: Seq<Seq<u8>>) -> (Seq<u8>, HeadProgress)
    decreases chunks.len(),
{
    if chunks.len() == 0 {
        (buf, HeadProgress::NeedMore)
    } else {
        let (b, st) = head_step(buf, chunks[0]);
        match st {
            HeadProgress::NeedMore => head_feed(b, chunks.drop_first()),
            _ => (b, st),
        }
    }
}

proof fn lemma_head_feed(buf: Seq<u8>, chunks: Seq<Seq<u8>>)
    requires
        buf.len() <= MAX_HEADER_SIZE,
        !(exists|j: int| blank_line_at(buf, j)),
    ensures
        ({
            let (b, st) = head_feed(buf, chunks);
            let all = buf + chunks.flatten();
            &&& b.len() <= all.len()
            &&& b == all.subrange(0, b.len() as int)
            &&& st is Complete ==> b.len() <= MAX_HEADER_SIZE && exists|j: int| blank_line_at(b, j)
            &&& st is TooLarge ==> b.len() > MAX_HEADER_SIZE
            &&& st is NeedMore ==> b == all && b.len() <= MAX_HEADER_SIZE && !(exists|j: int|
                blank_line_at(b, j))
        }),
    decreases chunks.len(),
{
    let all = buf + chunks.flatten();
    if chunks.len() == 0 {
        assert(all =~= buf);
    } else {
        let rest = chunks.drop_first();
        let b1 = buf + chunks[0];
        assert(chunks.flatten() == chunks[0] + rest.flatten());
        assert(all =~= b1 + rest.flatten());
        let st = head_step(buf, chunks[0]).1;
        if st is NeedMore {
            lemma_head_feed(b1, rest);
        } else {
            assert(b1 =~= all.subrange(0, b1.len() as int));
        }
    }
}

/// Reading a head from chunks as they arrive: the bytes buffered are the
/// start of the input; reading ends with a complete header block within
/// `MAX_HEADER_SIZE` bytes, or too large once past `MAX_HEADER_SIZE` bytes
/// without one, or, when the input ends first, with all of it, which is
/// within the limit and holds no blank line.
pub proof fn lemma_read_head(chunks: Seq<Seq<u8>>)
    ensures
        ({
            let (b, st) = head_feed(Seq::empty(), chunks);
            let all = chunks.flatten();
            &&& b.len() <= all.len()
            &&& b == all.subrange(0, b.len() as int)
            &&& st is Complete ==> b.len() <= MAX_HEADER_SIZE && exists|j: int| blank_line_at(b, j)
            &&& st is TooLarge ==> b.len() > MAX_HEADER_SIZE
            &&& st is NeedMore ==> b == all && b.len() <= MAX_HEADER_SIZE && !(exists|j: int|
                blank_line_at(b, j))
        }),
{
    lemma_head_feed(Seq::empty(), chunks);
    assert(Seq::<u8>::empty() + chunks.flatten() =~= chunks.flatten());
}

/// Appends a chunk read from the peer to the buffered head and says whether
/// the head is complete, too large, or needs more bytes.
pub fn absorb_head_chunk(buf: &mut Vec<u8>, chunk: &[u8]) -> (r: HeadProgress)
    requires
        old(buf)@.len() + chunk@.len() <= usize::MAX,
    ensures
        final(buf)@ == old(buf)@ + chunk@,
        r is TooLarge <==> final(buf)@.len() > MAX_HEADER_SIZE,
        r is Complete <==> final(buf)@.len() <= MAX_HEADER_SIZE && exists|j: int|
            blank_line_at(final(buf)@, j),        (final(buf)@, r) == head_step(old(buf)@, chunk@),
{
    let ghost before = buf@;
    let n = chunk.len();
    let mut i: usize = 0;
    while i < n
        invariant
            n == chunk@.len(),
            i <= n,
            buf@ == before + chunk@.subrange(0, i as int),
        decreases n - i,
    {
        buf.push(chunk[i]);
        i = i + 1;
        assert(buf@ =~= before + chunk@.subrange(0, i as int));
    }
    assert(chunk@.subrange(0, n as int) =~= chunk@);
    if buf.len() > MAX_HEADER_SIZE {
        return HeadProgress::TooLarge;
    }
    match headers_end(buf.as_slice()) {
        Some(e) => HeadProgress::Complete,
        None => HeadProgress::NeedMore,
    }
}

/// The `502 Bad Gateway` response sent when the local service cannot be reached.
pub open spec fn bad_gateway_text() -> Seq<char> {
    "HTTP/1.1 502 Bad Gateway\r\nContent-Type: text/plain\r\nContent-Length: 39\r\nConnection: close\r\n\r\nFailed to connect to upstream service.\n"@
}

/// The `404 Not Found` response sent for a host with no tunnel.
pub open spec fn not_found_text() -> Seq<char> {
    "HTTP/1.1 404 Not Found\r\nContent-Type: text/plain\r\nContent-Length: 26\r\nConnection: close\r\n\r\nNo tunnel for this domain\n"@
}

/// The `401 Unauthorized` response sent when basic auth fails.
pub open spec fn unauthorized_text() -> Seq<char> {
    "HTTP/1.1 401 Unauthorized\r\nWWW-Authenticate: Basic realm=\"tnnl\"\r\nContent-Length: 0\r\nConnection: close\r\n\r\n"@
}

/// Bytes of the `502 Bad Gateway` response.
pub fn bad_gateway_response() -> (r: Vec<u8>)
    ensures
        r@ == encode_utf8(bad_gateway_text()),
{
    vstd::slice::slice_to_vec("HTTP/1.1 502 Bad Gateway\r\nContent-Type: text/plain\r\nContent-Length: 39\r\nConnection: close\r\n\r\nFailed to connect to upstream service.\n".as_bytes())
}

/// Bytes of the `404 Not Found` response.
pub fn not_found_response() -> (r: Vec<u8>)
    ensures
        r@ == encode_utf8(not_found_text()),
{
    vstd::slice::slice_to_vec("HTTP/1.1 404 Not Found\r\nContent-Type: text/plain\r\nContent-Length: 26\r\nConnection: close\r\n\r\nNo tunnel for this domain\n".as_bytes())
}

/// Bytes of the `401 Unauthorized` response.
pub fn unauthorized_response() -> (r: Vec<u8>)
    ensures
        r@ == encode_utf8(unauthorized_text()),
{
    vstd::slice::slice_to_vec("HTTP/1.1 401 Unauthorized\r\nWWW-Authenticate: Basic realm=\"tnnl\"\r\nContent-Length: 0\r\nConnection: close\r\n\r\n".as_bytes())
}

} // verus!
