//! Byte-level text primitives shared by the HTTP and log code: `\r\n` line
//! structure, ASCII case folding, Unicode whitespace trimming of UTF-8 bytes,
//! unsigned integer parsing and decimal rendering.
use vstd::prelude::*;
use vstd::string::StringSliceAdditionalSpecFns;
use vstd::utf8::{
    decode_utf8, encode_utf8_decode_utf8, is_continuation_byte, length_of_first_scalar,
    pop_first_scalar, valid_first_scalar, valid_utf8,
};

verus! {

/// True when `s` holds the four bytes `\r\n\r\n` starting at index `i`.
pub open spec fn blank_line_at(s: Seq<u8>, i: int) -> bool {
    &&& 0 <= i
    &&& i + 4 <= s.len()
    &&& s[i] == 13u8
    &&& s[i + 1] == 10u8
    &&& s[i + 2] == 13u8
    &&& s[i + 3] == 10u8
}

/// True when `s` holds `\r\n` starting at index `i`.
pub open spec fn crlf_at(s: Seq<u8>, i: int) -> bool {
    &&& 0 <= i
    &&& i + 1 < s.len()
    &&& s[i] == 13u8
    &&& s[i + 1] == 10u8
}

/// End of the `\r\n`-terminated line that starts at `from`: the index of the
/// first `\r\n` at or after `from`, or `s.len()` when there is none.
pub open spec fn line_end(s: Seq<u8>, from: int) -> int
    decreases s.len() - from,
{
    if from < 0 || from + 1 >= s.len() {
        s.len() as int
    } else if crlf_at(s, from) {
        from
    } else {
        line_end(s, from + 1)
    }
}

pub proof fn lemma_line_end(s: Seq<u8>, from: int)
    requires
        0 <= from <= s.len(),
    ensures
        from <= line_end(s, from) <= s.len(),
        line_end(s, from) < s.len() ==> crlf_at(s, line_end(s, from)),
        forall|j: int| from <= j < line_end(s, from) ==> !crlf_at(s, j),
    decreases s.len() - from,
{
    if from + 1 >= s.len() {
    } else if crlf_at(s, from) {
    } else {
        lemma_line_end(s, from + 1);
    }
}

/// ASCII lower-casing of one byte; other bytes are unchanged.
pub open spec fn ascii_lower(b: u8) -> u8 {
    if 65 <= b <= 90 {
        (b + 32) as u8
    } else {
        b
    }
}

/// ASCII case-insensitive equality of two byte strings.
pub open spec fn ascii_ieq(a: Seq<u8>, b: Seq<u8>) -> bool {
    &&& a.len() == b.len()
    &&& forall|i: int| 0 <= i < a.len() ==> ascii_lower(#[trigger] a[i]) == ascii_lower(b[i])
}

pub fn lower_byte(b: u8) -> (r: u8)
    ensures
        r == ascii_lower(b),
{
    if 65 <= b && b <= 90 {
        b + 32
    } else {
        b
    }
}

/// Compares `buf[start..start + name.len()]` with `name`, ignoring ASCII case.
pub fn ieq_at(buf: &[u8], start: usize, name: &[u8]) -> (r: bool)
    requires
        start + name@.len() <= buf@.len(),
    ensures
        r == ascii_ieq(buf@.subrange(start as int, start + name@.len()), name@),
{
    let n = name.len();
    let blen = buf.len();
    let mut i: usize = 0;
    while i < n
        invariant
            n == name@.len(),
            blen == buf@.len(),
            start + n <= buf@.len(),
            i <= n,
            forall|k: int|
                0 <= k < i ==> ascii_lower(buf@[start + k]) == ascii_lower(name@[k]),
        decreases n - i,
    {
        if lower_byte(buf[start + i]) != lower_byte(name[i]) {
            assert(buf@.subrange(start as int, start + n)[i as int] == buf@[start + i]);
            return false;
        }
        i = i + 1;
    }
    assert forall|k: int| 0 <= k < n implies ascii_lower(
        #[trigger] buf@.subrange(start as int, start + n)[k],
    ) == ascii_lower(name@[k]) by {
        assert(buf@.subrange(start as int, start + n)[k] == buf@[start + k]);
    }
    true
}

/// Length of the UTF-8 encoding of a Unicode `White_Space` character that
/// starts `s`, or 0 when `s` does not start with one.
pub open spec fn ws_prefix_len(s: Seq<u8>) -> int {
    if s.len() >= 1 && (s[0] == 32u8 || (9 <= s[0] <= 13)) {
        1
    } else if s.len() >= 2 && s[0] == 0xC2u8 && (s[1] == 0x85u8 || s[1] == 0xA0u8) {
        2
    } else if s.len() >= 3 && ws3(s[0], s[1], s[2]) {
        3
    } else {
        0
    }
}

/// Length of the UTF-8 encoding of a Unicode `White_Space` character that
/// ends `s`, or 0 when `s` does not end with one.
pub open spec fn ws_suffix_len(s: Seq<u8>) -> int {
    let n = s.len() as int;
    if n >= 1 && (s[n - 1] == 32u8 || (9 <= s[n - 1] <= 13)) {
        1
    } else if n >= 2 && s[n - 2] == 0xC2u8 && (s[n - 1] == 0x85u8 || s[n - 1] == 0xA0u8) {
        2
    } else if n >= 3 && ws3(s[n - 3], s[n - 2], s[n - 1]) {
        3
    } else {
        0
    }
}

/// The three-byte encodings of U+1680, U+2000..U+200A, U+2028, U+2029,
/// U+202F, U+205F and U+3000.
pub open spec fn ws3(a: u8, b: u8, c: u8) -> bool {
    ||| (a == 0xE1u8 && b == 0x9Au8 && c == 0x80u8)
    ||| (a == 0xE2u8 && b == 0x80u8 && ((0x80 <= c <= 0x8A) || c == 0xA8u8 || c == 0xA9u8
        || c == 0xAFu8))
    ||| (a == 0xE2u8 && b == 0x81u8 && c == 0x9Fu8)
    ||| (a == 0xE3u8 && b == 0x80u8 && c == 0x80u8)
}

/// `s` without its leading whitespace characters.
pub open spec fn trim_start(s: Seq<u8>) -> Seq<u8>
    decreases s.len(),
{
    let k = ws_prefix_len(s);
    if k == 0 {
        s
    } else {
        trim_start(s.subrange(k, s.len() as int))
    }
}

/// `s` without its trailing whitespace characters.
pub open spec fn trim_end(s: Seq<u8>) -> Seq<u8>
    decreases s.len(),
{
    let k = ws_suffix_len(s);
    if k == 0 {
        s
    } else {
        trim_end(s.subrange(0, s.len() - k))
    }
}

/// `s` without leading and trailing whitespace characters.
pub open spec fn trim(s: Seq<u8>) -> Seq<u8> {
    trim_end(trim_start(s))
}

fn is_ws3(a: u8, b: u8, c: u8) -> (r: bool)
    ensures
        r == ws3(a, b, c),
{
    (a == 0xE1 && b == 0x9A && c == 0x80) || (a == 0xE2 && b == 0x80 && ((0x80 <= c && c
        <= 0x8A) || c == 0xA8 || c == 0xA9 || c == 0xAF)) || (a == 0xE2 && b == 0x81 && c
        == 0x9F) || (a == 0xE3 && b == 0x80 && c == 0x80)
}

fn ws_prefix_at(buf: &[u8], lo: usize, hi: usize) -> (r: usize)
    requires
        lo <= hi <= buf@.len(),
    ensures
        r as int == ws_prefix_len(buf@.subrange(lo as int, hi as int)),
{
    let ghost s = buf@.subrange(lo as int, hi as int);
    let n = hi - lo;
    if n >= 1 {
        assert(s[0] == buf@[lo as int]);
    }
    if n >= 2 {
        assert(s[1] == buf@[lo + 1]);
    }
    if n >= 3 {
        assert(s[2] == buf@[lo + 2]);
    }
    if n >= 1 && (buf[lo] == 32 || (9 <= buf[lo] && buf[lo] <= 13)) {
        1
    } else if n >= 2 && buf[lo] == 0xC2 && (buf[lo + 1] == 0x85 || buf[lo + 1] == 0xA0) {
        2
    } else if n >= 3 && is_ws3(buf[lo], buf[lo + 1], buf[lo + 2]) {
        3
    } else {
        0
    }
}

fn ws_suffix_at(buf: &[u8], lo: usize, hi: usize) -> (r: usize)
    requires
        lo <= hi <= buf@.len(),
    ensures
        r as int == ws_suffix_len(buf@.subrange(lo as int, hi as int)),
{
    let ghost s = buf@.subrange(lo as int, hi as int);
    let n = hi - lo;
    if n >= 1 {
        assert(s[n - 1] == buf@[hi - 1]);
    }
    if n >= 2 {
        assert(s[n - 2] == buf@[hi - 2]);
    }
    if n >= 3 {
        assert(s[n - 3] == buf@[hi - 3]);
    }
    if n >= 1 && (buf[hi - 1] == 32 || (9 <= buf[hi - 1] && buf[hi - 1] <= 13)) {
        1
    } else if n >= 2 && buf[hi - 2] == 0xC2 && (buf[hi - 1] == 0x85 || buf[hi - 1] == 0xA0) {
        2
    } else if n >= 3 && is_ws3(buf[hi - 3], buf[hi - 2], buf[hi - 1]) {
        3
    } else {
        0
    }
}

/// Start of `buf[lo..hi]` without its leading whitespace.
pub fn trim_start_range(buf: &[u8], lo: usize, hi: usize) -> (r: usize)
    requires
        lo <= hi <= buf@.len(),
    ensures
        lo <= r <= hi,
        buf@.subrange(r as int, hi as int) == trim_start(buf@.subrange(lo as int, hi as int)),
{
    let mut a = lo;
    while a < hi
        invariant
            lo <= a <= hi <= buf@.len(),
            trim_start(buf@.subrange(lo as int, hi as int)) == trim_start(
                buf@.subrange(a as int, hi as int),
            ),
        ensures
            lo <= a <= hi,
            trim_start(buf@.subrange(lo as int, hi as int)) == trim_start(
                buf@.subrange(a as int, hi as int),
            ),
            ws_prefix_len(buf@.subrange(a as int, hi as int)) == 0,
        decreases hi - a,
    {
        let k = ws_prefix_at(buf, a, hi);
        if k == 0 {
            break;
        }
        assert(buf@.subrange(a as int, hi as int).subrange(k as int, hi - a) =~= buf@.subrange(
            a + k,
            hi as int,
        ));
        a = a + k;
    }
    a
}

/// Bounds of the trimmed part of `buf[lo..hi]`.
pub fn trim_range(buf: &[u8], lo: usize, hi: usize) -> (r: (usize, usize))
    requires
        lo <= hi <= buf@.len(),
    ensures
        lo <= r.0 <= r.1 <= hi,
        buf@.subrange(r.0 as int, r.1 as int) == trim(buf@.subrange(lo as int, hi as int)),
{
    let mut a = lo;
    while a < hi
        invariant
            lo <= a <= hi <= buf@.len(),
            trim_start(buf@.subrange(lo as int, hi as int)) == trim_start(
                buf@.subrange(a as int, hi as int),
            ),
        ensures
            lo <= a <= hi,
            trim_start(buf@.subrange(lo as int, hi as int)) == trim_start(
                buf@.subrange(a as int, hi as int),
            ),
            ws_prefix_len(buf@.subrange(a as int, hi as int)) == 0,
        decreases hi - a,
    {
        let k = ws_prefix_at(buf, a, hi);
        if k == 0 {
            break;
        }
        assert(buf@.subrange(a as int, hi as int).subrange(k as int, hi - a) =~= buf@.subrange(
            a + k,
            hi as int,
        ));
        a = a + k;
    }
    assert(trim_start(buf@.subrange(a as int, hi as int)) == buf@.subrange(a as int, hi as int));
    let mut b = hi;
    while b > a
        invariant
            lo <= a <= b <= hi <= buf@.len(),
            trim(buf@.subrange(lo as int, hi as int)) == trim_end(
                buf@.subrange(a as int, b as int),
            ),
        ensures
            lo <= a <= b <= hi,
            trim(buf@.subrange(lo as int, hi as int)) == trim_end(
                buf@.subrange(a as int, b as int),
            ),
            ws_suffix_len(buf@.subrange(a as int, b as int)) == 0,
        decreases b - a,
    {
        let k = ws_suffix_at(buf, a, b);
        if k == 0 {
            break;
        }
        assert(buf@.subrange(a as int, b as int).subrange(0, b - a - k) =~= buf@.subrange(
            a as int,
            b - k,
        ));
        b = b - k;
    }
    (a, b)
}

/// Value of an ASCII digit in base 10 or base 16 (either case), if it is one.
pub open spec fn digit_value(b: u8, radix: nat) -> Option<nat> {
    if 48 <= b <= 57 && (b - 48) < radix {
        Some((b - 48) as nat)
    } else if radix == 16 && 97 <= b <= 102 {
        Some((b - 87) as nat)
    } else if radix == 16 && 65 <= b <= 70 {
        Some((b - 55) as nat)
    } else {
        None
    }
}

pub open spec fn all_digits(d: Seq<u8>, radix: nat) -> bool {
    forall|i: int| 0 <= i < d.len() ==> #[trigger] digit_value(d[i], radix) is Some
}

/// Numeric value of a string of digits, most significant first.
pub open spec fn digits_value(d: Seq<u8>, radix: nat) -> nat
    decreases d.len(),
{
    if d.len() == 0 {
        0
    } else {
        digits_value(d.drop_last(), radix) * radix + digit_value(d.last(), radix).unwrap_or(0)
    }
}

/// An unsigned integer as read by the standard library's `from_str_radix`:
/// an optional `+`, then at least one digit, with a value at most `max`.
pub open spec fn parse_unsigned(s: Seq<u8>, radix: nat, max: nat) -> Option<nat> {
    let d = if s.len() > 0 && s[0] == 43u8 {
        s.drop_first()
    } else {
        s
    };
    if d.len() == 0 || !all_digits(d, radix) || digits_value(d, radix) > max {
        None
    } else {
        Some(digits_value(d, radix))
    }
}

fn digit_of(b: u8, radix: u8) -> (r: Option<u8>)
    requires
        radix == 10 || radix == 16,
    ensures
        match r {
            Some(v) => digit_value(b, radix as nat) == Some(v as nat) && v < radix,
            None => digit_value(b, radix as nat) is None,
        },
{
    if 48 <= b && b <= 57 {
        Some(b - 48)
    } else if radix == 16 && 97 <= b && b <= 102 {
        Some(b - 87)
    } else if radix == 16 && 65 <= b && b <= 70 {
        Some(b - 55)
    } else {
        None
    }
}

proof fn lemma_digits_value_grows(d: Seq<u8>, k: int, radix: nat)
    requires
        0 <= k <= d.len(),
        radix >= 1,
    ensures
        digits_value(d.subrange(0, k), radix) <= digits_value(d, radix),
    decreases d.len() - k,
{
    if k < d.len() {
        lemma_digits_value_grows(d, k + 1, radix);
        let p = d.subrange(0, k + 1);
        assert(p.drop_last() =~= d.subrange(0, k));
        let v = digits_value(d.subrange(0, k), radix);
        assert(v * radix >= v) by (nonlinear_arith)
            requires
                radix >= 1,
        ;
    } else {
        assert(d.subrange(0, k) =~= d);
    }
}

/// Parses `buf[lo..hi]` as an unsigned integer in the given radix, at most `max`.
pub fn parse_unsigned_range(buf: &[u8], lo: usize, hi: usize, radix: u8, max: usize) -> (r:
    Option<usize>)
    requires
        lo <= hi <= buf@.len(),
        radix == 10 || radix == 16,
    ensures
        match r {
            Some(v) => parse_unsigned(buf@.subrange(lo as int, hi as int), radix as nat, max as nat)
                == Some(v as nat),
            None => parse_unsigned(buf@.subrange(lo as int, hi as int), radix as nat, max as nat)
                is None,
        },
{
    let ghost s = buf@.subrange(lo as int, hi as int);
    let mut start = lo;
    if lo < hi && buf[lo] == 43 {
        start = lo + 1;
    }
    let ghost d = buf@.subrange(start as int, hi as int);
    assert(d =~= (if s.len() > 0 && s[0] == 43u8 {
        s.drop_first()
    } else {
        s
    }));
    if start == hi {
        return None;
    }
    let mut acc: u128 = 0;
    let mut i = start;
    while i < hi
        invariant
            lo <= start <= i <= hi <= buf@.len(),
            d == buf@.subrange(start as int, hi as int),
            s == buf@.subrange(lo as int, hi as int),
            d == (if s.len() > 0 && s[0] == 43u8 {
                s.drop_first()
            } else {
                s
            }),
            radix == 10 || radix == 16,
            all_digits(buf@.subrange(start as int, i as int), radix as nat),
            acc as nat == digits_value(buf@.subrange(start as int, i as int), radix as nat),
            acc <= max,
        decreases hi - i,
    {
        let dv = digit_of(buf[i], radix);
        let ghost pre = buf@.subrange(start as int, i as int);
        let ghost nxt = buf@.subrange(start as int, i + 1);
        assert(nxt.drop_last() =~= pre);
        assert(nxt.last() == buf@[i as int]);
        match dv {
            None => {
                assert(d[i - start] == buf@[i as int]);
                assert(!all_digits(d, radix as nat));
                return None;
            },
            Some(v) => {
                assert(acc * (radix as u128) + (v as u128) <= 0xffff_ffff_ffff_ffff_ffff_ffff_ffff_ffffu128) by (nonlinear_arith)
                    requires
                        acc <= 0xffff_ffff_ffff_ffffu128,
                        radix <= 16,
                        v < 16,
                ;
                let next = acc * (radix as u128) + (v as u128);
                assert forall|k: int| 0 <= k < nxt.len() implies #[trigger] digit_value(
                    nxt[k],
                    radix as nat,
                ) is Some by {
                    if k < pre.len() {
                        assert(nxt[k] == pre[k]);
                    }
                }
                if next > max as u128 {
                    proof {
                        assert(d.subrange(0, i + 1 - start) =~= nxt);
                        lemma_digits_value_grows(d, i + 1 - start, radix as nat);
                    }
                    return None;
                }
                acc = next;
            },
        }
        i = i + 1;
    }
    assert(buf@.subrange(start as int, hi as int) =~= d);
    Some(acc as usize)
}

/// The decimal digits of `n`, most significant first, without leading zeros.
pub open spec fn decimal(n: nat) -> Seq<u8>
    decreases n,
{
    if n < 10 {
        seq![(48 + n) as u8]
    } else {
        decimal(n / 10) + seq![(48 + n % 10) as u8]
    }
}

/// Appends the decimal rendering of `n` to `out`.
pub fn push_decimal(out: &mut Vec<u8>, n: u64)
    ensures
        final(out)@ == old(out)@ + decimal(n as nat),
    decreases n,
{
    if n >= 10 {
        push_decimal(out, n / 10);
    }
    out.push((48 + n % 10) as u8);
    assert(final(out)@ =~= old(out)@ + decimal(n as nat));
}

/// Cutting valid UTF-8 in front of a byte that is not a continuation byte
/// leaves two valid UTF-8 pieces.
pub proof fn lemma_utf8_split(s: Seq<u8>, i: int)
    requires
        valid_utf8(s),
        0 <= i <= s.len(),
        i < s.len() ==> !is_continuation_byte(s[i]),
    ensures
        valid_utf8(s.subrange(0, i)),
        valid_utf8(s.subrange(i, s.len() as int)),
    decreases s.len(),
{
    if i == 0 {
        assert(s.subrange(0, 0).len() == 0);
        assert(s.subrange(0, s.len() as int) =~= s);
    } else {
        let l = length_of_first_scalar(s);
        assert(valid_first_scalar(s));
        assert(i >= l) by {
            if i < l {
                assert(is_continuation_byte(s[i]));
            }
        }
        let rest = pop_first_scalar(s);
        lemma_utf8_split(rest, i - l);
        let p = s.subrange(0, i);
        assert(p[0] == s[0]);
        if s.len() >= 2 && i >= 2 {
            assert(p[1] == s[1]);
        }
        if s.len() >= 3 && i >= 3 {
            assert(p[2] == s[2]);
        }
        if s.len() >= 4 && i >= 4 {
            assert(p[3] == s[3]);
        }
        assert(valid_first_scalar(p));
        assert(length_of_first_scalar(p) == l);
        assert(pop_first_scalar(p) =~= rest.subrange(0, i - l));
        assert(s.subrange(i, s.len() as int) =~= rest.subrange(i - l, rest.len() as int));
    }
}

/// In valid UTF-8, the bytes after an ASCII byte are valid UTF-8.
pub proof fn lemma_utf8_after_ascii(s: Seq<u8>, i: int)
    requires
        valid_utf8(s),
        0 <= i < s.len(),
        s[i] <= 0x7f,
    ensures
        valid_utf8(s.subrange(i + 1, s.len() as int)),
{
    lemma_utf8_split(s, i);
    let t = s.subrange(i, s.len() as int);
    assert(t[0] == s[i]);
    assert(valid_first_scalar(t));
    assert(pop_first_scalar(t) =~= s.subrange(i + 1, s.len() as int));
}

/// Trimming whitespace off valid UTF-8 leaves valid UTF-8.
pub proof fn lemma_trim_start_utf8(t: Seq<u8>)
    requires
        valid_utf8(t),
    ensures
        valid_utf8(trim_start(t)),
    decreases t.len(),
{
    let k = ws_prefix_len(t);
    if k > 0 {
        assert(valid_first_scalar(t));
        assert(length_of_first_scalar(t) == k);
        assert(pop_first_scalar(t) == t.subrange(k, t.len() as int));
        lemma_trim_start_utf8(t.subrange(k, t.len() as int));
    }
}

pub proof fn lemma_trim_end_utf8(t: Seq<u8>)
    requires
        valid_utf8(t),
    ensures
        valid_utf8(trim_end(t)),
    decreases t.len(),
{
    let k = ws_suffix_len(t);
    if k > 0 {
        lemma_utf8_split(t, t.len() - k);
        lemma_trim_end_utf8(t.subrange(0, t.len() - k));
    }
}

pub proof fn lemma_trim_utf8(t: Seq<u8>)
    requires
        valid_utf8(t),
    ensures
        valid_utf8(trim(t)),
{
    lemma_trim_start_utf8(t);
    lemma_trim_end_utf8(trim_start(t));
}

/// ASCII bytes are valid UTF-8.
pub proof fn lemma_ascii_valid(b: Seq<u8>)
    requires
        forall|i: int| 0 <= i < b.len() ==> b[i] <= 0x7f,
    ensures
        valid_utf8(b),
{
    assert(b.subrange(0, 0).len() == 0);
    vstd::utf8::partial_valid_utf8_extend_ascii_block(b, 0, b.len() as int);
    assert(b.subrange(0, b.len() as int) =~= b);
}

/// A `String` holding the characters that the valid UTF-8 bytes `buf[lo..hi]` encode.
pub fn string_of(buf: &[u8], lo: usize, hi: usize) -> (r: String)
    requires
        lo <= hi <= buf@.len(),
        valid_utf8(buf@.subrange(lo as int, hi as int)),
    ensures
        r@ == decode_utf8(buf@.subrange(lo as int, hi as int)),
{
    let part = &buf[lo..hi];
    match utf8_str(part) {
        Some(s) => {
            proof {
                encode_utf8_decode_utf8(s@);
            }
            s.to_owned()
        },
        None => {
            assert(false);
            String::new()
        },
    }
}

/// Appends all of `src` to `out`.
pub fn append_bytes(out: &mut Vec<u8>, src: &[u8])
    ensures
        final(out)@ == old(out)@ + src@,
{
    let ghost before = out@;
    let n = src.len();
    let mut i: usize = 0;
    while i < n
        invariant
            n == src@.len(),
            i <= n,
            out@ == before + src@.subrange(0, i as int),
        decreases n - i,
    {
        out.push(src[i]);
        i = i + 1;
        assert(out@ =~= before + src@.subrange(0, i as int));
    }
    assert(src@.subrange(0, n as int) =~= src@);
}

/// Appends `buf[lo..hi]` to `out`.
pub fn append_range(out: &mut Vec<u8>, buf: &[u8], lo: usize, hi: usize)
    requires
        lo <= hi <= buf@.len(),
    ensures
        final(out)@ == old(out)@ + buf@.subrange(lo as int, hi as int),
{
    append_bytes(out, &buf[lo..hi]);
}

/// Replacement-character decoding as `String::from_utf8_lossy` does it.
pub uninterp spec fn lossy_utf8(b: Seq<u8>) -> Seq<char>;

/// `String::from_utf8_lossy`: the decoding named `lossy_utf8`, which on valid
/// UTF-8 is the plain decoding (the standard library documents that only
/// invalid sequences are replaced). How invalid sequences are replaced is not
/// stated here.
#[verifier::external_body]
pub(crate) fn utf8_lossy(b: &[u8]) -> (r: String)
    ensures
        r@ == lossy_utf8(b@),
        valid_utf8(b@) ==> r@ == decode_utf8(b@),
{
    String::from_utf8_lossy(b).into_owned()
}

/// `std::str::from_utf8`: succeeds exactly on valid UTF-8, and the string
/// slice it returns holds the same bytes.
#[verifier::external_body]
pub(crate) fn utf8_str(b: &[u8]) -> (r: Option<&str>)
    ensures
        r is Some <==> valid_utf8(b@),
        r matches Some(s) ==> s.spec_bytes() == b@,
{
    std::str::from_utf8(b).ok()
}

} // verus!
