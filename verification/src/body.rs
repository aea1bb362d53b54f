//! Message bodies: decoding of `Transfer-Encoding: chunked` bodies as they
//! arrive, how much of a `Content-Length` body to read next, and the header
//! block that replaces a chunked one once the body has been decoded.
use vstd::prelude::*;
use vstd::string::StringSliceAdditionalSpecFns;
use vstd::utf8::{decode_utf8, decode_utf8_encode_utf8, encode_utf8, valid_utf8};
use crate::proxy::{find_byte, find_line_end, first_byte, lemma_first_byte, lemma_first_byte_sub};
use crate::text::{
    ascii_ieq, crlf_at, decimal, trim_start, ieq_at, lemma_line_end, line_end, parse_unsigned, parse_unsigned_range,
    push_decimal, trim, trim_range, utf8_str,
};

verus! {

/// Most body bytes buffered for inspection or replay.
pub const BODY_CAP: usize = 10485760;

/// Largest single read of a body.
pub const READ_CHUNK: usize = 8192;

/// Size announced by a chunk-size line (the bytes before its `\r\n`): the hex
/// number before any `;` extension, trimmed; 0 when the line is not UTF-8 or
/// the number does not parse as a `usize`.
pub open spec fn chunk_size_of(l: Seq<u8>) -> nat {
    if !valid_utf8(l) {
        0
    } else {
        let semi = first_byte(l, 0, l.len() as int, 59u8);
        match parse_unsigned(trim(l.subrange(0, semi)), 16, usize::MAX as nat) {
            Some(v) => v,
            None => 0,
        }
    }
}

/// How a scan of buffered chunked data ends.
pub enum ChunkEnd {
    /// The terminating zero-size chunk and the two bytes after its size line are present.
    Finished,
    /// The decoded body reached `BODY_CAP`.
    Capped,
    /// The data from this index on is an incomplete chunk; more bytes are needed.
    Partial(int),
    /// A chunk's end lies beyond `usize::MAX`.
    Overflow,
}

/// Decoding of the chunks in `raw` from `pos` on, when `body_len` bytes have
/// been decoded before: the data of the complete chunks, in order, and how
/// the scan ends. A chunk is complete when its size line, its data and the
/// two bytes after the data are present.
pub open spec fn chunk_scan(raw: Seq<u8>, pos: int, body_len: nat) -> (Seq<u8>, ChunkEnd)
    decreases raw.len() - pos,
{
    if pos < 0 || pos > raw.len() {
        (Seq::empty(), ChunkEnd::Partial(pos))
    } else {
        let c = line_end(raw, pos);
        proof {
            lemma_line_end(raw, pos);
        }
        if c >= raw.len() {
            (Seq::empty(), ChunkEnd::Partial(pos))
        } else {
            let size = chunk_size_of(raw.subrange(pos, c));
            if size == 0 {
                if c + 4 <= raw.len() {
                    (Seq::empty(), ChunkEnd::Finished)
                } else {
                    (Seq::empty(), ChunkEnd::Partial(pos))
                }
            } else if c + 2 + size + 2 > usize::MAX {
                (Seq::empty(), ChunkEnd::Overflow)
            } else if c + 2 + size + 2 > raw.len() {
                (Seq::empty(), ChunkEnd::Partial(pos))
            } else {
                let data = raw.subrange(c + 2, c + 2 + size);
                if body_len + size >= BODY_CAP {
                    (data, ChunkEnd::Capped)
                } else {
                    let rest = chunk_scan(raw, c + 2 + size + 2, body_len + size);
                    (data + rest.0, rest.1)
                }
            }
        }
    }
}

/// What to do after decoding the buffered chunked data.
pub enum ChunkStep {
    /// The body is complete (or capped).
    Done,
    /// Drop this many consumed bytes from the buffer, then read more.
    NeedMore(usize),
}

fn chunk_size_at(raw: &[u8], pos: usize, c: usize) -> (r: usize)
    requires
        pos <= c <= raw@.len(),
    ensures
        r as nat == chunk_size_of(raw@.subrange(pos as int, c as int)),
{
    let ghost l = raw@.subrange(pos as int, c as int);
    if utf8_str(&raw[pos..c]).is_none() {
        return 0;
    }
    let semi = find_byte(raw, pos, c, 59);
    proof {
        lemma_first_byte(raw@, pos as int, c as int, 59u8);
        lemma_first_byte_sub(raw@, pos as int, pos as int, c as int, 59u8);
        assert(l.subrange(0, semi - pos) =~= raw@.subrange(pos as int, semi as int));
    }
    let (ta, tb) = trim_range(raw, pos, semi);
    match parse_unsigned_range(raw, ta, tb, 16, usize::MAX) {
        Some(v) => v,
        None => 0,
    }
}

/// Decodes the complete chunks buffered in `raw` onto `body` (see
/// `chunk_scan`). Inputs on which a chunk's end would pass `usize::MAX` are
/// left out: `chunk_scan_overflows` finds them.
pub fn decode_chunks(raw: &[u8], body: &mut Vec<u8>) -> (r: ChunkStep)
    requires
        !(chunk_scan(raw@, 0, old(body)@.len()).1 is Overflow),
    ensures
        final(body)@ == old(body)@ + chunk_scan(raw@, 0, old(body)@.len()).0,
        r is Done <==> (chunk_scan(raw@, 0, old(body)@.len()).1 is Finished || chunk_scan(
            raw@,
            0,
            old(body)@.len(),
        ).1 is Capped),
        r matches ChunkStep::NeedMore(p) ==> chunk_scan(raw@, 0, old(body)@.len()).1
            == ChunkEnd::Partial(p as int),
{
    let ghost start_body = body@;
    let ghost total = chunk_scan(raw@, 0, start_body.len());
    let n = raw.len();
    let mut pos: usize = 0;
    loop
        invariant
            n == raw@.len(),
            pos <= n,
            start_body == old(body)@,
            total == chunk_scan(raw@, 0, start_body.len()),
            !(total.1 is Overflow),
            body@.len() >= start_body.len(),
            body@.subrange(0, start_body.len() as int) == start_body,
            total.0 == body@.subrange(start_body.len() as int, body@.len() as int) + chunk_scan(
                raw@,
                pos as int,
                body@.len(),
            ).0,
            total.1 == chunk_scan(raw@, pos as int, body@.len()).1,
        decreases n - pos,
    {
        let c = find_line_end(raw, pos);
        proof {
            lemma_line_end(raw@, pos as int);
        }
        if c >= n {
            assert(body@ =~= start_body + total.0);
            return ChunkStep::NeedMore(pos);
        }
        let size = chunk_size_at(raw, pos, c);
        if size == 0 {
            assert(body@ =~= start_body + total.0);
            if n - c >= 4 {
                return ChunkStep::Done;
            }
            return ChunkStep::NeedMore(pos);
        }
        let data_start = c + 2;
        let data_end = data_start + size;
        if data_end + 2 > n {
            assert(body@ =~= start_body + total.0);
            return ChunkStep::NeedMore(pos);
        }
        let ghost before = body@;
        let mut k = data_start;
        while k < data_end
            invariant
                data_start <= k <= data_end,
                data_end + 2 <= n,
                n == raw@.len(),
                body@ == before + raw@.subrange(data_start as int, k as int),
            decreases data_end - k,
        {
            body.push(raw[k]);
            k = k + 1;
            assert(body@ =~= before + raw@.subrange(data_start as int, k as int));
        }
        let ghost data = raw@.subrange(data_start as int, data_end as int);
        assert(body@.subrange(start_body.len() as int, body@.len() as int) =~= before.subrange(
            start_body.len() as int,
            before.len() as int,
        ) + data);
        assert(body@.subrange(0, start_body.len() as int) =~= before.subrange(
            0,
            start_body.len() as int,
        ));
        if body.len() >= BODY_CAP {
            assert(body@ =~= start_body + total.0);
            return ChunkStep::Done;
        }
        pos = data_end + 2;
    }
}

proof fn lemma_partial_bounds(raw: Seq<u8>, pos: int, len: nat)
    requires
        0 <= pos <= raw.len(),
    ensures
        chunk_scan(raw, pos, len).1 matches ChunkEnd::Partial(p) ==> pos <= p <= raw.len(),
    decreases raw.len() - pos,
{
    lemma_line_end(raw, pos);
    let c = line_end(raw, pos);
    if c < raw.len() {
        let size = chunk_size_of(raw.subrange(pos, c));
        if size != 0 && c + 2 + size + 2 <= usize::MAX && c + 2 + size + 2 <= raw.len() && len
            + size < BODY_CAP {
            lemma_partial_bounds(raw, c + 2 + size + 2, len + size);
        }
    }
}

/// One decoding pass over buffered chunked data: the complete chunks go onto
/// the body; when more bytes are needed, the bytes consumed leave the buffer.
/// The buffer left, the body, and whether the body is done.
pub open spec fn chunk_pass(raw: Seq<u8>, body: Seq<u8>) -> (Seq<u8>, Seq<u8>, bool) {
    let (data, end) = chunk_scan(raw, 0, body.len());
    match end {
        ChunkEnd::Partial(p) => (raw.subrange(p, raw.len() as int), body + data, false),
        _ => (raw, body + data, true),
    }
}

/// Decodes the complete chunks buffered in `raw` onto `body` and drops the
/// bytes consumed from `raw` (see `chunk_pass`); says whether the body is
/// done. Inputs on which a chunk's end would pass `usize::MAX` are left out.
pub fn decode_pass(raw: &mut Vec<u8>, body: &mut Vec<u8>) -> (done: bool)
    requires
        !(chunk_scan(old(raw)@, 0, old(body)@.len()).1 is Overflow),
    ensures
        (final(raw)@, final(body)@, done) == chunk_pass(old(raw)@, old(body)@),
{
    proof {
        lemma_partial_bounds(raw@, 0, body@.len());
    }
    match decode_chunks(raw.as_slice(), body) {
        ChunkStep::Done => true,
        ChunkStep::NeedMore(p) => {
            let mut rest: Vec<u8> = Vec::new();
            crate::text::append_range(&mut rest, raw.as_slice(), p, raw.len());
            assert(rest@ =~= old(raw)@.subrange(p as int, old(raw)@.len() as int));
            *raw = rest;
            false
        },
    }
}

/// Chunked data fed as it arrives: a pass over the buffer (see
/// `chunk_pass`); then, unless the body is done or the input has ended, the
/// next piece read is added to what is left, and so on. The decoded body.
pub open spec fn chunked_feed(raw: Seq<u8>, body: Seq<u8>, pieces: Seq<Seq<u8>>) -> Seq<u8>
    decreases pieces.len(),
{
    let (rest, b, done) = chunk_pass(raw, body);
    if done || pieces.len() == 0 {
        b
    } else {
        chunked_feed(rest + pieces[0], b, pieces.drop_first())
    }
}

proof fn lemma_line_end_prefix(r: Seq<u8>, x: Seq<u8>, pos: int)
    requires
        0 <= pos <= r.len(),
        line_end(r, pos) < r.len(),
    ensures
        line_end(r + x, pos) == line_end(r, pos),
    decreases r.len() - pos,
{
    let t = r + x;
    if pos + 1 < r.len() {
        assert(t[pos] == r[pos] && t[pos + 1] == r[pos + 1]);
        if !crlf_at(r, pos) {
            lemma_line_end_prefix(r, x, pos + 1);
        }
    }
}

proof fn lemma_line_end_shift(t: Seq<u8>, p: int, pos: int)
    requires
        0 <= p <= pos <= t.len(),
    ensures
        line_end(t.subrange(p, t.len() as int), pos - p) == line_end(t, pos) - p,
    decreases t.len() - pos,
{
    let u = t.subrange(p, t.len() as int);
    if pos + 1 < t.len() {
        assert(u[pos - p] == t[pos] && u[pos - p + 1] == t[pos + 1]);
        if !crlf_at(t, pos) {
            lemma_line_end_shift(t, p, pos + 1);
        }
    }
}

proof fn lemma_scan_prefix(r: Seq<u8>, x: Seq<u8>, pos: int, len: nat)
    requires
        0 <= pos <= r.len(),
        chunk_scan(r + x, pos, len).1 is Finished,
    ensures
        ({
            let whole = chunk_scan(r + x, pos, len);
            let part = chunk_scan(r, pos, len);
            ||| part == whole
            ||| (part.1 matches ChunkEnd::Partial(p) && pos <= p <= r.len() && chunk_scan(
                r + x,
                p,
                len + part.0.len(),
            ).1 is Finished && whole.0 == part.0 + chunk_scan(r + x, p, len + part.0.len()).0)
        }),
    decreases r.len() - pos,
{
    let t = r + x;
    lemma_line_end(r, pos);
    lemma_line_end(t, pos);
    let c = line_end(r, pos);
    let whole = chunk_scan(t, pos, len);
    if c >= r.len() {
        assert(chunk_scan(r, pos, len) == (Seq::<u8>::empty(), ChunkEnd::Partial(pos)));
        assert(whole.0 =~= Seq::<u8>::empty() + whole.0);
    } else {
        lemma_line_end_prefix(r, x, pos);
        assert(t.subrange(pos, c) =~= r.subrange(pos, c));
        let size = chunk_size_of(r.subrange(pos, c));
        if size == 0 {
            if c + 4 > r.len() {
                assert(chunk_scan(r, pos, len) == (Seq::<u8>::empty(), ChunkEnd::Partial(pos)));
                assert(whole.0 =~= Seq::<u8>::empty() + whole.0);
            }
        } else if c + 2 + size + 2 > r.len() {
            assert(chunk_scan(r, pos, len) == (Seq::<u8>::empty(), ChunkEnd::Partial(pos)));
            assert(whole.0 =~= Seq::<u8>::empty() + whole.0);
        } else {
            let next = c + 2 + size + 2;
            assert(t.subrange(c + 2, c + 2 + size) =~= r.subrange(c + 2, c + 2 + size));
            let data = r.subrange(c + 2, c + 2 + size);
            lemma_scan_prefix(r, x, next, len + size);
            let rest_r = chunk_scan(r, next, len + size);
            let rest_t = chunk_scan(t, next, len + size);
            assert(whole == (data + rest_t.0, rest_t.1));
            assert(chunk_scan(r, pos, len) == (data + rest_r.0, rest_r.1));
            if rest_r != rest_t {
                let p = rest_r.1->Partial_0;
                assert(len + size + rest_r.0.len() == len + (data + rest_r.0).len());
                assert(whole.0 =~= (data + rest_r.0) + chunk_scan(
                    t,
                    p,
                    len + (data + rest_r.0).len(),
                ).0);
            }
        }
    }
}

proof fn lemma_scan_shift(t: Seq<u8>, p: int, pos: int, len: nat)
    requires
        0 <= p <= pos <= t.len(),
        chunk_scan(t, pos, len).1 is Finished,
    ensures
        chunk_scan(t.subrange(p, t.len() as int), pos - p, len) == chunk_scan(t, pos, len),
    decreases t.len() - pos,
{
    let u = t.subrange(p, t.len() as int);
    lemma_line_end(t, pos);
    lemma_line_end_shift(t, p, pos);
    let c = line_end(t, pos);
    if c < t.len() {
        assert(u.subrange(pos - p, c - p) =~= t.subrange(pos, c));
        let size = chunk_size_of(t.subrange(pos, c));
        if size != 0 {
            let next = c + 2 + size + 2;
            assert(u.subrange(c - p + 2, c - p + 2 + size) =~= t.subrange(c + 2, c + 2 + size));
            if len + size < BODY_CAP {
                lemma_scan_shift(t, p, next, len + size);
                assert(next - p == (c - p) + 2 + size + 2);
            }
        }
    }
}

proof fn lemma_feed(raw: Seq<u8>, body: Seq<u8>, pieces: Seq<Seq<u8>>, decoded: Seq<u8>)
    requires
        chunk_scan(raw + pieces.flatten(), 0, body.len()) == (decoded, ChunkEnd::Finished),
    ensures
        chunked_feed(raw, body, pieces) == body + decoded,
    decreases pieces.len(),
{
    let t = raw + pieces.flatten();
    lemma_scan_prefix(raw, pieces.flatten(), 0, body.len());
    let part = chunk_scan(raw, 0, body.len());
    if pieces.len() == 0 {
        assert(t =~= raw);
    } else if part != chunk_scan(t, 0, body.len()) {
        let p = part.1->Partial_0;
        let rest = raw.subrange(p, raw.len() as int);
        let raw2 = rest + pieces[0];
        let body2 = body + part.0;
        let tail = pieces.drop_first();
        assert(pieces.flatten() == pieces[0] + tail.flatten());
        assert(raw2 + tail.flatten() =~= t.subrange(p, t.len() as int));
        lemma_scan_shift(t, p, p, body.len() + part.0.len());
        let d2 = chunk_scan(t, p, body.len() + part.0.len()).0;
        assert(chunk_scan(raw2 + tail.flatten(), 0, body2.len()) == (d2, ChunkEnd::Finished));
        lemma_feed(raw2, body2, tail, d2);
        assert(body2 + d2 =~= body + decoded);
    }
}

/// Chunked decoding does not depend on how the bytes arrive: when the bytes
/// buffered at first followed by all the pieces read later form a complete
/// chunked body (its last chunk has size 0 and its data stays below
/// `BODY_CAP`), feeding them pass by pass gives exactly that body's data,
/// however they are split.
pub proof fn lemma_chunked_split_independent(
    initial: Seq<u8>,
    pieces: Seq<Seq<u8>>,
    decoded: Seq<u8>,
)
    requires
        chunk_scan(initial + pieces.flatten(), 0, 0) == (decoded, ChunkEnd::Finished),
    ensures
        chunked_feed(initial, Seq::empty(), pieces) == decoded,
{
    lemma_feed(initial, Seq::empty(), pieces, decoded);
    assert(Seq::<u8>::empty() + decoded =~= decoded);
}

/// Whether `decode_chunks` would meet a chunk whose end passes `usize::MAX`
/// on `raw` after `body_len` decoded bytes.
pub fn chunk_scan_overflows(raw: &[u8], body_len: usize) -> (r: bool)
    ensures
        r == (chunk_scan(raw@, 0, body_len as nat).1 is Overflow),
{
    let n = raw.len();
    let mut pos: usize = 0;
    let mut len: u128 = body_len as u128;
    loop
        invariant
            n == raw@.len(),
            pos <= n,
            len <= usize::MAX as u128 + BODY_CAP as u128,
            (chunk_scan(raw@, 0, body_len as nat).1 is Overflow) == (chunk_scan(
                raw@,
                pos as int,
                len as nat,
            ).1 is Overflow),
        decreases n - pos,
    {
        let c = find_line_end(raw, pos);
        proof {
            lemma_line_end(raw@, pos as int);
        }
        if c >= n {
            return false;
        }
        let size = chunk_size_at(raw, pos, c);
        if size == 0 {
            return false;
        }
        if size > usize::MAX - 4 || c > usize::MAX - 4 - size {
            return true;
        }
        let data_end = c + 2 + size;
        if data_end + 2 > n {
            return false;
        }
        if len + size as u128 >= BODY_CAP as u128 {
            return false;
        }
        len = len + size as u128;
        pos = data_end + 2;
    }
}

/// Where reading a body of `total` bytes stops: at `total` or `BODY_CAP`,
/// whichever is smaller.
pub open spec fn read_target(total: nat) -> nat {
    if total < BODY_CAP {
        total
    } else {
        BODY_CAP as nat
    }
}

/// How many more body bytes to ask for when `have` bytes are buffered:
/// none once the target is reached, else what is missing, at most
/// `READ_CHUNK` at a time.
pub open spec fn read_want(have: nat, total: nat) -> nat {
    if have >= read_target(total) {
        0
    } else if read_target(total) - have < READ_CHUNK {
        (read_target(total) - have) as nat
    } else {
        READ_CHUNK as nat
    }
}

/// How many more body bytes to ask for (see `read_want`).
pub fn body_read_want(have: usize, total: usize) -> (r: usize)
    ensures
        r == read_want(have as nat, total as nat),
{
    let target = if total < BODY_CAP {
        total
    } else {
        BODY_CAP
    };
    if have >= target {
        0
    } else if target - have < READ_CHUNK {
        target - have
    } else {
        READ_CHUNK
    }
}

/// Reading a body from `buf` when the input still holds the bytes `s`: while
/// more is wanted (see `read_want`) and the input has not ended, a read asks
/// for that many bytes and gets between one of them and all of them (`sizes`
/// says how many, in order; a read beyond `sizes` gets all it asks for). The
/// bytes held at the end.
pub open spec fn read_exact_run(buf: Seq<u8>, total: nat, s: Seq<u8>, sizes: Seq<nat>) -> Seq<u8>
    decreases s.len(),
{
    let want = read_want(buf.len(), total);
    if want == 0 || s.len() == 0 {
        buf
    } else {
        let asked = if want < s.len() {
            want
        } else {
            s.len()
        };
        let n = if sizes.len() > 0 && 1 <= sizes[0] <= asked {
            sizes[0]
        } else {
            asked
        };
        read_exact_run(
            buf + s.subrange(0, n as int),
            total,
            s.subrange(n as int, s.len() as int),
            if sizes.len() > 0 {
                sizes.drop_first()
            } else {
                sizes
            },
        )
    }
}

/// Reading a body does not depend on how the reads divide the input: from
/// `buf`, with the input holding `s` before it ends, the bytes held at the
/// end are `buf` followed by as much of `s` as the target (`total`, at most
/// `BODY_CAP`) still lacks, and no more.
pub proof fn lemma_read_exact(buf: Seq<u8>, total: nat, s: Seq<u8>, sizes: Seq<nat>)
    ensures
        buf.len() >= read_target(total) ==> read_exact_run(buf, total, s, sizes) == buf,
        buf.len() < read_target(total) ==> read_exact_run(buf, total, s, sizes) == buf
            + s.subrange(
            0,
            if s.len() < read_target(total) - buf.len() {
                s.len() as int
            } else {
                read_target(total) - buf.len()
            },
        ),
    decreases s.len(),
{
    let want = read_want(buf.len(), total);
    if want == 0 || s.len() == 0 {
        assert(buf + s.subrange(0, 0) =~= buf);
    } else {
        let asked = if want < s.len() {
            want
        } else {
            s.len()
        };
        let n = if sizes.len() > 0 && 1 <= sizes[0] <= asked {
            sizes[0]
        } else {
            asked
        };
        let rest = s.subrange(n as int, s.len() as int);
        let next = if sizes.len() > 0 {
            sizes.drop_first()
        } else {
            sizes
        };
        lemma_read_exact(buf + s.subrange(0, n as int), total, rest, next);
        let t = read_target(total) as int;
        let m = if s.len() < t - buf.len() {
            s.len() as int
        } else {
            t - buf.len()
        };
        if buf.len() + n < t {
            let m2 = if rest.len() < t - buf.len() - n {
                rest.len() as int
            } else {
                t - buf.len() - n
            };
            assert(m2 == m - n);
            assert(buf + s.subrange(0, n as int) + rest.subrange(0, m2) =~= buf + s.subrange(0, m));
        } else {
            assert(m == n);
        }
    }
}

/// `\r\n`
pub open spec fn crlf() -> Seq<u8> {
    seq![13u8, 10u8]
}

/// `transfer-encoding:`
pub open spec fn transfer_encoding_prefix() -> Seq<u8> {
    seq![116u8, 114u8, 97u8, 110u8, 115u8, 102u8, 101u8, 114u8, 45u8, 101u8, 110u8, 99u8, 111u8, 100u8, 105u8, 110u8, 103u8, 58u8]
}

/// `content-length:`
pub open spec fn content_length_prefix() -> Seq<u8> {
    seq![99u8, 111u8, 110u8, 116u8, 101u8, 110u8, 116u8, 45u8, 108u8, 101u8, 110u8, 103u8, 116u8, 104u8, 58u8]
}

/// `Content-Length: `
pub open spec fn content_length_start() -> Seq<u8> {
    seq![67u8, 111u8, 110u8, 116u8, 101u8, 110u8, 116u8, 45u8, 76u8, 101u8, 110u8, 103u8, 116u8, 104u8, 58u8, 32u8]
}

/// Whether `line` begins with `p`, ASCII case ignored.
pub open spec fn starts_with_ieq(line: Seq<u8>, p: Seq<u8>) -> bool {
    line.len() >= p.len() && ascii_ieq(line.subrange(0, p.len() as int), p)
}

/// A header line survives unchunking when it is not empty and is neither a
/// `Transfer-Encoding` nor a `Content-Length` line.
pub open spec fn kept_line(line: Seq<u8>) -> bool {
    line.len() > 0 && !starts_with_ieq(line, transfer_encoding_prefix()) && !starts_with_ieq(
        line,
        content_length_prefix(),
    )
}

/// Rebuilt lines of `s` from `start` on: every kept line followed by `\r\n`,
/// and right after the very first line of `s`, when it is kept, a
/// `Content-Length: n` line.
pub open spec fn rebuilt_lines(s: Seq<u8>, start: int, first: bool, n: nat) -> Seq<u8>
    decreases s.len() - start,
{
    if start < 0 || start > s.len() {
        Seq::empty()
    } else {
        let end = line_end(s, start);
        proof {
            lemma_line_end(s, start);
        }
        let line = s.subrange(start, end);
        let out = if kept_line(line) {
            line + crlf() + (if first {
                content_length_start() + decimal(n) + crlf()
            } else {
                Seq::empty()
            })
        } else {
            Seq::empty()
        };
        if end < s.len() {
            out + rebuilt_lines(s, end + 2, false, n)
        } else {
            out
        }
    }
}

/// The header block that replaces `s` once the body is unchunked to `n` bytes.
pub open spec fn rebuilt_head(s: Seq<u8>, n: nat) -> Seq<u8> {
    rebuilt_lines(s, 0, true, n) + crlf()
}

/// The rebuilt head announces the decoded length: when the status line is
/// kept, it comes first, followed at once by `Content-Length: n`.
pub proof fn lemma_rebuilt_announces_length(s: Seq<u8>, n: nat)
    requires
        kept_line(s.subrange(0, line_end(s, 0))),
    ensures
        ({
            let prefix = s.subrange(0, line_end(s, 0)) + crlf() + content_length_start() + decimal(
                n,
            ) + crlf();
            &&& prefix.len() <= rebuilt_head(s, n).len()
            &&& rebuilt_head(s, n).subrange(0, prefix.len() as int) == prefix
        }),
{
    lemma_line_end(s, 0);
    let end = line_end(s, 0);
    let prefix = s.subrange(0, end) + crlf() + content_length_start() + decimal(n) + crlf();
    let lines = rebuilt_lines(s, 0, true, n);
    if end < s.len() {
        assert(lines == prefix + rebuilt_lines(s, end + 2, false, n));
    } else {
        assert(lines == prefix);
    }
    assert(rebuilt_head(s, n).subrange(0, prefix.len() as int) =~= prefix);
}

fn line_kept(buf: &[u8], lo: usize, hi: usize) -> (r: bool)
    requires
        lo <= hi <= buf@.len(),
    ensures
        r == kept_line(buf@.subrange(lo as int, hi as int)),
{
    let te: [u8; 18] = [116, 114, 97, 110, 115, 102, 101, 114, 45, 101, 110, 99, 111, 100, 105, 110, 103, 58];
    let cl: [u8; 15] = [99, 111, 110, 116, 101, 110, 116, 45, 108, 101, 110, 103, 116, 104, 58];
    assert(te@ =~= transfer_encoding_prefix());
    assert(cl@ =~= content_length_prefix());
    let ghost line = buf@.subrange(lo as int, hi as int);
    if hi == lo {
        return false;
    }
    let te_match = hi - lo >= 18 && ieq_at(buf, lo, &te);
    let cl_match = hi - lo >= 15 && ieq_at(buf, lo, &cl);
    proof {
        if hi - lo >= 18 {
            assert(line.subrange(0, 18) =~= buf@.subrange(lo as int, lo + 18));
        }
        if hi - lo >= 15 {
            assert(line.subrange(0, 15) =~= buf@.subrange(lo as int, lo + 15));
        }
    }
    !te_match && !cl_match
}

/// The header block of a chunked response rewritten for a body of `body_len`
/// bytes (see `rebuilt_head`), computed on the bytes read with replacement
/// characters for invalid UTF-8.
pub fn rebuild_resp_headers(headers: &[u8], body_len: usize) -> (r: Vec<u8>)
    ensures
        r@ == rebuilt_head(encode_utf8(crate::text::lossy_utf8(headers@)), body_len as nat),
        valid_utf8(headers@) ==> r@ == rebuilt_head(headers@, body_len as nat),
{
    let text = crate::text::utf8_lossy(headers);
    let bytes = text.as_str().as_bytes();
    proof {
        if valid_utf8(headers@) {
            decode_utf8_encode_utf8(headers@);
        }
    }
    let ghost s = bytes@;
    let n = bytes.len();
    let mut out: Vec<u8> = Vec::new();
    let mut start: usize = 0;
    let mut first = true;
    let crlf_arr: [u8; 2] = [13, 10];
    let cl_arr: [u8; 16] = [67, 111, 110, 116, 101, 110, 116, 45, 76, 101, 110, 103, 116, 104, 58, 32];
    assert(crlf_arr@ =~= crlf());
    assert(cl_arr@ =~= content_length_start());
    loop
        invariant_except_break
            rebuilt_lines(s, 0, true, body_len as nat) == out@ + rebuilt_lines(
                s,
                start as int,
                first,
                body_len as nat,
            ),
        invariant
            s == bytes@,
            n == s.len(),
            start <= n,
            crlf_arr@ == crlf(),
            cl_arr@ == content_length_start(),
        ensures
            rebuilt_lines(s, 0, true, body_len as nat) == out@,
        decreases n - start,
    {
        let end = find_line_end(bytes, start);
        proof {
            lemma_line_end(s, start as int);
        }
        let ghost before = out@;
        if line_kept(bytes, start, end) {
            crate::text::append_range(&mut out, bytes, start, end);
            crate::text::append_bytes(&mut out, &crlf_arr);
            if first {
                crate::text::append_bytes(&mut out, &cl_arr);
                push_decimal(&mut out, body_len as u64);
                crate::text::append_bytes(&mut out, &crlf_arr);
            }
        }
        if end >= n {
            assert(out@ =~= before + (if kept_line(s.subrange(start as int, end as int)) {
                s.subrange(start as int, end as int) + crlf() + (if first {
                    content_length_start() + decimal(body_len as nat) + crlf()
                } else {
                    Seq::empty()
                })
            } else {
                Seq::empty()
            }));
            break;
        }
        assert(out@ =~= before + (if kept_line(s.subrange(start as int, end as int)) {
            s.subrange(start as int, end as int) + crlf() + (if first {
                content_length_start() + decimal(body_len as nat) + crlf()
            } else {
                Seq::empty()
            })
        } else {
            Seq::empty()
        }));
        start = end + 2;
        first = false;
    }
    crate::text::append_bytes(&mut out, &crlf_arr);
    out
}

/// The lower-case hex digit for a value below 16.
pub open spec fn hex_digit_byte(v: nat) -> u8 {
    if v < 10 {
        (48 + v) as u8
    } else {
        (87 + v) as u8
    }
}

/// `n` in hex, most significant digit first, without leading zeros.
pub open spec fn hex_text(n: nat) -> Seq<u8>
    decreases n,
{
    if n < 16 {
        seq![hex_digit_byte(n)]
    } else {
        hex_text(n / 16) + seq![hex_digit_byte(n % 16)]
    }
}

/// The chunked transfer encoding of `chunks`: each chunk as its size in hex,
/// `\r\n`, its bytes and `\r\n`; then the last chunk `0\r\n\r\n`.
pub open spec fn chunked_encoding(chunks: Seq<Seq<u8>>) -> Seq<u8>
    decreases chunks.len(),
{
    if chunks.len() == 0 {
        hex_text(0) + crlf() + crlf()
    } else {
        hex_text(chunks[0].len()) + crlf() + chunks[0] + crlf() + chunked_encoding(
            chunks.drop_first(),
        )
    }
}

proof fn lemma_hex_text(n: nat)
    ensures
        hex_text(n).len() >= 1,
        forall|i: int|
            0 <= i < hex_text(n).len() ==> (48 <= #[trigger] hex_text(n)[i] <= 57 || 97
                <= hex_text(n)[i] <= 102),
        crate::text::all_digits(hex_text(n), 16),
        crate::text::digits_value(hex_text(n), 16) == n,
    decreases n,
{
    let h = hex_text(n);
    assert(crate::text::digit_value(hex_digit_byte(n % 16), 16) == Some(n % 16));
    if n < 16 {
        assert(h.drop_last() =~= Seq::<u8>::empty());
        assert(crate::text::digits_value(h.drop_last(), 16) == 0);
        assert(h.last() == hex_digit_byte(n));
        assert(crate::text::digit_value(hex_digit_byte(n), 16) == Some(n));
    }
    if n >= 16 {
        lemma_hex_text(n / 16);
        assert(h.drop_last() =~= hex_text(n / 16));
        assert(h.last() == hex_digit_byte(n % 16));
        assert((n / 16) * 16 + n % 16 == n);
        assert forall|i: int| 0 <= i < h.len() implies (48 <= #[trigger] h[i] <= 57 || 97 <= h[i]
            <= 102) by {
            if i < h.len() - 1 {
                assert(h[i] == hex_text(n / 16)[i]);
            }
        }
        assert forall|i: int| 0 <= i < h.len() implies #[trigger] crate::text::digit_value(
            h[i],
            16,
        ) is Some by {
            if i < h.len() - 1 {
                assert(h[i] == hex_text(n / 16)[i]);
            }
        }
    }
}

/// A size line written in hex reads back as its number.
proof fn lemma_hex_size(n: nat)
    requires
        n <= usize::MAX,
    ensures
        chunk_size_of(hex_text(n)) == n,
{
    let h = hex_text(n);
    lemma_hex_text(n);
    crate::text::lemma_ascii_valid(h);
    lemma_first_byte(h, 0, h.len() as int, 59u8);
    let semi = first_byte(h, 0, h.len() as int, 59u8);
    assert(semi == h.len());
    assert(h.subrange(0, semi) =~= h);
    assert(crate::text::ws_prefix_len(h) == 0);
    assert(trim_start(h) == h);
    assert(crate::text::ws_suffix_len(h) == 0) by {
        let m = h.len() as int;
        assert(48 <= h[m - 1] <= 57 || 97 <= h[m - 1] <= 102);
    }
    assert(trim(h) == h);
}

proof fn lemma_line_end_at(s: Seq<u8>, pos: int, e: int)
    requires
        0 <= pos <= e,
        e + 1 < s.len(),
        s[e] == 13u8,
        s[e + 1] == 10u8,
        forall|j: int| pos <= j < e ==> s[j] != 13u8,
    ensures
        line_end(s, pos) == e,
    decreases e - pos,
{
    if pos < e {
        lemma_line_end_at(s, pos + 1, e);
    }
}

proof fn lemma_scan_encoding(prefix: Seq<u8>, chunks: Seq<Seq<u8>>, len: nat)
    requires
        forall|i: int| 0 <= i < chunks.len() ==> chunks[i].len() > 0,
        len + chunks.flatten().len() < BODY_CAP,
        prefix.len() + chunked_encoding(chunks).len() <= usize::MAX,
    ensures
        chunk_scan(prefix + chunked_encoding(chunks), prefix.len() as int, len) == (
            chunks.flatten(),
            ChunkEnd::Finished,
        ),
    decreases chunks.len(),
{
    let enc = chunked_encoding(chunks);
    let s = prefix + enc;
    let pos = prefix.len() as int;
    if chunks.len() == 0 {
        assert(hex_text(0) == seq![48u8]);
        assert(enc =~= seq![48u8, 13u8, 10u8, 13u8, 10u8]);
        lemma_line_end_at(s, pos, pos + 1);
        assert(s.subrange(pos, pos + 1) =~= hex_text(0));
        lemma_hex_size(0);
    } else {
        let c0 = chunks[0];
        let rest = chunks.drop_first();
        let k = c0.len();
        let h = hex_text(k);
        lemma_hex_text(k);
        let c = pos + h.len();
        assert(enc =~= h + crlf() + c0 + crlf() + chunked_encoding(rest));
        assert forall|j: int| pos <= j < c implies s[j] != 13u8 by {
            assert(s[j] == h[j - pos]);
        }
        assert(s[c] == 13u8 && s[c + 1] == 10u8);
        lemma_line_end_at(s, pos, c);
        assert(s.subrange(pos, c) =~= h);
        lemma_hex_size(k);
        assert(chunks.flatten() == c0 + rest.flatten());
        let next = c + 2 + k + 2;
        let prefix2 = prefix + h + crlf() + c0 + crlf();
        assert(prefix2 + chunked_encoding(rest) =~= s);
        assert(s.subrange(c + 2, c + 2 + k) =~= c0);
        assert forall|i: int| 0 <= i < rest.len() implies rest[i].len() > 0 by {
            assert(rest[i] == chunks[i + 1]);
        }
        lemma_scan_encoding(prefix2, rest, len + k);
        assert(prefix2.len() == next);
    }
}

/// Decoding undoes the chunked encoding: the chunked encoding of any bytes,
/// in chunks of any non-zero sizes (their sizes written in hex, most
/// significant digit first), decodes to exactly those bytes, ending at the
/// last chunk, when they stay below `BODY_CAP` after the `body_len` bytes
/// decoded before.
pub proof fn lemma_chunked_roundtrip(chunks: Seq<Seq<u8>>, body_len: nat)
    requires
        forall|i: int| 0 <= i < chunks.len() ==> chunks[i].len() > 0,
        body_len + chunks.flatten().len() < BODY_CAP,
        chunked_encoding(chunks).len() <= usize::MAX,
    ensures
        chunk_scan(chunked_encoding(chunks), 0, body_len) == (chunks.flatten(), ChunkEnd::Finished),
{
    lemma_scan_encoding(Seq::empty(), chunks, body_len);
    assert(Seq::<u8>::empty() + chunked_encoding(chunks) =~= chunked_encoding(chunks));
}

} // verus!
