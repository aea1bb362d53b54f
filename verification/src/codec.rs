//! Base64 (standard alphabet, padded), HMAC-SHA256 and random values, as
//! the `base64`, `hmac`/`sha2` and `rand` crates compute them.
use vstd::prelude::*;
use vstd::string::StringSliceAdditionalSpecFns;
use vstd::utf8::encode_utf8_decode_utf8;

verus! {

/// The base64 symbol for a 6-bit value.
pub open spec fn b64_symbol(v: int) -> char {
    if v < 26 {
        (65 + v) as char
    } else if v < 52 {
        (71 + v) as char
    } else if v < 62 {
        (v - 4) as char
    } else if v == 62 {
        '+'
    } else {
        '/'
    }
}

/// Standard base64 with `=` padding: each group of three bytes becomes four
/// symbols; a final group of one or two bytes becomes two or three symbols
/// followed by `==` or `=`.
pub open spec fn b64_encode(b: Seq<u8>) -> Seq<char>
    decreases b.len(),
{
    if b.len() == 0 {
        Seq::empty()
    } else if b.len() == 1 {
        let x0 = b[0] as int;
        seq![b64_symbol(x0 / 4), b64_symbol((x0 % 4) * 16), '=', '=']
    } else if b.len() == 2 {
        let x0 = b[0] as int;
        let x1 = b[1] as int;
        seq![
            b64_symbol(x0 / 4),
            b64_symbol((x0 % 4) * 16 + x1 / 16),
            b64_symbol((x1 % 16) * 4),
            '=',
        ]
    } else {
        let x0 = b[0] as int;
        let x1 = b[1] as int;
        let x2 = b[2] as int;
        seq![
            b64_symbol(x0 / 4),
            b64_symbol((x0 % 4) * 16 + x1 / 16),
            b64_symbol((x1 % 16) * 4 + x2 / 64),
            b64_symbol(x2 % 64),
        ] + b64_encode(b.subrange(3, b.len() as int))
    }
}

/// `Engine::encode` of `base64::engine::general_purpose::STANDARD` (standard
/// alphabet, padding on), which computes `b64_encode`.
#[verifier::external_body]
fn standard_encode(b: &[u8]) -> (r: String)
    ensures
        r@ == b64_encode(b@),
{
    base64::Engine::encode(&base64::engine::general_purpose::STANDARD, b)
}

/// `Engine::decode` of `base64::engine::general_purpose::STANDARD`, which
/// requires canonical padding and rejects non-zero trailing bits: it succeeds
/// exactly on the strings that `b64_encode` produces, and gives back the bytes
/// they encode.
#[verifier::external_body]
fn standard_decode(s: &str) -> (r: Option<Vec<u8>>)
    ensures
        r is Some <==> exists|v: Seq<u8>| b64_encode(v) == s@,
        r matches Some(v) ==> b64_encode(v@) == s@,
{
    base64::Engine::decode(&base64::engine::general_purpose::STANDARD, s).ok()
}

/// Base64 of `b` (standard alphabet, padded).
pub fn encode_b64(b: &[u8]) -> (r: String)
    ensures
        r@ == b64_encode(b@),
{
    standard_encode(b)
}

/// Bytes encoded by the base64 string `s`, or `None` when `s` is not the
/// padded standard encoding of any bytes.
pub fn decode_b64(s: &str) -> (r: Option<Vec<u8>>)
    ensures
        r is Some <==> exists|v: Seq<u8>| b64_encode(v) == s@,
        r matches Some(v) ==> b64_encode(v@) == s@,
{
    standard_decode(s)
}

proof fn lemma_b64_symbol_injective(x: int, y: int)
    requires
        0 <= x < 64,
        0 <= y < 64,
        b64_symbol(x) == b64_symbol(y),
    ensures
        x == y,
{
}

proof fn lemma_b64_symbol_not_pad(x: int)
    requires
        0 <= x < 64,
    ensures
        b64_symbol(x) != '=',
{
}

/// Length of the padded encoding: four symbols per started group of three.
pub proof fn lemma_b64_len(b: Seq<u8>)
    ensures
        b64_encode(b).len() == 4 * ((b.len() + 2) / 3),
    decreases b.len(),
{
    if b.len() >= 3 {
        lemma_b64_len(b.subrange(3, b.len() as int));
    }
}

/// The first four symbols of a non-empty encoding.
proof fn lemma_b64_head(a: Seq<u8>)
    requires
        a.len() >= 1,
    ensures
        b64_encode(a)[0] == b64_symbol(a[0] as int / 4),
        a.len() == 1 ==> b64_encode(a)[1] == b64_symbol((a[0] as int % 4) * 16) && b64_encode(
            a,
        )[2] == '=' && b64_encode(a)[3] == '=',
        a.len() >= 2 ==> b64_encode(a)[1] == b64_symbol(
            (a[0] as int % 4) * 16 + a[1] as int / 16,
        ),
        a.len() == 2 ==> b64_encode(a)[2] == b64_symbol((a[1] as int % 16) * 4) && b64_encode(
            a,
        )[3] == '=',
        a.len() >= 3 ==> b64_encode(a)[2] == b64_symbol(
            (a[1] as int % 16) * 4 + a[2] as int / 64,
        ) && b64_encode(a)[3] == b64_symbol(a[2] as int % 64),
        a.len() >= 3 ==> b64_encode(a).subrange(4, b64_encode(a).len() as int) == b64_encode(
            a.subrange(3, a.len() as int),
        ),
{
    lemma_b64_len(a);
    if a.len() >= 3 {
        let e = b64_encode(a);
        assert(e.subrange(4, e.len() as int) =~= b64_encode(a.subrange(3, a.len() as int)));
    }
}

/// Different byte strings have different encodings.
pub proof fn lemma_b64_injective(a: Seq<u8>, b: Seq<u8>)
    requires
        b64_encode(a) == b64_encode(b),
    ensures
        a == b,
    decreases a.len(),
{
    lemma_b64_len(a);
    lemma_b64_len(b);
    if a.len() == 0 || b.len() == 0 {
        assert(a.len() == 0 && b.len() == 0);
        assert(a =~= b);
    } else {
        lemma_b64_head(a);
        lemma_b64_head(b);
        let a0 = a[0] as int;
        let b0 = b[0] as int;
        lemma_b64_symbol_injective(a0 / 4, b0 / 4);
        if a.len() == 1 || b.len() == 1 {
            if a.len() >= 2 {
                lemma_b64_symbol_not_pad((a[1] as int % 16) * 4);
                lemma_b64_symbol_not_pad((a[1] as int % 16) * 4 + (if a.len() >= 3 { a[2] as int / 64 } else { 0 }));
            }
            if b.len() >= 2 {
                lemma_b64_symbol_not_pad((b[1] as int % 16) * 4);
                lemma_b64_symbol_not_pad((b[1] as int % 16) * 4 + (if b.len() >= 3 { b[2] as int / 64 } else { 0 }));
            }
            assert(a.len() == 1 && b.len() == 1);
            lemma_b64_symbol_injective((a0 % 4) * 16, (b0 % 4) * 16);
            assert(a =~= b);
        } else {
            let a1 = a[1] as int;
            let b1 = b[1] as int;
            lemma_b64_symbol_injective((a0 % 4) * 16 + a1 / 16, (b0 % 4) * 16 + b1 / 16);
            if a.len() == 2 || b.len() == 2 {
                if a.len() >= 3 {
                    lemma_b64_symbol_not_pad(a[2] as int % 64);
                }
                if b.len() >= 3 {
                    lemma_b64_symbol_not_pad(b[2] as int % 64);
                }
                assert(a.len() == 2 && b.len() == 2);
                lemma_b64_symbol_injective((a1 % 16) * 4, (b1 % 16) * 4);
                assert(a =~= b);
            } else {
                let a2 = a[2] as int;
                let b2 = b[2] as int;
                lemma_b64_symbol_injective((a1 % 16) * 4 + a2 / 64, (b1 % 16) * 4 + b2 / 64);
                lemma_b64_symbol_injective(a2 % 64, b2 % 64);
                let ra = a.subrange(3, a.len() as int);
                let rb = b.subrange(3, b.len() as int);
                lemma_b64_injective(ra, rb);
                assert(a0 % 4 == b0 % 4 && a1 / 16 == b1 / 16);
                assert(a0 == b0);
                assert(a1 % 16 == b1 % 16 && a2 / 64 == b2 / 64);
                assert(a1 == b1);
                assert(a2 == b2);
                assert forall|k: int| 0 <= k < a.len() implies a[k] == b[k] by {
                    if k >= 3 {
                        assert(a[k] == ra[k - 3]);
                        assert(b[k] == rb[k - 3]);
                    }
                }
                assert(a =~= b);
            }
        }
    }
}

/// Decoding gives back exactly what was encoded: the bytes of a request body
/// stored in base64 are the bytes a later decode yields.
pub proof fn lemma_b64_roundtrip(encoded_from: Seq<u8>, decoded: Seq<u8>)
    requires
        b64_encode(decoded) == b64_encode(encoded_from),
    ensures
        decoded == encoded_from,
{
    lemma_b64_injective(decoded, encoded_from);
}

/// HMAC-SHA256 of `msg` under `key`, as the `hmac` crate computes it over
/// `sha2::Sha256`.
pub uninterp spec fn hmac_sha256(key: Seq<u8>, msg: Seq<u8>) -> Seq<u8>;

/// `Hmac::<Sha256>::new_from_slice`, `update`, `finalize`: the tag named
/// `hmac_sha256`, 32 bytes long. `new_from_slice` accepts keys of any length
/// (it hashes long keys), so the `expect` never fires.
#[verifier::external_body]
fn hmac_sha256_tag(key: &[u8], msg: &[u8]) -> (r: Vec<u8>)
    ensures
        r@ == hmac_sha256(key@, msg@),
        r@.len() == 32,
{
    let mut mac = <hmac::Hmac<sha2::Sha256> as hmac::Mac>::new_from_slice(key).expect(
        "HMAC accepts any key length",
    );
    hmac::Mac::update(&mut mac, msg);
    hmac::Mac::finalize(mac).into_bytes().to_vec()
}

/// HMAC-SHA256(secret, nonce), base64-encoded: the proof that a client knows
/// the shared secret, sent in place of the secret itself.
pub fn compute_hmac(secret: &str, nonce: &str) -> (r: String)
    ensures
        r@ == b64_encode(hmac_sha256(secret.spec_bytes(), nonce.spec_bytes())),
        r@.len() == 44,
{
    let tag = hmac_sha256_tag(secret.as_bytes(), nonce.as_bytes());
    proof {
        lemma_b64_len(tag@);
    }
    encode_b64(tag.as_slice())
}

/// `rand::rng().random::<[u8; 32]>()`: 32 bytes from the thread-local
/// generator; nothing is stated of their values.
#[verifier::external_body]
fn random_bytes_32() -> (r: [u8; 32]) {
    rand::Rng::random::<[u8; 32]>(&mut rand::rng())
}

/// `rand::rng().random::<u32>()`: a value from the thread-local generator;
/// nothing is stated of it.
#[verifier::external_body]
pub(crate) fn random_u32() -> (r: u32) {
    rand::Rng::random::<u32>(&mut rand::rng())
}

/// A fresh authentication nonce: 32 random bytes, base64-encoded.
pub fn new_nonce() -> (r: String)
    ensures
        exists|v: Seq<u8>| v.len() == 32 && r@ == b64_encode(v),
{
    let bytes = random_bytes_32();
    let r = encode_b64(&bytes);
    assert(bytes@.len() == 32);
    r
}

/// Whether two string slices hold the same characters.
pub fn str_eq(a: &str, b: &str) -> (r: bool)
    ensures
        r == (a@ == b@),
{
    let x = a.as_bytes();
    let y = b.as_bytes();
    proof {
        encode_utf8_decode_utf8(a@);
        encode_utf8_decode_utf8(b@);
    }
    if x.len() != y.len() {
        return false;
    }
    let n = x.len();
    let mut i: usize = 0;
    while i < n
        invariant
            n == x@.len(),
            n == y@.len(),
            x@ == a.spec_bytes(),
            y@ == b.spec_bytes(),
            i <= n,
            forall|k: int| 0 <= k < i ==> x@[k] == y@[k],
        decreases n - i,
    {
        if x[i] != y[i] {
            return false;
        }
        i = i + 1;
    }
    assert(x@ =~= y@);
    true
}

} // verus!
