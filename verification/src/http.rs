//! The loopback ingest endpoint the shim POSTs to: 127.0.0.1 with a
//! per-start token. Serving connections is the application's; what a
//! request is answered, whether its token matches, what its body holds,
//! and the token itself are decided here.

use vstd::prelude::*;

use crate::json::{Json, JsonV, parse_json, parsed_json};
use crate::text::{eq_ignore_ascii_case, eq_ignore_ascii_case_spec, same_text, char_from_ascii, string_of};
use vstd::string::StringSliceAdditionalSpecFns;

verus! {

/// Where the daemon listens and the token a request must carry.
pub struct HttpServer {
    pub port: u16,
    pub token: String,
}

/// Ceiling on one ingest request body.
pub const MAX_BODY_BYTES: u64 = 8388608;

/// Equality of the ingest token that takes time depending only on the
/// length, never on where the first difference lies: every byte of the
/// two is folded together before the answer is known.
pub fn tokens_equal(a: &str, b: &str) -> (r: bool)
    ensures
        r == (a@ == b@),
{
    proof {
        vstd::utf8::encode_utf8_decode_utf8(a@);
        vstd::utf8::encode_utf8_decode_utf8(b@);
    }
    let x = a.as_bytes();
    let y = b.as_bytes();
    if x.len() != y.len() {
        return false;
    }
    let mut diff: u8 = 0;
    let mut i: usize = 0;
    while i < x.len()
        invariant
            x@ == a.spec_bytes(),
            y@ == b.spec_bytes(),
            x@.len() == y@.len(),
            i <= x@.len(),
            (diff == 0) == (forall|k: int| 0 <= k < i ==> x@[k] == y@[k]),
        decreases x@.len() - i,
    {
        let p = x[i];
        let q = y[i];
        let d = diff;
        diff = diff | (p ^ q);
        proof {
            assert(((d | (p ^ q)) == 0) == (d == 0 && p == q)) by (bit_vector);
        }
        i = i + 1;
    }
    proof {
        if diff == 0 {
            assert(x@ =~= y@);
        }
    }
    diff == 0
}

/// Some header named `X-Deckhand-Token`, in any case, carries exactly the
/// expected token.
pub open spec fn token_ok_spec(headers: Seq<(String, String)>, expected: &str) -> bool {
    exists|i: int|
        0 <= i < headers.len() && eq_ignore_ascii_case_spec((#[trigger] headers[i]).0@, "x-deckhand-token"@)
            && headers[i].1@ == expected@
}

/// Some header is `Transfer-Encoding`, in any case.
pub open spec fn chunked_spec(headers: Seq<(String, String)>) -> bool {
    exists|i: int| 0 <= i < headers.len() && eq_ignore_ascii_case_spec((#[trigger] headers[i]).0@, "Transfer-Encoding"@)
}

/// What a request is answered before its body is read: 401 without the
/// right token, 404 off `/hook`, 411 for a chunked body (refused unread,
/// since its framing is buffered without bound), 413 for a declared
/// length over the cap; `None` when the body is to be read.
pub open spec fn request_status_spec(
    headers: Seq<(String, String)>,
    url: Seq<char>,
    body_length: Option<usize>,
    expected: &str,
) -> Option<u16> {
    if !token_ok_spec(headers, expected) {
        Some(401)
    } else if url != "/hook"@ {
        Some(404)
    } else if chunked_spec(headers) {
        Some(411)
    } else if body_length matches Some(n) && n > MAX_BODY_BYTES {
        Some(413)
    } else {
        None
    }
}

fn header_named(headers: &[(String, String)], name: &str) -> (r: Option<usize>)
    ensures
        match r {
            Some(i) => i < headers@.len() && eq_ignore_ascii_case_spec(headers@[i as int].0@, name@),
            None => forall|i: int| 0 <= i < headers@.len() ==> !eq_ignore_ascii_case_spec((#[trigger] headers@[i]).0@, name@),
        },
{
    let mut i: usize = 0;
    while i < headers.len()
        invariant
            i <= headers@.len(),
            forall|k: int| 0 <= k < i ==> !eq_ignore_ascii_case_spec((#[trigger] headers@[k]).0@, name@),
        decreases headers@.len() - i,
    {
        if eq_ignore_ascii_case(headers[i].0.as_str(), name) {
            return Some(i);
        }
        i = i + 1;
    }
    None
}

/// Whether the request carries the right token (see `token_ok_spec`).
pub fn token_ok(headers: &[(String, String)], expected: &str) -> (r: bool)
    ensures
        r == token_ok_spec(headers@, expected),
{
    proof {
        reveal_strlit("x-deckhand-token");
    }
    let mut i: usize = 0;
    while i < headers.len()
        invariant
            i <= headers@.len(),
            forall|k: int| 0 <= k < i ==> !(eq_ignore_ascii_case_spec((#[trigger] headers@[k]).0@, "x-deckhand-token"@)
                && headers@[k].1@ == expected@),
        decreases headers@.len() - i,
    {
        if eq_ignore_ascii_case(headers[i].0.as_str(), "x-deckhand-token") && tokens_equal(
            headers[i].1.as_str(),
            expected,
        ) {
            return true;
        }
        i = i + 1;
    }
    false
}

/// What a request is answered before its body is read (see
/// `request_status_spec`).
pub fn request_status(headers: &[(String, String)], url: &str, body_length: Option<usize>, expected: &str) -> (r: Option<u16>)
    ensures
        r == request_status_spec(headers@, url@, body_length, expected),
{
    proof {
        reveal_strlit("/hook");
    }
    if !token_ok(headers, expected) {
        return Some(401);
    }
    if !same_text(url, "/hook") {
        return Some(404);
    }
    if header_named(headers, "Transfer-Encoding").is_some() {
        return Some(411);
    }
    if let Some(n) = body_length {
        if n as u64 > MAX_BODY_BYTES {
            return Some(413);
        }
    }
    None
}

/// A body with every leading UTF-8 byte order mark removed.
pub open spec fn strip_boms(b: Seq<u8>) -> Seq<u8>
    decreases b.len(),
{
    if b.len() >= 3 && b[0] == 0xEF && b[1] == 0xBB && b[2] == 0xBF {
        strip_boms(b.skip(3))
    } else {
        b
    }
}

/// What a read body is answered: 413 over the cap (nothing is applied);
/// otherwise, byte order marks aside, 204 with the value when it is
/// JSON and 400 when it is not.
///
/// The cap is tested on the bytes as read, before anything is decoded:
/// a body over the cap is answered 413 whatever its bytes are, also when
/// they are not UTF-8. Reading the body as text first would turn such a
/// body into an empty one and answer it 400, which says "malformed" of a
/// request whose only fault is its size.
pub fn ingest_body(body: &[u8]) -> (r: (u16, Option<Json>))
    ensures
        body@.len() > MAX_BODY_BYTES ==> r.0 == 413 && r.1 is None,
        body@.len() <= MAX_BODY_BYTES ==> match parsed_json(strip_boms(body@)) {
            Some(v) => r.0 == 204 && (r.1 matches Some(j) && j@ == v),
            None => r.0 == 400 && r.1 is None,
        },
{
    if body.len() as u64 > MAX_BODY_BYTES {
        return (413, None);
    }
    let mut start: usize = 0;
    proof {
        assert(body@.skip(0) =~= body@);
    }
    while body.len() - start >= 3 && body[start] == 0xEF && body[start + 1] == 0xBB && body[start + 2] == 0xBF
        invariant
            start <= body@.len(),
            strip_boms(body@.skip(start as int)) == strip_boms(body@),
        decreases body@.len() - start,
    {
        proof {
            assert(body@.skip(start as int).skip(3) =~= body@.skip(start + 3));
        }
        start = start + 3;
    }
    let mut rest: Vec<u8> = Vec::new();
    let mut i: usize = start;
    while i < body.len()
        invariant
            start <= i <= body@.len(),
            rest@ == body@.subrange(start as int, i as int),
        decreases body@.len() - i,
    {
        rest.push(body[i]);
        i = i + 1;
    }
    proof {
        assert(rest@ =~= body@.skip(start as int));
        let t = body@.skip(start as int);
        assert(!(t.len() >= 3 && t[0] == 0xEF && t[1] == 0xBB && t[2] == 0xBF));
    }
    match parse_json(rest.as_slice()) {
        Some(v) => (204, Some(v)),
        None => (400, None),
    }
}

/// The lowercase hex digit of a nibble.
pub open spec fn hex_digit(n: int) -> char {
    if n < 10 {
        (48 + n) as char
    } else {
        (87 + n) as char
    }
}

/// Two lowercase hex digits per byte, in order.
pub open spec fn hex_spec(b: Seq<u8>) -> Seq<char>
    decreases b.len(),
{
    if b.len() == 0 {
        Seq::empty()
    } else {
        hex_spec(b.drop_last()) + seq![hex_digit((b.last() / 16) as int), hex_digit((b.last() % 16) as int)]
    }
}

pub open spec fn is_lower_hex(c: char) -> bool {
    ('0' <= c && c <= '9') || ('a' <= c && c <= 'f')
}

proof fn lemma_hex_spec(b: Seq<u8>)
    ensures
        hex_spec(b).len() == 2 * b.len(),
        forall|i: int| 0 <= i < hex_spec(b).len() ==> is_lower_hex(#[trigger] hex_spec(b)[i]),
    decreases b.len(),
{
    if b.len() > 0 {
        lemma_hex_spec(b.drop_last());
        let p = hex_spec(b.drop_last());
        let hi = (b.last() / 16) as int;
        let lo = (b.last() % 16) as int;
        assert((if hi < 10 { 48 + hi } else { 87 + hi }) as char as int == (if hi < 10 { 48 + hi } else { 87 + hi }));
        assert((if lo < 10 { 48 + lo } else { 87 + lo }) as char as int == (if lo < 10 { 48 + lo } else { 87 + lo }));
        assert forall|i: int| 0 <= i < hex_spec(b).len() implies is_lower_hex(#[trigger] hex_spec(b)[i]) by {
            if i < p.len() {
                assert(hex_spec(b)[i] == p[i]);
            }
        }
    }
}

fn hex_char(n: u8) -> (c: char)
    requires
        n < 16,
    ensures
        c == hex_digit(n as int),
{
    if n < 10 {
        char_from_ascii(48 + n as u32)
    } else {
        char_from_ascii(87 + n as u32)
    }
}

/// The bytes as lowercase hex, two digits each.
pub fn hex_token(bytes: &[u8]) -> (s: String)
    ensures
        s@ == hex_spec(bytes@),
{
    let mut cs: Vec<char> = Vec::new();
    let mut i: usize = 0;
    while i < bytes.len()
        invariant
            i <= bytes@.len(),
            cs@ == hex_spec(bytes@.take(i as int)),
        decreases bytes@.len() - i,
    {
        proof {
            assert(bytes@.take(i + 1).drop_last() =~= bytes@.take(i as int));
        }
        let b = bytes[i];
        cs.push(hex_char(b / 16));
        cs.push(hex_char(b % 16));
        proof {
            assert(cs@ =~= hex_spec(bytes@.take(i + 1)));
        }
        i = i + 1;
    }
    proof {
        assert(bytes@.take(bytes@.len() as int) =~= bytes@);
    }
    string_of(cs.as_slice())
}

#[verifier::external_type_specification]
#[verifier::external_body]
pub struct ExRandomError(getrandom::Error);

/// `getrandom::getrandom`: fills the buffer from the operating system's
/// random source. Trusted for one fact only: the buffer keeps its
/// length. What it holds depends on chance and is not stated; on an
/// error it may be left as it was.
#[verifier::external_body]
fn fill_random(buf: &mut Vec<u8>) -> (r: Result<(), getrandom::Error>)
    ensures
        final(buf)@.len() == old(buf)@.len(),
{
    getrandom::getrandom(buf.as_mut_slice())
}

/// A fresh per-start ingest token: 32 random bytes as 64 lowercase hex
/// digits. Which bytes depends on chance; that it is the hex of 32 of
/// them does not.
pub fn random_token() -> (t: String)
    ensures
        t@.len() == 64,
        exists|b: Seq<u8>| b.len() == 32 && t@ == hex_spec(b),
        forall|i: int| 0 <= i < t@.len() ==> is_lower_hex(#[trigger] t@[i]),
{
    let mut bytes: Vec<u8> = Vec::new();
    let mut k: usize = 0;
    while k < 32
        invariant
            k <= 32,
            bytes@.len() == k,
        decreases 32 - k,
    {
        bytes.push(0u8);
        k = k + 1;
    }
    let _ = fill_random(&mut bytes);
    let t = hex_token(bytes.as_slice());
    proof {
        lemma_hex_spec(bytes@);
    }
    t
}

/// A request with the wrong token, or none, is answered 401 and nothing
/// in it is read, whatever else it carries.
pub proof fn law_a_request_without_the_token_is_refused(
    headers: Seq<(String, String)>,
    url: Seq<char>,
    body_length: Option<usize>,
    expected: &str,
)
    requires
        forall|i: int| 0 <= i < headers.len() ==> (#[trigger] headers[i]).1@ != expected@,
    ensures
        request_status_spec(headers, url, body_length, expected) == Some(401u16),
{
}

} // verus!
