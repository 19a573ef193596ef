//! Digests and encodings: HMAC-SHA256, SHA-256, lowercase hex, base64,
//! UTF-8 decoding and percent-decoding. The outside crates compute them;
//! what the library relies on is stated on each function.

use vstd::prelude::*;
use vstd::utf8::*;
use base64::Engine;
use hmac::Mac;
use sha2::Digest;

verus! {

/// The HMAC-SHA256 tag of `msg` under `key`.
pub uninterp spec fn hmac_sha256_of(key: Seq<u8>, msg: Seq<u8>) -> Seq<u8>;

/// The SHA-256 digest of `data`.
pub uninterp spec fn sha256_of(data: Seq<u8>) -> Seq<u8>;

/// The standard, padded base64 encoding of `data`.
pub uninterp spec fn base64_of(data: Seq<u8>) -> Seq<char>;

/// The text of bytes that are not UTF-8, with each invalid sequence
/// replaced by U+FFFD.
pub uninterp spec fn lossy_utf8_of(b: Seq<u8>) -> Seq<char>;

/// Relies on hmac's `Hmac<Sha256>` (`new_from_slice`, `update`,
/// `finalize`): a key of any length is accepted, and the tag is 32 bytes.
#[verifier::external_body]
pub(crate) fn hmac_sha256(key: &[u8], msg: &[u8]) -> (r: Vec<u8>)
    ensures
        r@ == hmac_sha256_of(key@, msg@),
        r@.len() == 32,
{
    let mut mac = <hmac::Hmac<sha2::Sha256> as Mac>::new_from_slice(key)
        .expect("HMAC takes a key of any length");
    mac.update(msg);
    mac.finalize().into_bytes().to_vec()
}

/// Relies on sha2's `Sha256::digest`: the digest is 32 bytes.
#[verifier::external_body]
pub(crate) fn sha256(data: &[u8]) -> (r: Vec<u8>)
    ensures
        r@ == sha256_of(data@),
        r@.len() == 32,
{
    sha2::Sha256::digest(data).to_vec()
}

/// The lowercase hex digit of a value below 16.
pub open spec fn hex_digit(n: u8) -> char {
    if n < 10 {
        (48 + n) as char
    } else {
        (87 + n) as char
    }
}

/// Two lowercase hex digits for each byte, most significant first.
pub open spec fn hex_lower(b: Seq<u8>) -> Seq<char>
    decreases b.len(),
{
    if b.len() == 0 {
        Seq::empty()
    } else {
        hex_lower(b.drop_last()) + seq![hex_digit(b.last() / 16), hex_digit(b.last() % 16)]
    }
}

/// Relies on hex's `encode`: two lowercase digits for each byte.
#[verifier::external_body]
pub(crate) fn hex_encode(b: &[u8]) -> (r: String)
    ensures
        r@ == hex_lower(b@),
{
    hex::encode(b)
}

/// Relies on base64's `STANDARD` engine `encode`.
#[verifier::external_body]
pub(crate) fn base64_encode(b: &[u8]) -> (r: String)
    ensures
        r@ == base64_of(b@),
{
    base64::engine::general_purpose::STANDARD.encode(b)
}

/// Relies on base64's `STANDARD` engine `decode`, mapping its error to
/// `None`: the encoding of any bytes decodes to those bytes, and since the
/// engine requires canonical padding and no trailing bits, only encodings
/// decode.
#[verifier::external_body]
pub(crate) fn base64_decode(s: &str) -> (r: Option<Vec<u8>>)
    ensures
        r is Some ==> base64_of(r->0@) == s@,
        forall|b: Seq<u8>| #[trigger] base64_of(b) == s@ ==> r is Some && r->0@ == b,
{
    base64::engine::general_purpose::STANDARD.decode(s).ok()
}

/// Relies on std's `String::from_utf8`, mapping its error to `None`: it
/// succeeds exactly on valid UTF-8.
#[verifier::external_body]
pub(crate) fn utf8_string(b: Vec<u8>) -> (r: Option<String>)
    ensures
        r is Some <==> valid_utf8(b@),
        r matches Some(s) ==> s@ == decode_utf8(b@),
{
    String::from_utf8(b).ok()
}

/// A byte that percent-encoding leaves as it is: `A-Z a-z 0-9 - _ . ~`.
pub open spec fn is_unreserved(b: u8) -> bool {
    (65 <= b && b <= 90) || (97 <= b && b <= 122) || (48 <= b && b <= 57) || b == 45 || b == 95
        || b == 46 || b == 126
}

/// The uppercase hex digit of a value below 16.
pub open spec fn hex_upper(n: u8) -> char {
    if n < 10 {
        (48 + n) as char
    } else {
        (55 + n) as char
    }
}

/// One byte percent-encoded.
pub open spec fn encode_byte(b: u8) -> Seq<char> {
    if is_unreserved(b) {
        seq![b as char]
    } else {
        seq!['%', hex_upper(b / 16), hex_upper(b % 16)]
    }
}

/// Bytes percent-encoded: unreserved bytes as they are, every other byte as
/// `%XX` with uppercase hex digits.
pub open spec fn percent_encode_bytes(b: Seq<u8>) -> Seq<char>
    decreases b.len(),
{
    if b.len() == 0 {
        Seq::empty()
    } else {
        percent_encode_bytes(b.drop_last()) + encode_byte(b.last())
    }
}

/// The characters of `s` percent-encoded through their UTF-8 bytes.
pub open spec fn percent_encoded(s: Seq<char>) -> Seq<char> {
    percent_encode_bytes(encode_utf8(s))
}

/// Bytes as text: their UTF-8 decoding when they are valid UTF-8.
pub open spec fn utf8_lossy(b: Seq<u8>) -> Seq<char> {
    if valid_utf8(b) {
        decode_utf8(b)
    } else {
        lossy_utf8_of(b)
    }
}

/// The value of a hex digit byte, either case.
pub open spec fn hex_byte_value(b: u8) -> Option<u8> {
    if 48 <= b && b <= 57 {
        Some((b - 48) as u8)
    } else if 97 <= b && b <= 102 {
        Some((b - 87) as u8)
    } else if 65 <= b && b <= 70 {
        Some((b - 55) as u8)
    } else {
        None
    }
}

/// Bytes percent-decoded: every `%` followed by two hex digits becomes the
/// byte they spell, every other byte stays.
pub open spec fn percent_decode_bytes(b: Seq<u8>) -> Seq<u8>
    decreases b.len(),
{
    if b.len() == 0 {
        b
    } else if b[0] == 37 && b.len() >= 3 && hex_byte_value(b[1]) is Some && hex_byte_value(b[2]) is Some {
        seq![(hex_byte_value(b[1])->0 * 16 + hex_byte_value(b[2])->0) as u8] + percent_decode_bytes(b.skip(3))
    } else {
        seq![b[0]] + percent_decode_bytes(b.skip(1))
    }
}

/// A string percent-decoded through its UTF-8 bytes, then read back as
/// text.
pub open spec fn percent_decoded(s: Seq<char>) -> Seq<char> {
    utf8_lossy(percent_decode_bytes(encode_utf8(s)))
}

/// Relies on percent-encoding's `percent_decode_str` and
/// `decode_utf8_lossy`: each `%` followed by two hex digits (either case)
/// becomes that byte, every other byte stays, and the bytes are read back as
/// UTF-8, invalid sequences replaced.
#[verifier::external_body]
pub(crate) fn percent_decode(s: &str) -> (r: String)
    ensures
        r@ == (if valid_utf8(percent_decode_bytes(encode_utf8(s@))) {
            decode_utf8(percent_decode_bytes(encode_utf8(s@)))
        } else {
            lossy_utf8_of(percent_decode_bytes(encode_utf8(s@)))
        }),
{
    percent_encoding::percent_decode_str(s).decode_utf8_lossy().into_owned()
}

fn hex_upper_digit(n: u8) -> (r: char)
    requires
        n < 16,
    ensures
        r == hex_upper(n),
{
    if n < 10 {
        (48 + n) as char
    } else {
        (55 + n) as char
    }
}

/// Percent-encodes a string through its UTF-8 bytes.
pub fn percent_encode(s: &str) -> (r: Vec<char>)
    ensures
        r@ == percent_encoded(s@),
{
    let bytes = s.as_bytes();
    let mut out: Vec<char> = Vec::new();
    let mut i: usize = 0;
    while i < bytes.len()
        invariant
            i <= bytes@.len(),
            bytes@ == encode_utf8(s@),
            out@ == percent_encode_bytes(bytes@.subrange(0, i as int)),
        decreases bytes@.len() - i,
    {
        let b = bytes[i];
        proof {
            assert(bytes@.subrange(0, i + 1).drop_last() == bytes@.subrange(0, i as int));
        }
        if (65 <= b && b <= 90) || (97 <= b && b <= 122) || (48 <= b && b <= 57) || b == 45 || b
            == 95 || b == 46 || b == 126 {
            out.push(b as char);
        } else {
            out.push('%');
            out.push(hex_upper_digit(b / 16));
            out.push(hex_upper_digit(b % 16));
        }
        proof {
            assert(out@ =~= percent_encode_bytes(bytes@.subrange(0, i + 1)));
        }
        i = i + 1;
    }
    proof {
        assert(bytes@.subrange(0, bytes@.len() as int) == bytes@);
    }
    out
}

/// The bytes of ASCII characters.
pub open spec fn ascii_bytes(s: Seq<char>) -> Seq<u8> {
    s.map_values(|c: char| c as u8)
}

/// Percent-encoded text is ASCII and holds no `&` and no `=`.
pub proof fn lemma_encoded_chars(b: Seq<u8>)
    ensures
        is_ascii_chars(percent_encode_bytes(b)),
        forall|i: int| 0 <= i < percent_encode_bytes(b).len() ==> (#[trigger] percent_encode_bytes(b)[i] != '&'
            && percent_encode_bytes(b)[i] != '='),
    decreases b.len(),
{
    if b.len() > 0 {
        lemma_encoded_chars(b.drop_last());
        let x = b.last();
        let e = percent_encode_bytes(b);
        let p = percent_encode_bytes(b.drop_last());
        assert forall|i: int| 0 <= i < e.len() implies '\0' <= #[trigger] e[i] <= '\u{7f}' && e[i] != '&' && e[i] != '=' by {
            if i >= p.len() {
                if is_unreserved(x) {
                    assert(e[i] == x as char);
                } else {
                    assert(i - p.len() < 3);
                }
            }
        }
    }
}

proof fn lemma_decode_one(x: u8, y: Seq<u8>)
    ensures
        percent_decode_bytes(ascii_bytes(encode_byte(x)) + y) == seq![x] + percent_decode_bytes(y),
{
    let t = ascii_bytes(encode_byte(x)) + y;
    if is_unreserved(x) {
        assert((x as char) as u8 == x);
        assert(t[0] == x);
        assert(t.skip(1) =~= y);
    } else {
        let hi = x / 16;
        let lo = x % 16;
        assert(hex_upper(hi) as u8 == if hi < 10 { 48 + hi } else { 55 + hi });
        assert(hex_upper(lo) as u8 == if lo < 10 { 48 + lo } else { 55 + lo });
        assert(t[0] == 37);
        assert(t[1] == hex_upper(hi) as u8);
        assert(t[2] == hex_upper(lo) as u8);
        assert(hex_byte_value(t[1]) == Some(hi));
        assert(hex_byte_value(t[2]) == Some(lo));
        assert(t.skip(3) =~= y);
        assert((hi * 16 + lo) as u8 == x);
    }
}

/// Decoding undoes encoding, whatever follows.
pub proof fn lemma_decode_encoded_bytes(b: Seq<u8>, y: Seq<u8>)
    ensures
        percent_decode_bytes(ascii_bytes(percent_encode_bytes(b)) + y) == b + percent_decode_bytes(y),
    decreases b.len(),
{
    if b.len() == 0 {
        assert(ascii_bytes(percent_encode_bytes(b)) + y =~= y);
        assert(b + percent_decode_bytes(y) =~= percent_decode_bytes(y));
    } else {
        let b2 = b.drop_last();
        let x = b.last();
        let y2 = ascii_bytes(encode_byte(x)) + y;
        lemma_decode_encoded_bytes(b2, y2);
        lemma_decode_one(x, y);
        assert(ascii_bytes(percent_encode_bytes(b)) =~= ascii_bytes(percent_encode_bytes(b2)) + ascii_bytes(
            encode_byte(x),
        ));
        assert(ascii_bytes(percent_encode_bytes(b)) + y =~= ascii_bytes(percent_encode_bytes(b2)) + y2);
        assert(b2 + (seq![x] + percent_decode_bytes(y)) =~= b + percent_decode_bytes(y));
    }
}

/// Percent-decoding the percent-encoding of a string gives the string back.
pub proof fn lemma_percent_round_trip(x: Seq<char>)
    ensures
        percent_decoded(percent_encoded(x)) == x,
{
    broadcast use vstd::utf8::encode_utf8_decode_utf8, vstd::utf8::encode_utf8_valid_utf8;

    let b = encode_utf8(x);
    let e = percent_encode_bytes(b);
    lemma_encoded_chars(b);
    vstd::utf8::is_ascii_chars_encode_utf8(e);
    assert(encode_utf8(e) =~= ascii_bytes(e));
    lemma_decode_encoded_bytes(b, Seq::empty());
    assert(ascii_bytes(e) + Seq::<u8>::empty() =~= ascii_bytes(e));
    assert(b + Seq::<u8>::empty() =~= b);
}

} // verus!
