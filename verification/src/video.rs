//! Stream URLs of the viewer's video server (recordings by name, curation
//! episodes by path, both percent-encoded), and the recording name a stream
//! request carries, percent-decoded.
use vstd::prelude::*;
use vstd::utf8::{encode_scalar, encode_utf8, encode_utf8_decode_utf8, encode_utf8_valid_utf8, valid_utf8};
use crate::text::{decimal, digit_char, push_decimal, text};

verus! {

/// Bytes that stay as they are in a percent-encoded string: ASCII letters,
/// digits and `-`, `.`, `_`, `~`.
pub open spec fn unreserved(b: u8) -> bool {
    ||| 0x30 <= b <= 0x39
    ||| 0x41 <= b <= 0x5A
    ||| 0x61 <= b <= 0x7A
    ||| b == 0x2D
    ||| b == 0x2E
    ||| b == 0x5F
    ||| b == 0x7E
}

/// The characters one byte becomes in a percent-encoded string: itself
/// when unreserved, else `%` and two upper-case hexadecimal digits.
pub open spec fn percent_escape(b: u8) -> Seq<char> {
    if unreserved(b) {
        seq![b as char]
    } else {
        seq!['%', digit_char(b as int / 16), digit_char(b as int % 16)]
    }
}

/// Percent-encoding of bytes, byte by byte.
pub open spec fn percent_encoded(bytes: Seq<u8>) -> Seq<char>
    decreases bytes.len(),
{
    if bytes.len() == 0 {
        Seq::empty()
    } else {
        percent_escape(bytes[0]) + percent_encoded(bytes.drop_first())
    }
}

/// The value of a hexadecimal digit (either case).
pub open spec fn hex_value(b: u8) -> Option<int> {
    if 0x30 <= b <= 0x39 {
        Some(b - 0x30)
    } else if 0x41 <= b <= 0x46 {
        Some(b - 0x41 + 10)
    } else if 0x61 <= b <= 0x66 {
        Some(b - 0x61 + 10)
    } else {
        None
    }
}

/// Percent-decoding of bytes: `%` and two hexadecimal digits stand for the
/// byte they spell; any other `%` stays as it is (with a following digit
/// when only the second one is not a digit); `+` is not a space.
pub open spec fn percent_decoded(d: Seq<u8>) -> Seq<u8>
    decreases d.len(),
{
    if d.len() == 0 {
        Seq::empty()
    } else if d[0] != 0x25 {
        seq![d[0]] + percent_decoded(d.drop_first())
    } else if d.len() < 3 {
        d
    } else {
        match (hex_value(d[1]), hex_value(d[2])) {
            (Some(hi), Some(lo)) => seq![(hi * 16 + lo) as u8] + percent_decoded(d.subrange(3, d.len() as int)),
            (Some(_), None) => seq![0x25u8, d[1]] + percent_decoded(d.subrange(2, d.len() as int)),
            (None, _) => seq![0x25u8] + percent_decoded(d.drop_first()),
        }
    }
}

/// Calls `urlencoding::encode`, which percent-encodes every byte of the
/// string's UTF-8 form except ASCII letters, digits and `-`, `.`, `_`, `~`,
/// with upper-case hexadecimal digits.
#[verifier::external_body]
fn url_encode(s: &str) -> (r: String)
    ensures
        r@ == percent_encoded(encode_utf8(s@)),
{
    urlencoding::encode(s).into_owned()
}

/// Calls `urlencoding::decode`, which percent-decodes the string's UTF-8
/// form as `percent_decoded` states and fails exactly when the result is
/// not UTF-8.
#[verifier::external_body]
fn url_decode(s: &str) -> (r: Option<String>)
    ensures
        r is Some <==> valid_utf8(percent_decoded(encode_utf8(s@))),
        r matches Some(t) ==> encode_utf8(t@) == percent_decoded(encode_utf8(s@)),
{
    match urlencoding::decode(s) {
        Ok(decoded) => Some(decoded.into_owned()),
        Err(_) => None,
    }
}

/// The URL a recording is streamed from.
pub open spec fn stream_url_text(port: u16, name: Seq<char>) -> Seq<char> {
    "http://localhost:"@ + decimal(port as nat) + "/stream/"@ + percent_encoded(encode_utf8(name))
}

/// The URL a curation episode is streamed from.
pub open spec fn curation_stream_url_text(port: u16, path: Seq<char>) -> Seq<char> {
    "http://localhost:"@ + decimal(port as nat) + "/curation-stream?path="@ + percent_encoded(encode_utf8(path))
}

/// The stream URL of a named recording, given whether the viewer knows the
/// name and the port its video server listens on: an error for an unknown
/// name, no URL while the server is not running.
pub fn get_stream_url(name: &str, has_file: bool, port: Option<u16>) -> (r: Result<Option<String>, String>)
    ensures
        !has_file ==> (r matches Err(e) && e@ == "File not found: "@ + name@),
        has_file && port is None ==> r matches Ok(None),
        has_file && port is Some ==> (r matches Ok(Some(u)) && u@ == stream_url_text(port->0, name@)),
{
    if !has_file {
        let mut e = text("File not found: ");
        e.append(name);
        return Err(e);
    }
    match port {
        Some(p) => {
            let mut u = text("http://localhost:");
            push_decimal(&mut u, p as u64);
            u.append("/stream/");
            let encoded = url_encode(name);
            u.append(encoded.as_str());
            Ok(Some(u))
        },
        None => Ok(None),
    }
}

/// The stream URL of a curation episode whose recording lies at
/// `resolved_path`.
pub fn curation_stream_url(port: u16, resolved_path: &str) -> (u: String)
    ensures
        u@ == curation_stream_url_text(port, resolved_path@),
{
    let mut u = text("http://localhost:");
    push_decimal(&mut u, port as u64);
    u.append("/curation-stream?path=");
    let encoded = url_encode(resolved_path);
    u.append(encoded.as_str());
    u
}

/// The recording name a stream request's path segment stands for: the
/// segment percent-decoded, or the segment as it is when the decoded bytes
/// are not UTF-8.
pub fn stream_request_name(segment: &str) -> (name: String)
    ensures
        valid_utf8(percent_decoded(encode_utf8(segment@))) ==> encode_utf8(name@) == percent_decoded(
            encode_utf8(segment@)),
        !valid_utf8(percent_decoded(encode_utf8(segment@))) ==> name@ == segment@,
{
    match url_decode(segment) {
        Some(decoded) => decoded,
        None => text(segment),
    }
}


// ---------------------------------------------------------------------------
// Decoding undoes encoding.

/// The bytes of one escaped byte: the byte itself, or `%` and the ASCII
/// codes of its two hexadecimal digits.
pub open spec fn escape_bytes(b: u8) -> Seq<u8> {
    if unreserved(b) {
        seq![b]
    } else {
        seq![0x25u8, hex_digit_byte(b as int / 16), hex_digit_byte(b as int % 16)]
    }
}

/// The ASCII code of a hexadecimal digit below 16 (upper-case letters).
pub open spec fn hex_digit_byte(d: int) -> u8 {
    if d < 10 { (48 + d) as u8 } else { (55 + d) as u8 }
}

proof fn lemma_ascii_char(x: u8)
    requires
        x < 128,
    ensures
        encode_scalar((x as char) as u32) == seq![x],
{
    let u = (x as char) as u32;
    assert(u == x as u32);
    assert((u & 0x7F) as u8 == x) by (bit_vector)
        requires
            u == x as u32,
            x < 128,
    ;
}

proof fn lemma_escape_utf8(b: u8, rest: Seq<char>)
    ensures
        encode_utf8(percent_escape(b) + rest) == escape_bytes(b) + encode_utf8(rest),
{
    let e = percent_escape(b);
    if unreserved(b) {
        lemma_ascii_char(b);
        assert((e + rest).drop_first() =~= rest);
    } else {
        let hi = b as int / 16;
        let lo = b as int % 16;
        lemma_ascii_char(0x25u8);
        lemma_ascii_char(hex_digit_byte(hi));
        lemma_ascii_char(hex_digit_byte(lo));
        assert('%' == (0x25u8 as char));
        assert(digit_char(hi) == (hex_digit_byte(hi) as char));
        assert(digit_char(lo) == (hex_digit_byte(lo) as char));
        let s1 = (e + rest).drop_first();
        let s2 = s1.drop_first();
        let s3 = s2.drop_first();
        assert(s3 =~= rest);
        assert(s2[0] == digit_char(lo));
        assert(s1[0] == digit_char(hi));
        assert(encode_utf8(s2) == encode_scalar(s2[0] as u32) + encode_utf8(s3));
        assert(encode_utf8(s1) == encode_scalar(s1[0] as u32) + encode_utf8(s2));
        assert(encode_utf8(e + rest) == encode_scalar((e + rest)[0] as u32) + encode_utf8(s1));
        assert(encode_scalar(s2[0] as u32) == seq![hex_digit_byte(lo)]);
        assert(encode_scalar(s1[0] as u32) == seq![hex_digit_byte(hi)]);
        assert(encode_scalar((e + rest)[0] as u32) == seq![0x25u8]);
        assert(encode_utf8(e + rest) =~= escape_bytes(b) + encode_utf8(rest));
    }
}

/// The bytes of a percent-encoded string.
pub open spec fn escaped_bytes(bytes: Seq<u8>) -> Seq<u8>
    decreases bytes.len(),
{
    if bytes.len() == 0 {
        Seq::empty()
    } else {
        escape_bytes(bytes[0]) + escaped_bytes(bytes.drop_first())
    }
}

proof fn lemma_encoded_utf8(bytes: Seq<u8>)
    ensures
        encode_utf8(percent_encoded(bytes)) == escaped_bytes(bytes),
    decreases bytes.len(),
{
    if bytes.len() > 0 {
        lemma_encoded_utf8(bytes.drop_first());
        lemma_escape_utf8(bytes[0], percent_encoded(bytes.drop_first()));
    }
}

proof fn lemma_decode_escaped(bytes: Seq<u8>)
    ensures
        percent_decoded(escaped_bytes(bytes)) == bytes,
    decreases bytes.len(),
{
    if bytes.len() > 0 {
        let b = bytes[0];
        let rest = escaped_bytes(bytes.drop_first());
        let all = escaped_bytes(bytes);
        lemma_decode_escaped(bytes.drop_first());
        if unreserved(b) {
            assert(all.drop_first() =~= rest);
        } else {
            let hi = b as int / 16;
            let lo = b as int % 16;
            assert(all[1] == hex_digit_byte(hi));
            assert(all[2] == hex_digit_byte(lo));
            assert(hex_value(hex_digit_byte(hi)) == Some(hi));
            assert(hex_value(hex_digit_byte(lo)) == Some(lo));
            assert((hi * 16 + lo) as u8 == b);
            assert(all.subrange(3, all.len() as int) =~= rest);
        }
        assert(percent_decoded(all) =~= bytes);
    }
}

/// A recording name that `get_stream_url` puts into a stream URL comes back
/// unchanged from `stream_request_name`: percent-decoding the encoded name
/// gives back the name's UTF-8 bytes, which are valid UTF-8 and the
/// encoding of no other string.
pub proof fn lemma_stream_name_roundtrip(name: Seq<char>)
    ensures
        percent_decoded(encode_utf8(percent_encoded(encode_utf8(name)))) == encode_utf8(name),
        valid_utf8(percent_decoded(encode_utf8(percent_encoded(encode_utf8(name))))),
        forall|t: Seq<char>|
            #[trigger] encode_utf8(t) == percent_decoded(encode_utf8(percent_encoded(encode_utf8(name)))) ==> t
                == name,
{
    lemma_encoded_utf8(encode_utf8(name));
    lemma_decode_escaped(encode_utf8(name));
    encode_utf8_valid_utf8(name);
    assert forall|t: Seq<char>|
        #[trigger] encode_utf8(t) == percent_decoded(encode_utf8(percent_encoded(encode_utf8(name)))) implies t
            == name by {
        encode_utf8_decode_utf8(t);
        encode_utf8_decode_utf8(name);
    }
}

} // verus!
