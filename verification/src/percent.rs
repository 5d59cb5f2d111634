//! Percent-encoding of names for use in URL paths, and its inverse.

use vstd::prelude::*;
use vstd::utf8::*;

verus! {

/// The bytes that percent-encoding leaves as they are: ASCII letters and
/// digits, `-`, `.`, `_` and `~`.
pub open spec fn is_unreserved(b: u8) -> bool {
    ||| 0x30 <= b <= 0x39
    ||| 0x41 <= b <= 0x5a
    ||| 0x61 <= b <= 0x7a
    ||| b == 0x2d
    ||| b == 0x2e
    ||| b == 0x5f
    ||| b == 0x7e
}

/// The ASCII code of the upper-case hexadecimal digit for `d < 16`.
pub open spec fn hex_digit(d: int) -> u8 {
    if d < 10 {
        (0x30 + d) as u8
    } else {
        (0x41 + d - 10) as u8
    }
}

/// The value of an ASCII hexadecimal digit of either case.
pub open spec fn hex_value(b: u8) -> Option<int> {
    if 0x30 <= b <= 0x39 {
        Some(b - 0x30)
    } else if 0x41 <= b <= 0x46 {
        Some(b - 0x41 + 10)
    } else if 0x61 <= b <= 0x66 {
        Some(b - 0x61 + 10)
    } else {
        None
    }
}

/// Percent-encoding of a byte string: an unreserved byte stands for itself,
/// any other becomes `%` and its two upper-case hexadecimal digits.
pub open spec fn encode_bytes(bytes: Seq<u8>) -> Seq<u8>
    decreases bytes.len(),
{
    if bytes.len() == 0 {
        seq![]
    } else if is_unreserved(bytes[0]) {
        seq![bytes[0]] + encode_bytes(bytes.drop_first())
    } else {
        seq![0x25u8, hex_digit(bytes[0] as int / 16), hex_digit(bytes[0] as int % 16)]
            + encode_bytes(bytes.drop_first())
    }
}

/// Percent-decoding of a byte string: `%` followed by two hexadecimal digits
/// becomes the byte they spell; every other byte, a stray `%` too, stands
/// for itself.
pub open spec fn decode_bytes(bytes: Seq<u8>) -> Seq<u8>
    decreases bytes.len(),
{
    if bytes.len() == 0 {
        seq![]
    } else if bytes[0] == 0x25 && bytes.len() >= 3 && hex_value(bytes[1]) is Some && hex_value(
        bytes[2],
    ) is Some {
        seq![(hex_value(bytes[1])->0 * 16 + hex_value(bytes[2])->0) as u8] + decode_bytes(
            bytes.skip(3),
        )
    } else {
        seq![bytes[0]] + decode_bytes(bytes.drop_first())
    }
}

/// The text whose characters are the given ASCII bytes.
pub open spec fn ascii_text(bytes: Seq<u8>) -> Seq<char> {
    Seq::new(bytes.len(), |i: int| bytes[i] as char)
}

/// The percent-encoded form of a text, taken through its UTF-8 bytes.
pub open spec fn encoded(s: Seq<char>) -> Seq<char> {
    ascii_text(encode_bytes(encode_utf8(s)))
}

/// The text that a percent-encoded text stands for, where the decoded bytes
/// are UTF-8.
pub open spec fn decoded(s: Seq<char>) -> Option<Seq<char>> {
    let bytes = decode_bytes(encode_utf8(s));
    if valid_utf8(bytes) {
        Some(decode_utf8(bytes))
    } else {
        None
    }
}

/// `std::string::FromUtf8Error`, the failure to read bytes as UTF-8.
#[verifier::external_type_specification]
#[verifier::external_body]
pub struct ExFromUtf8Error(std::string::FromUtf8Error);

/// Calls `urlencoding::encode`.  Trusted: the result is the percent-encoding
/// of the argument's UTF-8 bytes, with every byte but ASCII letters, digits,
/// `-`, `.`, `_` and `~` escaped in upper-case hexadecimal.
#[verifier::external_body]
pub(crate) fn encode(s: &str) -> (r: String)
    ensures
        r@ == encoded(s@),
{
    urlencoding::encode(s).into_owned()
}

/// Calls `urlencoding::decode`.  Trusted: each `%` with two hexadecimal
/// digits behind it is replaced by the byte they spell and nothing else is
/// changed; the call fails exactly where the bytes that result are not
/// UTF-8.
#[verifier::external_body]
fn decode(s: &str) -> (r: Result<String, std::string::FromUtf8Error>)
    ensures
        match r {
            Ok(d) => decoded(s@) == Some(d@),
            Err(_) => decoded(s@) is None,
        },
{
    match urlencoding::decode(s) {
        Ok(d) => Ok(d.into_owned()),
        Err(e) => Err(e),
    }
}

/// The percent-decoded form of `s`, where there is one.
pub fn percent_decode(s: &str) -> (r: Option<String>)
    ensures
        match r {
            Some(d) => decoded(s@) == Some(d@),
            None => decoded(s@) is None,
        },
{
    match decode(s) {
        Ok(d) => Some(d),
        Err(_) => None,
    }
}

/// A hexadecimal digit spells its value.
proof fn lemma_hex_digit(d: int)
    requires
        0 <= d < 16,
    ensures
        hex_value(hex_digit(d)) == Some(d),
        hex_digit(d) < 0x80,
{
}

/// Percent-encoding yields ASCII.
proof fn lemma_encoding_is_ascii(bytes: Seq<u8>)
    ensures
        forall|i: int| 0 <= i < encode_bytes(bytes).len() ==> encode_bytes(bytes)[i] < 0x80,
    decreases bytes.len(),
{
    if bytes.len() > 0 {
        let rest = encode_bytes(bytes.drop_first());
        let all = encode_bytes(bytes);
        lemma_encoding_is_ascii(bytes.drop_first());
        lemma_hex_digit(bytes[0] as int / 16);
        lemma_hex_digit(bytes[0] as int % 16);
        let head: int = if is_unreserved(bytes[0]) {
            1
        } else {
            3
        };
        assert(all.len() == head + rest.len());
        assert forall|i: int| 0 <= i < all.len() implies all[i] < 0x80 by {
            if i >= head {
                assert(all[i] == rest[i - head]);
            }
        }
    }
}

/// Percent-decoding undoes percent-encoding, byte by byte.
proof fn lemma_decoding_undoes_encoding(bytes: Seq<u8>)
    ensures
        decode_bytes(encode_bytes(bytes)) == bytes,
    decreases bytes.len(),
{
    if bytes.len() > 0 {
        let first = bytes[0];
        let rest = bytes.drop_first();
        lemma_decoding_undoes_encoding(rest);
        let escaped = encode_bytes(bytes);
        if is_unreserved(first) {
            assert(escaped.drop_first() =~= encode_bytes(rest));
            assert(decode_bytes(escaped) =~= seq![first] + rest);
        } else {
            let high = first as int / 16;
            let low = first as int % 16;
            lemma_hex_digit(high);
            lemma_hex_digit(low);
            assert(escaped[0] == 0x25);
            assert(escaped[1] == hex_digit(high));
            assert(escaped[2] == hex_digit(low));
            assert(escaped.skip(3) =~= encode_bytes(rest));
            assert((high * 16 + low) as u8 == first);
            assert(decode_bytes(escaped) =~= seq![first] + rest);
        }
        assert(seq![first] + rest =~= bytes);
    }
}

/// The text of ASCII bytes has those bytes as its UTF-8 form.
proof fn lemma_ascii_text(bytes: Seq<u8>)
    requires
        forall|i: int| 0 <= i < bytes.len() ==> bytes[i] < 0x80,
    ensures
        encode_utf8(ascii_text(bytes)) == bytes,
{
    let text = ascii_text(bytes);
    assert(is_ascii_chars(text)) by {
        assert forall|i: int| 0 <= i < text.len() implies '\0' <= #[trigger] text[i]
            <= '\u{7f}' by {
            assert(text[i] == bytes[i] as char);
        }
    }
    is_ascii_chars_encode_utf8(text);
    assert forall|i: int| 0 <= i < bytes.len() implies encode_utf8(text)[i] == bytes[i] by {
        assert(text[i] == bytes[i] as char);
        assert(text[i] as u8 == encode_utf8(text)[i]);
    }
    assert(encode_utf8(text) =~= bytes);
}

/// Decoding undoes encoding: the percent-encoded form of any text decodes,
/// and to that text.
pub proof fn law_decoding_undoes_encoding(s: Seq<char>)
    ensures
        decoded(encoded(s)) == Some(s),
{
    let bytes = encode_utf8(s);
    lemma_encoding_is_ascii(bytes);
    lemma_ascii_text(encode_bytes(bytes));
    lemma_decoding_undoes_encoding(bytes);
    encode_utf8_valid_utf8(s);
    encode_utf8_decode_utf8(s);
}

/// The percent-encoded form of a text holds no `/`.
pub proof fn lemma_encoded_has_no_slash(s: Seq<char>)
    ensures
        forall|i: int| 0 <= i < encoded(s).len() ==> encoded(s)[i] != '/',
{
    let bytes = encode_bytes(encode_utf8(s));
    lemma_no_slash_in(encode_utf8(s));
    assert forall|i: int| 0 <= i < encoded(s).len() implies encoded(s)[i] != '/' by {
        assert(encoded(s)[i] == bytes[i] as char);
        assert(bytes[i] != 0x2f);
    }
}

/// Percent-encoding yields no byte `/`.
proof fn lemma_no_slash_in(bytes: Seq<u8>)
    ensures
        forall|i: int| 0 <= i < encode_bytes(bytes).len() ==> encode_bytes(bytes)[i] != 0x2f,
    decreases bytes.len(),
{
    if bytes.len() > 0 {
        let rest = encode_bytes(bytes.drop_first());
        let all = encode_bytes(bytes);
        lemma_no_slash_in(bytes.drop_first());
        let head: int = if is_unreserved(bytes[0]) {
            1
        } else {
            3
        };
        assert(all.len() == head + rest.len());
        assert forall|i: int| 0 <= i < all.len() implies all[i] != 0x2f by {
            if i >= head {
                assert(all[i] == rest[i - head]);
            }
        }
    }
}

} // verus!
