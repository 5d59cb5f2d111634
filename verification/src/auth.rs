//! The password guard: whether a request's `Authorization` header opens the
//! catalog.

use crate::text::{chars_of, last_index_of, last_position, lemma_last_position, is_prefix, starts_with};
use base64::Engine;
use vstd::prelude::*;
use vstd::string::StrSliceExecFns;
use vstd::utf8::*;

verus! {

/// `base64::DecodeError`, the failure to read text as base64.
#[verifier::external_type_specification]
#[verifier::external_body]
pub struct ExDecodeError(base64::DecodeError);

/// The bytes that a text stands for in base64, standard alphabet, with
/// canonical padding; none where the text is no such encoding.
pub uninterp spec fn base64_decoded(text: Seq<char>) -> Option<Seq<u8>>;

/// Calls `decode` of `base64::engine::general_purpose::STANDARD`.  Trusted:
/// success and the bytes depend on the text alone.
#[verifier::external_body]
fn decode_base64(text: &str) -> (r: Result<Vec<u8>, base64::DecodeError>)
    ensures
        match r {
            Ok(bytes) => base64_decoded(text@) == Some(bytes@),
            Err(_) => base64_decoded(text@) is None,
        },
{
    base64::engine::general_purpose::STANDARD.decode(text)
}

/// Calls `String::from_utf8`.  Trusted: the call succeeds exactly on UTF-8,
/// and the string then holds the characters that the bytes encode.
#[verifier::external_body]
fn text_of(bytes: Vec<u8>) -> (r: Result<String, std::string::FromUtf8Error>)
    ensures
        match r {
            Ok(text) => valid_utf8(bytes@) && text@ == decode_utf8(bytes@),
            Err(_) => !valid_utf8(bytes@),
        },
{
    String::from_utf8(bytes)
}

/// The word that opens a basic `Authorization` header, with the space
/// behind it.
pub open spec fn scheme() -> Seq<char> {
    "Basic "@
}

/// Credentials, decoded to text, carry the password where they hold exactly
/// one `:` and the password is what stands behind it.
pub open spec fn carries(credentials: Seq<char>, password: Seq<char>) -> bool {
    last_position(credentials, ':') matches Some(i) && credentials.skip(i + 1) == password
        && forall|j: int| 0 <= j < i ==> credentials[j] != ':'
}

/// The header's credentials, still encoded, are accepted: they are base64
/// of UTF-8 text that carries the password.
pub open spec fn accepted(encoded: Seq<char>, password: Seq<char>) -> bool {
    base64_decoded(encoded) matches Some(bytes) && valid_utf8(bytes) && carries(
        decode_utf8(bytes),
        password,
    )
}

/// A request is let through where the server has no password, or where its
/// `Authorization` header starts with `Basic ` and what follows is accepted.
pub open spec fn authorized(password: Option<Seq<char>>, header: Option<Seq<char>>) -> bool {
    match password {
        None => true,
        Some(p) => header matches Some(h) && is_prefix(scheme(), h) && accepted(
            h.skip(scheme().len() as int),
            p,
        ),
    }
}

/// Whether credentials, decoded to text, carry the password.
pub fn carries_password(credentials: &str, password: &str) -> (b: bool)
    ensures
        b == carries(credentials@, password@),
{
    let text = chars_of(credentials);
    let expected = chars_of(password);
    proof {
        lemma_last_position(text@, ':');
    }
    let colon: usize = match last_index_of(&text, ':') {
        Some(i) => i,
        None => {
            return false;
        },
    };
    let mut j: usize = 0;
    while j < colon
        invariant
            j <= colon < text.len(),
            text@ == credentials@,
            last_position(text@, ':') == Some(colon as int),
            forall|k: int| 0 <= k < j ==> text@[k] != ':',
        decreases colon - j,
    {
        if text[j] == ':' {
            return false;
        }
        j += 1;
    }
    let rest: usize = text.len() - colon - 1;
    if expected.len() != rest {
        assert(text@.skip(colon + 1).len() == rest);
        return false;
    }
    let mut k: usize = 0;
    while k < rest
        invariant
            k <= rest,
            rest == text.len() - colon - 1,
            rest == expected.len(),
            text@ == credentials@,
            expected@ == password@,
            last_position(text@, ':') == Some(colon as int),
            forall|m: int| 0 <= m < k ==> text@[colon + 1 + m] == expected@[m],
        decreases rest - k,
    {
        if text[colon + 1 + k] != expected[k] {
            assert(text@.skip(colon + 1)[k as int] == text@[colon + 1 + k]);
            return false;
        }
        k += 1;
    }
    assert(text@.skip(colon + 1) =~= expected@);
    true
}

/// The mark of a request that was let through.
#[derive(Clone, Copy, Debug, PartialEq, Eq, Structural)]
pub struct AuthGuard;

impl AuthGuard {
    /// Decides on a request from the server's password, if it has one, and
    /// the request's `Authorization` header, if it has one.  The request is
    /// let through exactly where the result is `Some`.
    pub fn from_request(server_password: Option<&str>, authorization: Option<&str>) -> (r:
        Option<AuthGuard>)
        ensures
            r is Some <==> authorized(
                match server_password {
                    Some(p) => Some(p@),
                    None => None,
                },
                match authorization {
                    Some(h) => Some(h@),
                    None => None,
                },
            ),
    {
        let password = match server_password {
            None => {
                return Some(AuthGuard);
            },
            Some(p) => p,
        };
        let header = match authorization {
            None => {
                return None;
            },
            Some(h) => h,
        };
        let chars = chars_of(header);
        let prefix = chars_of("Basic ");
        proof {
            reveal_strlit("Basic ");
        }
        if !starts_with(&chars, &prefix) {
            return None;
        }
        let end: usize = chars.len();
        assert(header@.subrange(6, end as int) =~= header@.skip(6));
        let encoded = header.substring_char(6, end);
        let bytes = match decode_base64(encoded) {
            Ok(bytes) => bytes,
            Err(_) => {
                return None;
            },
        };
        let credentials = match text_of(bytes) {
            Ok(text) => text,
            Err(_) => {
                return None;
            },
        };
        if carries_password(credentials.as_str(), password) {
            Some(AuthGuard)
        } else {
            None
        }
    }
}

} // verus!
