//! Access tokens: from a token to the bytes of its claims.

use crate::text::chars_of;
use base64::Engine;
use vstd::prelude::*;
use vstd::string::StrSliceExecFns;

verus! {

/// What a token says of its bearer.
#[derive(Clone, Copy, Debug, PartialEq, Eq, Structural)]
pub struct Claims {
    pub id: u32,
}

/// Why a token was refused.
#[derive(Clone, Copy, Debug, PartialEq, Eq, Structural)]
pub enum TokenError {
    /// The token does not consist of three parts with `.` between them.
    InvalidFormat,
    /// The middle part is no base64 text.
    InvalidPayload,
}

/// The error of the base64 crate's decoders; nothing is read from it.
#[verifier::external_type_specification]
#[verifier::external_body]
pub struct ExDecodeError(base64::DecodeError);

/// The bytes that the base64 crate's `URL_SAFE_NO_PAD` engine decodes a
/// text to, none where the engine refuses the text.
pub uninterp spec fn url_safe_decoding(text: Seq<char>) -> Option<Seq<u8>>;

/// Decodes with `Engine::decode` of the base64 crate's `URL_SAFE_NO_PAD`
/// engine.
///
/// Trusted: the engine's answer depends on the text alone; it is what
/// `url_safe_decoding` names.
#[verifier::external_body]
fn decode_url_safe(text: &str) -> (decoded: Result<Vec<u8>, base64::DecodeError>)
    ensures
        match decoded {
            Ok(bytes) => url_safe_decoding(text@) == Some(bytes@),
            Err(_) => url_safe_decoding(text@) is None,
        },
{
    base64::engine::general_purpose::URL_SAFE_NO_PAD.decode(text)
}

/// The place of the first `.` in `s`, or the length of `s` without one.
pub open spec fn first_dot(s: Seq<char>) -> int
    decreases s.len(),
{
    if s.len() == 0 || s[0] == '.' {
        0
    } else {
        1 + first_dot(s.skip(1))
    }
}

/// The middle part of a token of exactly three parts with `.` between
/// them; none for any other number of parts.
pub open spec fn payload_of(token: Seq<char>) -> Option<Seq<char>> {
    let first = first_dot(token);
    let rest = token.skip(first + 1);
    let second = first_dot(rest);
    let tail = rest.skip(second + 1);
    if first < token.len() && second < rest.len() && first_dot(tail) == tail.len() {
        Some(rest.take(second))
    } else {
        None
    }
}

/// What a token yields, given what the decoder made of its middle part.
pub open spec fn claims_bytes(token: Seq<char>) -> Result<Seq<u8>, TokenError> {
    match payload_of(token) {
        None => Err(TokenError::InvalidFormat),
        Some(payload) => match url_safe_decoding(payload) {
            Some(bytes) => Ok(bytes),
            None => Err(TokenError::InvalidPayload),
        },
    }
}

/// The first `.` is where a `.` stands with none before it.
pub proof fn lemma_first_dot(s: Seq<char>, k: int)
    requires
        0 <= k <= s.len(),
        forall|j: int| 0 <= j < k ==> s[j] != '.',
        k < s.len() ==> s[k] == '.',
    ensures
        first_dot(s) == k,
    decreases s.len(),
{
    if k > 0 {
        assert(s[0] != '.');
        assert forall|j: int| 0 <= j < k - 1 implies s.skip(1)[j] != '.' by {
            assert(s.skip(1)[j] == s[j + 1]);
        }
        lemma_first_dot(s.skip(1), k - 1);
    }
}

/// The place of the first `.` at or after `from`, or the length of `chars`
/// without one.
pub fn find_dot(chars: &Vec<char>, from: usize) -> (at: usize)
    requires
        from <= chars.len(),
    ensures
        from <= at <= chars.len(),
        at - from == first_dot(chars@.skip(from as int)),
{
    let mut at: usize = from;
    while at < chars.len() && chars[at] != '.'
        invariant
            from <= at <= chars.len(),
            forall|j: int| from <= j < at ==> chars@[j] != '.',
        decreases chars.len() - at,
    {
        at += 1;
    }
    proof {
        lemma_first_dot(chars@.skip(from as int), at - from);
    }
    at
}

/// The bytes of the claims, from what the decoder made of the payload.
pub fn decoded_payload(decoded: Result<Vec<u8>, base64::DecodeError>) -> (r: Result<
    Vec<u8>,
    TokenError,
>)
    ensures
        match decoded {
            Ok(bytes) => r == Ok::<Vec<u8>, TokenError>(bytes),
            Err(_) => r == Err::<Vec<u8>, TokenError>(TokenError::InvalidPayload),
        },
{
    match decoded {
        Ok(bytes) => Ok(bytes),
        Err(_) => Err(TokenError::InvalidPayload),
    }
}

/// Decodes the claims of an access token to their bytes.
///
/// The token must consist of exactly three parts with `.` between them;
/// the middle part is decoded as URL-safe base64 without padding.
pub fn decode_token(token: &str) -> (r: Result<Vec<u8>, TokenError>)
    ensures
        match r {
            Ok(bytes) => claims_bytes(token@) == Ok::<Seq<u8>, TokenError>(bytes@),
            Err(e) => claims_bytes(token@) == Err::<Seq<u8>, TokenError>(e),
        },
{
    let chars: Vec<char> = chars_of(token);
    let first: usize = find_dot(&chars, 0);
    assert(chars@.skip(0) == chars@);
    if first >= chars.len() {
        return Err(TokenError::InvalidFormat);
    }
    let second: usize = find_dot(&chars, first + 1);
    if second >= chars.len() {
        return Err(TokenError::InvalidFormat);
    }
    let third: usize = find_dot(&chars, second + 1);
    proof {
        let rest = chars@.skip(first + 1);
        assert(rest.skip(second - first) == chars@.skip(second + 1));
        assert(rest.take(second - first - 1) == chars@.subrange(first + 1, second as int));
    }
    if third < chars.len() {
        return Err(TokenError::InvalidFormat);
    }
    let payload: &str = token.substring_char(first + 1, second);
    decoded_payload(decode_url_safe(payload))
}

} // verus!
