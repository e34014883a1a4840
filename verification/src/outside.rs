//! What this library takes on trust.
//!
//! The syntax rules of HTTP are not re-implemented here: the `http` crate
//! decides which methods, request targets, header names and header values are
//! well formed, keeps the header fields in its `HeaderMap`, and supplies the
//! reason phrases. Each call into it stands in a small function of this
//! module whose contract states what the call returns. Those contracts are
//! assumed, not proved; everything else in the library is proved from them.

use crate::headers::{first_value, joined, plain, Fields};
use vstd::prelude::*;

verus! {

/// The `tchar` bytes of RFC 9110: letters, digits and
/// ``! # $ % & ' * + - . ^ _ ` | ~``.
pub open spec fn is_token_byte(b: u8) -> bool {
    ||| 0x30 <= b <= 0x39  // 0-9
    ||| 0x41 <= b <= 0x5a  // A-Z
    ||| 0x61 <= b <= 0x7a  // a-z
    ||| b == 0x21  // !
    ||| 0x23 <= b <= 0x27  // # $ % & '
    ||| b == 0x2a  // *
    ||| b == 0x2b  // +
    ||| b == 0x2d  // -
    ||| b == 0x2e  // .
    ||| 0x5e <= b <= 0x60  // ^ _ `
    ||| b == 0x7c  // |
    ||| b == 0x7e  // ~
}

/// A request method: a non-empty token.
pub open spec fn is_method(s: Seq<u8>) -> bool {
    &&& s.len() > 0
    &&& forall|i: int| 0 <= i < s.len() ==> is_token_byte(#[trigger] s[i])
}

/// The longest header name, in bytes.
pub const MAX_NAME_LEN: usize = 65535;

/// An upper-case ASCII letter turned into its lower-case form; any other byte
/// unchanged.
pub open spec fn lowered(b: u8) -> u8 {
    if 0x41 <= b <= 0x5a {
        (b + 0x20) as u8
    } else {
        b
    }
}

/// Bytes that can be read as a header name: a token of at most
/// [`MAX_NAME_LEN`] bytes, in either case.
pub open spec fn is_name_source(s: Seq<u8>) -> bool {
    &&& 0 < s.len() <= MAX_NAME_LEN
    &&& forall|i: int| 0 <= i < s.len() ==> is_token_byte(#[trigger] s[i])
}

/// The header name that `s` stands for: `s` in lower case, if `s` can be read
/// as a header name at all.
pub open spec fn normalized_name(s: Seq<u8>) -> Option<Seq<u8>> {
    if is_name_source(s) {
        Some(Seq::new(s.len(), |i: int| lowered(s[i])))
    } else {
        None
    }
}

/// A header name in the form in which it is stored: lower case.
pub open spec fn is_name(s: Seq<u8>) -> bool {
    normalized_name(s) == Some(s)
}

/// A byte that may occur in a header value: horizontal tab, or anything from
/// the space upwards but DEL.
pub open spec fn is_value_byte(b: u8) -> bool {
    b >= 32 && b != 127 || b == 9
}

/// A header value: any run of value bytes, the empty one included.
pub open spec fn is_value(s: Seq<u8>) -> bool {
    forall|i: int| 0 <= i < s.len() ==> is_value_byte(#[trigger] s[i])
}

/// The characters with Unicode's `White_Space` property.
pub open spec fn is_white_space(c: char) -> bool {
    let u = c as u32;
    ||| 0x09 <= u <= 0x0d
    ||| u == 0x20
    ||| u == 0x85
    ||| u == 0xa0
    ||| u == 0x1680
    ||| 0x2000 <= u <= 0x200a
    ||| u == 0x2028
    ||| u == 0x2029
    ||| u == 0x202f
    ||| u == 0x205f
    ||| u == 0x3000
}

/// `s` without the white space at its two ends.
pub open spec fn trimmed(s: Seq<char>) -> Seq<char>
    decreases s.len(),
{
    if s.len() > 0 && is_white_space(s.first()) {
        trimmed(s.drop_first())
    } else if s.len() > 0 && is_white_space(s.last()) {
        trimmed(s.drop_last())
    } else {
        s
    }
}

/// The header map of the `http` crate.
#[verifier::external_type_specification]
#[verifier::external_body]
#[verifier::reject_recursive_types(T)]
pub struct ExHeaderMap<T>(http::HeaderMap<T>);

/// A header value of the `http` crate.
#[verifier::external_type_specification]
#[verifier::external_body]
pub struct ExHeaderValue(http::HeaderValue);

/// The fields that a header map holds, in the order in which the map hands
/// them out: the names in the order in which they first came in, and under
/// each name its values in the order in which they came in.
pub uninterp spec fn held(map: http::HeaderMap<http::HeaderValue>) -> Fields;

/// A header map that holds fewer fields than this takes another one. The
/// map's table has at most 32768 places and is not grown beyond them; it is
/// grown when it is three quarters full, and, after many collisions, when it
/// is a fifth full: with fewer than 6554 names there is always room.
pub const FIELD_LIMIT: usize = 6554;

/// Whether the `http` crate's URI parser accepts these bytes as a request
/// target. The parser's grammar is not restated here.
pub uninterp spec fn uri_accepts(target: Seq<u8>) -> bool;

/// The canonical reason phrase that the `http` crate's table holds for a
/// status code, as bytes; `None` where the table has no entry.
pub uninterp spec fn reason_phrase(code: u16) -> Option<Seq<u8>>;

/// `http::Method::from_bytes`: accepts exactly the non-empty byte strings made
/// of token bytes.
#[verifier::external_body]
pub(crate) fn method_is_valid(src: &[u8]) -> (ok: bool)
    ensures
        ok == is_method(src@),
{
    http::Method::from_bytes(src).is_ok()
}

/// `http::Uri::try_from` on a byte slice: tells whether the parser accepts the
/// bytes. Parsing depends on the bytes alone.
#[verifier::external_body]
pub(crate) fn uri_is_valid(target: &[u8]) -> (ok: bool)
    ensures
        ok == uri_accepts(target@),
{
    http::Uri::try_from(target).is_ok()
}

/// `http::header::HeaderName::from_bytes`, followed by `as_str` on the name it
/// yields: accepts a token of 1 to 65535 bytes and hands it back in lower
/// case; refuses everything else.
#[verifier::external_body]
pub(crate) fn normalize_name(src: &[u8]) -> (r: Option<Vec<u8>>)
    ensures
        match r {
            Some(name) => normalized_name(src@) == Some(name@),
            None => normalized_name(src@).is_none(),
        },
{
    match http::header::HeaderName::from_bytes(src) {
        Ok(name) => Some(name.as_str().as_bytes().to_vec()),
        Err(_) => None,
    }
}

/// `http::header::HeaderValue::from_bytes`: accepts exactly the byte strings
/// in which every byte is a tab or at least 32 and not 127.
#[verifier::external_body]
pub(crate) fn value_is_valid(src: &[u8]) -> (ok: bool)
    ensures
        ok == is_value(src@),
{
    http::header::HeaderValue::from_bytes(src).is_ok()
}

/// `http::StatusCode::canonical_reason`, for the status code that
/// `http::StatusCode::from_u16` makes of `code`: the phrase in the crate's
/// table, if it has one.
#[verifier::external_body]
pub(crate) fn canonical_reason(code: u16) -> (r: Option<Vec<u8>>)
    requires
        100 <= code <= 999,
    ensures
        match r {
            Some(phrase) => reason_phrase(code) == Some(phrase@),
            None => reason_phrase(code).is_none(),
        },
{
    match http::StatusCode::from_u16(code) {
        Ok(status) => match status.canonical_reason() {
            Some(phrase) => Some(phrase.as_bytes().to_vec()),
            None => None,
        },
        Err(_) => None,
    }
}

/// `str::trim`: the slice without leading and trailing white space, where
/// white space is what Unicode's `White_Space` property says.
#[verifier::external_body]
pub(crate) fn trim(s: &str) -> (r: &str)
    ensures
        r@ == trimmed(s@),
{
    s.trim()
}

/// `http::HeaderMap::new`: a map that holds nothing.
#[verifier::external_body]
pub(crate) fn map_new() -> (map: http::HeaderMap<http::HeaderValue>)
    ensures
        held(map) == Fields::empty(),
{
    http::HeaderMap::new()
}

/// `http::HeaderMap::len`: the number of values in the map, each value of a
/// name counted.
#[verifier::external_body]
pub(crate) fn map_len(map: &http::HeaderMap<http::HeaderValue>) -> (n: usize)
    ensures
        n == held(*map).len(),
{
    map.len()
}

/// `http::HeaderMap::try_append`, on the name and the value that
/// `HeaderName::from_bytes` and `HeaderValue::from_bytes` make of the bytes:
/// where it succeeds, the value has joined the values of its name as the
/// last of them, or the name has come in behind all others. It refuses only
/// a map whose table cannot grow any more, which does not happen before the
/// map holds [`FIELD_LIMIT`] names, and then leaves the map as it was.
#[verifier::external_body]
pub(crate) fn map_append(
    map: &mut http::HeaderMap<http::HeaderValue>,
    name: &[u8],
    value: &[u8],
) -> (ok: bool)
    requires
        is_name(name@),
        is_value(value@),
    ensures
        ok ==> held(*final(map)) == joined(held(*old(map)), name@, value@),
        !ok ==> held(*final(map)) == held(*old(map)) && held(*old(map)).len() >= FIELD_LIMIT,
{
    match (http::header::HeaderName::from_bytes(name), http::HeaderValue::from_bytes(value)) {
        (Ok(name), Ok(value)) => map.try_append(name, value).is_ok(),
        _ => false,
    }
}

/// `http::HeaderMap::get`, for the name that `HeaderName::from_bytes` makes
/// of the bytes: the first value that the map holds under the name.
#[verifier::external_body]
pub(crate) fn map_get<'a>(map: &'a http::HeaderMap<http::HeaderValue>, name: &[u8]) -> (r: Option<
    &'a [u8],
>)
    requires
        is_name(name@),
    ensures
        match r {
            Some(v) => first_value(held(*map), name@) == Some(v@),
            None => first_value(held(*map), name@).is_none(),
        },
{
    match http::header::HeaderName::from_bytes(name) {
        Ok(name) => match map.get(name) {
            Some(value) => Some(value.as_bytes()),
            None => None,
        },
        Err(_) => None,
    }
}

/// `http::HeaderMap::iter`: the fields of the map, each name and each value
/// as bytes, in the order in which the map hands them out.
#[verifier::external_body]
pub(crate) fn map_fields(map: &http::HeaderMap<http::HeaderValue>) -> (fields: Vec<
    (Vec<u8>, Vec<u8>),
>)
    ensures
        plain(fields@) == held(*map),
{
    let mut fields = Vec::with_capacity(map.len());
    for (name, value) in map.iter() {
        fields.push((name.as_str().as_bytes().to_vec(), value.as_bytes().to_vec()));
    }
    fields
}

} // verus!
