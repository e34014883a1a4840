//! Responses, and the shortcuts that build the common ones.

use crate::bytes::{decimal, push_decimal};
use crate::headers::{append_owed, has_name, Fields, HeaderError, Headers};
use crate::outside::{is_name, is_value, lowered, FIELD_LIMIT};
use vstd::pervasive::unreached;
use vstd::prelude::*;
use vstd::slice::slice_to_vec;
use vstd::string::*;

verus! {

/// A status code: three digits, the first of them not 0.
pub open spec fn is_status(code: u16) -> bool {
    100 <= code <= 999
}

/// A response as plain values.
pub struct ResponseView {
    pub status: u16,
    pub headers: Fields,
    pub body: Seq<u8>,
}

/// A response: a status code, header fields and a body.
#[derive(Debug)]
pub struct Response {
    status: u16,
    headers: Headers,
    body: Vec<u8>,
}

impl View for Response {
    type V = ResponseView;

    closed spec fn view(&self) -> ResponseView {
        ResponseView { status: self.status, headers: self.headers@, body: self.body@ }
    }
}

impl Response {
    #[verifier::type_invariant]
    spec fn valid(self) -> bool {
        is_status(self.status)
    }

    /// A response with this status and body and no header fields; `None`
    /// where `status_code` is no status code.
    pub fn new(status_code: u16, body: Vec<u8>) -> (r: Option<Response>)
        ensures
            match r {
                Some(response) => is_status(status_code) && response@ == (ResponseView {
                    status: status_code,
                    headers: Fields::empty(),
                    body: body@,
                }),
                None => !is_status(status_code),
            },
    {
        if 100 <= status_code && status_code <= 999 {
            Some(Response { status: status_code, headers: Headers::new(), body })
        } else {
            None
        }
    }

    /// Adds a header field: behind the fields of its name where there are
    /// any, and as the last field otherwise. The name may be written in
    /// either case. A field that is refused changes nothing.
    pub fn append_header(&mut self, name: &str, value: &str) -> (r: Result<(), HeaderError>)
        ensures
            final(self)@.status == old(self)@.status,
            final(self)@.body == old(self)@.body,
            append_owed(
                r,
                old(self)@.headers,
                final(self)@.headers,
                name.spec_bytes(),
                value.spec_bytes(),
            ),
    {
        self.append_field(name.as_bytes(), value.as_bytes())
    }

    /// Adds a header field as [`Response::append_header`] does, with the name
    /// and the value given as bytes: a value need not be text.
    pub fn append_field(&mut self, name: &[u8], value: &[u8]) -> (r: Result<(), HeaderError>)
        ensures
            final(self)@.status == old(self)@.status,
            final(self)@.body == old(self)@.body,
            append_owed(r, old(self)@.headers, final(self)@.headers, name@, value@),
    {
        proof {
            use_type_invariant(&*self);
        }
        let mut headers = Headers::new();
        core::mem::swap(&mut self.headers, &mut headers);
        let r = headers.append(name, value);
        self.headers = headers;
        r
    }

    /// The status code.
    pub fn status(&self) -> (r: u16)
        ensures
            r == self@.status,
            is_status(r),
    {
        proof {
            use_type_invariant(self);
        }
        self.status
    }

    /// The header fields.
    pub fn headers(&self) -> (r: &Headers)
        ensures
            r@ == self@.headers,
    {
        &self.headers
    }

    /// The body.
    pub fn body(&self) -> (r: &[u8])
        ensures
            r@ == self@.body,
    {
        self.body.as_slice()
    }
}

/// The field that announces the length of `body`.
pub open spec fn length_field(body: Seq<u8>) -> (Seq<u8>, Seq<u8>) {
    ("content-length".spec_bytes(), decimal(body.len()))
}

/// The field that names the media type of the body.
pub open spec fn type_field(value: Seq<u8>) -> (Seq<u8>, Seq<u8>) {
    ("content-type".spec_bytes(), value)
}

/// The two names that the shortcuts use are header names, and not the same
/// name, and the two media types that they use are header values.
proof fn lemma_shortcut_fields()
    ensures
        is_name("content-length".spec_bytes()),
        is_name("content-type".spec_bytes()),
        "content-length".spec_bytes() != "content-type".spec_bytes(),
        is_value("text/html; charset=utf-8".spec_bytes()),
        is_value("text/plain; charset=utf-8".spec_bytes()),
{
    reveal_strlit("content-length");
    reveal_strlit("content-type");
    reveal_strlit("text/html; charset=utf-8");
    reveal_strlit("text/plain; charset=utf-8");
    is_ascii_spec_bytes("content-length");
    is_ascii_spec_bytes("content-type");
    is_ascii_spec_bytes("text/html; charset=utf-8");
    is_ascii_spec_bytes("text/plain; charset=utf-8");
    let n = "content-length".spec_bytes();
    let t = "content-type".spec_bytes();
    assert(Seq::new(n.len(), |i: int| lowered(n[i])) =~= n);
    assert(Seq::new(t.len(), |i: int| lowered(t[i])) =~= t);
}

/// Decimal digits are a header value.
proof fn lemma_decimal_is_value(n: nat)
    ensures
        is_value(decimal(n)),
    decreases n,
{
    if n >= 10 {
        lemma_decimal_is_value(n / 10);
    }
}

/// Adds a field that is known to be well formed, to fields that lack its
/// name.
fn push_field(response: &mut Response, name: &[u8], value: &[u8])
    requires
        is_name(name@),
        is_value(value@),
        !has_name(old(response)@.headers, name@),
        old(response)@.headers.len() < FIELD_LIMIT,
    ensures
        final(response)@ == (ResponseView {
            headers: old(response)@.headers.push((name@, value@)),
            ..old(response)@
        }),
{
    match response.append_field(name, value) {
        Ok(()) => {},
        Err(_) => unreached(),
    }
}

/// Adds the field that announces the length of the body.
fn push_content_length(response: &mut Response)
    requires
        !has_name(old(response)@.headers, "content-length".spec_bytes()),
        old(response)@.headers.len() < FIELD_LIMIT,
    ensures
        final(response)@ == (ResponseView {
            headers: old(response)@.headers.push(length_field(old(response)@.body)),
            ..old(response)@
        }),
{
    let mut digits: Vec<u8> = Vec::new();
    push_decimal(&mut digits, response.body().len());
    proof {
        lemma_shortcut_fields();
        lemma_decimal_is_value(response@.body.len());
        assert(digits@ =~= decimal(response@.body.len()));
    }
    push_field(response, "content-length".as_bytes(), digits.as_slice());
}

/// Adds the field that names the media type of the body.
fn push_content_type(response: &mut Response, value: &str)
    requires
        is_value(value.spec_bytes()),
        !has_name(old(response)@.headers, "content-type".spec_bytes()),
        old(response)@.headers.len() < FIELD_LIMIT,
    ensures
        final(response)@ == (ResponseView {
            headers: old(response)@.headers.push(type_field(value.spec_bytes())),
            ..old(response)@
        }),
{
    proof {
        lemma_shortcut_fields();
    }
    push_field(response, "content-type".as_bytes(), value.as_bytes());
}

/// A response with this status and body and no header fields.
fn bare_response(status_code: u16, body: Vec<u8>) -> (r: Response)
    requires
        is_status(status_code),
    ensures
        r@ == (ResponseView { status: status_code, headers: Fields::empty(), body: body@ }),
{
    match Response::new(status_code, body) {
        Some(response) => response,
        None => unreached(),
    }
}

/// A response with this status code and no body. Like every shortcut it
/// announces the length of its body: the one field is `content-length: 0`.
pub fn empty_response(status_code: u16) -> (r: Response)
    requires
        is_status(status_code),
    ensures
        r@ == (ResponseView {
            status: status_code,
            headers: seq![length_field(Seq::<u8>::empty())],
            body: Seq::<u8>::empty(),
        }),
{
    let mut response = bare_response(status_code, Vec::new());
    push_content_length(&mut response);
    assert(response@.headers =~= seq![length_field(Seq::<u8>::empty())]);
    response
}

/// A response whose body is the UTF-8 text `body`, sent as HTML: the fields
/// are `content-type: text/html; charset=utf-8` and then `content-length`.
pub fn html_response(status_code: u16, body: &str) -> (r: Response)
    requires
        is_status(status_code),
    ensures
        r@ == (ResponseView {
            status: status_code,
            headers: seq![
                type_field("text/html; charset=utf-8".spec_bytes()),
                length_field(body.spec_bytes()),
            ],
            body: body.spec_bytes(),
        }),
{
    let mut response = bare_response(status_code, slice_to_vec(body.as_bytes()));
    proof {
        lemma_shortcut_fields();
    }
    push_content_type(&mut response, "text/html; charset=utf-8");
    push_content_length(&mut response);
    assert(response@.headers =~= seq![
        type_field("text/html; charset=utf-8".spec_bytes()),
        length_field(body.spec_bytes()),
    ]);
    response
}

/// A response whose body is the UTF-8 text `body`, with no media type given:
/// the one field is `content-length`.
pub fn string_response(status_code: u16, body: &str) -> (r: Response)
    requires
        is_status(status_code),
    ensures
        r@ == (ResponseView {
            status: status_code,
            headers: seq![length_field(body.spec_bytes())],
            body: body.spec_bytes(),
        }),
{
    let mut response = bare_response(status_code, slice_to_vec(body.as_bytes()));
    push_content_length(&mut response);
    assert(response@.headers =~= seq![length_field(body.spec_bytes())]);
    response
}

/// A response whose body is the UTF-8 text `body`, sent as plain text: the
/// fields are `content-length` and then
/// `content-type: text/plain; charset=utf-8`.
pub fn text_response(status_code: u16, body: &str) -> (r: Response)
    requires
        is_status(status_code),
    ensures
        r@ == (ResponseView {
            status: status_code,
            headers: seq![
                length_field(body.spec_bytes()),
                type_field("text/plain; charset=utf-8".spec_bytes()),
            ],
            body: body.spec_bytes(),
        }),
{
    let mut response = bare_response(status_code, slice_to_vec(body.as_bytes()));
    proof {
        lemma_shortcut_fields();
    }
    push_content_length(&mut response);
    push_content_type(&mut response, "text/plain; charset=utf-8");
    assert(response@.headers =~= seq![
        length_field(body.spec_bytes()),
        type_field("text/plain; charset=utf-8".spec_bytes()),
    ]);
    response
}

/// The header fields of a binary response: `content-length`, and after it
/// `content-type` where a media type is given.
pub open spec fn binary_fields(media_type: Option<Seq<u8>>, body: Seq<u8>) -> Fields {
    match media_type {
        Some(t) => seq![length_field(body), type_field(t)],
        None => seq![length_field(body)],
    }
}

/// A response whose body is `body` as it is, with the media type
/// `content_type` where one is given.
pub fn binary_response(status_code: u16, content_type: Option<&str>, body: Vec<u8>) -> (r:
    Response)
    requires
        is_status(status_code),
        content_type matches Some(t) ==> is_value(t.spec_bytes()),
    ensures
        r@ == (ResponseView {
            status: status_code,
            headers: binary_fields(
                match content_type {
                    Some(t) => Some(t.spec_bytes()),
                    None => None,
                },
                body@,
            ),
            body: body@,
        }),
{
    let mut response = bare_response(status_code, body);
    push_content_length(&mut response);
    match content_type {
        Some(t) => {
            proof {
                lemma_shortcut_fields();
            }
            push_content_type(&mut response, t);
            assert(response@.headers =~= seq![
                length_field(body@),
                type_field(t.spec_bytes()),
            ]);
        },
        None => {
            assert(response@.headers =~= seq![length_field(body@)]);
        },
    }
    response
}

/// The response of a handler that may fail: its response where it gave one,
/// and where it failed the fixed substitute, which has status 500, no header
/// fields and no body. The substitute is not `empty_response(500)`: it
/// announces no length.
pub fn err_to_500<E>(res: Result<Response, E>) -> (r: Response)
    ensures
        match res {
            Ok(response) => r == response,
            Err(_) => r@ == (ResponseView {
                status: 500,
                headers: Fields::empty(),
                body: Seq::<u8>::empty(),
            }),
        },
{
    match res {
        Ok(response) => response,
        Err(_) => bare_response(500, Vec::new()),
    }
}

} // verus!
