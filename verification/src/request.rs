//! The request builder: from the meta-variables and the body bytes to a
//! request with method, target, protocol version, header fields and body.

use crate::bytes::{push_all, same};
use crate::headers::{appended, carries, lemma_joined, Fields, HeaderError, Headers};
use crate::meta::{lookup, MetaVariables, Pairs};
use crate::outside::{
    is_method, method_is_valid, normalized_name, trim, trimmed, uri_accepts, uri_is_valid,
    FIELD_LIMIT,
};
use vstd::prelude::*;
use vstd::slice::{slice_subrange, slice_to_vec};
use vstd::string::*;
use vstd::utf8::encode_utf8;

verus! {

/// The protocol versions that a server may announce in `SERVER_PROTOCOL`.
#[derive(Debug, Clone, Copy, PartialEq, Eq, Structural)]
pub enum Version {
    /// `HTTP/0.9`
    Http09,
    /// `HTTP/1.0`
    Http10,
    /// `HTTP/1.1`
    Http11,
    /// `HTTP/2.0`
    Http2,
}

/// What to do where the server has set no `REQUEST_METHOD`.
#[derive(Debug, Clone, Copy, PartialEq, Eq, Structural)]
pub enum MethodPolicy {
    /// Take the method to be `GET`.
    DefaultGet,
    /// Refuse the request.
    Required,
}

/// Why no request could be built.
#[derive(Debug, Clone, Copy, PartialEq, Eq, Structural)]
pub enum RequestError {
    /// `REQUEST_METHOD` is not set, and the policy asks for it.
    MissingMethod,
    /// `SERVER_PROTOCOL` names none of the known versions.
    UnsupportedProtocol,
    /// The method is no token.
    InvalidMethod,
    /// The request target is no URI.
    InvalidUri,
    /// A variable `HTTP_*` does not give a header name.
    InvalidHeaderName,
    /// The value of a header holds a control character.
    InvalidHeaderValue,
    /// The header map takes no more fields.
    TooManyHeaders,
}

/// A request as plain values.
pub struct RequestView {
    pub method: Seq<u8>,
    pub target: Seq<u8>,
    pub version: Option<Version>,
    pub headers: Fields,
    pub body: Seq<u8>,
}

/// The method of the request: `REQUEST_METHOD`, and `GET` where it is not set.
pub open spec fn method_of(env: Pairs) -> Seq<u8> {
    match lookup(env, "REQUEST_METHOD"@) {
        Some(m) => encode_utf8(m),
        None => "GET".spec_bytes(),
    }
}

/// The path of the request target: `SCRIPT_NAME`, and the path of the
/// programme itself where that is not set.
pub open spec fn path_of(env: Pairs, program: Seq<char>) -> Seq<char> {
    match lookup(env, "SCRIPT_NAME"@) {
        Some(p) => p,
        None => program,
    }
}

/// The query of the request target: `QUERY_STRING` as it stands, where it is
/// set and not empty.
pub open spec fn query_of(env: Pairs) -> Option<Seq<char>> {
    match lookup(env, "QUERY_STRING"@) {
        Some(q) => if q.len() > 0 {
            Some(q)
        } else {
            None
        },
        None => None,
    }
}

/// The request target: the path, then `?` and the query where there is one.
pub open spec fn target_of(env: Pairs, program: Seq<char>) -> Seq<u8> {
    match query_of(env) {
        Some(q) => encode_utf8(path_of(env, program)) + seq![0x3fu8] + encode_utf8(q),
        None => encode_utf8(path_of(env, program)),
    }
}

/// The place of the first `?` in a request target, and the length of the
/// target where it holds none.
pub open spec fn query_mark(target: Seq<u8>) -> int
    decreases target.len(),
{
    if target.len() == 0 || target.first() == 0x3f {
        0
    } else {
        1 + query_mark(target.drop_first())
    }
}

/// The path of a request target: what stands before the first `?`.
pub open spec fn path_part(target: Seq<u8>) -> Seq<u8> {
    target.take(query_mark(target))
}

/// The query of a request target: what follows the first `?`, where there is
/// one.
pub open spec fn query_part(target: Seq<u8>) -> Option<Seq<u8>> {
    if query_mark(target) < target.len() {
        Some(target.skip(query_mark(target) + 1))
    } else {
        None
    }
}

/// The version that a value of `SERVER_PROTOCOL` names.
pub open spec fn version_named(v: Seq<char>) -> Option<Version> {
    if v == "HTTP/0.9"@ {
        Some(Version::Http09)
    } else if v == "HTTP/1.0"@ {
        Some(Version::Http10)
    } else if v == "HTTP/1.1"@ {
        Some(Version::Http11)
    } else if v == "HTTP/2.0"@ {
        Some(Version::Http2)
    } else {
        None
    }
}

/// The version of the request: none where `SERVER_PROTOCOL` is not set, the
/// one it names where it names one, and an error for any other value.
pub open spec fn version_of(env: Pairs) -> Result<Option<Version>, RequestError> {
    match lookup(env, "SERVER_PROTOCOL"@) {
        None => Ok(None),
        Some(v) => match version_named(v) {
            Some(version) => Ok(Some(version)),
            None => Err(RequestError::UnsupportedProtocol),
        },
    }
}

/// A meta-variable that carries a request header: its name begins with
/// `HTTP_`.
pub open spec fn is_http_variable(name: Seq<u8>) -> bool {
    let prefix = "HTTP_".spec_bytes();
    name.len() >= prefix.len() && name.take(prefix.len() as int) == prefix
}

/// The header name that a variable `HTTP_*` stands for, before it is put in
/// lower case: the name without `HTTP_`, each `_` turned into `-`.
pub open spec fn header_source(name: Seq<u8>) -> Seq<u8> {
    let rest = name.skip("HTTP_".spec_bytes().len() as int);
    Seq::new(
        rest.len(),
        |i: int|
            if rest[i] == 0x5f {
                0x2du8
            } else {
                rest[i]
            },
    )
}

/// `h` with the header of one meta-variable added: the variable's value
/// without the white space around it, under the name the variable stands
/// for. A variable that is no `HTTP_*` adds nothing.
pub open spec fn with_http_header(h: Fields, name: Seq<char>, value: Seq<char>) -> Result<
    Fields,
    HeaderError,
> {
    if is_http_variable(encode_utf8(name)) {
        appended(h, header_source(encode_utf8(name)), encode_utf8(trimmed(value)))
    } else {
        Ok(h)
    }
}

/// The headers of the variables `HTTP_*`, added one by one in the order of
/// the variables; or the reason why the first header that cannot be added is
/// refused.
pub open spec fn http_headers(env: Pairs) -> Result<Fields, HeaderError>
    decreases env.len(),
{
    if env.len() == 0 {
        Ok(Fields::empty())
    } else {
        match http_headers(env.drop_last()) {
            Ok(h) => with_http_header(h, env.last().0, env.last().1),
            Err(e) => Err(e),
        }
    }
}

/// The meta-variables that are copied into headers of their own, each with
/// the header that takes its value.
pub const SHADOWS: [(&'static str, &'static str); 16] = [
    ("AUTH_TYPE", "X-CGI-Auth-Type"),
    ("CONTENT_LENGTH", "X-CGI-Content-Length"),
    ("CONTENT_TYPE", "X-CGI-Content-Type"),
    ("GATEWAY_INTERFACE", "X-CGI-Gateway-Interface"),
    ("PATH_INFO", "X-CGI-Path-Info"),
    ("PATH_TRANSLATED", "X-CGI-Path-Translated"),
    ("QUERY_STRING", "X-CGI-Query-String"),
    ("REMOTE_ADDR", "X-CGI-Remote-Addr"),
    ("REMOTE_HOST", "X-CGI-Remote-Host"),
    ("REMOTE_IDENT", "X-CGI-Remote-Ident"),
    ("REMOTE_USER", "X-CGI-Remote-User"),
    ("REQUEST_METHOD", "X-CGI-Request-Method"),
    ("SCRIPT_NAME", "X-CGI-Script-Name"),
    ("SERVER_PORT", "X-CGI-Server-Port"),
    ("SERVER_PROTOCOL", "X-CGI-Server-Protocol"),
    ("SERVER_SOFTWARE", "X-CGI-Server-Software"),
];

/// `h` with the value of one meta-variable added under `header`, as it
/// stands, where the variable is set.
pub open spec fn with_shadow(h: Fields, env: Pairs, variable: Seq<char>, header: Seq<u8>) -> Result<
    Fields,
    HeaderError,
> {
    match lookup(env, variable) {
        Some(v) => appended(h, header, encode_utf8(v)),
        None => Ok(h),
    }
}

/// `h` with the first `n` rows of [`SHADOWS`] added, row by row; or the reason why the first header that cannot be added is refused.
pub open spec fn with_shadows(h: Fields, env: Pairs, n: int) -> Result<Fields, HeaderError>
    decreases n,
{
    if n <= 0 {
        Ok(h)
    } else {
        match with_shadows(h, env, n - 1) {
            Ok(g) => with_shadow(g, env, SHADOWS[n - 1].0@, SHADOWS[n - 1].1.spec_bytes()),
            Err(e) => Err(e),
        }
    }
}

/// The header fields of the request: those of the variables `HTTP_*`, then
/// the `X-CGI-` headers.
pub open spec fn headers_of(env: Pairs) -> Result<Fields, HeaderError> {
    match http_headers(env) {
        Ok(h) => with_shadows(h, env, SHADOWS.len() as int),
        Err(e) => Err(e),
    }
}

/// The error of the request builder that stands for a refused header.
pub open spec fn header_failure(e: HeaderError) -> RequestError {
    match e {
        HeaderError::InvalidName => RequestError::InvalidHeaderName,
        HeaderError::InvalidValue => RequestError::InvalidHeaderValue,
        HeaderError::TooMany => RequestError::TooManyHeaders,
    }
}

/// The request that the meta-variables `env` and the body describe, where
/// `target_ok` says whether the request target is a URI; or the first reason,
/// in the order below, why there is none.
pub open spec fn built(
    env: Pairs,
    program: Seq<char>,
    policy: MethodPolicy,
    target_ok: bool,
    body: Seq<u8>,
) -> Result<RequestView, RequestError> {
    if policy == MethodPolicy::Required && lookup(env, "REQUEST_METHOD"@).is_none() {
        Err(RequestError::MissingMethod)
    } else if version_of(env) is Err {
        Err(RequestError::UnsupportedProtocol)
    } else if !is_method(method_of(env)) {
        Err(RequestError::InvalidMethod)
    } else if !target_ok {
        Err(RequestError::InvalidUri)
    } else {
        match headers_of(env) {
            Ok(h) => Ok(
                RequestView {
                    method: method_of(env),
                    target: target_of(env, program),
                    version: version_of(env)->Ok_0,
                    headers: h,
                    body,
                },
            ),
            Err(e) => Err(header_failure(e)),
        }
    }
}

/// What the request builder owes. It answers as `expected` says, or, where
/// the header map takes no more fields, with `TooManyHeaders`; and with that
/// only for a request that has passed the checks of its method, protocol and
/// target and has [`FIELD_LIMIT`] or more fields to offer, one for each
/// meta-variable and one for each row of [`SHADOWS`].
pub open spec fn owed(
    r: Result<Request, RequestError>,
    expected: Result<RequestView, RequestError>,
    variables: nat,
) -> bool {
    if r == Err::<Request, RequestError>(RequestError::TooManyHeaders) {
        &&& variables + SHADOWS.len() >= FIELD_LIMIT
        &&& expected != Err::<RequestView, RequestError>(RequestError::MissingMethod)
        &&& expected != Err::<RequestView, RequestError>(RequestError::UnsupportedProtocol)
        &&& expected != Err::<RequestView, RequestError>(RequestError::InvalidMethod)
        &&& expected != Err::<RequestView, RequestError>(RequestError::InvalidUri)
    } else {
        match expected {
            Ok(request) => r is Ok && r->Ok_0@ == request,
            Err(e) => r == Err::<Request, RequestError>(e),
        }
    }
}

/// A request, as the request builder hands it to the handler.
#[derive(Debug)]
pub struct Request {
    method: Vec<u8>,
    target: Vec<u8>,
    version: Option<Version>,
    headers: Headers,
    body: Vec<u8>,
}

impl View for Request {
    type V = RequestView;

    closed spec fn view(&self) -> RequestView {
        RequestView {
            method: self.method@,
            target: self.target@,
            version: self.version,
            headers: self.headers@,
            body: self.body@,
        }
    }
}

impl Request {
    /// The request method, such as `GET`.
    pub fn method(&self) -> (r: &[u8])
        ensures
            r@ == self@.method,
    {
        self.method.as_slice()
    }

    /// The request target: the path and, after a `?`, the query.
    pub fn target(&self) -> (r: &[u8])
        ensures
            r@ == self@.target,
    {
        self.target.as_slice()
    }

    /// The place of the first `?` in the target.
    fn find_query_mark(&self) -> (i: usize)
        ensures
            i == query_mark(self@.target),
            i <= self@.target.len(),
    {
        let ghost target = self.target@;
        let mut i: usize = 0;
        assert(target.skip(0) =~= target);
        while i < self.target.len() && self.target[i] != 0x3f
            invariant
                i <= target.len(),
                target == self.target@,
                query_mark(target) == i + query_mark(target.skip(i as int)),
            decreases target.len() - i,
        {
            assert(target.skip(i as int).drop_first() =~= target.skip(i + 1));
            i += 1;
        }
        i
    }

    /// The path of the request: the target up to its first `?`.
    pub fn path(&self) -> (r: &[u8])
        ensures
            r@ == path_part(self@.target),
    {
        let mark = self.find_query_mark();
        slice_subrange(self.target.as_slice(), 0, mark)
    }

    /// The query of the request: what follows the first `?` of the target,
    /// where there is one. Nothing is decoded.
    pub fn query(&self) -> (r: Option<&[u8]>)
        ensures
            match r {
                Some(q) => query_part(self@.target) == Some(q@),
                None => query_part(self@.target).is_none(),
            },
    {
        let mark = self.find_query_mark();
        if mark < self.target.len() {
            Some(slice_subrange(self.target.as_slice(), mark + 1, self.target.len()))
        } else {
            None
        }
    }

    /// The protocol version, where the server has announced one.
    pub fn version(&self) -> (r: Option<Version>)
        ensures
            r == self@.version,
    {
        self.version
    }

    /// The header fields.
    pub fn headers(&self) -> (r: &Headers)
        ensures
            r@ == self@.headers,
    {
        &self.headers
    }

    /// The body.
    pub fn body(&self) -> (r: &[u8])
        ensures
            r@ == self@.body,
    {
        self.body.as_slice()
    }
}

/// Tells whether two strings are the same text.
fn same_text(a: &str, b: &str) -> (r: bool)
    ensures
        r == (a@ == b@),
{
    let x = a.to_owned();
    let y = b.to_owned();
    x == y
}

/// Reads a value of `SERVER_PROTOCOL`.
fn parse_version(v: &str) -> (r: Option<Version>)
    ensures
        r == version_named(v@),
{
    if same_text(v, "HTTP/0.9") {
        Some(Version::Http09)
    } else if same_text(v, "HTTP/1.0") {
        Some(Version::Http10)
    } else if same_text(v, "HTTP/1.1") {
        Some(Version::Http11)
    } else if same_text(v, "HTTP/2.0") {
        Some(Version::Http2)
    } else {
        None
    }
}

/// The request target that the meta-variables describe: `SCRIPT_NAME`, or
/// `program` in its place where it is not set, followed by `?` and
/// `QUERY_STRING` where that is set and not empty. Nothing is decoded.
pub fn request_target(env_vars: &MetaVariables, program: &str) -> (target: Vec<u8>)
    ensures
        target@ == target_of(env_vars@, program@),
{
    let path = match env_vars.get("SCRIPT_NAME") {
        Some(p) => p,
        None => program,
    };
    let mut target = slice_to_vec(path.as_bytes());
    match env_vars.get("QUERY_STRING") {
        Some(q) => {
            if !q.is_empty() {
                target.push(0x3f);
                push_all(&mut target, q.as_bytes());
            }
        },
        None => {},
    }
    target
}

/// Tells whether a meta-variable of this name carries a request header.
fn is_http_name(name: &[u8]) -> (r: bool)
    ensures
        r == is_http_variable(name@),
{
    let prefix = "HTTP_".as_bytes();
    name.len() >= prefix.len() && same(slice_subrange(name, 0, prefix.len()), prefix)
}

/// The header name that the variable `name` stands for, as the server wrote
/// it.
fn header_name_source(name: &[u8]) -> (r: Vec<u8>)
    requires
        is_http_variable(name@),
    ensures
        r@ == header_source(name@),
{
    let start = "HTTP_".as_bytes().len();
    let mut r: Vec<u8> = Vec::new();
    let mut i: usize = start;
    while i < name.len()
        invariant
            start == "HTTP_".spec_bytes().len(),
            start <= i <= name.len(),
            r@ == header_source(name@).take(i - start),
        decreases name.len() - i,
    {
        let b = name[i];
        r.push(
            if b == 0x5f {
                0x2d
            } else {
                b
            },
        );
        assert(header_source(name@).take(i + 1 - start) =~= header_source(name@).take(
            i - start,
        ).push(header_source(name@)[i - start]));
        i += 1;
    }
    assert(header_source(name@).take(i - start) =~= header_source(name@));
    r
}

/// Once a header has been refused, the variables that follow change nothing.
proof fn lemma_http_headers_refused(env: Pairs, k: int)
    requires
        0 <= k <= env.len(),
        http_headers(env.take(k)) is Err,
    ensures
        http_headers(env) == http_headers(env.take(k)),
    decreases env.len() - k,
{
    if k == env.len() {
        assert(env.take(k) =~= env);
    } else {
        assert(env.take(k + 1).drop_last() =~= env.take(k));
        lemma_http_headers_refused(env, k + 1);
    }
}

/// Adds the headers of the variables `HTTP_*` to an empty set of fields.
fn add_http_headers(headers: &mut Headers, env_vars: &MetaVariables) -> (r: Result<(), HeaderError>)
    requires
        old(headers)@ == Fields::empty(),
    ensures
        match r {
            Ok(()) => {
                &&& http_headers(env_vars@) == Ok::<Fields, HeaderError>(final(headers)@)
                &&& final(headers)@.len() <= env_vars@.len()
            },
            Err(HeaderError::TooMany) => env_vars@.len() >= FIELD_LIMIT,
            Err(e) => http_headers(env_vars@) == Err::<Fields, HeaderError>(e),
        },
{
    let mut i: usize = 0;
    assert(env_vars@.take(0) =~= Pairs::empty());
    while i < env_vars.len()
        invariant
            i <= env_vars@.len(),
            headers@.len() <= i,
            http_headers(env_vars@.take(i as int)) == Ok::<Fields, HeaderError>(headers@),
        decreases env_vars@.len() - i,
    {
        let name = env_vars.name(i).as_bytes();
        let ghost next = env_vars@.take(i + 1);
        assert(next.drop_last() =~= env_vars@.take(i as int));
        assert(next.last() == env_vars@[i as int]);
        if is_http_name(name) {
            let source = header_name_source(name);
            let value = trim(env_vars.value(i)).as_bytes();
            let ghost before = headers@;
            match headers.append(source.as_slice(), value) {
                Ok(()) => {
                    proof {
                        lemma_joined(before, normalized_name(source@)->0, value@);
                    }
                },
                Err(HeaderError::TooMany) => {
                    return Err(HeaderError::TooMany);
                },
                Err(e) => {
                    proof {
                        lemma_http_headers_refused(env_vars@, i + 1);
                    }
                    return Err(e);
                },
            }
        }
        i += 1;
    }
    assert(env_vars@.take(i as int) =~= env_vars@);
    Ok(())
}

/// Adds the value of the meta-variable `meta_var`, where it is set, as the
/// header `target_header`.
fn add_header(
    headers: &mut Headers,
    env_vars: &MetaVariables,
    meta_var: &str,
    target_header: &str,
) -> (r: Result<(), HeaderError>)
    ensures
        match r {
            Ok(()) => {
                &&& with_shadow(old(headers)@, env_vars@, meta_var@, target_header.spec_bytes())
                    == Ok::<Fields, HeaderError>(final(headers)@)
                &&& final(headers)@.len() <= old(headers)@.len() + 1
            },
            Err(HeaderError::TooMany) => old(headers)@.len() >= FIELD_LIMIT,
            Err(e) => with_shadow(old(headers)@, env_vars@, meta_var@, target_header.spec_bytes())
                == Err::<Fields, HeaderError>(e),
        },
{
    match env_vars.get(meta_var) {
        Some(v) => {
            let r = headers.append(target_header.as_bytes(), v.as_bytes());
            proof {
                if r is Ok {
                    lemma_joined(
                        old(headers)@,
                        normalized_name(target_header.spec_bytes())->0,
                        v.spec_bytes(),
                    );
                }
            }
            r
        },
        None => Ok(()),
    }
}

/// Once a header has been refused, the rows that follow change nothing.
proof fn lemma_shadows_refused(h: Fields, env: Pairs, k: int, n: int)
    requires
        0 <= k <= n,
        with_shadows(h, env, k) is Err,
    ensures
        with_shadows(h, env, n) == with_shadows(h, env, k),
    decreases n - k,
{
    if k < n {
        lemma_shadows_refused(h, env, k, n - 1);
    }
}

/// Adds the `X-CGI-` headers, row by row of [`SHADOWS`].
fn add_shadow_headers(headers: &mut Headers, env_vars: &MetaVariables) -> (r: Result<
    (),
    HeaderError,
>)
    ensures
        match r {
            Ok(()) => with_shadows(old(headers)@, env_vars@, SHADOWS.len() as int) == Ok::<
                Fields,
                HeaderError,
            >(final(headers)@),
            Err(HeaderError::TooMany) => old(headers)@.len() + SHADOWS.len() >= FIELD_LIMIT,
            Err(e) => with_shadows(old(headers)@, env_vars@, SHADOWS.len() as int) == Err::<
                Fields,
                HeaderError,
            >(e),
        },
{
    let mut i: usize = 0;
    while i < SHADOWS.len()
        invariant
            i <= SHADOWS.len(),
            headers@.len() <= old(headers)@.len() + i,
            with_shadows(old(headers)@, env_vars@, i as int) == Ok::<Fields, HeaderError>(
                headers@,
            ),
        decreases SHADOWS.len() - i,
    {
        let row = SHADOWS[i];
        match add_header(headers, env_vars, row.0, row.1) {
            Ok(()) => {},
            Err(HeaderError::TooMany) => {
                return Err(HeaderError::TooMany);
            },
            Err(e) => {
                proof {
                    lemma_shadows_refused(
                        old(headers)@,
                        env_vars@,
                        i + 1,
                        SHADOWS.len() as int,
                    );
                }
                return Err(e);
            },
        }
        i += 1;
    }
    Ok(())
}

/// Puts a request together from the meta-variables and the body, given the
/// answer `target_ok` to the question whether the request target is a URI.
///
/// `program` is the path of the running programme; it stands in for
/// `SCRIPT_NAME` where the server has not set that. The body is attached as
/// it is.
pub fn assemble_request(
    env_vars: &MetaVariables,
    program: &str,
    policy: MethodPolicy,
    target_ok: bool,
    stdin: Vec<u8>,
) -> (r: Result<Request, RequestError>)
    ensures
        owed(r, built(env_vars@, program@, policy, target_ok, stdin@), env_vars@.len()),
{
    let method = match env_vars.get("REQUEST_METHOD") {
        Some(m) => m,
        None => {
            match policy {
                MethodPolicy::Required => {
                    return Err(RequestError::MissingMethod);
                },
                MethodPolicy::DefaultGet => "GET",
            }
        },
    };
    let version = match env_vars.get("SERVER_PROTOCOL") {
        Some(v) => match parse_version(v) {
            Some(version) => Some(version),
            None => {
                return Err(RequestError::UnsupportedProtocol);
            },
        },
        None => None,
    };
    if !method_is_valid(method.as_bytes()) {
        return Err(RequestError::InvalidMethod);
    }
    if !target_ok {
        return Err(RequestError::InvalidUri);
    }
    let mut headers = Headers::new();
    match add_http_headers(&mut headers, env_vars) {
        Ok(()) => {},
        Err(e) => {
            return Err(refusal(e));
        },
    }
    match add_shadow_headers(&mut headers, env_vars) {
        Ok(()) => {},
        Err(e) => {
            return Err(refusal(e));
        },
    }
    Ok(
        Request {
            method: slice_to_vec(method.as_bytes()),
            target: request_target(env_vars, program),
            version,
            headers,
            body: stdin,
        },
    )
}

/// The request builder's error for a header that was refused.
fn refusal(e: HeaderError) -> (r: RequestError)
    ensures
        r == header_failure(e),
{
    match e {
        HeaderError::InvalidName => RequestError::InvalidHeaderName,
        HeaderError::InvalidValue => RequestError::InvalidHeaderValue,
        HeaderError::TooMany => RequestError::TooManyHeaders,
    }
}

/// Builds the request that the meta-variables and the body describe, with the
/// given policy for a missing `REQUEST_METHOD`.
///
/// Fails, in this order, where the method is missing and asked for, where
/// `SERVER_PROTOCOL` names no known version, where the method is no token,
/// where the request target is no URI, and where a header cannot be added.
/// A request with fewer than [`FIELD_LIMIT`] fields to offer never fails for
/// their number.
pub fn parse_request_with(
    env_vars: &MetaVariables,
    program: &str,
    policy: MethodPolicy,
    stdin: Vec<u8>,
) -> (r: Result<Request, RequestError>)
    ensures
        owed(
            r,
            built(
                env_vars@,
                program@,
                policy,
                uri_accepts(target_of(env_vars@, program@)),
                stdin@,
            ),
            env_vars@.len(),
        ),
{
    let target = request_target(env_vars, program);
    let target_ok = uri_is_valid(target.as_slice());
    assemble_request(env_vars, program, policy, target_ok, stdin)
}

/// Builds the request that the meta-variables and the body describe. A
/// missing `REQUEST_METHOD` is read as `GET`.
pub fn parse_request(env_vars: &MetaVariables, program: &str, stdin: Vec<u8>) -> (r: Result<
    Request,
    RequestError,
>)
    ensures
        owed(
            r,
            built(
                env_vars@,
                program@,
                MethodPolicy::DefaultGet,
                uri_accepts(target_of(env_vars@, program@)),
                stdin@,
            ),
            env_vars@.len(),
        ),
{
    parse_request_with(env_vars, program, MethodPolicy::DefaultGet, stdin)
}

/// A request target without a question mark of the builder's making: where
/// `QUERY_STRING` is not set or is empty, the target of the request that is
/// built is `SCRIPT_NAME` as it stands, and the path of the programme where
/// `SCRIPT_NAME` is not set either.
pub proof fn lemma_target_without_query(
    env: Pairs,
    program: Seq<char>,
    policy: MethodPolicy,
    target_ok: bool,
    body: Seq<u8>,
)
    requires
        lookup(env, "QUERY_STRING"@).is_none() || lookup(env, "QUERY_STRING"@) == Some(
            Seq::<char>::empty(),
        ),
    ensures
        target_of(env, program) == encode_utf8(path_of(env, program)),
        lookup(env, "SCRIPT_NAME"@) matches Some(script) ==> target_of(env, program)
            == encode_utf8(script),
        built(env, program, policy, target_ok, body) matches Ok(request) ==> request.target
            == encode_utf8(path_of(env, program)),
{
}

/// A request target with a query: where `SCRIPT_NAME` is `script` and
/// `QUERY_STRING` is `query`, which is not empty, the target of the request
/// that is built is `script`, a question mark, and `query`, nothing decoded.
pub proof fn lemma_target_with_query(
    env: Pairs,
    program: Seq<char>,
    policy: MethodPolicy,
    target_ok: bool,
    body: Seq<u8>,
    script: Seq<char>,
    query: Seq<char>,
)
    requires
        lookup(env, "SCRIPT_NAME"@) == Some(script),
        lookup(env, "QUERY_STRING"@) == Some(query),
        query.len() > 0,
    ensures
        target_of(env, program) == encode_utf8(script) + seq![0x3fu8] + encode_utf8(query),
        built(env, program, policy, target_ok, body) matches Ok(request) ==> request.target
            == encode_utf8(script) + seq![0x3fu8] + encode_utf8(query),
{
}

/// A path without `?` is found again: the first `?` of the path followed by
/// `?` and anything is the one behind the path, and the path alone holds
/// none.
proof fn lemma_query_mark(path: Seq<u8>, rest: Seq<u8>)
    requires
        forall|i: int| 0 <= i < path.len() ==> path[i] != 0x3f,
    ensures
        query_mark(path) == path.len(),
        query_mark(path + seq![0x3fu8] + rest) == path.len(),
    decreases path.len(),
{
    let whole = path + seq![0x3fu8] + rest;
    if path.len() > 0 {
        let tail = path.drop_first();
        assert forall|i: int| 0 <= i < tail.len() implies tail[i] != 0x3f by {
            assert(tail[i] == path[i + 1]);
        }
        lemma_query_mark(tail, rest);
        assert(whole.drop_first() =~= tail + seq![0x3fu8] + rest);
        assert(whole.first() == path[0]);
    } else {
        assert(whole.first() == 0x3f);
    }
}

/// The target comes apart where it was put together: where the path that
/// the meta-variables give holds no `?`, the path of the target is that
/// path, and the query of the target is `QUERY_STRING` where that is set and
/// not empty, and none otherwise.
pub proof fn lemma_target_splits(env: Pairs, program: Seq<char>)
    requires
        forall|i: int|
            0 <= i < encode_utf8(path_of(env, program)).len() ==> encode_utf8(
                path_of(env, program),
            )[i] != 0x3f,
    ensures
        path_part(target_of(env, program)) == encode_utf8(path_of(env, program)),
        query_part(target_of(env, program)) == match query_of(env) {
            Some(q) => Some(encode_utf8(q)),
            None => None,
        },
{
    let path = encode_utf8(path_of(env, program));
    match query_of(env) {
        Some(q) => {
            let target = path + seq![0x3fu8] + encode_utf8(q);
            lemma_query_mark(path, encode_utf8(q));
            assert(target.take(path.len() as int) =~= path);
            assert(target.skip(path.len() as int + 1) =~= encode_utf8(q));
        },
        None => {
            lemma_query_mark(path, Seq::<u8>::empty());
            assert(path.take(path.len() as int) =~= path);
        },
    }
}

/// Adding the header of a variable keeps the fields that are there.
proof fn lemma_http_header_kept(h: Fields, name: Seq<char>, value: Seq<char>, n: Seq<u8>, v: Seq<u8>)
    requires
        with_http_header(h, name, value) is Ok,
        carries(h, n, v),
    ensures
        carries(with_http_header(h, name, value)->Ok_0, n, v),
{
    let g = with_http_header(h, name, value)->Ok_0;
    let k = choose|k: int| 0 <= k < h.len() && #[trigger] h[k] == (n, v);
    if is_http_variable(encode_utf8(name)) {
        lemma_joined(
            h,
            normalized_name(header_source(encode_utf8(name)))->0,
            encode_utf8(trimmed(value)),
        );
        assert(g.contains(h[k]));
        let m = choose|m: int| 0 <= m < g.len() && g[m] == h[k];
        assert(g[m] == (n, v));
    } else {
        assert(g[k] == (n, v));
    }
}

/// The headers of the variables `HTTP_*` hold a field for each of them.
proof fn lemma_http_headers_carry(env: Pairs, i: int)
    requires
        0 <= i < env.len(),
        is_http_variable(encode_utf8(env[i].0)),
        http_headers(env) is Ok,
    ensures
        normalized_name(header_source(encode_utf8(env[i].0))) is Some,
        carries(
            http_headers(env)->Ok_0,
            normalized_name(header_source(encode_utf8(env[i].0)))->0,
            encode_utf8(trimmed(env[i].1)),
        ),
    decreases env.len(),
{
    let front = env.drop_last();
    let h = http_headers(front)->Ok_0;
    let g = http_headers(env)->Ok_0;
    if i == env.len() - 1 {
        lemma_joined(
            h,
            normalized_name(header_source(encode_utf8(env[i].0)))->0,
            encode_utf8(trimmed(env[i].1)),
        );
    } else {
        assert(front[i] == env[i]);
        lemma_http_headers_carry(front, i);
        lemma_http_header_kept(
            h,
            env.last().0,
            env.last().1,
            normalized_name(header_source(encode_utf8(env[i].0)))->0,
            encode_utf8(trimmed(env[i].1)),
        );
    }
}

/// Adding the `X-CGI-` headers keeps the fields that are there.
proof fn lemma_shadows_keep(h: Fields, env: Pairs, n: int, name: Seq<u8>, value: Seq<u8>)
    requires
        with_shadows(h, env, n) is Ok,
        carries(h, name, value),
    ensures
        carries(with_shadows(h, env, n)->Ok_0, name, value),
    decreases n,
{
    if n > 0 {
        lemma_shadows_keep(h, env, n - 1, name, value);
        let g = with_shadows(h, env, n - 1)->Ok_0;
        let next = with_shadows(h, env, n)->Ok_0;
        let k = choose|k: int| 0 <= k < g.len() && #[trigger] g[k] == (name, value);
        match lookup(env, SHADOWS[n - 1].0@) {
            Some(v) => {
                lemma_joined(
                    g,
                    normalized_name(SHADOWS[n - 1].1.spec_bytes())->0,
                    encode_utf8(v),
                );
                assert(next.contains(g[k]));
                let m = choose|m: int| 0 <= m < next.len() && next[m] == g[k];
                assert(next[m] == (name, value));
            },
            None => {
                assert(next[k] == (name, value));
            },
        }
    }
}

/// Every variable `HTTP_*` is a header of the request: where a request is
/// built, it carries, for the `i`-th meta-variable if that is an `HTTP_*`, a
/// field whose name is the variable's name without `HTTP_`, with `-` for `_`
/// and in lower case, and whose value is the variable's value without the
/// white space around it.
pub proof fn lemma_http_variable_is_header(
    env: Pairs,
    program: Seq<char>,
    policy: MethodPolicy,
    target_ok: bool,
    body: Seq<u8>,
    i: int,
)
    requires
        0 <= i < env.len(),
        is_http_variable(encode_utf8(env[i].0)),
        built(env, program, policy, target_ok, body) is Ok,
    ensures
        normalized_name(header_source(encode_utf8(env[i].0))) is Some,
        carries(
            built(env, program, policy, target_ok, body)->Ok_0.headers,
            normalized_name(header_source(encode_utf8(env[i].0)))->0,
            encode_utf8(trimmed(env[i].1)),
        ),
{
    lemma_http_headers_carry(env, i);
    lemma_shadows_keep(
        http_headers(env)->Ok_0,
        env,
        SHADOWS.len() as int,
        normalized_name(header_source(encode_utf8(env[i].0)))->0,
        encode_utf8(trimmed(env[i].1)),
    );
}

/// Every header of [`SHADOWS`] is a header name, so that a meta-variable of
/// the table can only be refused for its value.
pub proof fn lemma_shadow_names(i: int)
    requires
        0 <= i < SHADOWS.len(),
    ensures
        normalized_name(SHADOWS[i].1.spec_bytes()) is Some,
{
    reveal_strlit("X-CGI-Auth-Type");
    reveal_strlit("X-CGI-Content-Length");
    reveal_strlit("X-CGI-Content-Type");
    reveal_strlit("X-CGI-Gateway-Interface");
    reveal_strlit("X-CGI-Path-Info");
    reveal_strlit("X-CGI-Path-Translated");
    reveal_strlit("X-CGI-Query-String");
    reveal_strlit("X-CGI-Remote-Addr");
    reveal_strlit("X-CGI-Remote-Host");
    reveal_strlit("X-CGI-Remote-Ident");
    reveal_strlit("X-CGI-Remote-User");
    reveal_strlit("X-CGI-Request-Method");
    reveal_strlit("X-CGI-Script-Name");
    reveal_strlit("X-CGI-Server-Port");
    reveal_strlit("X-CGI-Server-Protocol");
    reveal_strlit("X-CGI-Server-Software");
    is_ascii_spec_bytes(SHADOWS[i].1);
}

} // verus!
