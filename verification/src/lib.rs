//! A CGI (RFC 3875) adapter: builds a request from the meta-variables and the
//! body a web server hands to a CGI programme, and lays a response out in the
//! byte format the server expects on standard output.
//!
//! The library neither reads nor writes. A programme
//!
//! 1. collects its environment in [`MetaVariables`] and reads
//!    [`content_length`] bytes from standard input, not one more;
//! 2. calls [`respond`] or [`try_respond`] with its handler, a function from
//!    [`Request`] to [`Response`];
//! 3. writes the bytes it gets to standard output.
//!
//! [`parse_request`] and [`serialize_response`] are the two halves of the
//! second step. What each function does is stated in its contract and proved;
//! the module [`outside`] lists what is assumed of the `http` crate, which
//! judges methods, targets and header fields and keeps the header map.

pub mod bytes;
pub mod dispatch;
pub mod headers;
pub mod meta;
pub mod outside;
pub mod request;
pub mod response;
pub mod serialize;

pub use dispatch::{respond, try_respond, Outcome};
pub use headers::{HeaderError, Headers};
pub use meta::{content_length, MetaVariables};
pub use outside::FIELD_LIMIT;
pub use request::{
    assemble_request, parse_request, parse_request_with, request_target, MethodPolicy, Request,
    RequestError, Version,
};
pub use response::{
    binary_response, empty_response, err_to_500, html_response, string_response, text_response,
    Response,
};
pub use serialize::{serialize_response, serialize_with_reason};
