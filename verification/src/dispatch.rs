//! One request and response cycle, without the reading and the writing:
//! build the request, call the handler, lay out what it returns.

use crate::headers::Fields;
use crate::meta::MetaVariables;
use crate::outside::{reason_phrase, uri_accepts, FIELD_LIMIT};
use crate::request::{
    built, parse_request, target_of, MethodPolicy, Request, RequestError, SHADOWS,
};
use crate::response::{Response, ResponseView};
use crate::serialize::{serialize_response, serialized};
use vstd::pervasive::unreached;
use vstd::prelude::*;

verus! {

/// The output for a response, with the canonical reason phrase of its status.
pub open spec fn output_of(response: ResponseView) -> Seq<u8> {
    serialized(response, reason_phrase(response.status))
}

/// The response that is sent in the place of a handler's failure: status 500,
/// no header fields, no body.
pub open spec fn failure_response() -> ResponseView {
    ResponseView { status: 500, headers: Fields::empty(), body: Seq::<u8>::empty() }
}

/// What a cycle with a handler that may fail hands back.
#[derive(Debug)]
pub struct Outcome<E> {
    /// The bytes for standard output.
    pub output: Vec<u8>,
    /// The handler's failure, if it failed: to be reported on the diagnostic
    /// stream.
    pub failure: Option<E>,
}

/// Runs one cycle with a handler that always gives a response: builds the
/// request from the meta-variables and the body, calls `func` on it and lays
/// out the response. Fails where no request can be built; the handler is then
/// not called. A request with fewer than [`FIELD_LIMIT`] fields to offer never
/// fails for their number.
pub fn respond<F>(env_vars: &MetaVariables, program: &str, stdin: Vec<u8>, func: F) -> (r: Result<
    Vec<u8>,
    RequestError,
>) where F: FnOnce(Request) -> Response
    requires
        forall|request: Request| func.requires((request,)),
    ensures
        match r {
            Err(RequestError::TooManyHeaders) => env_vars@.len() + SHADOWS.len() >= FIELD_LIMIT,
            _ => match built(
                env_vars@,
                program@,
                MethodPolicy::DefaultGet,
                uri_accepts(target_of(env_vars@, program@)),
                stdin@,
            ) {
                Ok(view) => r is Ok && exists|request: Request, response: Response|
                    request@ == view && func.ensures((request,), response) && r->Ok_0@
                        == output_of(response@),
                Err(e) => r == Err::<Vec<u8>, RequestError>(e),
            },
        },
{
    let request = match parse_request(env_vars, program, stdin) {
        Ok(request) => request,
        Err(e) => {
            return Err(e);
        },
    };
    let response = func(request);
    let output = serialize_response(response);
    assert(func.ensures((request,), response) && output@ == output_of(response@));
    Ok(output)
}

/// Runs one cycle with a handler that may fail: as [`respond`], but where the
/// handler fails, the output is that of an empty response with status 500,
/// and the failure is handed back beside it.
pub fn try_respond<E, F>(env_vars: &MetaVariables, program: &str, stdin: Vec<u8>, func: F) -> (r:
    Result<Outcome<E>, RequestError>) where F: FnOnce(Request) -> Result<Response, E>
    requires
        forall|request: Request| func.requires((request,)),
    ensures
        match r {
            Err(RequestError::TooManyHeaders) => env_vars@.len() + SHADOWS.len() >= FIELD_LIMIT,
            _ => match built(
                env_vars@,
                program@,
                MethodPolicy::DefaultGet,
                uri_accepts(target_of(env_vars@, program@)),
                stdin@,
            ) {
                Ok(view) => r is Ok && exists|request: Request, result: Result<Response, E>|
                    request@ == view && func.ensures((request,), result) && match result {
                        Ok(response) => r->Ok_0.output@ == output_of(response@)
                            && r->Ok_0.failure.is_none(),
                        Err(failure) => r->Ok_0.output@ == output_of(failure_response())
                            && r->Ok_0.failure == Some(failure),
                    },
                Err(e) => r == Err::<Outcome<E>, RequestError>(e),
            },
        },
{
    let request = match parse_request(env_vars, program, stdin) {
        Ok(request) => request,
        Err(e) => {
            return Err(e);
        },
    };
    let result = func(request);
    let outcome = match result {
        Ok(response) => Outcome { output: serialize_response(response), failure: None },
        Err(failure) => {
            let substitute = match Response::new(500, Vec::new()) {
                Some(response) => response,
                None => unreached(),
            };
            Outcome { output: serialize_response(substitute), failure: Some(failure) }
        },
    };
    assert(func.ensures((request,), result));
    Ok(outcome)
}

} // verus!
