//! What an HTTP handler answers when it has no result.

use crate::logs::{hex32_0x, parse_hex32, sized_bytes};
use crate::text::{hex_text, with_0x};
use vstd::prelude::*;

verus! {

#[derive(Clone, Copy, Debug, PartialEq, Eq, Structural)]
pub enum Status {
    BadRequest,
    Unauthorized,
    NotFound,
    ServiceUnavailable,
}

#[derive(Clone, Debug, PartialEq, Eq)]
pub struct ApiError {
    pub status: Status,
    pub message: String,
}

/// Whether an error has a status and a message.
pub open spec fn is_error(error: ApiError, status: Status, message: Seq<char>) -> bool {
    error.status == status && error.message@ == message
}

/// Whether a handler refuses with a status and a message.
pub open spec fn refuses<T>(r: Result<T, ApiError>, status: Status, message: Seq<char>) -> bool {
    r matches Err(error) && is_error(error, status, message)
}

pub fn api_error(status: Status, message: &str) -> (r: ApiError)
    ensures
        is_error(r, status, message@),
{
    ApiError { status, message: message.to_owned() }
}

/// The error of a service that cannot answer now.
pub fn unavailable(message: &str) -> (r: ApiError)
    ensures
        is_error(r, Status::ServiceUnavailable, message@),
{
    api_error(Status::ServiceUnavailable, message)
}

/// A service that was asked did not answer.
#[derive(Clone, Copy, Debug, PartialEq, Eq, Structural)]
pub struct NoReply;

/// The transaction hash that a request names, in its usual form.
pub fn requested_transaction(text: &str) -> (r: Result<String, ApiError>)
    ensures
        match sized_bytes(text@, 32) {
            Some(hash) => r matches Ok(hash_text) && hash_text@ == with_0x(hex_text(hash)),
            None => refuses(r, Status::BadRequest, "invalid transaction hash"@),
        },
{
    match parse_hex32(text) {
        Some(hash) => Ok(hex32_0x(&hash)),
        None => Err(api_error(Status::BadRequest, "invalid transaction hash")),
    }
}

/// A handler refuses with a status and a message exactly if it returns an error with both.
pub proof fn law_refusal<T>(r: Result<T, ApiError>, status: Status, message: Seq<char>)
    ensures
        refuses(r, status, message) <==> r is Err && r->Err_0.status == status
            && r->Err_0.message@ == message,
{
}

} // verus!
