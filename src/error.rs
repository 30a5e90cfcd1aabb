//! Errors of the request/response surface.
use vstd::prelude::*;

verus! {

/// An error answer, with the message shown to the client.
#[derive(Debug, Clone)]
pub enum AppError {
    NotFound(String),
    BadRequest(String),
    Unauthorized(String),
    Internal(String),
}

} // verus!
