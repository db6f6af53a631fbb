//! The one decision the request-handling boundary applies to a create
//! result: which response class each outcome maps to. The boundary itself
//! — routing, serialization, logging — lives outside the core.

use crate::errors::ServiceError;
use vstd::prelude::*;

verus! {

/// The response class the boundary reports for a create call.
#[derive(Clone, Copy, Debug, PartialEq, Eq, Structural)]
pub enum ApiStatus {
    /// The workload was created; its id accompanies the response.
    Created,
    /// The supplied identity already exists.
    Conflict,
    /// Any other failure; the cause is logged, never exposed.
    Internal,
}

/// Maps a create result to its response class: a new id means created, a
/// duplicate identity means conflict, every other failure is internal.
pub fn response_status(r: &Result<u64, ServiceError>) -> (s: ApiStatus)
    ensures
        (match r {
            Ok(_) => s == ApiStatus::Created,
            Err(ServiceError::DuplicateIdentity(_)) => s == ApiStatus::Conflict,
            Err(_) => s == ApiStatus::Internal,
        }),
{
    match r {
        Ok(_) => ApiStatus::Created,
        Err(ServiceError::DuplicateIdentity(_)) => ApiStatus::Conflict,
        Err(_) => ApiStatus::Internal,
    }
}

} // verus!
