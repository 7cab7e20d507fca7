//! The status codes that cross the C interface.

use vstd::prelude::*;

verus! {

/// Status of a call that went well.
pub const SUCCESS: i32 = 0;

/// Status of a call into a function written in Rust that failed.
pub const RUST_FUNCTION_FAILED: i32 = -4242;

/// What a status code returned across the C interface stands for.
#[derive(Clone, Copy, Debug, PartialEq, Eq, Structural)]
pub enum StatusKind {
    /// The call went well.
    Success,
    /// The library failed and recorded a message for the caller to fetch.
    Failure,
    /// A callback written in Rust failed and recorded its error.
    RustFailure,
    /// A callback from elsewhere failed; nothing more is known.
    ExternalFailure,
}

/// The meaning of a status code: zero for success, a positive code for a
/// failure of the library, one reserved code for a failed Rust callback, and
/// any other negative code for a failed callback from elsewhere.
pub open spec fn status_kind(status: i32) -> StatusKind {
    if status == SUCCESS {
        StatusKind::Success
    } else if status > 0 {
        StatusKind::Failure
    } else if status == RUST_FUNCTION_FAILED {
        StatusKind::RustFailure
    } else {
        StatusKind::ExternalFailure
    }
}

/// Tells what a status code stands for.
pub fn classify_status(status: i32) -> (kind: StatusKind)
    ensures
        kind == status_kind(status),
{
    if status == SUCCESS {
        StatusKind::Success
    } else if status > 0 {
        StatusKind::Failure
    } else if status == RUST_FUNCTION_FAILED {
        StatusKind::RustFailure
    } else {
        StatusKind::ExternalFailure
    }
}

} // verus!
