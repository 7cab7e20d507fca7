//! The errors of the library.

use crate::text::{push_signed, signed_decimal};
use vstd::prelude::*;

verus! {

/// Failure reported by an array backend: its own code and message.
#[derive(Debug)]
pub struct BackendError {
    pub code: i32,
    pub message: String,
}

/// The ways in which an operation of this library fails.
#[derive(Debug)]
pub enum Error {
    /// The caller handed over something that the operation does not accept;
    /// the message names it.
    InvalidParameter(String),
    /// An array backend failed; its error is passed on as it came.
    ArrayBackend(BackendError),
    /// The operation is not available for this input.
    Unimplemented(String),
}

impl Error {
    /// The error as a line of text: its kind, then its message.
    pub open spec fn text(&self) -> Seq<char> {
        match self {
            Error::InvalidParameter(message) => "invalid parameter: "@ + message@,
            Error::ArrayBackend(e) => "array backend error: "@ + e.message@ + " (code "@ + signed_decimal(
                e.code as int,
            ) + ")"@,
            Error::Unimplemented(message) => "not implemented: "@ + message@,
        }
    }

    /// The error as a line of text: its kind, then its message.
    pub fn to_string(&self) -> (text: String)
        ensures
            text@ == self.text(),
    {
        match self {
            Error::InvalidParameter(message) => {
                let mut text = String::from_str("invalid parameter: ");
                text.append(message.as_str());
                text
            },
            Error::ArrayBackend(e) => {
                let mut text = String::from_str("array backend error: ");
                text.append(e.message.as_str());
                text.append(" (code ");
                push_signed(&mut text, e.code);
                text.append(")");
                text
            },
            Error::Unimplemented(message) => {
                let mut text = String::from_str("not implemented: ");
                text.append(message.as_str());
                text
            },
        }
    }
}

} // verus!
