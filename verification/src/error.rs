//! The errors that requests, responses and listings are refused with.

use vstd::prelude::*;
use vstd::utf8::*;

verus! {

/// What kind of failure an [`HttpError`] reports.
#[derive(Clone, Copy, Debug, Eq, PartialEq, Structural)]
pub enum HttpErrorKind {
    InvalidRequest,
    Protocol,
    Denied,
    NotFound,
    Server,
    ClockSkew,
    Limit,
    Unsupported,
}

/// A failure with a fixed message: nothing that a server sent ever enters it.
#[derive(Clone, Debug, Eq, PartialEq)]
pub struct HttpError {
    pub kind: HttpErrorKind,
    pub status: Option<u16>,
    pub message: &'static str,
}

impl HttpError {
    /// An error that carries no HTTP status.
    #[verifier::allow_in_spec]
    pub fn new(kind: HttpErrorKind, message: &'static str) -> Self
        returns
            (HttpError { kind, status: None, message }),
    {
        HttpError { kind, status: None, message }
    }

    /// An error that carries the HTTP status it was made from.
    #[verifier::allow_in_spec]
    pub fn with_status(kind: HttpErrorKind, status: u16, message: &'static str) -> Self
        returns
            (HttpError { kind, status: Some(status), message }),
    {
        HttpError { kind, status: Some(status), message }
    }
}

/// Whether an executable result is the one that the model gives: the same
/// error, or a value whose view is the model's value.
pub open spec fn agrees<T: View>(
    result: Result<T, HttpError>,
    model: Result<T::V, HttpError>,
) -> bool {
    match (result, model) {
        (Ok(value), Ok(expected)) => value@ == expected,
        (Err(error), Err(expected)) => error == expected,
        _ => false,
    }
}

/// Whether an executable result is the one that the model gives: the same
/// error, or a text with the model's bytes as its encoding.
pub open spec fn agrees_text(
    result: Result<String, HttpError>,
    model: Result<Seq<u8>, HttpError>,
) -> bool {
    match (result, model) {
        (Ok(text), Ok(expected)) => encode_utf8(text@) == expected,
        (Err(error), Err(expected)) => error == expected,
        _ => false,
    }
}

} // verus!
