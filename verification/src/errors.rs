//! Error taxonomy: application-level errors surfaced to callers, and the
//! categorized failures of the external text-generation provider.

use vstd::prelude::*;

verus! {

/// Application-level errors. Extraction failures surface as `UploadError`,
/// unreadable files as `NotFound` or `InternalServerError`, and malformed
/// requests as `BadRequest`.
#[derive(Debug)]
pub enum AppError {
    InternalServerError(String),
    BadRequest(String),
    AuthenticationError(String),
    UploadError(String),
    NotFound(String),
}

impl AppError {
    /// The message carried by the error.
    pub open spec fn message_view(&self) -> Seq<char> {
        match self {
            AppError::InternalServerError(m) => m@,
            AppError::BadRequest(m) => m@,
            AppError::AuthenticationError(m) => m@,
            AppError::UploadError(m) => m@,
            AppError::NotFound(m) => m@,
        }
    }

    pub fn message(&self) -> (r: &String)
        ensures
            r@ == self.message_view(),
    {
        match self {
            AppError::InternalServerError(m) => m,
            AppError::BadRequest(m) => m,
            AppError::AuthenticationError(m) => m,
            AppError::UploadError(m) => m,
            AppError::NotFound(m) => m,
        }
    }
}

/// How a call to the external text-generation provider failed. Only
/// `RateLimited` is ever retried; `AuthFailure` is fatal; `Unavailable` and
/// `Other` surface after status inspection; `MalformedResponse` marks a
/// reply whose completion text could not be extracted.
#[derive(Debug)]
pub enum ProviderError {
    RateLimited,
    AuthFailure,
    Unavailable,
    MalformedResponse,
    Other(String),
}

} // verus!
