//! The API's unified error and the status code and message it is answered with.
use vstd::prelude::*;
use crate::split::SplitError;
use crate::text::string_from;

verus! {

/// What the library needs to know about a failed database call.
#[derive(Debug)]
pub enum DbFailure {
    /// A uniqueness constraint was violated.
    UniqueViolation,
    /// A query that had to return a row returned none.
    RowNotFound,
    /// Any other failure, with its description.
    Other(String),
}

/// Unified error of the API.
#[derive(Debug)]
pub enum AppError {
    BadRequest(String),
    Unauthorized(String),
    Forbidden(String),
    NotFound(String),
    Conflict(String),
    PayloadTooLarge(String),
    Database(DbFailure),
    Internal(String),
}

/// `r` is a bad-request error whose message is `text`.
pub open spec fn is_bad_request<T>(r: Result<T, AppError>, text: Seq<char>) -> bool {
    r matches Err(AppError::BadRequest(m)) && m@ == text
}

/// `r` is a forbidden error whose message is `text`.
pub open spec fn is_forbidden<T>(r: Result<T, AppError>, text: Seq<char>) -> bool {
    r matches Err(AppError::Forbidden(m)) && m@ == text
}

/// `r` is a conflict error whose message is `text`.
pub open spec fn is_conflict<T>(r: Result<T, AppError>, text: Seq<char>) -> bool {
    r matches Err(AppError::Conflict(m)) && m@ == text
}

/// `r` is an unauthorized error whose message is `text`.
pub open spec fn is_unauthorized<T>(r: Result<T, AppError>, text: Seq<char>) -> bool {
    r matches Err(AppError::Unauthorized(m)) && m@ == text
}

/// The message shown for failures that are not the client's fault.
pub open spec fn server_failure_text() -> Seq<char> {
    "error interno del servidor"@
}

impl AppError {
    pub fn bad_request(msg: String) -> (e: Self)
        ensures
            e == AppError::BadRequest(msg),
    {
        AppError::BadRequest(msg)
    }

    pub fn unauthorized(msg: String) -> (e: Self)
        ensures
            e == AppError::Unauthorized(msg),
    {
        AppError::Unauthorized(msg)
    }

    pub fn forbidden(msg: String) -> (e: Self)
        ensures
            e == AppError::Forbidden(msg),
    {
        AppError::Forbidden(msg)
    }

    pub fn not_found(msg: String) -> (e: Self)
        ensures
            e == AppError::NotFound(msg),
    {
        AppError::NotFound(msg)
    }

    pub fn conflict(msg: String) -> (e: Self)
        ensures
            e == AppError::Conflict(msg),
    {
        AppError::Conflict(msg)
    }

    pub fn internal(msg: String) -> (e: Self)
        ensures
            e == AppError::Internal(msg),
    {
        AppError::Internal(msg)
    }

    /// HTTP status code the error is answered with.
    pub open spec fn status(&self) -> u16 {
        match self {
            AppError::BadRequest(_) => 400,
            AppError::Unauthorized(_) => 401,
            AppError::Forbidden(_) => 403,
            AppError::NotFound(_) => 404,
            AppError::Conflict(_) => 409,
            AppError::PayloadTooLarge(_) => 413,
            AppError::Database(DbFailure::UniqueViolation) => 409,
            AppError::Database(DbFailure::RowNotFound) => 404,
            AppError::Database(DbFailure::Other(_)) => 500,
            AppError::Internal(_) => 500,
        }
    }

    /// Message the error is answered with. Failures that are not the
    /// client's fault are answered with a generic message.
    pub open spec fn public_text(&self) -> Seq<char> {
        match self {
            AppError::BadRequest(m) => m@,
            AppError::Unauthorized(m) => m@,
            AppError::Forbidden(m) => m@,
            AppError::NotFound(m) => m@,
            AppError::Conflict(m) => m@,
            AppError::PayloadTooLarge(m) => m@,
            AppError::Database(DbFailure::UniqueViolation) => "ya existe un registro con esos datos"@,
            AppError::Database(DbFailure::RowNotFound) => "no se encontró el recurso"@,
            AppError::Database(DbFailure::Other(_)) => server_failure_text(),
            AppError::Internal(_) => server_failure_text(),
        }
    }

    /// The status code and the message of the response for this error.
    pub fn status_and_message(&self) -> (r: (u16, String))
        ensures
            r.0 == self.status(),
            r.1@ == self.public_text(),
    {
        match self {
            AppError::BadRequest(m) => (400, m.clone()),
            AppError::Unauthorized(m) => (401, m.clone()),
            AppError::Forbidden(m) => (403, m.clone()),
            AppError::NotFound(m) => (404, m.clone()),
            AppError::Conflict(m) => (409, m.clone()),
            AppError::PayloadTooLarge(m) => (413, m.clone()),
            AppError::Database(DbFailure::UniqueViolation) => (
                409,
                string_from("ya existe un registro con esos datos"),
            ),
            AppError::Database(DbFailure::RowNotFound) => (
                404,
                string_from("no se encontró el recurso"),
            ),
            AppError::Database(DbFailure::Other(_)) => (500, string_from("error interno del servidor")),
            AppError::Internal(_) => (500, string_from("error interno del servidor")),
        }
    }
}

/// A refused split is answered as a bad request carrying the split's message.
pub fn split_failure(err: SplitError) -> (e: AppError)
    ensures
        e matches AppError::BadRequest(m) && m@ == err.text(),
{
    AppError::BadRequest(err.message())
}

} // verus!
