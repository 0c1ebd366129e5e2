//! The errors of the entry operations, and what the transport reports for
//! each.

use vstd::prelude::*;
use vstd::string::StringExecFns;

verus! {

/// What the transport reports for the outcome of an operation.
#[derive(Clone, Copy, Debug, PartialEq, Eq, Structural)]
pub enum StatusCode {
    Success,
    Created,
    NoContent,
    NotFound,
    InternalServerError,
}

impl StatusCode {
    /// The numeric status.
    pub open spec fn code(self) -> u16 {
        match self {
            StatusCode::Success => 200,
            StatusCode::Created => 201,
            StatusCode::NoContent => 204,
            StatusCode::NotFound => 404,
            StatusCode::InternalServerError => 500,
        }
    }

    /// The numeric status.
    pub fn as_u16(&self) -> (code: u16)
        ensures
            code == self.code(),
    {
        match self {
            StatusCode::Success => 200,
            StatusCode::Created => 201,
            StatusCode::NoContent => 204,
            StatusCode::NotFound => 404,
            StatusCode::InternalServerError => 500,
        }
    }
}

/// Why an operation failed.
#[derive(Clone, Debug, PartialEq, Eq)]
pub enum AppError {
    /// The backing store could not be reached, or rejected a statement; the
    /// text is the store's own account of it.
    Database(String),
    /// No entry exists under the addressed key.
    KeyNotFound(String),
}

/// The mathematical value of an [`AppError`].
pub enum AppErrorView {
    Database(Seq<char>),
    KeyNotFound(Seq<char>),
}

impl View for AppError {
    type V = AppErrorView;

    open spec fn view(&self) -> AppErrorView {
        match self {
            AppError::Database(reason) => AppErrorView::Database(reason@),
            AppError::KeyNotFound(key) => AppErrorView::KeyNotFound(key@),
        }
    }
}

impl AppErrorView {
    /// The status reported for this error: a missing key is told apart from
    /// every failure of the store.
    pub open spec fn status(self) -> StatusCode {
        match self {
            AppErrorView::Database(_) => StatusCode::InternalServerError,
            AppErrorView::KeyNotFound(_) => StatusCode::NotFound,
        }
    }

    /// The text reported for this error.
    pub open spec fn message(self) -> Seq<char> {
        match self {
            AppErrorView::Database(reason) => "Database error: "@ + reason,
            AppErrorView::KeyNotFound(key) => "Key not found: "@ + key,
        }
    }
}

impl AppError {
    /// The status reported for this error.
    pub fn status_code(&self) -> (status: StatusCode)
        ensures
            status == self@.status(),
    {
        match self {
            AppError::Database(_) => StatusCode::InternalServerError,
            AppError::KeyNotFound(_) => StatusCode::NotFound,
        }
    }

    /// The text reported for this error.
    pub fn message(&self) -> (text: String)
        ensures
            text@ == self@.message(),
    {
        match self {
            AppError::Database(reason) => String::from_str("Database error: ").concat(
                reason.as_str(),
            ),
            AppError::KeyNotFound(key) => String::from_str("Key not found: ").concat(key.as_str()),
        }
    }
}

} // verus!
