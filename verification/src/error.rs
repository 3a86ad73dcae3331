use vstd::prelude::*;
use vstd::std_specs::convert::FromSpecImpl;

verus! {

/// The four kinds of failure that an operation can report.
#[derive(Debug, Clone, Copy, PartialEq, Eq, Structural)]
pub enum ErrorKind {
    DatabaseError,
    NotFound,
    ValidationError,
    InvalidInput,
}

/// A failure: its kind, and a message for a human reader.
#[derive(Debug)]
pub enum AppError {
    DatabaseError(String),
    NotFound(String),
    ValidationError(String),
    InvalidInput(String),
}

/// The mathematical value of an [`AppError`].
pub struct ErrorView {
    pub kind: ErrorKind,
    pub message: Seq<char>,
}

impl View for AppError {
    type V = ErrorView;

    open spec fn view(&self) -> ErrorView {
        match self {
            AppError::DatabaseError(m) => ErrorView { kind: ErrorKind::DatabaseError, message: m@ },
            AppError::NotFound(m) => ErrorView { kind: ErrorKind::NotFound, message: m@ },
            AppError::ValidationError(m) => ErrorView {
                kind: ErrorKind::ValidationError,
                message: m@,
            },
            AppError::InvalidInput(m) => ErrorView { kind: ErrorKind::InvalidInput, message: m@ },
        }
    }
}

/// The message of the failure reported when an expected row is absent.
pub open spec fn record_not_found() -> Seq<char> {
    "Record not found"@
}

/// The failure that a storage error stands for: an absent row is "not
/// found", anything else a database error with the storage layer's own text.
pub open spec fn storage_failure(row_missing: bool, text: Seq<char>) -> ErrorView {
    if row_missing {
        ErrorView { kind: ErrorKind::NotFound, message: record_not_found() }
    } else {
        ErrorView { kind: ErrorKind::DatabaseError, message: text }
    }
}

/// `sqlx::Error`, the storage layer's own error, as a value that is carried
/// through without a look inside.
#[verifier::external_type_specification]
#[verifier::external_body]
pub struct ExSqlxError(sqlx::Error);

/// Whether a storage error is `sqlx::Error::RowNotFound`: a query that
/// expected a row found none.
pub uninterp spec fn row_missing(err: sqlx::Error) -> bool;

/// Tells `sqlx::Error::RowNotFound` from the other variants of
/// `sqlx::Error`. The contract only gives the answer a name.
#[verifier::external_body]
fn is_row_not_found(err: &sqlx::Error) -> (missing: bool)
    ensures
        missing == row_missing(*err),
{
    matches!(err, sqlx::Error::RowNotFound)
}

/// `sqlx::Error`'s `Display` output, through `to_string`. Nothing is claimed
/// of the text: for some errors it is what a driver or the operating system
/// prints.
#[verifier::external_body]
fn storage_error_text(err: &sqlx::Error) -> (text: String) {
    err.to_string()
}

impl AppError {
    /// Which of the four kinds this failure is.
    pub fn kind(&self) -> (k: ErrorKind)
        ensures
            k == self@.kind,
    {
        match self {
            AppError::DatabaseError(_) => ErrorKind::DatabaseError,
            AppError::NotFound(_) => ErrorKind::NotFound,
            AppError::ValidationError(_) => ErrorKind::ValidationError,
            AppError::InvalidInput(_) => ErrorKind::InvalidInput,
        }
    }

    /// The message for a human reader.
    pub fn message(&self) -> (m: &str)
        ensures
            m@ == self@.message,
    {
        match self {
            AppError::DatabaseError(m) => m.as_str(),
            AppError::NotFound(m) => m.as_str(),
            AppError::ValidationError(m) => m.as_str(),
            AppError::InvalidInput(m) => m.as_str(),
        }
    }

    /// The failure that a storage error stands for, given whether it reported
    /// an absent row and the text it printed.
    pub fn from_storage(row_missing: bool, text: String) -> (e: AppError)
        ensures
            e@ == storage_failure(row_missing, text@),
    {
        if row_missing {
            AppError::NotFound("Record not found".to_string())
        } else {
            AppError::DatabaseError(text)
        }
    }
}

impl From<sqlx::Error> for AppError {
    /// An absent row becomes "not found"; every other storage error becomes a
    /// database error that carries the storage layer's text.
    fn from(err: sqlx::Error) -> (e: AppError)
        ensures
            row_missing(err) ==> e@ == (
                ErrorView { kind: ErrorKind::NotFound, message: record_not_found() }
            ),
            !row_missing(err) ==> e@.kind == ErrorKind::DatabaseError,
    {
        let missing = is_row_not_found(&err);
        let text = if missing {
            String::new()
        } else {
            storage_error_text(&err)
        };
        AppError::from_storage(missing, text)
    }
}

impl FromSpecImpl<sqlx::Error> for AppError {
    open spec fn obeys_from_spec() -> bool {
        false
    }

    open spec fn from_spec(err: sqlx::Error) -> AppError {
        arbitrary()
    }
}

impl From<String> for AppError {
    fn from(message: String) -> (e: AppError) {
        AppError::InvalidInput(message)
    }
}

impl FromSpecImpl<String> for AppError {
    open spec fn obeys_from_spec() -> bool {
        true
    }

    open spec fn from_spec(message: String) -> AppError {
        AppError::InvalidInput(message)
    }
}

impl From<&str> for AppError {
    fn from(message: &str) -> (e: AppError)
        ensures
            e@ == (ErrorView { kind: ErrorKind::InvalidInput, message: message@ }),
    {
        AppError::InvalidInput(message.to_string())
    }
}

impl FromSpecImpl<&str> for AppError {
    open spec fn obeys_from_spec() -> bool {
        false
    }

    open spec fn from_spec(message: &str) -> AppError {
        arbitrary()
    }
}

} // verus!
