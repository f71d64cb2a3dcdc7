//! The errors that queries and start-up report.
use vstd::prelude::*;

verus! {

/// Errors reported to the user for a single query; none of them ends the process.
#[derive(Debug, PartialEq, Eq)]
pub enum QueryError {
    /// The statement text could not be parsed.
    ParseError(String),
    /// The underlying file system failed; carries its message.
    IOError(String),
    /// No table or column of that name.
    NotFound(String),
    /// A table of that name already exists.
    Conflict(String),
    /// Type mismatch, arity mismatch, division by zero, unresolved identifier,
    /// oversized record or corrupt page data.
    ValidationError(String),
}

/// Start-up failures, fatal to the process.
#[derive(Debug, PartialEq, Eq)]
pub enum SystemError {
    IOError(String),
}

impl QueryError {
    /// The message or name carried by the error.
    pub open spec fn text(self) -> Seq<char> {
        match self {
            QueryError::ParseError(s) => s@,
            QueryError::IOError(s) => s@,
            QueryError::NotFound(s) => s@,
            QueryError::Conflict(s) => s@,
            QueryError::ValidationError(s) => s@,
        }
    }
}

/// Builds a validation error carrying `msg`.
pub fn validation_error(msg: &str) -> (r: QueryError)
    ensures
        r is ValidationError,
        r.text() == msg@,
{
    QueryError::ValidationError(msg.to_owned())
}

} // verus!
