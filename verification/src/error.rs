//! Error taxonomy: storage-level errors and the parser's user errors.

use vstd::prelude::*;
use vstd::string::StringExecFns;

verus! {

/// An error raised by a table operation.
#[derive(Debug, Clone, Copy, PartialEq, Eq, Structural)]
pub enum DatabaseError {
    TableExists,
    DataConflict,
    TableDoesNotExist,
    NoDataFound,
}

impl DatabaseError {
    /// A human-readable description of the error.
    pub fn message(&self) -> (s: String)
        ensures
            s@ == match self {
                DatabaseError::TableExists => "Table Already Exists"@,
                DatabaseError::DataConflict => "Data Conflict"@,
                DatabaseError::TableDoesNotExist => "Table Does Not Exist"@,
                DatabaseError::NoDataFound => "No Data Found"@,
            },
    {
        match self {
            DatabaseError::TableExists => String::from_str("Table Already Exists"),
            DatabaseError::DataConflict => String::from_str("Data Conflict"),
            DatabaseError::TableDoesNotExist => String::from_str("Table Does Not Exist"),
            DatabaseError::NoDataFound => String::from_str("No Data Found"),
        }
    }
}

/// An error raised while interpreting a command: either no statement
/// pattern matched, or a specific condition named by its text.
#[derive(Debug, Clone, Copy, PartialEq, Eq)]
pub enum UserError {
    SyntaxError,
    Other(&'static str),
}

impl UserError {
    /// A human-readable description of the error.
    pub fn message(&self) -> (s: String)
        ensures
            s@ == match self {
                UserError::SyntaxError => "SyntaxError"@,
                UserError::Other(m) => m@,
            },
    {
        match self {
            UserError::SyntaxError => String::from_str("SyntaxError"),
            UserError::Other(m) => String::from_str(m),
        }
    }
}

/// The error type of the plain parsing entry point.
#[derive(Debug, Clone, Copy, PartialEq, Eq, Structural)]
pub enum ParseError {
    SyntaxError,
}

impl ParseError {
    /// A human-readable description of the error.
    pub fn message(&self) -> (s: String)
        ensures
            s@ == "SyntaxError"@,
    {
        String::from_str("SyntaxError")
    }
}

} // verus!
