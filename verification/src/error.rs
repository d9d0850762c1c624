//! Error type of the database.

use vstd::prelude::*;
use vstd::string::*;

verus! {

#[verifier::external_type_specification]
#[verifier::external_body]
pub struct ExIoError(std::io::Error);

/// Errors reported by Spatio.
#[derive(Debug)]
pub enum SpatioError {
    /// Database is closed
    DatabaseClosed,
    /// Lock acquisition failed
    LockError,
    /// Invalid geohash
    InvalidGeohash,
    /// Serialization/deserialization error
    SerializationError,
    /// Serialization error with context
    SerializationErrorWithContext(String),
    /// Rewrite operation is already in progress
    RewriteInProgress,
    /// Invalid timestamp value
    InvalidTimestamp,
    /// Unexpected end of file during deserialization
    UnexpectedEof,
    /// Invalid data format
    InvalidFormat,
    /// I/O error from persistence layer
    Io(std::io::Error),
    /// Generic error with message
    Other(String),
}

/// `std::io::Error`'s `Display`: the text of an I/O error. What it says
/// depends on the error's kind and, for errors from the operating system,
/// on the system; nothing is stated of it.
#[verifier::external_body]
fn io_error_text(e: &std::io::Error) -> String {
    e.to_string()
}

impl SpatioError {
    /// The message shown for the error.
    pub open spec fn message_spec(&self) -> Option<Seq<char>> {
        match self {
            SpatioError::DatabaseClosed => Some("Database is closed"@),
            SpatioError::LockError => Some("Failed to acquire lock"@),
            SpatioError::InvalidGeohash => Some("Invalid geohash"@),
            SpatioError::SerializationError => Some("Serialization error"@),
            SpatioError::SerializationErrorWithContext(context) => Some("Serialization error: "@ + context@),
            SpatioError::RewriteInProgress => Some("Rewrite operation is already in progress"@),
            SpatioError::InvalidTimestamp => Some("Invalid timestamp value"@),
            SpatioError::UnexpectedEof => Some("Unexpected end of file"@),
            SpatioError::InvalidFormat => Some("Invalid data format"@),
            SpatioError::Io(_) => None,
            SpatioError::Other(msg) => Some(msg@),
        }
    }

    /// The message shown for the error. For an I/O error it is `I/O error: `
    /// followed by the I/O error's own text.
    pub fn message(&self) -> (m: String)
        ensures
            match self.message_spec() {
                Some(text) => m@ == text,
                None => m@.len() >= "I/O error: "@.len() && m@.subrange(0, "I/O error: "@.len() as int) == "I/O error: "@,
            },
    {
        match self {
            SpatioError::DatabaseClosed => String::from_str("Database is closed"),
            SpatioError::LockError => String::from_str("Failed to acquire lock"),
            SpatioError::InvalidGeohash => String::from_str("Invalid geohash"),
            SpatioError::SerializationError => String::from_str("Serialization error"),
            SpatioError::SerializationErrorWithContext(context) => {
                let mut m = String::from_str("Serialization error: ");
                m.append(context.as_str());
                m
            },
            SpatioError::RewriteInProgress => String::from_str("Rewrite operation is already in progress"),
            SpatioError::InvalidTimestamp => String::from_str("Invalid timestamp value"),
            SpatioError::UnexpectedEof => String::from_str("Unexpected end of file"),
            SpatioError::InvalidFormat => String::from_str("Invalid data format"),
            SpatioError::Io(err) => {
                let mut m = String::from_str("I/O error: ");
                let text = io_error_text(err);
                m.append(text.as_str());
                assert(m@.subrange(0, "I/O error: "@.len() as int) =~= "I/O error: "@);
                m
            },
            SpatioError::Other(msg) => msg.clone(),
        }
    }
}

impl From<std::io::Error> for SpatioError {
    fn from(err: std::io::Error) -> (e: Self) {
        SpatioError::Io(err)
    }
}

impl vstd::std_specs::convert::FromSpecImpl<std::io::Error> for SpatioError {
    open spec fn obeys_from_spec() -> bool {
        true
    }

    open spec fn from_spec(err: std::io::Error) -> SpatioError {
        SpatioError::Io(err)
    }
}

/// Result type alias for Spatio operations
pub type Result<T> = core::result::Result<T, SpatioError>;

/// `std::io::Error::from(std::io::ErrorKind::UnexpectedEof)`: the error that a
/// read of a fixed number of bytes reports when the input ends first.
#[verifier::external_body]
pub(crate) fn unexpected_eof_io_error() -> std::io::Error {
    std::io::Error::from(std::io::ErrorKind::UnexpectedEof)
}

} // verus!
