//! The closed set of failures the store can report: malformed record data,
//! failures of the underlying file, and keys or values whose byte length
//! does not fit the 32-bit size fields of the record header.

use vstd::prelude::*;

verus! {

/// Declares `std::io::Error` so that `Error` can carry the underlying
/// system error of a failed file operation. The type is opaque here; the
/// verified code never inspects it, it only passes it through.
#[verifier::external_type_specification]
#[verifier::external_body]
pub struct ExIoError(std::io::Error);

/// Everything that can go wrong in the store.
#[derive(Debug)]
pub enum Error {
    /// A buffer did not hold a well-formed record: wrong length, or key or
    /// value bytes that are not valid UTF-8. Carries a human-readable
    /// diagnostic of what was expected versus observed.
    DecodeError(String),
    /// An operation on the underlying file failed, or the log ended in the
    /// middle of a record; wraps the system error.
    IoError(std::io::Error),
    /// The key's byte length does not fit in an unsigned 32-bit size field.
    KeyTooLong,
    /// The value's byte length does not fit in an unsigned 32-bit size field.
    ValueTooLong,
}

impl From<std::io::Error> for Error {
    fn from(err: std::io::Error) -> (r: Self) {
        Error::IoError(err)
    }
}

impl vstd::std_specs::convert::FromSpecImpl<std::io::Error> for Error {
    open spec fn obeys_from_spec() -> bool {
        true
    }

    open spec fn from_spec(err: std::io::Error) -> Self {
        Error::IoError(err)
    }
}

/// Builds the diagnostic for a buffer whose length differs from what the
/// decoder expected. Relies on `format!` to render the text; the message
/// contents carry no verified meaning.
#[verifier::external_body]
pub(crate) fn size_msg(what: &str, got: u64, expected: u64) -> String {
    format!("wrong {} buffer size: got {} bytes, expected {} bytes", what, got, expected)
}

/// Relies on `std::io::Error::new`: an end-of-file error of kind
/// `UnexpectedEof` carrying the given message, the kind a read off the end
/// of a truncated log reports.
#[verifier::external_body]
pub(crate) fn unexpected_eof(msg: &str) -> std::io::Error {
    std::io::Error::new(std::io::ErrorKind::UnexpectedEof, msg.to_owned())
}

} // verus!
