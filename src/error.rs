//! Errors reported while scanning rows and decoding columns.

use vstd::prelude::*;

verus! {

/// The I/O error type of the standard library, carried by `Error::Io`.
#[verifier::external_type_specification]
#[verifier::external_body]
pub struct ExIoError(std::io::Error);

/// An error produced by an operation on CSV data.
#[derive(Debug)]
pub enum Error {
    /// A field's text could not be converted to the requested type.
    Decode(String),
    /// The byte source failed; no further rows are read.
    Io(std::io::Error),
    /// The row's bytes are not valid UTF-8 (reported only when text columns are asked for).
    InvalidEncoding,
    /// A field was asked for after the last one of the row.
    UnexpectedEndOfRow,
    /// A quote inside a quoted field is followed by a byte other than a quote,
    /// the delimiter or a line terminator.
    UnescapedQuote,
    /// A quote appears in a field that does not start with one.
    UnexpectedQuote,
    /// The row has another field count than the first row: `(expected, found)`.
    ColumnMismatch(usize, usize),
}

/// Result type of this crate.
pub type Result<T> = core::result::Result<T, Error>;

impl Error {
    /// A short description of the kind of error.
    pub fn description(&self) -> &'static str {
        match self {
            Error::Decode(_) => "CSV decoding error",
            Error::Io(_) => "CSV IO error",
            Error::InvalidEncoding => "stream did not contain valid UTF-8",
            Error::UnexpectedEndOfRow => "Trying to access column but found End Of Line",
            Error::UnescapedQuote => "A CSV column has an unescaped quote",
            Error::UnexpectedQuote => "A CSV column has a quote but the entire column value is not quoted",
            Error::ColumnMismatch(..) => "Current column count mismatch with previous rows",
        }
    }
}

} // verus!
