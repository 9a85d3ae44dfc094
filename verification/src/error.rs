//! The ways in which decoding an index can fail.

use vstd::prelude::*;

verus! {

/// Why an encoded index was rejected. Every failure is final for the whole
/// decode: no partial index is ever produced.
#[derive(Clone, Copy, Debug, PartialEq, Eq, Structural)]
pub enum IndexError {
    /// The outer text is not valid base64.
    InvalidInputEncoding,
    /// The magic prefix is wrong or too short, or the page-name table does
    /// not open with its marker byte.
    InvalidFormat,
    /// The declared payload length exceeds the bytes that follow it, or the
    /// page-name table runs to the end of the payload without its terminator.
    UnexpectedEnd,
    /// The compressed payload is not a valid gzip stream.
    DecompressionFailure,
    /// A page name or a word is not valid UTF-8.
    InvalidEncoding,
}

impl IndexError {
    /// A short human-readable description of the failure.
    pub fn message(&self) -> (text: &'static str)
        ensures
            text@ == match *self {
                IndexError::InvalidInputEncoding => "input is not valid base64"@,
                IndexError::InvalidFormat => "invalid index format"@,
                IndexError::UnexpectedEnd => "unexpected end of data"@,
                IndexError::DecompressionFailure => "payload could not be decompressed"@,
                IndexError::InvalidEncoding => "text is not valid UTF-8"@,
            },
    {
        match self {
            IndexError::InvalidInputEncoding => "input is not valid base64",
            IndexError::InvalidFormat => "invalid index format",
            IndexError::UnexpectedEnd => "unexpected end of data",
            IndexError::DecompressionFailure => "payload could not be decompressed",
            IndexError::InvalidEncoding => "text is not valid UTF-8",
        }
    }
}

} // verus!
