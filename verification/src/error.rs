//! Failures of the SBON codec.

use vstd::prelude::*;

verus! {

/// Why a read from a byte source failed.
#[derive(Debug, Clone, Copy, PartialEq, Eq, Structural)]
pub enum IoError {
    /// The source ended before the requested bytes were available.
    UnexpectedEof,
}

/// Everything that can go wrong while decoding SBON.
#[derive(Debug, Clone, Copy, PartialEq, Eq, Structural)]
pub enum SbonError {
    /// The byte source failed.
    Io(IoError),
    /// A dynamic value started with a tag byte outside `1..=7`; the byte is carried along.
    DynamicTypeError(u8),
    /// A string's bytes are not valid UTF-8.
    Utf8,
    /// An unsigned variable-length integer ran past its ten-byte bound.
    OversizedVLQ,
    /// A declared byte length does not fit the host's `usize`.
    InvalidStringSize,
}

impl SbonError {
    /// A one-line description of the failure.
    pub fn message(&self) -> (s: String)
        ensures
            s@ == self.message_text(),
    {
        match self {
            SbonError::Io(_) => "IO error while reading/writing SBON".to_owned(),
            SbonError::DynamicTypeError(_) => {
                "Invalid dynamic type byte. Expected 1..=7".to_owned()
            },
            SbonError::Utf8 => "Invalid UTF-8 string encountered while reading SBON".to_owned(),
            SbonError::OversizedVLQ => {
                "Max bytes read for VLQU is 10, while the VLQU wants to read over 10.".to_owned()
            },
            SbonError::InvalidStringSize => "Invalid string size".to_owned(),
        }
    }

    /// The text that [`SbonError::message`] returns.
    pub open spec fn message_text(&self) -> Seq<char> {
        match self {
            SbonError::Io(_) => "IO error while reading/writing SBON"@,
            SbonError::DynamicTypeError(_) => "Invalid dynamic type byte. Expected 1..=7"@,
            SbonError::Utf8 => "Invalid UTF-8 string encountered while reading SBON"@,
            SbonError::OversizedVLQ => {
                "Max bytes read for VLQU is 10, while the VLQU wants to read over 10."@
            },
            SbonError::InvalidStringSize => "Invalid string size"@,
        }
    }
}

} // verus!
