//! The ways in which reading, writing or editing a property list can fail.
use vstd::prelude::*;

verus! {

#[derive(Debug, Clone, Copy, PartialEq, Eq, Structural)]
pub enum Error {
    /// The buffer does not start with the eight bytes `bplist00`.
    InvalidHeader,
    /// The buffer is shorter than a trailer, or a width in the trailer is
    /// not 1, 2, 4 or 8.
    MalformedTrailer,
    /// An object index, an offset or a length points outside the offset
    /// table or the buffer.
    OutOfRange,
    /// An object's type tag is not one the format defines.
    UnsupportedTag,
    /// The low half of a marker byte is not allowed for its type.
    MalformedObject,
    /// A wide string is not valid UTF-16.
    TextDecode,
    /// A date is no instant: its double is not a number, is infinite, or
    /// lies outside the range of timestamps; or its text names an instant
    /// that chrono does not have.
    InvalidDate,
    /// A dictionary key is not a string, or an operation for dictionaries
    /// met another kind of value.
    StructuralMismatch,
    /// The value holds a negative integer, which the binary form cannot store.
    UnsupportedValue,
    /// Objects refer to each other in a circle.
    CyclicReference,
    /// The markup form is not as it must be: a tag is missing or out of
    /// place, or the text of an integer or a date is not one.
    InvalidMarkup,
    /// The real numbers handed over are not as many as the markup holds.
    RealCount,
}

impl Error {
    /// A short description for people.
    pub fn message(&self) -> (text: &'static str)
        ensures
            text@ == (match *self {
                Error::InvalidHeader => "not a binary property list"@,
                Error::MalformedTrailer => "malformed trailer"@,
                Error::OutOfRange => "reference out of range"@,
                Error::UnsupportedTag => "unsupported object type"@,
                Error::MalformedObject => "malformed object marker"@,
                Error::TextDecode => "invalid UTF-16 text"@,
                Error::InvalidDate => "date out of range"@,
                Error::StructuralMismatch => "not a dictionary"@,
                Error::UnsupportedValue => "negative integers are not supported"@,
                Error::CyclicReference => "cyclic object reference"@,
                Error::InvalidMarkup => "malformed markup"@,
                Error::RealCount => "wrong number of real numbers"@,
            }),
    {
        match self {
            Error::InvalidHeader => "not a binary property list",
            Error::MalformedTrailer => "malformed trailer",
            Error::OutOfRange => "reference out of range",
            Error::UnsupportedTag => "unsupported object type",
            Error::MalformedObject => "malformed object marker",
            Error::TextDecode => "invalid UTF-16 text",
            Error::InvalidDate => "date out of range",
            Error::StructuralMismatch => "not a dictionary",
            Error::UnsupportedValue => "negative integers are not supported",
            Error::CyclicReference => "cyclic object reference",
            Error::InvalidMarkup => "malformed markup",
            Error::RealCount => "wrong number of real numbers",
        }
    }
}

} // verus!
