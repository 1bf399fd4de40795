//! The ways in which reading or writing a document can fail.

use vstd::prelude::*;

verus! {

/// Why an operation was abandoned. Every failure aborts the whole call and
/// reaches the caller unchanged.
#[derive(Clone, Copy, Debug, PartialEq, Eq, Structural)]
pub enum Error {
    /// The input ended inside an element, or before any root element.
    UnexpectedEof,
    /// A child element names no field of the struct that is being read,
    /// and the reader is strict.
    UnknownField,
    /// A field that is not optional has no element in the input.
    MissingField,
    /// An element's tag is not the name of any variant of the expected enum.
    UnknownVariant,
    /// The content found does not have the form that the expected shape asks
    /// for: text that is no number where a number is expected, text where
    /// elements are expected, or the reverse.
    TypeMismatch,
    /// The text is not a document of the supported XML subset, or a tag was
    /// closed that had not been opened.
    MalformedXml,
}

impl Error {
    /// A short description of the failure.
    pub fn message(&self) -> (r: &'static str)
        ensures
            r@ == error_text(*self),
    {
        match self {
            Error::UnexpectedEof => "unexpected end of input",
            Error::UnknownField => "unknown field",
            Error::MissingField => "missing field",
            Error::UnknownVariant => "unknown variant",
            Error::TypeMismatch => "type mismatch",
            Error::MalformedXml => "malformed XML",
        }
    }
}

/// The description that [`Error::message`] gives of each failure.
pub open spec fn error_text(e: Error) -> Seq<char> {
    match e {
        Error::UnexpectedEof => "unexpected end of input"@,
        Error::UnknownField => "unknown field"@,
        Error::MissingField => "missing field"@,
        Error::UnknownVariant => "unknown variant"@,
        Error::TypeMismatch => "type mismatch"@,
        Error::MalformedXml => "malformed XML"@,
    }
}

} // verus!
