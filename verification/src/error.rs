//! What can go wrong.

use vstd::prelude::*;

verus! {

/// A filter that needs a first sample was handed an empty history.
#[derive(Debug, Clone, Copy, PartialEq, Eq, Structural)]
pub struct EmptyInputError;

/// The document does not have the shape of a history.
#[derive(Debug, Clone, Copy, PartialEq, Eq, Structural)]
pub enum DecodeError {
    /// A field that every record must have is not there.
    MissingField,
    /// A field holds a value of the wrong sort, or a number out of range.
    WrongShape,
}

/// A field is there but cannot be read.
#[derive(Debug, Clone, Copy, PartialEq, Eq, Structural)]
pub enum FieldParseError {
    /// The timestamp is not an RFC 3339 text.
    Timestamp,
    /// A coordinate is not an integer.
    Coordinate,
}

/// Why ingestion stopped. Every such failure is final; nothing is retried.
#[derive(Debug, Clone, Copy, PartialEq, Eq, Structural)]
pub enum IngestError {
    /// The document does not have the shape of a history.
    Decode(DecodeError),
    /// A field is there but cannot be read.
    FieldParse(FieldParseError),
}

impl EmptyInputError {
    /// The error in words.
    pub fn message(&self) -> (r: String)
        ensures
            r@ == "the history holds no samples"@,
    {
        "the history holds no samples".to_owned()
    }
}

impl IngestError {
    /// The text that says what went wrong.
    pub open spec fn message_text(self) -> Seq<char> {
        match self {
            IngestError::Decode(DecodeError::MissingField) => "a required field is missing"@,
            IngestError::Decode(DecodeError::WrongShape) => "a field has the wrong shape"@,
            IngestError::FieldParse(FieldParseError::Timestamp) => "a timestamp is not RFC 3339"@,
            IngestError::FieldParse(FieldParseError::Coordinate) => "a coordinate is not an integer"@,
        }
    }

    /// The error in words.
    pub fn message(&self) -> (r: String)
        ensures
            r@ == self.message_text(),
    {
        match self {
            IngestError::Decode(DecodeError::MissingField) => "a required field is missing".to_owned(),
            IngestError::Decode(DecodeError::WrongShape) => "a field has the wrong shape".to_owned(),
            IngestError::FieldParse(FieldParseError::Timestamp) => "a timestamp is not RFC 3339".to_owned(),
            IngestError::FieldParse(FieldParseError::Coordinate) => "a coordinate is not an integer".to_owned(),
        }
    }
}

} // verus!
