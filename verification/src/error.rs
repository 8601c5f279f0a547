//! The errors of reading and of writing PLY data.

use vstd::prelude::*;

verus! {

/// The two ways in which reading can fail: the data is wrong, or it ends too soon.
#[derive(Clone, Copy, Debug, PartialEq, Eq, Structural)]
pub enum ErrorKind {
    InvalidData,
    UnexpectedEof,
}

/// Why reading failed.
#[derive(Clone, Copy, Debug, PartialEq, Eq, Structural)]
pub enum DeserializeCause {
    /// The data ended before what was being read was complete.
    UnexpectedEof,
    /// The first line is not `ply`.
    NotPly,
    /// A header line is not UTF-8.
    InvalidUtf8,
    /// A `format` line has fewer than three words.
    InvalidFormatLine,
    /// A `format` line names no known format.
    UnknownFormat,
    /// An `element` line has fewer than three words.
    InvalidElementLine,
    /// The count of an `element` line is not a `usize`.
    InvalidElementCount,
    /// A `property` line comes before any `element` line.
    PropertyWithoutElement,
    /// A `property` line has fewer than three words.
    InvalidPropertyLine,
    /// A `property list` line has fewer than five words.
    InvalidListPropertyLine,
    /// A property names no known scalar type.
    UnknownScalarType,
    /// The header has no `format` line.
    MissingFormat,
    /// An ASCII value is not a number of its type.
    InvalidNumber,
    /// All elements have been read already.
    OutOfElements,
    /// A list is declared with a floating-point count type.
    FloatListCount,
    /// Rows were asked for before the header could be read.
    HeaderNotReady,
}

/// An error while reading PLY data.
#[derive(Clone, Copy, Debug, PartialEq, Eq, Structural)]
pub struct DeserializeError(pub DeserializeCause);

impl DeserializeError {
    pub open spec fn spec_kind(self) -> ErrorKind {
        match self.0 {
            DeserializeCause::UnexpectedEof => ErrorKind::UnexpectedEof,
            _ => ErrorKind::InvalidData,
        }
    }

    /// Whether the data ended too soon, or was wrong.
    pub fn kind(&self) -> (r: ErrorKind)
        ensures
            r == self.spec_kind(),
    {
        match self.0 {
            DeserializeCause::UnexpectedEof => ErrorKind::UnexpectedEof,
            _ => ErrorKind::InvalidData,
        }
    }
}

/// Why writing failed.
#[derive(Clone, Copy, Debug, PartialEq, Eq, Structural)]
pub enum SerializeCause {
    /// A list is longer than its count type can count.
    ListTooLong,
    /// An element was given more rows than it announced.
    TooManyRows,
    /// An element was given fewer rows than it announced.
    RowCountMismatch,
    /// A list is declared with a floating-point count type.
    FloatListCount,
    /// A list of `double` values cannot be declared in the header.
    UnsupportedType,
    /// Binary data cannot be a string.
    NotAscii,
}

/// An error while writing PLY data.
#[derive(Clone, Copy, Debug, PartialEq, Eq, Structural)]
pub struct SerializeError(pub SerializeCause);

} // verus!
