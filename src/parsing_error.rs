use vstd::prelude::*;

verus! {

/// The ways in which decoding a database file or a statement can fail.
#[derive(Clone, Copy, Debug, PartialEq, Eq, Structural)]
pub enum ParsingError {
    /// A fixed-width field or a slice runs past the end of its buffer.
    SliceConversionError,
    /// The file does not start with the SQLite magic string.
    InvalidHeaderString,
    /// A page type byte is not one of the four B-tree page kinds, a page of
    /// the wrong kind is reached, or a B-tree is deeper than a traversal follows.
    InvalidPageType,
    /// A variable-length integer, a serial type or an index row-id is malformed.
    InvalidVarint,
    /// A statement or a schema definition could not be understood.
    InvalidStatement,
    /// A floating-point column value, which this library does not render as text.
    UnsupportedValue,
}

impl ParsingError {
    /// A one-line description of the error.
    pub fn message(&self) -> (r: &'static str) {
        match self {
            ParsingError::SliceConversionError => "Slice Error: unexpected end of buffer",
            ParsingError::InvalidHeaderString => "Invalid header string for sqlite file",
            ParsingError::InvalidPageType => "Invalid page type",
            ParsingError::InvalidVarint => "Error while parsing a varint",
            ParsingError::InvalidStatement => "Invalid statement",
            ParsingError::UnsupportedValue => "Floating-point values are not supported",
        }
    }
}

} // verus!
