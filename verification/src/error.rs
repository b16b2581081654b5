//! Error values reported by table, codec and adapter operations.

use vstd::prelude::*;

verus! {

/// Errors that can occur during JMap operations.
#[derive(Debug, Clone, PartialEq)]
pub enum JMapError {
    /// Invalid field type code encountered during parsing.
    InvalidFieldType(u8),
    /// Field not found in the container.
    FieldNotFound(String),
    /// Field already exists in the container.
    FieldAlreadyExists(String),
    /// Type mismatch between a value's variant and a field's declared type.
    TypeMismatch { expected: &'static str, got: &'static str },
    /// Entry index out of bounds.
    EntryIndexOutOfBounds { index: usize, len: usize },
    /// Buffer too small to contain valid BCSV data.
    BufferTooSmall { expected: usize, got: usize },
    /// Structurally nonsensical BCSV header.
    InvalidHeader,
    /// Text encoding or decoding failure.
    EncodingError(String),
    /// Delimited-text interchange failure.
    CsvError(String),
    /// Underlying input/output failure.
    IoError(String),
    /// Lookup name-list source not found.
    LookupFileNotFound(String),
    /// Malformed interchange column descriptor.
    InvalidCsvFieldDescriptor(String),
}

} // verus!
