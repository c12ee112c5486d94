//! The failures that the operations of this library report.

use vstd::prelude::*;

verus! {

/// A variable-length integer that runs past the width of a 32-bit value.
#[derive(Debug, Clone, Copy, PartialEq, Eq, Structural)]
pub enum VarintError {
    /// More than four bytes in a row carried the continuation bit.
    InvalidVarint,
}

/// A schema identifier that cannot be turned into a descriptor.
#[derive(Debug, Clone, Copy, PartialEq, Eq, Structural)]
pub enum ProtobufError {
    /// The catalog holds no entry with this identifier.
    SchemaNotFound(i32),
    /// Compiling the entry gave no file descriptor for the staged file.
    CouldNotFindFileDescriptorForSchema(i32),
    /// What was handed in as the attempts on a payload of this schema is not
    /// one attempt for each message type the schema declares, in their order.
    AttemptsDoNotMatch(i32),
}

/// Every failure a record can meet on its way through the library.
#[derive(Debug, Clone, Copy, PartialEq, Eq, Structural)]
pub enum Error {
    /// The input ended in the middle of a value.
    UnexpectedEof,
    /// The payload does not start with the magic byte of an envelope.
    InvalidEnvelope,
    /// A text field does not hold UTF-8.
    FromUtf8Error,
    /// A numeric field does not hold a decimal 64-bit integer.
    ParseIntError,
    /// A number does not fit the integer type it is needed in.
    TryFromIntError,
    /// The input ended cleanly between two records.
    Eof,
    /// A token or a fixed-length field lacks its closing newline.
    EolNotFound,
    /// A variable-length integer is malformed.
    Varint(VarintError),
    /// No descriptor can be had for a schema.
    Protobuf(ProtobufError),
    /// A decoded message could not be rendered as JSON.
    JsonPrint,
    /// The source failed, or delivered what it was not asked for.
    SourceDeliveryFailed,
}

} // verus!
