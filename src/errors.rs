//! The failures that reading and writing the log can report.
use vstd::prelude::*;

verus! {

#[derive(Clone, Copy, Debug, PartialEq, Eq, Structural)]
pub enum Errors {
    /// The record at this offset declares an empty key or value, or its header
    /// is cut short by the end of the medium: no more valid records follow.
    ReadDataFileEOF,
    /// The stored checksum does not match the one computed over the record.
    InvalidLogRecordCRC,
    /// The status byte is neither Normal nor Deleted.
    InvalidLogRecordStatus,
    /// A length field is not a minimal LEB128 integer of at most five bytes
    /// that fits in 32 bits.
    InvalidLogRecordLength,
    /// A read reaches past the end of the medium.
    OutOfBounds,
    /// The storage backend does not offer this operation.
    Unsupported,
    /// The storage medium reported a failure of its own.
    IoFailure,
}

} // verus!
