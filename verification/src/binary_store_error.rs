//! The failure taxonomy shared by both storage engines.

use vstd::prelude::*;

verus! {

/// Everything a store operation can report.
#[derive(Debug, Clone, Copy, PartialEq, Eq, Structural)]
pub enum BinaryStoreError {
    /// A truncated or unreadable byte stream: a record cut off mid-way, or
    /// a position that reaches past the end of a data image.
    IoError,
    /// Bytes that are present but do not decode as a record.
    SerializationError,
    /// An id/position pair whose encoding exceeds the fixed index slot.
    IndexRecordTooLarge,
}

} // verus!
