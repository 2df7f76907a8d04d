//! The ways in which an operation of the store can fail.
use vstd::prelude::*;

verus! {

/// A failure of the store, told apart by its cause.
#[derive(Debug, Clone, Copy, PartialEq, Eq, Structural)]
pub enum EngineError {
    /// The index holds no location for the key.
    KeyNotFound,
    /// Fewer bytes are there than the record's header declares.
    TruncatedRecord,
    /// The stored checksum differs from the digest of the record's fields.
    ChecksumMismatch,
    /// Opening, seeking, reading or writing the log file failed.
    IoFailure,
}

} // verus!
