//! Error kinds of the storage core.

pub mod context;
pub mod embedding;

use vstd::prelude::*;

verus! {

/// Which configured limit a write would exceed.
#[derive(Clone, Copy, Debug, PartialEq, Eq, Structural)]
pub enum Limit {
    /// `limits.max_vectors`
    MaxVectors,
    /// `limits.max_bytes`
    MaxBytes,
    /// `limits.max_vector_bytes`
    MaxVectorBytes,
}

/// What was found to be corrupt.
#[derive(Clone, Copy, Debug, PartialEq, Eq, Structural)]
pub enum Corruption {
    /// The bytes in a document window do not decode to a document.
    Document,
    /// The entry-pointer table snapshot does not decode, although the data
    /// region already holds documents.
    PointerTable,
    /// The collection metadata snapshot does not decode.
    Metadata,
    /// The collection metadata was written under another schema version.
    SchemaVersion,
    /// The write-ahead log starts with a header of another version.
    WalHeader,
    /// A line of the write-ahead log is not a record.
    WalRecord,
}

/// Errors of the storage core.
#[derive(Clone, Copy, Debug, PartialEq, Eq, Structural)]
pub enum PiramidError {
    /// The underlying file or mapping failed.
    Io,
    /// A value could not be encoded.
    Serialization,
    /// Stored bytes are not what they should be.
    CorruptedData(Corruption),
    /// A document window lies outside the data region.
    OutOfBounds,
    /// A vector's length differs from the collection's dimension.
    DimensionMismatch { expected: usize, actual: usize },
    /// A configured limit would be exceeded.
    LimitsExceeded(Limit),
    /// No document has the given id.
    NotFound,
    /// The collection rejects writes.
    ReadOnlyMode,
    /// The service is shutting down or short of disk space.
    ServiceUnavailable,
    /// A lock could not be taken in time.
    Timeout,
    /// The configuration is invalid.
    ConfigError,
}

} // verus!
