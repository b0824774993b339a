//! The error taxonomy shared by every layer of the library.

use vstd::prelude::*;

use crate::header::Compression;

verus! {

/// Errors that can occur while reading or writing PMTiles archives.
///
/// Format errors are fatal to the archive; I/O-shaped errors may be
/// transient. Backend-specific transport errors live with the backends,
/// outside this library, and are converted by callers.
#[derive(Debug, Clone, Copy, PartialEq, Eq, Structural)]
pub enum PmtError {
    /// Invalid magic number in the PMTiles file header.
    InvalidMagicNumber,
    /// The magic number names a PMTiles version this library does not read.
    UnsupportedPmTilesVersion,
    /// Invalid compression type code.
    InvalidCompression,
    /// Compression type is known but not supported by this library.
    UnsupportedCompression(Compression),
    /// A directory entry is invalid, or a directory byte stream is malformed.
    InvalidEntry,
    /// The header is invalid.
    InvalidHeader,
    /// The metadata is invalid.
    InvalidMetadata,
    /// Metadata is not valid UTF-8.
    InvalidMetadataUtf8,
    /// The tile type code is invalid.
    InvalidTileType,
    /// A length did not fit the `u32` of a directory index entry.
    IndexEntryOverflow,
    /// An I/O error occurred while reading.
    Reading,
    /// Fewer or more bytes than requested came back from a read
    /// (expected, received).
    UnexpectedNumberOfBytesReturned(usize, usize),
    /// The tile coordinate is invalid (z, x, y).
    InvalidCoordinate(u8, u32, u32),
    /// The tile id is invalid.
    InvalidTileId(u64),
    /// A `u64` offset or length did not fit the machine's `usize`.
    IoRangeOverflow,
    /// An error occurred within a directory cache.
    DirectoryCacheError,
}

/// A specialized `Result` type for PMTiles operations.
pub type PmtResult<T> = Result<T, PmtError>;

} // verus!
