//! Error taxonomy of the archive storage core.

use vstd::prelude::*;

verus! {

/// Every way an archive operation can fail.
///
/// Validation-class operations accumulate anomalies into a `Report`
/// instead of returning these; open/create/read operations fail fast
/// with the specific variant.
#[derive(Debug, Clone)]
pub enum Error {
    /// The location holds no archive header at all.
    NotAnArchive,
    /// The archive header names a format version this code does not read.
    UnsupportedArchiveVersion { version: Vec<u8> },
    /// The archive holds no bands.
    ArchiveEmpty,
    /// The archive holds bands, but none is closed.
    NoCompleteBands,
    /// Creating a band failed; here, allocation of a band id overflowed.
    CreateBand,
    /// The band head names a format version this code does not read.
    UnsupportedBandVersion { band_name: Vec<u8>, version: Vec<u8> },
    /// A string that should name a band does not parse as a band id.
    InvalidBandId { name: Vec<u8> },
    /// A block address names a hash the block store does not hold.
    BlockNotFound { hash: Vec<u8> },
    /// A stored block's content does not match its address.
    BlockCorrupt { hash: Vec<u8> },
    /// An index hunk failed to decode.
    IndexCorrupt,
    /// A JSON record other than an index hunk failed to decode.
    Json,
    /// A glob pattern handed to the exclusion matcher is malformed.
    Glob,
    /// A file or directory the operation relies on is absent.
    FileMissing,
    /// The storage layer handed back contents that no transport can
    /// produce, such as two directory entries with one name.
    Transport,
}

} // verus!
