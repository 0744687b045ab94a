use vstd::prelude::*;

verus! {

/// Errors returned when opening an archive or reading a tile.
#[derive(Debug)]
pub enum PmTilesError {
    /// Bytes could not be read or decompressed; `msg` describes the failure.
    Io { msg: String },
    /// The header does not start with the `PMTiles` magic bytes.
    InvalidArchive,
    /// The header names a spec version other than 3.
    UnsupportedVersion { version: u8 },
    /// A directory is truncated, holds an over-long varint, or describes
    /// ids or offsets that do not fit in 64 bits.
    CorruptDirectory,
}

} // verus!
