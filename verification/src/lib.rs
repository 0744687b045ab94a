//! Reading and writing PMTiles v3 archives: tile ids on the Hilbert curve,
//! varint-encoded directories, the fixed-size header, and the lookup that walks
//! from the root directory through leaf directories to a tile.

pub mod directory;
pub mod compression;
pub mod error;
pub mod header;
pub mod reader;
pub mod roundtrip;
pub mod search;
pub mod tile_id;
pub mod varint;
pub mod writer;

pub use error::PmTilesError;
pub use compression::Compression;
pub use reader::{LookupStep, PmTilesReader, TileLookup};
pub use writer::PmTilesWriter;
