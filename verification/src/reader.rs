//! Reading tiles: the header gives the root directory; each directory either
//! names the tile's bytes, points to a leaf directory to read next, or shows
//! that the tile is absent. At most four directories are read per lookup.
//!
//! The lookup is a small state machine so that the bytes it asks for can
//! come from anywhere: `step_lookup` takes the bytes of one directory and
//! says what to read next; `get_tile` runs it over an archive held in memory.

use vstd::prelude::*;
use vstd::slice::slice_subrange;
use crate::compression::{decompress, decompressed};
use crate::directory::{
    body_ok, deserialize_directory, lemma_id_sum_monotone, parse_directory, Entry,
};
use crate::search::{find_entry, find_tile, ids_sorted, lemma_find_entry, lookup_result};
use crate::error::PmTilesError;
use crate::header::{decode_header, parse_header, Header, HEADER_LEN};
use crate::tile_id::{tile_id_of, zxy_to_tile_id};
use crate::varint::{decode_varint, tail};

verus! {

/// The most directories one lookup reads: the root and up to three levels of
/// leaf directories.
pub const MAX_DEPTH: u8 = 4;

/// A lookup in progress: the tile id sought and the directory to read next,
/// `depth` directories having been read before it.
#[derive(Clone, Copy, Debug)]
pub struct TileLookup {
    pub tile_id: u64,
    pub dir_offset: u64,
    pub dir_length: u64,
    pub depth: u8,
}

/// What a lookup does after reading a directory.
#[derive(Clone, Copy, Debug)]
pub enum LookupStep {
    /// Read the leaf directory this lookup names next.
    Descend(TileLookup),
    /// Read the tile's `length` stored bytes at `offset` and decompress them.
    FetchTile { offset: u64, length: u64 },
    /// The archive has no such tile.
    Missing,
}

/// Reads map tiles from a PMTiles v3 archive, given its header.
pub struct PmTilesReader {
    header: Header,
}

impl View for PmTilesReader {
    type V = Header;

    closed spec fn view(&self) -> Header {
        self.header
    }
}

/// The lookup of tile `tile_id` starts at the root directory.
pub open spec fn root_lookup(h: Header, tile_id: u64) -> TileLookup {
    TileLookup {
        tile_id,
        dir_offset: h.root_dir_offset,
        dir_length: h.root_dir_length,
        depth: 0,
    }
}

/// What a lookup does once the directory it read yields `found`: nothing
/// found means no tile; an entry with run length 0 points to a leaf directory
/// (unless this was the last directory the lookup may read); any other entry
/// names the tile's bytes. An offset that overflows 64 bits marks the
/// directory as corrupt.
pub open spec fn next_step(h: Header, lk: TileLookup, found: Option<Entry>) -> Result<
    LookupStep,
    PmTilesError,
> {
    match found {
        None => Ok(LookupStep::Missing),
        Some(e) => if e.run_length == 0 {
            if h.leaf_dirs_offset + e.offset > u64::MAX {
                Err(PmTilesError::CorruptDirectory)
            } else if lk.depth + 1 >= MAX_DEPTH {
                Ok(LookupStep::Missing)
            } else {
                Ok(
                    LookupStep::Descend(
                        TileLookup {
                            tile_id: lk.tile_id,
                            dir_offset: (h.leaf_dirs_offset + e.offset) as u64,
                            dir_length: e.length as u64,
                            depth: (lk.depth + 1) as u8,
                        },
                    ),
                )
            }
        } else {
            if h.tile_data_offset + e.offset > u64::MAX {
                Err(PmTilesError::CorruptDirectory)
            } else {
                Ok(
                    LookupStep::FetchTile {
                        offset: (h.tile_data_offset + e.offset) as u64,
                        length: e.length as u64,
                    },
                )
            }
        },
    }
}

/// What a lookup may do after reading the directory stored as `raw`: it is
/// decompressed (an `Io` error where it does not decode) and parsed
/// (`CorruptDirectory` if that fails), then searched for the tile.
pub open spec fn step_result(
    h: Header,
    lk: TileLookup,
    raw: Seq<u8>,
    res: Result<LookupStep, PmTilesError>,
) -> bool {
    match decompressed(raw, h.internal_compression) {
        None => res matches Err(PmTilesError::Io { .. }),
        Some(bytes) => match parse_directory(bytes) {
            None => res == Err::<LookupStep, PmTilesError>(PmTilesError::CorruptDirectory),
            Some(entries) => res == next_step(h, lk, find_entry(entries, lk.tile_id)),
        },
    }
}

/// The `length` bytes at `offset` in `archive`, if it holds them.
pub open spec fn range_of(archive: Seq<u8>, offset: u64, length: u64) -> Option<Seq<u8>> {
    if offset + length <= archive.len() {
        Some(archive.subrange(offset as int, offset + length))
    } else {
        None
    }
}

/// The error of a read past the end of the archive.
pub open spec fn out_of_range(res: Result<Option<Vec<u8>>, PmTilesError>) -> bool {
    res matches Err(PmTilesError::Io { msg }) && msg@ == "failed to fill whole buffer"@
}

/// What reading a tile through lookup `lk` from `archive` may give, with
/// at most `fuel` more leaf directories to descend into: bytes outside the
/// archive give the `Io` error of a short read; otherwise the lookup takes a
/// step on the directory it read.
pub open spec fn tile_outcome(
    h: Header,
    archive: Seq<u8>,
    lk: TileLookup,
    fuel: nat,
    res: Result<Option<Vec<u8>>, PmTilesError>,
) -> bool
    decreases fuel, 1int,
{
    match range_of(archive, lk.dir_offset, lk.dir_length) {
        None => out_of_range(res),
        Some(raw) => exists|step: Result<LookupStep, PmTilesError>|
            #[trigger] step_result(h, lk, raw, step) && after_step(h, archive, step, fuel, res),
    }
}

/// What a lookup gives after `step`: errors and absent tiles as they are; a
/// tile's stored bytes decompressed (the `Io` error of a short read where
/// they lie outside the archive, an `Io` error where they do not decode); a
/// leaf directory read in turn.
pub open spec fn after_step(
    h: Header,
    archive: Seq<u8>,
    step: Result<LookupStep, PmTilesError>,
    fuel: nat,
    res: Result<Option<Vec<u8>>, PmTilesError>,
) -> bool
    decreases fuel, 0int,
{
    match step {
        Err(e) => res == Err::<Option<Vec<u8>>, PmTilesError>(e),
        Ok(LookupStep::Missing) => res matches Ok(None),
        Ok(LookupStep::FetchTile { offset, length }) => match range_of(archive, offset, length) {
            None => out_of_range(res),
            Some(stored) => match decompressed(stored, h.tile_compression) {
                None => res matches Err(PmTilesError::Io { .. }),
                Some(tile) => res matches Ok(Some(v)) && v@ == tile,
            },
        },
        Ok(LookupStep::Descend(next)) => fuel > 0 && tile_outcome(
            h,
            archive,
            next,
            (fuel - 1) as nat,
            res,
        ),
    }
}

/// A parsed directory lists its ids in order.
pub proof fn lemma_parsed_sorted(s: Seq<u8>)
    ensures
        parse_directory(s) matches Some(es) ==> ids_sorted(es),
{
    reveal(parse_directory);
    if let Some(es) = parse_directory(s) {
        let (num, n0) = decode_varint(s).unwrap();
        let b = tail(s, n0 as int);
        assert(body_ok(b, num as nat));
        assert forall|i: int, j: int| 0 <= i <= j < es.len() implies #[trigger] es[i].tile_id
            <= #[trigger] es[j].tile_id by {
            lemma_id_sum_monotone(b, i as nat, j as nat);
            lemma_id_sum_monotone(b, j as nat, (num - 1) as nat);
            lemma_id_sum_monotone(b, 0, i as nat);
        }
    }
}

/// What one step of a lookup does with the directory it read: the step
/// follows the entry that the search finds for the lookup's own tile id (the
/// entry with that id, else the covering entry before it). A leaf pointer
/// leads to the directory at the leaf directories' offset plus the entry's
/// offset, of the entry's length, searched again for the same tile id one
/// level deeper; an entry with a run names the tile's bytes at the tile
/// data's offset plus the entry's offset, of the entry's length; no entry,
/// or a leaf pointer past the last level, means no tile.
pub proof fn lemma_step_follows_directory(
    h: Header,
    lk: TileLookup,
    raw: Seq<u8>,
    res: Result<LookupStep, PmTilesError>,
)
    requires
        step_result(h, lk, raw, res),
    ensures
        res matches Ok(LookupStep::Descend(next)) ==> (decompressed(raw, h.internal_compression)
            matches Some(bytes) && parse_directory(bytes) matches Some(es) && exists|e: Entry|
            #[trigger] lookup_result(es, lk.tile_id, Some(e)) && e.run_length == 0 && next.tile_id
                == lk.tile_id && next.dir_offset == h.leaf_dirs_offset + e.offset
                && next.dir_length == e.length && next.depth == lk.depth + 1),
        res matches Ok(LookupStep::FetchTile { offset, length }) ==> (decompressed(
            raw,
            h.internal_compression,
        ) matches Some(bytes) && parse_directory(bytes) matches Some(es) && exists|e: Entry|
            #[trigger] lookup_result(es, lk.tile_id, Some(e)) && e.run_length > 0 && offset
                == h.tile_data_offset + e.offset && length == e.length),
        res matches Ok(LookupStep::Missing) ==> (decompressed(raw, h.internal_compression) matches Some(
            bytes,
        ) && parse_directory(bytes) matches Some(es) && (lookup_result(es, lk.tile_id, None)
            || exists|e: Entry|
            #[trigger] lookup_result(es, lk.tile_id, Some(e)) && e.run_length == 0 && lk.depth + 1
                >= MAX_DEPTH)),
{
    if let Some(bytes) = decompressed(raw, h.internal_compression) {
        if let Some(es) = parse_directory(bytes) {
            lemma_parsed_sorted(bytes);
            lemma_find_entry(es, lk.tile_id);
            let found = find_entry(es, lk.tile_id);
            if let Some(e) = found {
                assert(lookup_result(es, lk.tile_id, Some(e)));
            }
        }
    }
}

/// Reads the `length` bytes at `offset` in `archive`; an `Io` error where the
/// archive ends before them.
pub fn read_range(archive: &[u8], offset: u64, length: u64) -> (res: Result<&[u8], PmTilesError>)
    ensures
        match range_of(archive@, offset, length) {
            Some(r) => res matches Ok(s) && s@ == r,
            None => res matches Err(PmTilesError::Io { msg }) && msg@
                == "failed to fill whole buffer"@,
        },
{
    let len = archive.len() as u64;
    if offset <= len && length <= len - offset {
        Ok(slice_subrange(archive, offset as usize, (offset + length) as usize))
    } else {
        Err(PmTilesError::Io { msg: "failed to fill whole buffer".to_owned() })
    }
}

impl PmTilesReader {
    /// Opens an archive from its first bytes (at least the 127 of the
    /// header), checking the magic bytes and the version.
    pub fn open(header: &[u8]) -> (res: Result<PmTilesReader, PmTilesError>)
        requires
            header@.len() >= HEADER_LEN,
        ensures
            match parse_header(header@) {
                Ok(h) => res matches Ok(r) && r@ == h,
                Err(e) => res matches Err(e2) && e2 == e,
            },
    {
        match decode_header(header) {
            Ok(h) => Ok(PmTilesReader { header: h }),
            Err(e) => Err(e),
        }
    }

    /// The lookup for the tile at zoom `z`, column `x`, row `y`, starting at
    /// the root directory.
    pub fn begin_lookup(&self, z: u8, x: u32, y: u32) -> (lk: TileLookup)
        requires
            z < 32 || (z == 32 && x < 0x8000_0000),
        ensures
            lk == root_lookup(self@, tile_id_of(z as nat, x, y) as u64),
    {
        TileLookup {
            tile_id: zxy_to_tile_id(z, x, y),
            dir_offset: self.header.root_dir_offset,
            dir_length: self.header.root_dir_length,
            depth: 0,
        }
    }

    /// Takes the stored bytes of the directory `lookup` asked for and says
    /// what to read next.
    pub fn step_lookup(&self, lookup: &TileLookup, raw_dir: &[u8]) -> (res: Result<
        LookupStep,
        PmTilesError,
    >)
        requires
            lookup.depth < MAX_DEPTH,
        ensures
            step_result(self@, *lookup, raw_dir@, res),
            res matches Ok(LookupStep::Descend(next)) ==> next.depth == lookup.depth + 1
                && next.depth < MAX_DEPTH,
    {
        let bytes = match decompress(raw_dir, self.header.internal_compression) {
            Ok(b) => b,
            Err(e) => {
                return Err(e);
            },
        };
        let entries = match deserialize_directory(bytes.as_slice()) {
            Ok(es) => es,
            Err(e) => {
                return Err(e);
            },
        };
        proof {
            lemma_parsed_sorted(bytes@);
            lemma_find_entry(entries@, lookup.tile_id);
        }
        let found = find_tile(entries.as_slice(), lookup.tile_id);
        let res = match found {
            None => Ok(LookupStep::Missing),
            Some(e) => if e.run_length == 0 {
                match self.header.leaf_dirs_offset.checked_add(e.offset) {
                    None => Err(PmTilesError::CorruptDirectory),
                    Some(offset) => if lookup.depth + 1 >= MAX_DEPTH {
                        Ok(LookupStep::Missing)
                    } else {
                        Ok(
                            LookupStep::Descend(
                                TileLookup {
                                    tile_id: lookup.tile_id,
                                    dir_offset: offset,
                                    dir_length: e.length as u64,
                                    depth: lookup.depth + 1,
                                },
                            ),
                        )
                    },
                }
            } else {
                match self.header.tile_data_offset.checked_add(e.offset) {
                    None => Err(PmTilesError::CorruptDirectory),
                    Some(offset) => Ok(LookupStep::FetchTile { offset, length: e.length as u64 }),
                }
            },
        };
        assert(res == next_step(self@, *lookup, found));
        res
    }

    /// Decompresses the stored bytes of a tile.
    pub fn finish_tile(&self, raw_tile: &[u8]) -> (res: Result<Vec<u8>, PmTilesError>)
        ensures
            match decompressed(raw_tile@, self@.tile_compression) {
                Some(tile) => res matches Ok(v) && v@ == tile,
                None => res matches Err(PmTilesError::Io { .. }),
            },
    {
        decompress(raw_tile, self.header.tile_compression)
    }

    /// Returns the decompressed bytes of the tile at zoom `z`, column `x`,
    /// row `y` of the archive `archive`, or `None` if that tile is not present.
    pub fn get_tile(&self, archive: &[u8], z: u8, x: u32, y: u32) -> (res: Result<
        Option<Vec<u8>>,
        PmTilesError,
    >)
        requires
            z < 32 || (z == 32 && x < 0x8000_0000),
        ensures
            tile_outcome(
                self@,
                archive@,
                root_lookup(self@, tile_id_of(z as nat, x, y) as u64),
                (MAX_DEPTH - 1) as nat,
                res,
            ),
    {
        let first = self.begin_lookup(z, x, y);
        let mut lk = first;
        loop
            invariant
                first == root_lookup(self@, tile_id_of(z as nat, x, y) as u64),
                lk.depth < MAX_DEPTH,
                forall|r: Result<Option<Vec<u8>>, PmTilesError>|
                    #[trigger] tile_outcome(self@, archive@, lk, (MAX_DEPTH - 1 - lk.depth) as nat, r)
                        ==> tile_outcome(self@, archive@, first, (MAX_DEPTH - 1) as nat, r),
            decreases MAX_DEPTH - lk.depth,
        {
            let ghost fuel = (MAX_DEPTH - 1 - lk.depth) as nat;
            let raw = match read_range(archive, lk.dir_offset, lk.dir_length) {
                Ok(r) => r,
                Err(e) => {
                    let res = Err(e);
                    assert(tile_outcome(self@, archive@, lk, fuel, res));
                    return res;
                },
            };
            let step = self.step_lookup(&lk, raw);
            match step {
                Err(e) => {
                    let res = Err(e);
                    assert(tile_outcome(self@, archive@, lk, fuel, res));
                    return res;
                },
                Ok(LookupStep::Missing) => {
                    let res = Ok(None);
                    assert(tile_outcome(self@, archive@, lk, fuel, res));
                    return res;
                },
                Ok(LookupStep::FetchTile { offset, length }) => {
                    let stored = match read_range(archive, offset, length) {
                        Ok(s) => s,
                        Err(e) => {
                            let res = Err(e);
                            assert(tile_outcome(self@, archive@, lk, fuel, res));
                            return res;
                        },
                    };
                    let res = match self.finish_tile(stored) {
                        Ok(t) => Ok(Some(t)),
                        Err(e) => Err(e),
                    };
                    assert(tile_outcome(self@, archive@, lk, fuel, res));
                    return res;
                },
                Ok(LookupStep::Descend(next)) => {
                    proof {
                        assert forall|r: Result<Option<Vec<u8>>, PmTilesError>|
                            #[trigger] tile_outcome(
                                self@,
                                archive@,
                                next,
                                (MAX_DEPTH - 1 - next.depth) as nat,
                                r,
                            ) implies tile_outcome(
                            self@,
                            archive@,
                            first,
                            (MAX_DEPTH - 1) as nat,
                            r,
                        ) by {
                            assert(tile_outcome(self@, archive@, lk, fuel, r));
                        }
                    }
                    lk = next;
                },
            }
        }
    }
}

} // verus!
