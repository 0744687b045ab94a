//! What a reader finds in an archive the writer built: every added tile can
//! be read back, and ids that were never added read as absent.

use vstd::prelude::*;
use crate::compression::compression_id;
use crate::directory::{
    directory_bytes, lemma_directory_roundtrip, parse_directory, written_entries, Entry,
};
use crate::search::{covering_entry, find_entry, has_id, last_below, lemma_find_entry, lookup_result};
use crate::error::PmTilesError;
use crate::header::{
    header_bytes, le_bytes, le_value, lemma_header_len, lemma_header_roundtrip, lemma_le_roundtrip,
    parse_header, Header,
};
use crate::reader::{
    after_step, lemma_parsed_sorted, next_step, range_of, root_lookup, step_result, tile_outcome,
    LookupStep,
};
use crate::writer::{
    archive_bytes, data_fits, data_prefix, decodes_back, layout_entries, lemma_data_prefix_len,
    lemma_layout_writable, lemma_sort_props, root_directory, stored_tile, tile_data, tile_keys,
    tile_order,
};
use crate::compression::Compression;
use crate::tile_id::{lemma_tile_id_fits, lemma_tile_id_injective, pow2, tile_id_of};

verus! {

/// Some added tile has id `t`.
pub open spec fn has_tile(tiles: Seq<(u64, Seq<u8>)>, t: u64) -> bool {
    exists|i: int| 0 <= i < tiles.len() && #[trigger] tiles[i].0 == t
}

/// Every stored tile of `w` is shorter than 4 GiB, so its length fits the
/// 32-bit length column of the directory.
pub open spec fn lengths_fit(w: (Compression, Compression, Seq<(u64, Seq<u8>)>)) -> bool {
    forall|k: int|
        0 <= k < tile_order(w.2).len() ==> #[trigger] stored_tile(w.2, w.1, tile_order(w.2), k).len()
            < 0x1_0000_0000
}

/// The header the writer puts on the archive of `w`.
pub open spec fn written_header(w: (Compression, Compression, Seq<(u64, Seq<u8>)>)) -> Header {
    Header {
        root_dir_offset: 127,
        root_dir_length: root_directory(w).len() as u64,
        leaf_dirs_offset: 0,
        tile_data_offset: (127 + root_directory(w).len()) as u64,
        internal_compression: compression_id(w.0),
        tile_compression: compression_id(w.1),
    }
}

/// The bytes of tile `k` of the write order sit at its offset in the tile data.
pub proof fn lemma_data_prefix_slice(
    tiles: Seq<(u64, Seq<u8>)>,
    tc: Compression,
    order: Seq<(u64, usize)>,
    n: nat,
    k: nat,
)
    requires
        k < n,
    ensures
        data_prefix(tiles, tc, order, n).subrange(
            data_prefix(tiles, tc, order, k).len() as int,
            (data_prefix(tiles, tc, order, k).len() + stored_tile(tiles, tc, order, k as int).len()) as int,
        ) == stored_tile(tiles, tc, order, k as int),
    decreases n,
{
    let prev = data_prefix(tiles, tc, order, (n - 1) as nat);
    let last = stored_tile(tiles, tc, order, n - 1);
    assert(data_prefix(tiles, tc, order, n) == prev + last);
    if k == n - 1 {
        assert((prev + last).subrange(prev.len() as int, (prev.len() + last.len()) as int) =~= last);
    } else {
        lemma_data_prefix_slice(tiles, tc, order, (n - 1) as nat, k);
        lemma_data_prefix_len(tiles, tc, order, (k + 1) as nat, (n - 1) as nat);
        let a = data_prefix(tiles, tc, order, k).len() as int;
        let b = a + stored_tile(tiles, tc, order, k as int).len();
        assert((prev + last).subrange(a, b) =~= prev.subrange(a, b));
    }
}

/// The last entry below `t`, when there is one, is below `t`.
pub proof fn lemma_last_below_is_below(entries: Seq<Entry>, t: u64)
    ensures
        last_below(entries, t) >= 0 ==> last_below(entries, t) < entries.len() && entries[last_below(
            entries,
            t,
        )].tile_id < t,
    decreases entries.len(),
{
    if entries.len() > 0 && entries.last().tile_id >= t {
        lemma_last_below_is_below(entries.drop_last(), t);
        let n = last_below(entries.drop_last(), t);
        if n >= 0 {
            assert(entries.drop_last()[n] == entries[n]);
        }
    }
}

/// The archive the writer builds opens: its header checks out and names the
/// root directory right after it, no leaf directories, and the tile data
/// right after the root directory.
pub proof fn lemma_written_archive_opens(w: (Compression, Compression, Seq<(u64, Seq<u8>)>))
    requires
        archive_bytes(w).len() <= u64::MAX,
    ensures
        parse_header(archive_bytes(w)) == Ok::<Header, PmTilesError>(written_header(w)),
{
    let dir = root_directory(w);
    let data = tile_data(w);
    let hb = header_bytes(dir.len() as u64, data.len() as u64, compression_id(w.0), compression_id(w.1));
    lemma_header_len(dir.len() as u64, data.len() as u64, compression_id(w.0), compression_id(w.1));
    let a = archive_bytes(w);
    assert(a == hb + dir + data);
    assert(a.subrange(0, 127) =~= hb);
    lemma_header_roundtrip(
        dir.len() as u64,
        data.len() as u64,
        compression_id(w.0),
        compression_id(w.1),
        a,
    );
}

/// The root directory sits right after the header.
proof fn lemma_root_directory_range(w: (Compression, Compression, Seq<(u64, Seq<u8>)>))
    requires
        archive_bytes(w).len() <= u64::MAX,
    ensures
        range_of(archive_bytes(w), 127, root_directory(w).len() as u64) == Some(root_directory(w)),
{
    let dir = root_directory(w);
    let data = tile_data(w);
    let hb = header_bytes(dir.len() as u64, data.len() as u64, compression_id(w.0), compression_id(w.1));
    lemma_header_len(dir.len() as u64, data.len() as u64, compression_id(w.0), compression_id(w.1));
    let a = archive_bytes(w);
    assert(a == hb + dir + data);
    assert(a.subrange(127, (127 + dir.len()) as int) =~= dir);
}

/// Tile `kk` of the write order sits at its offset in the tile data, which
/// follows the header and the root directory.
proof fn lemma_stored_tile_range(w: (Compression, Compression, Seq<(u64, Seq<u8>)>), kk: int)
    requires
        0 <= kk < tile_order(w.2).len(),
        archive_bytes(w).len() <= u64::MAX,
    ensures
        ({
            let order = tile_order(w.2);
            let off = data_prefix(w.2, w.1, order, kk as nat).len();
            let st = stored_tile(w.2, w.1, order, kk);
            &&& 127 + root_directory(w).len() + off + st.len() <= archive_bytes(w).len()
            &&& range_of(
                archive_bytes(w),
                (127 + root_directory(w).len() + off) as u64,
                st.len() as u64,
            ) == Some(st)
        }),
{
    let order = tile_order(w.2);
    let tiles = w.2;
    let tc = w.1;
    let dir = root_directory(w);
    let data = tile_data(w);
    let off = data_prefix(tiles, tc, order, kk as nat).len();
    let st = stored_tile(tiles, tc, order, kk);
    let hb = header_bytes(dir.len() as u64, data.len() as u64, compression_id(w.0), compression_id(w.1));
    lemma_header_len(dir.len() as u64, data.len() as u64, compression_id(w.0), compression_id(w.1));
    let a = archive_bytes(w);
    assert(a == hb + dir + data);
    lemma_data_prefix_len(tiles, tc, order, (kk + 1) as nat, order.len());
    lemma_data_prefix_slice(tiles, tc, order, order.len(), kk as nat);
    assert(a.subrange((127 + dir.len() + off) as int, (127 + dir.len() + off + st.len()) as int)
        =~= data.subrange(off as int, (off + st.len()) as int));
}

/// What the lookup of `t` finds in the written directory: an entry for a
/// tile added with id `t`, or nothing where no tile has that id.
proof fn lemma_found_entry(
    w: (Compression, Compression, Seq<(u64, Seq<u8>)>),
    t: u64,
    found: Option<Entry>,
)
    requires
        w.2.len() <= usize::MAX,
        lookup_result(
            written_entries(layout_entries(w.2, w.1, tile_order(w.2))),
            t,
            found,
        ),
    ensures
        has_tile(w.2, t) ==> exists|kk: int|
            0 <= kk < tile_order(w.2).len() && found == Some(
                #[trigger] written_entries(layout_entries(w.2, w.1, tile_order(w.2)))[kk],
            ) && tile_order(w.2)[kk].0 == t,
        !has_tile(w.2, t) ==> found is None,
{
    let tiles = w.2;
    let order = tile_order(tiles);
    let we = written_entries(layout_entries(tiles, w.1, order));
    lemma_sort_props(tile_keys(tiles));
    assert forall|k: int| 0 <= k < we.len() implies order[k].1 < tiles.len() && tiles[order[k].1 as int].0
        == #[trigger] we[k].tile_id by {
        assert(order.contains(order[k]));
        let i = choose|i: int| 0 <= i < tile_keys(tiles).len() && tile_keys(tiles)[i] == order[k];
        assert(tiles[i].0 == we[k].tile_id);
    }
    if has_tile(tiles, t) {
        let i = choose|i: int| 0 <= i < tiles.len() && #[trigger] tiles[i].0 == t;
        assert(tile_keys(tiles).contains((t, i as usize))) by {
            assert(tile_keys(tiles)[i] == (t, i as usize));
        }
        assert(order.contains((t, i as usize)));
        let k = choose|k: int| 0 <= k < order.len() && order[k] == (t, i as usize);
        let es = layout_entries(tiles, w.1, order);
        assert(es[k].0 == order[k].0);
        assert(we[k].tile_id == t);
        assert(has_id(we, t));
        let e = found.unwrap();
        let kk = choose|kk: int| 0 <= kk < we.len() && #[trigger] we[kk] == e;
        assert(order[kk].0 == t);
    } else {
        assert(!has_id(we, t)) by {
            if has_id(we, t) {
                let k = choose|k: int| 0 <= k < we.len() && #[trigger] we[k].tile_id == t;
                let i = order[k].1 as int;
                assert(tiles[i].0 == t);
            }
        }
        lemma_last_below_is_below(we, t);
        assert(found == covering_entry(we, t));
    }
}

/// The first step of a lookup in the written archive: the root directory is
/// read and decompressed, parses to the written entries, and the lookup
/// continues from what it finds there.
proof fn lemma_first_step(
    w: (Compression, Compression, Seq<(u64, Seq<u8>)>),
    t: u64,
    res: Result<Option<Vec<u8>>, PmTilesError>,
)
    requires
        archive_bytes(w).len() <= u64::MAX,
        data_fits(w),
        decodes_back(w),
        w.2.len() <= usize::MAX,
        tile_outcome(written_header(w), archive_bytes(w), root_lookup(written_header(w), t), 3, res),
    ensures
        ({
            let we = written_entries(layout_entries(w.2, w.1, tile_order(w.2)));
            &&& lookup_result(we, t, find_entry(we, t))
            &&& after_step(
                written_header(w),
                archive_bytes(w),
                next_step(written_header(w), root_lookup(written_header(w), t), find_entry(we, t)),
                3,
                res,
            )
        }),
{
    let h = written_header(w);
    let a = archive_bytes(w);
    let order = tile_order(w.2);
    let es = layout_entries(w.2, w.1, order);
    let we = written_entries(es);
    let dir = root_directory(w);
    let lk = root_lookup(h, t);
    lemma_layout_writable(w.2, w.1, order);
    lemma_sort_props(tile_keys(w.2));
    lemma_directory_roundtrip(es);
    lemma_root_directory_range(w);
    let step = choose|step: Result<LookupStep, PmTilesError>|
        #[trigger] step_result(h, lk, dir, step) && after_step(h, a, step, 3, res);
    assert(parse_directory(directory_bytes(es)) == Some(we));
    lemma_parsed_sorted(directory_bytes(es));
    lemma_find_entry(we, t);
}

/// Reading tile id `t` from the archive the writer built for `w` gives the
/// bytes of a tile that was added with id `t` (the one added, where only one
/// was), and gives no tile where none was added with id `t`. This holds
/// where each stored tile is shorter than 4 GiB and the archive fits in 64-bit
/// offsets; the view of every writer holds at most `usize::MAX` tiles
/// (`PmTilesWriter::lemma_tile_count`).
pub proof fn lemma_written_tiles_read_back(
    w: (Compression, Compression, Seq<(u64, Seq<u8>)>),
    t: u64,
    res: Result<Option<Vec<u8>>, PmTilesError>,
)
    requires
        w.2.len() <= usize::MAX,
        archive_bytes(w).len() <= u64::MAX,
        data_fits(w),
        decodes_back(w),
        lengths_fit(w),
        tile_outcome(written_header(w), archive_bytes(w), root_lookup(written_header(w), t), 3, res),
    ensures
        has_tile(w.2, t) ==> (res matches Ok(Some(v)) && exists|i: int|
            0 <= i < w.2.len() && w.2[i].0 == t && #[trigger] w.2[i].1 == v@),
        !has_tile(w.2, t) ==> res matches Ok(None),
{
    let h = written_header(w);
    let a = archive_bytes(w);
    let tiles = w.2;
    let tc = w.1;
    let order = tile_order(tiles);
    let es = layout_entries(tiles, tc, order);
    let we = written_entries(es);
    let dir = root_directory(w);
    let lk = root_lookup(h, t);
    lemma_first_step(w, t, res);
    let found = find_entry(we, t);
    lemma_found_entry(w, t, found);
    if has_tile(tiles, t) {
        let kk = choose|kk: int|
            0 <= kk < order.len() && found == Some(#[trigger] we[kk]) && order[kk].0 == t;
        lemma_stored_tile_range(w, kk);
        let off = data_prefix(tiles, tc, order, kk as nat).len();
        let st = stored_tile(tiles, tc, order, kk);
        assert(st.len() < 0x1_0000_0000);
        assert(es[kk] == (order[kk].0, off as u64, (st.len() % 0x1_0000_0000) as u32));
        assert(next_step(h, lk, found) == Ok::<LookupStep, PmTilesError>(
            LookupStep::FetchTile { offset: (127 + dir.len() + off) as u64, length: st.len() as u64 },
        ));
        lemma_sort_props(tile_keys(tiles));
        let j = order[kk].1 as int;
        assert(order.contains(order[kk]));
        let i = choose|i: int| 0 <= i < tile_keys(tiles).len() && tile_keys(tiles)[i] == order[kk];
        assert(i == j);
        assert(tiles[j].0 == t);
    }
}

/// Tile `(z, x, y)` lies on the grid of its zoom level, and `zxy_to_tile_id`
/// accepts it.
pub open spec fn on_grid(z: u8, x: u32, y: u32) -> bool {
    &&& (z < 32 || (z == 32 && x < 0x8000_0000))
    &&& x < pow2(z as nat)
    &&& y < pow2(z as nat)
}

/// The tiles of `w` were added, in order, at the grid positions `at`.
pub open spec fn added_at(
    w: (Compression, Compression, Seq<(u64, Seq<u8>)>),
    at: Seq<(u8, u32, u32)>,
) -> bool {
    &&& at.len() == w.2.len()
    &&& forall|i: int|
        0 <= i < at.len() ==> on_grid(at[i].0, at[i].1, at[i].2) && #[trigger] w.2[i].0
            == tile_id_of(at[i].0 as nat, at[i].1, at[i].2)
}

/// Reading the tile at zoom `z`, column `x`, row `y` from the archive the
/// writer built gives the bytes of a tile that was added at that position,
/// and gives no tile where none was. This holds for tiles on the grid of
/// their zoom level, where each stored tile is shorter than 4 GiB and the
/// archive fits in 64-bit offsets; the view of every writer holds at most
/// `usize::MAX` tiles (`PmTilesWriter::lemma_tile_count`).
pub proof fn lemma_tiles_read_back_at(
    w: (Compression, Compression, Seq<(u64, Seq<u8>)>),
    at: Seq<(u8, u32, u32)>,
    z: u8,
    x: u32,
    y: u32,
    res: Result<Option<Vec<u8>>, PmTilesError>,
)
    requires
        w.2.len() <= usize::MAX,
        archive_bytes(w).len() <= u64::MAX,
        data_fits(w),
        decodes_back(w),
        lengths_fit(w),
        added_at(w, at),
        on_grid(z, x, y),
        tile_outcome(
            written_header(w),
            archive_bytes(w),
            root_lookup(written_header(w), tile_id_of(z as nat, x, y) as u64),
            3,
            res,
        ),
    ensures
        at.contains((z, x, y)) ==> (res matches Ok(Some(v)) && exists|i: int|
            0 <= i < at.len() && at[i] == (z, x, y) && #[trigger] w.2[i].1 == v@),
        !at.contains((z, x, y)) ==> res matches Ok(None),
{
    lemma_tile_id_fits(z as nat, x, y);
    let t = tile_id_of(z as nat, x, y) as u64;
    lemma_written_tiles_read_back(w, t, res);
    assert forall|j: int| 0 <= j < w.2.len() && #[trigger] w.2[j].0 == t implies at[j] == (z, x, y) by {
        lemma_tile_id_injective(at[j].0 as nat, at[j].1, at[j].2, z as nat, x, y);
    }
    if at.contains((z, x, y)) {
        let i = choose|i: int| 0 <= i < at.len() && at[i] == (z, x, y);
        assert(w.2[i].0 == t);
        assert(has_tile(w.2, t));
    } else {
        if has_tile(w.2, t) {
            let j = choose|j: int| 0 <= j < w.2.len() && #[trigger] w.2[j].0 == t;
            assert(at[j] == (z, x, y));
            assert(at.contains(at[j]));
        }
    }
}

/// The header of the archive the writer builds records where everything is:
/// the root directory starts right after the 127 header bytes, the tile
/// data starts right after the root directory, and the tile data length
/// (bytes 64..72) counts exactly the bytes from there to the end of the
/// archive, which are the tile data.
pub proof fn lemma_written_header_lengths(w: (Compression, Compression, Seq<(u64, Seq<u8>)>))
    requires
        archive_bytes(w).len() <= u64::MAX,
    ensures
        ({
            let a = archive_bytes(w);
            &&& le_value(a.subrange(8, 16)) == 127
            &&& le_value(a.subrange(16, 24)) == root_directory(w).len()
            &&& le_value(a.subrange(56, 64)) == 127 + le_value(a.subrange(16, 24))
            &&& le_value(a.subrange(64, 72)) == a.len() - le_value(a.subrange(56, 64))
            &&& a.subrange(127, 127 + root_directory(w).len() as int) == root_directory(w)
            &&& a.subrange(127 + root_directory(w).len() as int, a.len() as int) == tile_data(w)
        }),
{
    let dir = root_directory(w);
    let data = tile_data(w);
    let dl = dir.len() as u64;
    let tl = data.len() as u64;
    let ic = compression_id(w.0);
    let tc = compression_id(w.1);
    let hb = header_bytes(dl, tl, ic, tc);
    lemma_header_len(dl, tl, ic, tc);
    let a = archive_bytes(w);
    assert(a == hb + dir + data);
    reveal(header_bytes);
    assert(a.subrange(8, 16) =~= le_bytes(127)) by {
        assert forall|j: int| 0 <= j < 8 implies a.subrange(8, 16)[j] == le_bytes(127)[j] by {
            assert(a[8 + j] == hb[8 + j]);
        }
    }
    assert(a.subrange(16, 24) =~= le_bytes(dl)) by {
        assert forall|j: int| 0 <= j < 8 implies a.subrange(16, 24)[j] == le_bytes(dl)[j] by {
            assert(a[16 + j] == hb[16 + j]);
        }
    }
    assert(a.subrange(56, 64) =~= le_bytes((127 + dl) as u64)) by {
        assert forall|j: int| 0 <= j < 8 implies a.subrange(56, 64)[j] == le_bytes(
            (127 + dl) as u64,
        )[j] by {
            assert(a[56 + j] == hb[56 + j]);
        }
    }
    assert(a.subrange(64, 72) =~= le_bytes(tl)) by {
        assert forall|j: int| 0 <= j < 8 implies a.subrange(64, 72)[j] == le_bytes(tl)[j] by {
            assert(a[64 + j] == hb[64 + j]);
        }
    }
    lemma_le_roundtrip(127);
    lemma_le_roundtrip(dl);
    lemma_le_roundtrip((127 + dl) as u64);
    lemma_le_roundtrip(tl);
    assert(a.subrange(127, 127 + dir.len() as int) =~= dir);
    assert(a.subrange(127 + dir.len() as int, a.len() as int) =~= data);
}

} // verus!
