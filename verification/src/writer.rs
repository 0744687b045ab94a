//! Building an archive in memory from tiles added one at a time: the tiles
//! are ordered by id (keeping the order in which tiles with equal ids were
//! added), compressed, and laid out after the header and a single root
//! directory.

use vstd::prelude::*;
use crate::compression::{compress, compressed, compression_id, decompressed, Compression};
use crate::directory::{directory_bytes, serialize_directory, writable};
use crate::header::{header_bytes, write_header, zeros, HEADER_LEN};
use crate::tile_id::{tile_id_of, zxy_to_tile_id};

verus! {

/// Inserts `x` after every element whose id is not above its own.
pub open spec fn insert_by_id(s: Seq<(u64, usize)>, x: (u64, usize)) -> Seq<(u64, usize)>
    decreases s.len(),
{
    if s.len() == 0 {
        seq![x]
    } else if s.last().0 <= x.0 {
        s.push(x)
    } else {
        insert_by_id(s.drop_last(), x).push(s.last())
    }
}

/// `keys` ordered by id, keys with equal ids in the order they came in.
pub open spec fn sort_by_id(keys: Seq<(u64, usize)>) -> Seq<(u64, usize)>
    decreases keys.len(),
{
    if keys.len() == 0 {
        Seq::empty()
    } else {
        insert_by_id(sort_by_id(keys.drop_last()), keys.last())
    }
}

/// The tile ids of `tiles`, each with the position it was added at.
pub open spec fn tile_keys(tiles: Seq<(u64, Seq<u8>)>) -> Seq<(u64, usize)> {
    Seq::new(tiles.len(), |i: int| (tiles[i].0, i as usize))
}

/// The order in which the tiles are written: by id, ties in the order added.
pub open spec fn tile_order(tiles: Seq<(u64, Seq<u8>)>) -> Seq<(u64, usize)> {
    sort_by_id(tile_keys(tiles))
}

/// Ids never decrease along `s`.
pub open spec fn keys_sorted(s: Seq<(u64, usize)>) -> bool {
    forall|i: int, j: int| 0 <= i <= j < s.len() ==> #[trigger] s[i].0 <= #[trigger] s[j].0
}

/// Inserting behind the last element whose id is not above the new one's.
pub proof fn lemma_insert_at(s: Seq<(u64, usize)>, x: (u64, usize), j: int)
    requires
        0 <= j <= s.len(),
        j > 0 ==> s[j - 1].0 <= x.0,
        forall|k: int| j <= k < s.len() ==> #[trigger] s[k].0 > x.0,
    ensures
        insert_by_id(s, x) == s.insert(j, x),
    decreases s.len(),
{
    if s.len() == 0 {
        assert(s.insert(j, x) =~= seq![x]);
    } else if j == s.len() {
        assert(s.insert(j, x) =~= s.push(x));
    } else {
        let r = s.drop_last();
        assert(s.last().0 > x.0);
        assert forall|k: int| j <= k < r.len() implies #[trigger] r[k].0 > x.0 by {
            assert(r[k] == s[k]);
        }
        lemma_insert_at(r, x, j);
        assert(r.insert(j, x).push(s.last()) =~= s.insert(j, x));
    }
}

/// Insertion keeps the order, adds one element, and adds only `x`.
pub proof fn lemma_insert_props(s: Seq<(u64, usize)>, x: (u64, usize))
    requires
        keys_sorted(s),
    ensures
        keys_sorted(insert_by_id(s, x)),
        insert_by_id(s, x).len() == s.len() + 1,
        forall|y: (u64, usize)| #[trigger] insert_by_id(s, x).contains(y) <==> (s.contains(y) || y
            == x),
    decreases s.len(),
{
    let t = insert_by_id(s, x);
    if s.len() == 0 {
        assert forall|y: (u64, usize)| #[trigger] t.contains(y) <==> (s.contains(y) || y == x) by {
            if t.contains(y) {
                assert(t[0] == x);
            }
            if y == x {
                assert(t[0] == y);
            }
        }
    } else if s.last().0 <= x.0 {
        assert forall|y: (u64, usize)| #[trigger] t.contains(y) <==> (s.contains(y) || y == x) by {
            if t.contains(y) {
                let k = choose|k: int| 0 <= k < t.len() && t[k] == y;
                if k < s.len() {
                    assert(s[k] == y);
                }
            }
            if s.contains(y) {
                let k = choose|k: int| 0 <= k < s.len() && s[k] == y;
                assert(t[k] == y);
            }
            if y == x {
                assert(t[s.len() as int] == y);
            }
        }
    } else {
        let r = s.drop_last();
        let l = s.last();
        assert(keys_sorted(r));
        lemma_insert_props(r, x);
        let u = insert_by_id(r, x);
        assert(t == u.push(l));
        assert forall|i: int, j: int| 0 <= i <= j < t.len() implies #[trigger] t[i].0
            <= #[trigger] t[j].0 by {
            if j == t.len() - 1 {
                if i < j {
                    assert(u.contains(t[i]));
                    if r.contains(t[i]) {
                        let k = choose|k: int| 0 <= k < r.len() && r[k] == t[i];
                        assert(s[k] == r[k]);
                        assert(s[k].0 <= s[s.len() - 1].0);
                    }
                }
            }
        }
        assert forall|y: (u64, usize)| #[trigger] t.contains(y) <==> (s.contains(y) || y == x) by {
            if t.contains(y) {
                let k = choose|k: int| 0 <= k < t.len() && t[k] == y;
                if k < u.len() {
                    assert(u[k] == y);
                    assert(u.contains(y));
                    if r.contains(y) {
                        let m = choose|m: int| 0 <= m < r.len() && r[m] == y;
                        assert(s[m] == y);
                    }
                } else {
                    assert(s[s.len() - 1] == y);
                }
            }
            if s.contains(y) {
                let k = choose|k: int| 0 <= k < s.len() && s[k] == y;
                if k < r.len() {
                    assert(r[k] == y);
                    assert(r.contains(y));
                    assert(u.contains(y));
                    let m = choose|m: int| 0 <= m < u.len() && u[m] == y;
                    assert(t[m] == y);
                } else {
                    assert(t[t.len() - 1] == y);
                }
            }
            if y == x {
                assert(u.contains(y));
                let m = choose|m: int| 0 <= m < u.len() && u[m] == y;
                assert(t[m] == y);
            }
        }
    }
}

/// Sorting keeps exactly the keys it was given, in id order.
pub proof fn lemma_sort_props(keys: Seq<(u64, usize)>)
    ensures
        keys_sorted(sort_by_id(keys)),
        sort_by_id(keys).len() == keys.len(),
        forall|y: (u64, usize)| #[trigger] sort_by_id(keys).contains(y) <==> keys.contains(y),
    decreases keys.len(),
{
    if keys.len() > 0 {
        let r = keys.drop_last();
        lemma_sort_props(r);
        lemma_insert_props(sort_by_id(r), keys.last());
        assert forall|y: (u64, usize)| #[trigger] sort_by_id(keys).contains(y) <==> keys.contains(
            y,
        ) by {
            if r.contains(y) {
                let k = choose|k: int| 0 <= k < r.len() && r[k] == y;
                assert(keys[k] == y);
            }
            if keys.contains(y) {
                let k = choose|k: int| 0 <= k < keys.len() && keys[k] == y;
                if k < r.len() {
                    assert(r[k] == y);
                }
            }
            if y == keys.last() {
                assert(keys[keys.len() - 1] == y);
            }
        }
    } else {
        assert forall|y: (u64, usize)| #[trigger] sort_by_id(keys).contains(y) <==> keys.contains(
            y,
        ) by {}
    }
}

/// Keys with equal ids keep the order of their positions.
pub open spec fn keys_stable(s: Seq<(u64, usize)>) -> bool {
    forall|a: int, b: int|
        0 <= a < b < s.len() && #[trigger] s[a].0 == #[trigger] s[b].0 ==> s[a].1 < s[b].1
}

/// Inserting a key whose position is past every position already there
/// keeps keys with equal ids in the order of their positions.
proof fn lemma_insert_stable(s: Seq<(u64, usize)>, x: (u64, usize))
    requires
        keys_sorted(s),
        keys_stable(s),
        forall|k: int| 0 <= k < s.len() ==> #[trigger] s[k].1 < x.1,
    ensures
        keys_stable(insert_by_id(s, x)),
    decreases s.len(),
{
    let t = insert_by_id(s, x);
    if s.len() == 0 {
    } else if s.last().0 <= x.0 {
        assert forall|a: int, b: int|
            0 <= a < b < t.len() && #[trigger] t[a].0 == #[trigger] t[b].0 implies t[a].1
                < t[b].1 by {
            if b == s.len() {
                assert(t[a] == s[a]);
            } else {
                assert(t[a] == s[a] && t[b] == s[b]);
            }
        }
    } else {
        let r = s.drop_last();
        let l = s.last();
        assert(keys_sorted(r));
        assert(keys_stable(r)) by {
            assert forall|a: int, b: int|
                0 <= a < b < r.len() && #[trigger] r[a].0 == #[trigger] r[b].0 implies r[a].1
                    < r[b].1 by {
                assert(r[a] == s[a] && r[b] == s[b]);
            }
        }
        assert forall|k: int| 0 <= k < r.len() implies #[trigger] r[k].1 < x.1 by {
            assert(r[k] == s[k]);
        }
        lemma_insert_stable(r, x);
        lemma_insert_props(r, x);
        let u = insert_by_id(r, x);
        assert(t == u.push(l));
        assert forall|a: int, b: int|
            0 <= a < b < t.len() && #[trigger] t[a].0 == #[trigger] t[b].0 implies t[a].1
                < t[b].1 by {
            if b == t.len() - 1 {
                assert(t[a] == u[a]);
                assert(u.contains(u[a]));
                if u[a] == x {
                    assert(l.0 > x.0);
                } else {
                    assert(r.contains(u[a]));
                    let k = choose|k: int| 0 <= k < r.len() && r[k] == u[a];
                    assert(s[k] == r[k]);
                    assert(s[k].0 == s[s.len() - 1].0);
                }
            } else {
                assert(t[a] == u[a] && t[b] == u[b]);
            }
        }
    }
}

/// Sorting keeps keys with equal ids in the order of their positions: the
/// sort is stable.
proof fn lemma_sort_stable_keys(keys: Seq<(u64, usize)>)
    requires
        forall|a: int, b: int| 0 <= a < b < keys.len() ==> #[trigger] keys[a].1 < #[trigger] keys[b].1,
    ensures
        keys_stable(sort_by_id(keys)),
    decreases keys.len(),
{
    if keys.len() > 0 {
        let r = keys.drop_last();
        assert forall|a: int, b: int| 0 <= a < b < r.len() implies #[trigger] r[a].1 < #[trigger] r[b].1 by {
            assert(r[a] == keys[a] && r[b] == keys[b]);
        }
        lemma_sort_stable_keys(r);
        lemma_sort_props(r);
        let sr = sort_by_id(r);
        assert forall|k: int| 0 <= k < sr.len() implies #[trigger] sr[k].1 < keys.last().1 by {
            assert(sr.contains(sr[k]));
            let m = choose|m: int| 0 <= m < r.len() && r[m] == sr[k];
            assert(keys[m] == r[m]);
        }
        lemma_insert_stable(sr, keys.last());
    }
}

/// The write order is stable: tiles added with the same id are written in
/// the order they were added.
pub proof fn lemma_tile_order_stable(tiles: Seq<(u64, Seq<u8>)>)
    requires
        tiles.len() <= usize::MAX,
    ensures
        keys_stable(tile_order(tiles)),
{
    let keys = tile_keys(tiles);
    assert forall|a: int, b: int| 0 <= a < b < keys.len() implies #[trigger] keys[a].1
        < #[trigger] keys[b].1 by {
        assert(keys[a].1 == a as usize && keys[b].1 == b as usize);
    }
    lemma_sort_stable_keys(keys);
}

/// Orders the tiles by id, keeping the order of tiles with equal ids: an
/// insertion sort of (id, position) keys.
pub fn sort_tiles(tiles: &Vec<(u64, Vec<u8>)>) -> (order: Vec<(u64, usize)>)
    ensures
        order@ == sort_by_id(Seq::new(tiles@.len(), |i: int| (tiles@[i].0, i as usize))),
{
    let ghost keys = Seq::new(tiles@.len(), |i: int| (tiles@[i].0, i as usize));
    let mut order: Vec<(u64, usize)> = Vec::new();
    let mut i: usize = 0;
    while i < tiles.len()
        invariant
            keys == Seq::new(tiles@.len(), |i: int| (tiles@[i].0, i as usize)),
            i <= tiles@.len(),
            order@ == sort_by_id(keys.take(i as int)),
        decreases tiles@.len() - i,
    {
        let id = tiles[i].0;
        proof {
            lemma_sort_props(keys.take(i as int));
        }
        let mut j = order.len();
        while j > 0 && order[j - 1].0 > id
            invariant
                j <= order@.len(),
                forall|k: int| j <= k < order@.len() ==> #[trigger] order@[k].0 > id,
            decreases j,
        {
            j = j - 1;
        }
        proof {
            lemma_insert_at(order@, (id, i), j as int);
            assert(keys.take(i + 1).drop_last() =~= keys.take(i as int));
            assert(keys.take(i + 1).last() == (id, i));
        }
        order.insert(j, (id, i));
        i = i + 1;
    }
    proof {
        assert(keys.take(i as int) =~= keys);
    }
    order
}


/// The stored bytes of the tile at position `k` of the write order.
pub open spec fn stored_tile(
    tiles: Seq<(u64, Seq<u8>)>,
    tc: Compression,
    order: Seq<(u64, usize)>,
    k: int,
) -> Seq<u8> {
    compressed(tiles[order[k].1 as int].1, tc)
}

/// The stored bytes of the first `k` tiles of the write order, one after the
/// other.
pub open spec fn data_prefix(
    tiles: Seq<(u64, Seq<u8>)>,
    tc: Compression,
    order: Seq<(u64, usize)>,
    k: nat,
) -> Seq<u8>
    decreases k,
{
    if k == 0 {
        Seq::empty()
    } else {
        data_prefix(tiles, tc, order, (k - 1) as nat) + stored_tile(tiles, tc, order, k - 1)
    }
}

/// The directory entries of the written tiles: id, offset into the tile
/// data, and stored length (kept to its low 32 bits).
pub open spec fn layout_entries(
    tiles: Seq<(u64, Seq<u8>)>,
    tc: Compression,
    order: Seq<(u64, usize)>,
) -> Seq<(u64, u64, u32)> {
    Seq::new(
        order.len(),
        |k: int|
            (
                order[k].0,
                data_prefix(tiles, tc, order, k as nat).len() as u64,
                (stored_tile(tiles, tc, order, k).len() % 0x1_0000_0000) as u32,
            ),
    )
}

/// The tile data of the archive: every stored tile, in write order.
pub open spec fn tile_data(ic_tc_tiles: (Compression, Compression, Seq<(u64, Seq<u8>)>)) -> Seq<
    u8,
> {
    let tiles = ic_tc_tiles.2;
    let order = tile_order(tiles);
    data_prefix(tiles, ic_tc_tiles.1, order, order.len())
}

/// The root directory of the archive, compressed.
pub open spec fn root_directory(ic_tc_tiles: (Compression, Compression, Seq<(u64, Seq<u8>)>)) -> Seq<
    u8,
> {
    let tiles = ic_tc_tiles.2;
    let order = tile_order(tiles);
    compressed(directory_bytes(layout_entries(tiles, ic_tc_tiles.1, order)), ic_tc_tiles.0)
}

/// The archive written for a writer in state `w`: header, root directory,
/// tile data.
pub open spec fn archive_bytes(w: (Compression, Compression, Seq<(u64, Seq<u8>)>)) -> Seq<u8> {
    let dir = root_directory(w);
    let data = tile_data(w);
    header_bytes(dir.len() as u64, data.len() as u64, compression_id(w.0), compression_id(w.1))
        + dir + data
}

/// The tile data of the archive stays below `u64::MAX` bytes, so that every
/// offset stored plus one fits in 64 bits.
pub open spec fn data_fits(w: (Compression, Compression, Seq<(u64, Seq<u8>)>)) -> bool {
    tile_data(w).len() < u64::MAX
}

/// Every stored form in the archive of `w` decompresses back: each tile to
/// the bytes that were added, and the root directory to the directory bytes.
pub open spec fn decodes_back(w: (Compression, Compression, Seq<(u64, Seq<u8>)>)) -> bool {
    let order = tile_order(w.2);
    &&& decompressed(root_directory(w), compression_id(w.0)) == Some(
        directory_bytes(layout_entries(w.2, w.1, order)),
    )
    &&& forall|k: int|
        0 <= k < order.len() ==> decompressed(
            #[trigger] stored_tile(w.2, w.1, order, k),
            compression_id(w.1),
        ) == Some(w.2[order[k].1 as int].1)
}

/// Builds a `.pmtiles` archive in memory from tiles added one at a time.
///
/// This is a basic writer: it emits a single root directory (no leaf
/// directories), so it suits small archives, not large general-purpose
/// tilesets.
pub struct PmTilesWriter {
    internal_compression: Compression,
    tile_compression: Compression,
    tiles: Vec<(u64, Vec<u8>)>,
}

impl View for PmTilesWriter {
    /// Directory compression, tile compression, and the tiles added so far
    /// (tile id and bytes) in the order they were added.
    type V = (Compression, Compression, Seq<(u64, Seq<u8>)>);

    closed spec fn view(&self) -> Self::V {
        (
            self.internal_compression,
            self.tile_compression,
            self.tiles@.map_values(|t: (u64, Vec<u8>)| (t.0, t.1@)),
        )
    }
}

/// A longer prefix of the tile data is no shorter.
pub proof fn lemma_data_prefix_len(
    tiles: Seq<(u64, Seq<u8>)>,
    tc: Compression,
    order: Seq<(u64, usize)>,
    k: nat,
    m: nat,
)
    requires
        k <= m,
    ensures
        data_prefix(tiles, tc, order, k).len() <= data_prefix(tiles, tc, order, m).len(),
    decreases m,
{
    if k < m {
        lemma_data_prefix_len(tiles, tc, order, k, (m - 1) as nat);
    }
}

/// The layout of the written tiles is a directory the writer can encode:
/// ids in order, and every offset and end below `u64::MAX`.
pub proof fn lemma_layout_writable(
    tiles: Seq<(u64, Seq<u8>)>,
    tc: Compression,
    order: Seq<(u64, usize)>,
)
    requires
        order == tile_order(tiles),
        data_prefix(tiles, tc, order, order.len()).len() < u64::MAX,
    ensures
        writable(layout_entries(tiles, tc, order)),
{
    let es = layout_entries(tiles, tc, order);
    lemma_sort_props(tile_keys(tiles));
    assert forall|i: int| 0 < i < es.len() implies es[i - 1].0 <= #[trigger] es[i].0 by {
        assert(order[i - 1].0 <= order[i].0);
    }
    assert forall|i: int| 0 <= i < es.len() implies #[trigger] es[i].1 + es[i].2 <= u64::MAX
        && es[i].1 < u64::MAX by {
        lemma_data_prefix_len(tiles, tc, order, (i + 1) as nat, order.len());
        lemma_data_prefix_len(tiles, tc, order, i as nat, order.len());
    }
}

/// No element occurs twice in `s`.
pub open spec fn no_repeats<A>(s: Seq<A>) -> bool {
    forall|a: int, b: int| 0 <= a < b < s.len() ==> #[trigger] s[a] != #[trigger] s[b]
}

/// Insertion into sorted keys adds `x` once.
proof fn lemma_insert_no_repeats(s: Seq<(u64, usize)>, x: (u64, usize))
    requires
        keys_sorted(s),
        no_repeats(s),
        !s.contains(x),
    ensures
        no_repeats(insert_by_id(s, x)),
    decreases s.len(),
{
    let t = insert_by_id(s, x);
    if s.len() == 0 {
    } else if s.last().0 <= x.0 {
        assert forall|a: int, b: int| 0 <= a < b < t.len() implies #[trigger] t[a] != #[trigger] t[b] by {
            if b == s.len() {
                assert(s.contains(t[a]));
            }
        }
    } else {
        let r = s.drop_last();
        let l = s.last();
        assert(keys_sorted(r));
        assert(no_repeats(r));
        assert(!r.contains(x)) by {
            if r.contains(x) {
                let k = choose|k: int| 0 <= k < r.len() && r[k] == x;
                assert(s[k] == x);
            }
        }
        lemma_insert_no_repeats(r, x);
        lemma_insert_props(r, x);
        let u = insert_by_id(r, x);
        assert(t == u.push(l));
        assert(!u.contains(l)) by {
            if r.contains(l) {
                let k = choose|k: int| 0 <= k < r.len() && r[k] == l;
                assert(s[k] == s[s.len() - 1]);
            }
            assert(s[s.len() - 1] == l);
        }
        assert forall|a: int, b: int| 0 <= a < b < t.len() implies #[trigger] t[a] != #[trigger] t[b] by {
            if b == t.len() - 1 {
                assert(u[a] == t[a]);
            } else {
                assert(u[a] == t[a] && u[b] == t[b]);
            }
        }
    }
}

/// Sorting keys that do not repeat gives keys that do not repeat.
proof fn lemma_sort_no_repeats(keys: Seq<(u64, usize)>)
    requires
        no_repeats(keys),
    ensures
        no_repeats(sort_by_id(keys)),
    decreases keys.len(),
{
    if keys.len() > 0 {
        let r = keys.drop_last();
        assert(no_repeats(r));
        lemma_sort_no_repeats(r);
        lemma_sort_props(r);
        assert(!r.contains(keys.last())) by {
            if r.contains(keys.last()) {
                let k = choose|k: int| 0 <= k < r.len() && r[k] == keys.last();
                assert(keys[k] == keys[keys.len() - 1]);
            }
        }
        lemma_insert_no_repeats(sort_by_id(r), keys.last());
    }
}

/// The added tiles in the order they are written: by id, ties in the order
/// added.
pub open spec fn sorted_tiles(tiles: Seq<(u64, Seq<u8>)>) -> Seq<(u64, Seq<u8>)> {
    Seq::new(tile_order(tiles).len(), |k: int| tiles[tile_order(tiles)[k].1 as int])
}

/// Each written position names an added tile by its id and position, and
/// the written tiles are exactly the added ones.
proof fn lemma_sorted_tiles(tiles: Seq<(u64, Seq<u8>)>)
    requires
        tiles.len() <= usize::MAX,
    ensures
        sorted_tiles(tiles).len() == tiles.len(),
        forall|k: int|
            0 <= k < tiles.len() ==> (#[trigger] tile_order(tiles)[k]).1 < tiles.len()
                && tile_order(tiles)[k].0 == tiles[tile_order(tiles)[k].1 as int].0,
        forall|a: int, b: int|
            0 <= a <= b < tiles.len() ==> #[trigger] sorted_tiles(tiles)[a].0
                <= #[trigger] sorted_tiles(tiles)[b].0,
        forall|e: (u64, Seq<u8>)| #[trigger] sorted_tiles(tiles).contains(e) <==> tiles.contains(e),
{
    let keys = tile_keys(tiles);
    let order = tile_order(tiles);
    let st = sorted_tiles(tiles);
    lemma_sort_props(keys);
    assert forall|k: int| 0 <= k < tiles.len() implies (#[trigger] order[k]).1 < tiles.len()
        && order[k].0 == tiles[order[k].1 as int].0 by {
        assert(order.contains(order[k]));
        let i = choose|i: int| 0 <= i < keys.len() && keys[i] == order[k];
    }
    assert forall|e: (u64, Seq<u8>)| #[trigger] st.contains(e) <==> tiles.contains(e) by {
        if st.contains(e) {
            let k = choose|k: int| 0 <= k < st.len() && st[k] == e;
            assert(order.contains(order[k]));
            let i = choose|i: int| 0 <= i < keys.len() && keys[i] == order[k];
            assert(tiles[i] == e);
        }
        if tiles.contains(e) {
            let i = choose|i: int| 0 <= i < tiles.len() && tiles[i] == e;
            assert(keys[i] == (tiles[i].0, i as usize));
            assert(keys.contains(keys[i]));
            assert(order.contains(keys[i]));
            let k = choose|k: int| 0 <= k < order.len() && order[k] == keys[i];
            assert(order[k].1 as int == i);
            assert(st[k] == tiles[i]);
        }
    }
}

/// Where the added tiles have distinct ids, the written tiles have strictly
/// rising ids.
proof fn lemma_sorted_tiles_strict(tiles: Seq<(u64, Seq<u8>)>)
    requires
        tiles.len() <= usize::MAX,
        forall|i: int, j: int| 0 <= i < j < tiles.len() ==> #[trigger] tiles[i].0 != #[trigger] tiles[j].0,
    ensures
        forall|a: int, b: int|
            0 <= a < b < tiles.len() ==> #[trigger] sorted_tiles(tiles)[a].0
                < #[trigger] sorted_tiles(tiles)[b].0,
{
    let keys = tile_keys(tiles);
    let order = tile_order(tiles);
    let st = sorted_tiles(tiles);
    lemma_sorted_tiles(tiles);
    assert(no_repeats(keys)) by {
        assert forall|a: int, b: int| 0 <= a < b < keys.len() implies #[trigger] keys[a]
            != #[trigger] keys[b] by {
            assert(keys[a].1 == a as usize && keys[b].1 == b as usize);
        }
    }
    lemma_sort_no_repeats(keys);
    assert forall|a: int, b: int| 0 <= a < b < tiles.len() implies #[trigger] st[a].0
        < #[trigger] st[b].0 by {
        assert(st[a].0 <= st[b].0);
        let ia = order[a].1 as int;
        let ib = order[b].1 as int;
        if st[a].0 == st[b].0 {
            assert(order[a].0 == tiles[ia].0);
            assert(order[b].0 == tiles[ib].0);
            if ia < ib {
                assert(tiles[ia].0 != tiles[ib].0);
            } else if ib < ia {
                assert(tiles[ib].0 != tiles[ia].0);
            }
            assert(order[a] == order[b]);
            assert(order[a] != order[b]);
        }
    }
}

/// Two lists of tiles with strictly rising ids and the same elements are
/// the same list.
proof fn lemma_strictly_sorted_unique(s1: Seq<(u64, Seq<u8>)>, s2: Seq<(u64, Seq<u8>)>)
    requires
        s1.len() == s2.len(),
        forall|a: int, b: int| 0 <= a < b < s1.len() ==> #[trigger] s1[a].0 < #[trigger] s1[b].0,
        forall|a: int, b: int| 0 <= a < b < s2.len() ==> #[trigger] s2[a].0 < #[trigger] s2[b].0,
        forall|e: (u64, Seq<u8>)| #[trigger] s1.contains(e) <==> s2.contains(e),
    ensures
        s1 == s2,
    decreases s1.len(),
{
    if s1.len() > 0 {
        let n = s1.len() - 1;
        assert(s1.contains(s1[n]));
        assert(s2.contains(s1[n]));
        let j = choose|j: int| 0 <= j < s2.len() && s2[j] == s1[n];
        assert(s2.contains(s2[n]));
        assert(s1.contains(s2[n]));
        let i = choose|i: int| 0 <= i < s1.len() && s1[i] == s2[n];
        if j < n {
            assert(s2[j].0 < s2[n].0);
            if i < n {
                assert(s1[i].0 < s1[n].0);
            }
        }
        assert(j == n);
        let r1 = s1.drop_last();
        let r2 = s2.drop_last();
        assert forall|e: (u64, Seq<u8>)| #[trigger] r1.contains(e) <==> r2.contains(e) by {
            if r1.contains(e) {
                let k = choose|k: int| 0 <= k < r1.len() && r1[k] == e;
                assert(s1[k] == e);
                assert(s1.contains(e));
                assert(s2.contains(e));
                let m = choose|m: int| 0 <= m < s2.len() && s2[m] == e;
                if m == n {
                    assert(s1[k].0 < s1[n].0);
                }
                assert(r2[m] == e);
            }
            if r2.contains(e) {
                let k = choose|k: int| 0 <= k < r2.len() && r2[k] == e;
                assert(s2[k] == e);
                assert(s2.contains(e));
                assert(s1.contains(e));
                let m = choose|m: int| 0 <= m < s1.len() && s1[m] == e;
                if m == n {
                    assert(s2[k].0 < s2[n].0);
                }
                assert(r1[m] == e);
            }
        }
        lemma_strictly_sorted_unique(r1, r2);
        assert(s1 =~= r1.push(s1[n]));
        assert(s2 =~= r2.push(s2[n]));
    }
}

/// The layout of the written tiles depends only on the written tiles in
/// write order.
proof fn lemma_layout_by_sorted(
    t1: Seq<(u64, Seq<u8>)>,
    t2: Seq<(u64, Seq<u8>)>,
    tc: Compression,
    k: nat,
)
    requires
        t1.len() <= usize::MAX,
        t2.len() <= usize::MAX,
        sorted_tiles(t1) == sorted_tiles(t2),
        k <= t1.len(),
    ensures
        data_prefix(t1, tc, tile_order(t1), k) == data_prefix(t2, tc, tile_order(t2), k),
    decreases k,
{
    lemma_sorted_tiles(t1);
    lemma_sorted_tiles(t2);
    if k > 0 {
        lemma_layout_by_sorted(t1, t2, tc, (k - 1) as nat);
        assert(sorted_tiles(t1)[k - 1] == sorted_tiles(t2)[k - 1]);
    }
}

/// The archive does not depend on the order in which tiles with distinct
/// ids were added: writers with the same compressions and the same tiles
/// build the same bytes, and `try_build` fails for both or for neither.
pub proof fn lemma_build_ignores_add_order(
    w1: (Compression, Compression, Seq<(u64, Seq<u8>)>),
    w2: (Compression, Compression, Seq<(u64, Seq<u8>)>),
)
    requires
        w1.0 == w2.0,
        w1.1 == w2.1,
        w1.2.len() <= usize::MAX,
        w1.2.to_multiset() == w2.2.to_multiset(),
        forall|i: int, j: int| 0 <= i < j < w1.2.len() ==> #[trigger] w1.2[i].0 != #[trigger] w1.2[j].0,
        forall|i: int, j: int| 0 <= i < j < w2.2.len() ==> #[trigger] w2.2[i].0 != #[trigger] w2.2[j].0,
    ensures
        archive_bytes(w1) == archive_bytes(w2),
        data_fits(w1) == data_fits(w2),
{
    let t1 = w1.2;
    let t2 = w2.2;
    t1.to_multiset_ensures();
    t2.to_multiset_ensures();
    lemma_sorted_tiles(t1);
    lemma_sorted_tiles(t2);
    lemma_sorted_tiles_strict(t1);
    lemma_sorted_tiles_strict(t2);
    assert forall|e: (u64, Seq<u8>)| #[trigger] sorted_tiles(t1).contains(e) <==> sorted_tiles(
        t2,
    ).contains(e) by {
        assert(t1.contains(e) <==> t1.to_multiset().count(e) > 0);
        assert(t2.contains(e) <==> t2.to_multiset().count(e) > 0);
    }
    lemma_strictly_sorted_unique(sorted_tiles(t1), sorted_tiles(t2));
    let o1 = tile_order(t1);
    let o2 = tile_order(t2);
    lemma_layout_by_sorted(t1, t2, w1.1, t1.len());
    assert forall|k: int| 0 <= k < t1.len() implies #[trigger] layout_entries(t1, w1.1, o1)[k]
        == layout_entries(t2, w2.1, o2)[k] by {
        lemma_layout_by_sorted(t1, t2, w1.1, k as nat);
        assert(sorted_tiles(t1)[k] == sorted_tiles(t2)[k]);
    }
    assert(layout_entries(t1, w1.1, o1) =~= layout_entries(t2, w2.1, o2));
    assert(tile_data(w1) == tile_data(w2));
    assert(root_directory(w1) == root_directory(w2));
}

/// Puts the header in front of the root directory and the tile data.
fn assemble(dir: Vec<u8>, tile_data: Vec<u8>, ic: u8, tc: u8) -> (out: Vec<u8>)
    ensures
        out@ == header_bytes(dir@.len() as u64, tile_data@.len() as u64, ic, tc) + dir@
            + tile_data@,
{
    let mut dir = dir;
    let mut tile_data = tile_data;
    let dir_len = dir.len();
    let data_len = tile_data.len();
    let mut out: Vec<u8> = Vec::new();
    let mut i: usize = 0;
    while i < HEADER_LEN
        invariant
            i <= HEADER_LEN,
            out@ == zeros(i as nat),
        decreases HEADER_LEN - i,
    {
        out.push(0);
        i = i + 1;
        assert(out@ =~= zeros(i as nat));
    }
    let ghost dir_view = dir@;
    let ghost data_view = tile_data@;
    out.append(&mut dir);
    out.append(&mut tile_data);
    let len = out.len();
    proof {
        assert(out@.subrange(0, 127) =~= zeros(127));
        assert(out@.subrange(127, out@.len() as int) =~= dir_view + data_view);
    }
    write_header(&mut out, dir_len as u64, data_len as u64, ic, tc);
    proof {
        assert(out@ =~= header_bytes(dir_len as u64, data_len as u64, ic, tc) + dir_view
            + data_view);
    }
    out
}

impl PmTilesWriter {
    /// A writer holds at most `usize::MAX` tiles: they sit in one `Vec`.
    pub proof fn lemma_tile_count(&self)
        ensures
            self@.2.len() <= usize::MAX,
    {
        assert(self.tiles.len() == self.tiles@.len());
    }

    /// Creates a writer that gzip-compresses both tiles and directories.
    pub fn new() -> (w: PmTilesWriter)
        ensures
            w@ == (Compression::Gzip, Compression::Gzip, Seq::<(u64, Seq<u8>)>::empty()),
    {
        Self::with_compression(Compression::Gzip, Compression::Gzip)
    }

    /// Creates a writer with explicit compression for directories
    /// (`internal_compression`) and tile data (`tile_compression`).
    pub fn with_compression(internal_compression: Compression, tile_compression: Compression) -> (w:
        PmTilesWriter)
        ensures
            w@ == (internal_compression, tile_compression, Seq::<(u64, Seq<u8>)>::empty()),
    {
        let w = PmTilesWriter { internal_compression, tile_compression, tiles: Vec::new() };
        assert(w@.2 =~= Seq::<(u64, Seq<u8>)>::empty());
        w
    }

    /// Adds a tile at zoom `z`, column `x`, row `y` with the given raw bytes.
    /// The bytes are compressed per the writer's tile compression on `build`.
    pub fn add_tile(&mut self, z: u8, x: u32, y: u32, data: Vec<u8>)
        requires
            z < 32 || (z == 32 && x < 0x8000_0000),
        ensures
            final(self)@ == (old(self)@.0, old(self)@.1, old(self)@.2.push(
                (tile_id_of(z as nat, x, y) as u64, data@),
            )),
    {
        let id = zxy_to_tile_id(z, x, y);
        let ghost data_view = data@;
        self.tiles.push((id, data));
        assert(self@.2 =~= old(self)@.2.push((id, data_view)));
    }

    /// Compresses the tiles in write order and lays them out one after the
    /// other, with a directory entry for each.
    fn lay_out_tiles(&self, order: &Vec<(u64, usize)>) -> (res: (Vec<u8>, Vec<(u64, u64, u32)>))
        requires
            order@ == tile_order(self@.2),
        ensures
            res.0@ == tile_data(self@),
            res.1@ == layout_entries(self@.2, self@.1, order@),
            forall|k: int|
                0 <= k < order@.len() ==> decompressed(
                    #[trigger] stored_tile(self@.2, self@.1, order@, k),
                    compression_id(self@.1),
                ) == Some(self@.2[order@[k].1 as int].1),
    {
        let ghost tv = self@.2;
        let ghost tc = self.tile_compression;
        proof {
            assert(tile_keys(tv) =~= Seq::new(
                self.tiles@.len(),
                |i: int| (self.tiles@[i].0, i as usize),
            ));
            lemma_sort_props(tile_keys(tv));
        }
        let ghost ord = order@;
        let mut tile_data: Vec<u8> = Vec::new();
        let mut entries: Vec<(u64, u64, u32)> = Vec::new();
        let mut k: usize = 0;
        while k < order.len()
            invariant
                tv == self@.2,
                tc == self.tile_compression,
                tc == self@.1,
                ord == order@,
                ord == tile_order(tv),
                ord.len() == tv.len(),
                tv.len() == self.tiles@.len(),
                forall|i: int| 0 <= i < tv.len() ==> #[trigger] tv[i] == (self.tiles@[i].0, self.tiles@[i].1@),
                forall|y: (u64, usize)| #[trigger] ord.contains(y) <==> tile_keys(tv).contains(y),
                k <= ord.len(),
                tile_data@ == data_prefix(tv, tc, ord, k as nat),
                entries@ == layout_entries(tv, tc, ord).take(k as int),
                forall|j: int|
                    0 <= j < k ==> decompressed(
                        #[trigger] stored_tile(tv, tc, ord, j),
                        compression_id(tc),
                    ) == Some(tv[ord[j].1 as int].1),
            decreases ord.len() - k,
        {
            let (id, idx) = order[k];
            proof {
                assert(ord.contains(ord[k as int]));
                let j = choose|j: int|
                    0 <= j < tile_keys(tv).len() && tile_keys(tv)[j] == ord[k as int];
                assert(idx == j);
            }
            let mut body = compress(self.tiles[idx].1.as_slice(), self.tile_compression);
            let offset = tile_data.len() as u64;
            let length = (body.len() as u64 % 0x1_0000_0000) as u32;
            proof {
                assert(body@ == stored_tile(tv, tc, ord, k as int));
                assert(layout_entries(tv, tc, ord)[k as int] == (id, offset, length));
                assert(layout_entries(tv, tc, ord).take(k + 1) =~= entries@.push(
                    (id, offset, length),
                ));
            }
            entries.push((id, offset, length));
            tile_data.append(&mut body);
            k = k + 1;
        }
        proof {
            assert(layout_entries(tv, tc, ord).take(k as int) =~= layout_entries(tv, tc, ord));
        }
        (tile_data, entries)
    }

    /// Serializes the added tiles into a complete archive, or gives `None`
    /// where the tile data would reach `u64::MAX` bytes.
    pub fn try_build(&self) -> (res: Option<Vec<u8>>)
        ensures
            match res {
                Some(out) => data_fits(self@) && out@ == archive_bytes(self@) && decodes_back(self@),
                None => !data_fits(self@),
            },
    {
        let order = sort_tiles(&self.tiles);
        proof {
            assert(tile_keys(self@.2) =~= Seq::new(
                self.tiles@.len(),
                |i: int| (self.tiles@[i].0, i as usize),
            ));
        }
        let (tile_data, entries) = self.lay_out_tiles(&order);
        let data_len = tile_data.len();
        if data_len as u64 == u64::MAX {
            return None;
        }
        proof {
            lemma_layout_writable(self@.2, self@.1, order@);
        }
        let dir_raw = serialize_directory(entries.as_slice());
        let dir = compress(dir_raw.as_slice(), self.internal_compression);
        let out = assemble(
            dir,
            tile_data,
            self.internal_compression.id(),
            self.tile_compression.id(),
        );
        Some(out)
    }

    /// Serializes the added tiles into a complete archive and returns its
    /// bytes. The tile data must stay below `u64::MAX` bytes, which verified
    /// callers cannot show for gzip-compressed tiles, whose compressed size
    /// no contract states: `try_build` is the entry point for them, and says
    /// in its result whether the data fit.
    pub fn build(&self) -> (out: Vec<u8>)
        requires
            data_fits(self@),
        ensures
            out@ == archive_bytes(self@),
            decodes_back(self@),
    {
        match self.try_build() {
            Some(out) => out,
            None => Vec::new(),
        }
    }
}

} // verus!
