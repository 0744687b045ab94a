//! Finding the entry for a tile id in a directory, by binary search over
//! entries in id order.

use vstd::prelude::*;
use crate::directory::Entry;

verus! {

/// Entry ids never decrease along `entries`.
pub open spec fn ids_sorted(entries: Seq<Entry>) -> bool {
    forall|i: int, j: int|
        0 <= i <= j < entries.len() ==> #[trigger] entries[i].tile_id <= #[trigger] entries[j].tile_id
}

/// Some entry has exactly the tile id `id`.
pub open spec fn has_id(entries: Seq<Entry>, id: u64) -> bool {
    exists|k: int| 0 <= k < entries.len() && #[trigger] entries[k].tile_id == id
}

/// The index of the last entry whose tile id is below `id`, or -1 if none is.
pub open spec fn last_below(entries: Seq<Entry>, id: u64) -> int
    decreases entries.len(),
{
    if entries.len() == 0 {
        -1
    } else if entries.last().tile_id < id {
        entries.len() - 1
    } else {
        last_below(entries.drop_last(), id)
    }
}

/// Where no entry has tile id `id`: the last entry below `id`, if it points
/// to a leaf directory or its run of tiles reaches `id`.
pub open spec fn covering_entry(entries: Seq<Entry>, id: u64) -> Option<Entry> {
    let n = last_below(entries, id);
    if n < 0 {
        None
    } else {
        let e = entries[n];
        if e.run_length == 0 || id - e.tile_id < e.run_length {
            Some(e)
        } else {
            None
        }
    }
}

/// The index binary search lands on when it looks for `id` in
/// `entries[lo..hi]`: it probes the middle entry (the lower one of two), and
/// goes right of it, left of it, or stops there. `None` where no probed
/// entry has that id.
pub open spec fn search_index(entries: Seq<Entry>, id: u64, lo: int, hi: int) -> Option<int>
    decreases hi - lo,
{
    if lo >= hi {
        None
    } else {
        let k = lo + (hi - 1 - lo) / 2;
        if id > entries[k].tile_id {
            search_index(entries, id, k + 1, hi)
        } else if id < entries[k].tile_id {
            search_index(entries, id, lo, k)
        } else {
            Some(k)
        }
    }
}

/// Where binary search for `id` in `entries[lo..hi]` stops when no probed
/// entry has that id: the end of the range it has narrowed down to.
pub open spec fn search_stop(entries: Seq<Entry>, id: u64, lo: int, hi: int) -> int
    decreases hi - lo,
{
    if lo >= hi {
        hi
    } else {
        let k = lo + (hi - 1 - lo) / 2;
        if id > entries[k].tile_id {
            search_stop(entries, id, k + 1, hi)
        } else if id < entries[k].tile_id {
            search_stop(entries, id, lo, k)
        } else {
            hi
        }
    }
}

/// The entry just before where the search stopped, if it points to a leaf
/// directory or its run of tiles reaches `id`.
pub open spec fn entry_before_stop(entries: Seq<Entry>, id: u64) -> Option<Entry> {
    let n = search_stop(entries, id, 0, entries.len() as int) - 1;
    if n < 0 {
        None
    } else {
        let e = entries[n];
        if e.run_length == 0 || id - e.tile_id < e.run_length {
            Some(e)
        } else {
            None
        }
    }
}

/// The entry a lookup of `id` in `entries` finds: the entry binary search
/// lands on, or else the entry just before where it stopped, if that one
/// covers `id`.
pub open spec fn find_entry(entries: Seq<Entry>, id: u64) -> Option<Entry> {
    match search_index(entries, id, 0, entries.len() as int) {
        Some(k) => Some(entries[k]),
        None => entry_before_stop(entries, id),
    }
}

/// The search never compares the run of an entry above `id` with `id`: where
/// it stops without a match, the entry before is a leaf pointer or not above
/// `id`. Every list of entries satisfies this (`lemma_search_in_range`).
pub open spec fn search_in_range(entries: Seq<Entry>, id: u64) -> bool {
    let n = search_stop(entries, id, 0, entries.len() as int) - 1;
    search_index(entries, id, 0, entries.len() as int) is None ==> (n < 0 || entries[n].run_length
        == 0 || entries[n].tile_id <= id)
}

/// What a lookup of `id` in `entries` in id order comes to: an entry with
/// exactly that id where there is one, else the covering entry.
pub open spec fn lookup_result(entries: Seq<Entry>, id: u64, found: Option<Entry>) -> bool {
    if has_id(entries, id) {
        found matches Some(e) && e.tile_id == id && exists|k: int|
            0 <= k < entries.len() && #[trigger] entries[k] == e
    } else {
        found == covering_entry(entries, id)
    }
}

/// Binary search over entries in id order stays within its range, and
/// finds an entry exactly where one in that range has the id.
pub proof fn lemma_search_index(entries: Seq<Entry>, id: u64, lo: int, hi: int)
    requires
        ids_sorted(entries),
        0 <= lo <= hi <= entries.len(),
    ensures
        search_index(entries, id, lo, hi) matches Some(k) ==> lo <= k < hi && entries[k].tile_id
            == id,
        search_index(entries, id, lo, hi) is None ==> forall|k: int|
            lo <= k < hi ==> #[trigger] entries[k].tile_id != id,
    decreases hi - lo,
{
    if lo < hi {
        let k = lo + (hi - 1 - lo) / 2;
        if id > entries[k].tile_id {
            lemma_search_index(entries, id, k + 1, hi);
            assert forall|j: int| lo <= j <= k implies #[trigger] entries[j].tile_id != id by {
                assert(entries[j].tile_id <= entries[k].tile_id);
            }
        } else if id < entries[k].tile_id {
            lemma_search_index(entries, id, lo, k);
            assert forall|j: int| k <= j < hi implies #[trigger] entries[j].tile_id != id by {
                assert(entries[k].tile_id <= entries[j].tile_id);
            }
        }
    }
}

/// The entry found is an entry with the id sought where one exists, and the
/// covering entry otherwise.
pub proof fn lemma_find_entry(entries: Seq<Entry>, id: u64)
    requires
        ids_sorted(entries),
    ensures
        lookup_result(entries, id, find_entry(entries, id)),
{
    lemma_search_index(entries, id, 0, entries.len() as int);
    if let Some(k) = search_index(entries, id, 0, entries.len() as int) {
        assert(entries[k].tile_id == id);
        assert(has_id(entries, id));
    } else {
        assert(!has_id(entries, id));
        lemma_search_stop(entries, id, 0, entries.len() as int);
        let m = search_stop(entries, id, 0, entries.len() as int);
        lemma_last_below_split(entries, id, m);
    }
}

/// Where the search finds no match, every entry before its stop is below
/// `id` and every entry from there on is above it.
pub proof fn lemma_search_stop(entries: Seq<Entry>, id: u64, lo: int, hi: int)
    requires
        ids_sorted(entries),
        0 <= lo <= hi <= entries.len(),
        forall|k: int| 0 <= k < lo ==> #[trigger] entries[k].tile_id < id,
        forall|k: int| hi <= k < entries.len() ==> #[trigger] entries[k].tile_id > id,
        search_index(entries, id, lo, hi) is None,
    ensures
        0 <= search_stop(entries, id, lo, hi) <= entries.len(),
        forall|k: int| 0 <= k < search_stop(entries, id, lo, hi) ==> #[trigger] entries[k].tile_id < id,
        forall|k: int|
            search_stop(entries, id, lo, hi) <= k < entries.len() ==> #[trigger] entries[k].tile_id > id,
    decreases hi - lo,
{
    if lo < hi {
        let k = lo + (hi - 1 - lo) / 2;
        if id > entries[k].tile_id {
            assert forall|j: int| 0 <= j < k + 1 implies #[trigger] entries[j].tile_id < id by {
                assert(entries[j].tile_id <= entries[k].tile_id);
            }
            lemma_search_stop(entries, id, k + 1, hi);
        } else if id < entries[k].tile_id {
            assert forall|j: int| k <= j < entries.len() implies #[trigger] entries[j].tile_id > id by {
                assert(entries[k].tile_id <= entries[j].tile_id);
            }
            lemma_search_stop(entries, id, lo, k);
        }
    }
}

/// With every entry before `m` below `id` and every entry from `m` on above
/// it, the last entry below `id` is the one before `m`.
pub proof fn lemma_last_below_split(entries: Seq<Entry>, id: u64, m: int)
    requires
        0 <= m <= entries.len(),
        forall|k: int| 0 <= k < m ==> #[trigger] entries[k].tile_id < id,
        forall|k: int| m <= k < entries.len() ==> #[trigger] entries[k].tile_id > id,
    ensures
        last_below(entries, id) == m - 1,
    decreases entries.len(),
{
    if entries.len() > 0 {
        let last = entries.len() - 1;
        if m <= last {
            assert(entries.last().tile_id > id);
            let rest = entries.drop_last();
            assert forall|k: int| 0 <= k < m implies #[trigger] rest[k].tile_id < id by {
                assert(rest[k] == entries[k]);
            }
            assert forall|k: int| m <= k < rest.len() implies #[trigger] rest[k].tile_id > id by {
                assert(rest[k] == entries[k]);
            }
            lemma_last_below_split(rest, id, m);
        } else {
            assert(entries.last().tile_id < id);
        }
    }
}

/// Where the search over `entries[lo..hi]` stops without a match, the entry
/// before its stop, if any, was probed and found below `id`.
proof fn lemma_stop_below(entries: Seq<Entry>, id: u64, lo: int, hi: int)
    requires
        0 <= lo <= hi <= entries.len(),
        lo == 0 || entries[lo - 1].tile_id < id,
        search_index(entries, id, lo, hi) is None,
    ensures
        lo <= search_stop(entries, id, lo, hi) <= hi,
        search_stop(entries, id, lo, hi) == 0 || entries[search_stop(entries, id, lo, hi)
            - 1].tile_id < id,
    decreases hi - lo,
{
    if lo < hi {
        let k = lo + (hi - 1 - lo) / 2;
        if id > entries[k].tile_id {
            lemma_stop_below(entries, id, k + 1, hi);
        } else if id < entries[k].tile_id {
            lemma_stop_below(entries, id, lo, k);
        }
    }
}

/// The search keeps within range on any entries, in id order or not: where
/// it stops without a match, the entry before its stop is below `id`.
pub proof fn lemma_search_in_range(entries: Seq<Entry>, id: u64)
    ensures
        search_in_range(entries, id),
{
    if search_index(entries, id, 0, entries.len() as int) is None {
        lemma_stop_below(entries, id, 0, entries.len() as int);
    }
}

/// Finds the entry for tile `tile_id` by binary search: the entry with
/// exactly that id that the search lands on, or else the entry just before
/// where the search stopped, when that entry is a leaf pointer or its run
/// covers the id. Over entries in id order this is an entry with that id, or
/// the last entry below it if it covers the id.
pub fn find_tile(entries: &[Entry], tile_id: u64) -> (found: Option<Entry>)
    ensures
        found == find_entry(entries@, tile_id),
        ids_sorted(entries@) ==> lookup_result(entries@, tile_id, found),
{
    proof {
        lemma_search_in_range(entries@, tile_id);
        if ids_sorted(entries@) {
            lemma_find_entry(entries@, tile_id);
        }
    }
    let mut lo: usize = 0;
    let mut hi: usize = entries.len();
    while lo < hi
        invariant
            lo <= hi <= entries@.len(),
            search_index(entries@, tile_id, lo as int, hi as int) == search_index(
                entries@,
                tile_id,
                0,
                entries@.len() as int,
            ),
            search_stop(entries@, tile_id, lo as int, hi as int) == search_stop(
                entries@,
                tile_id,
                0,
                entries@.len() as int,
            ),
        decreases hi - lo,
    {
        let k = lo + (hi - 1 - lo) / 2;
        let entry_id = entries[k].tile_id;
        if tile_id > entry_id {
            lo = k + 1;
        } else if tile_id < entry_id {
            hi = k;
        } else {
            return Some(entries[k]);
        }
    }
    if hi > 0 {
        let e = entries[hi - 1];
        if e.run_length == 0 {
            return Some(e);
        }
        if tile_id - e.tile_id < e.run_length as u64 {
            return Some(e);
        }
    }
    None
}

} // verus!
