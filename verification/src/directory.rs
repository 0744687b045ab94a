//! Directories: the varint-encoded tables that map tile ids to byte ranges.
//!
//! A directory is a count `n` followed by four columns of `n` varints each:
//! tile-id deltas, run lengths, lengths, and offsets. An offset of 0 on any
//! entry but the first means "right after the previous entry"; any other
//! offset is stored plus one.

use vstd::prelude::*;
use crate::error::PmTilesError;
use crate::varint::{
    decode_varint, encode_varint, lemma_decode_extend, lemma_decode_len, lemma_tail_extend,
    lemma_tail_tail, lemma_varint_roundtrip, read_varint, tail, write_varint,
};

verus! {

/// One directory entry: a run of `run_length` tiles starting at `tile_id`
/// whose data is `length` bytes at `offset`, or, with `run_length` 0, a leaf
/// directory at `offset` covering the ids from `tile_id` on.
#[derive(Clone, Copy, Debug)]
pub struct Entry {
    pub tile_id: u64,
    pub offset: u64,
    pub length: u32,
    pub run_length: u32,
}

/// 2^32, the modulus of `u32` arithmetic.
pub open spec fn two_pow_32() -> nat {
    0x1_0000_0000
}

/// The position in `s` after its first `k` varints, if `s` starts with `k`
/// well-formed varints.
pub open spec fn varint_pos(s: Seq<u8>, k: nat) -> Option<nat>
    decreases k,
{
    if k == 0 {
        Some(0)
    } else {
        match varint_pos(s, (k - 1) as nat) {
            Some(p) => match decode_varint(tail(s, p as int)) {
                Some((_, n)) => Some(p + n),
                None => None,
            },
            None => None,
        }
    }
}

/// The value of the varint numbered `k` (from 0) in `s`.
pub open spec fn varint_at(s: Seq<u8>, k: nat) -> u64 {
    match varint_pos(s, k) {
        Some(p) => match decode_varint(tail(s, p as int)) {
            Some((v, _)) => v,
            None => 0,
        },
        None => 0,
    }
}

/// The tile id of entry `i`: the sum of the first `i + 1` deltas of the body `b`.
pub open spec fn id_sum(b: Seq<u8>, i: nat) -> int
    decreases i,
{
    if i == 0 {
        varint_at(b, 0) as int
    } else {
        id_sum(b, (i - 1) as nat) + varint_at(b, i) as int
    }
}

/// The run length of entry `i` of a body of `num` entries.
pub open spec fn run_length_at(b: Seq<u8>, num: nat, i: nat) -> nat {
    varint_at(b, num + i) as nat % two_pow_32()
}

/// The length of entry `i` of a body of `num` entries.
pub open spec fn length_at(b: Seq<u8>, num: nat, i: nat) -> nat {
    varint_at(b, 2 * num + i) as nat % two_pow_32()
}

/// The offset of entry `i` of a body of `num` entries: a stored 0 (but on the
/// first entry) continues from the previous entry, any other value is the
/// offset plus one.
pub open spec fn offset_at(b: Seq<u8>, num: nat, i: nat) -> int
    decreases i,
{
    let v = varint_at(b, 3 * num + i);
    if v == 0 && i > 0 {
        offset_at(b, num, (i - 1) as nat) + length_at(b, num, (i - 1) as nat)
    } else {
        v - 1
    }
}

/// A body of `num` entries is well formed: it holds all `4 * num` varints,
/// the ids fit in 64 bits, and every offset lies in `0..=u64::MAX`.
pub open spec fn body_ok(b: Seq<u8>, num: nat) -> bool {
    &&& varint_pos(b, 4 * num) is Some
    &&& num > 0 ==> id_sum(b, (num - 1) as nat) <= u64::MAX
    &&& forall|i: nat| i < num ==> 0 <= #[trigger] offset_at(b, num, i) <= u64::MAX
}

/// Entry `i` of a body of `num` entries.
pub open spec fn entry_at(b: Seq<u8>, num: nat, i: nat) -> Entry {
    Entry {
        tile_id: id_sum(b, i) as u64,
        offset: offset_at(b, num, i) as u64,
        length: length_at(b, num, i) as u32,
        run_length: run_length_at(b, num, i) as u32,
    }
}

/// The entries of the directory encoded in `s`, or `None` where `s` is not a
/// well-formed directory. Bytes after the last varint are ignored.
#[verifier::opaque]
pub open spec fn parse_directory(s: Seq<u8>) -> Option<Seq<Entry>> {
    match decode_varint(s) {
        Some((num, n0)) => {
            let b = tail(s, n0 as int);
            if body_ok(b, num as nat) {
                Some(Seq::new(num as nat, |i: int| entry_at(b, num as nat, i as nat)))
            } else {
                None
            }
        },
        None => None,
    }
}

/// Once a varint is missing, every later one is missing too.
pub proof fn lemma_varint_pos_none(s: Seq<u8>, k: nat, m: nat)
    requires
        varint_pos(s, k) is None,
        k <= m,
    ensures
        varint_pos(s, m) is None,
    decreases m,
{
    if k < m {
        lemma_varint_pos_none(s, k, (m - 1) as nat);
    }
}

/// Bytes after the first `k` varints do not move them.
proof fn lemma_varint_pos_extend(s: Seq<u8>, extra: Seq<u8>, k: nat)
    requires
        varint_pos(s, k) is Some,
    ensures
        varint_pos(s + extra, k) == varint_pos(s, k),
        varint_pos(s, k).unwrap() <= s.len(),
    decreases k,
{
    if k > 0 {
        let j = (k - 1) as nat;
        if varint_pos(s, j) is None {
            lemma_varint_pos_none(s, j, k);
        }
        lemma_varint_pos_extend(s, extra, j);
        let p = varint_pos(s, j).unwrap();
        lemma_decode_len(tail(s, p as int));
        lemma_tail_extend(s, extra, p as int);
        lemma_decode_extend(tail(s, p as int), extra);
    }
}

/// Bytes after the first `k` varints do not change them.
proof fn lemma_varint_at_extend(s: Seq<u8>, extra: Seq<u8>, k: nat, j: nat)
    requires
        varint_pos(s, k) is Some,
        j < k,
    ensures
        varint_at(s + extra, j) == varint_at(s, j),
{
    if varint_pos(s, j + 1) is None {
        lemma_varint_pos_none(s, j + 1, k);
    }
    if varint_pos(s, j) is None {
        lemma_varint_pos_none(s, j, k);
    }
    lemma_varint_pos_extend(s, extra, j);
    let p = varint_pos(s, j).unwrap();
    lemma_tail_extend(s, extra, p as int);
    lemma_decode_extend(tail(s, p as int), extra);
}

/// Bytes after a body of `num` entries do not change the ids.
proof fn lemma_id_sum_extend(b: Seq<u8>, extra: Seq<u8>, num: nat, i: nat)
    requires
        varint_pos(b, 4 * num) is Some,
        i < num,
    ensures
        id_sum(b + extra, i) == id_sum(b, i),
    decreases i,
{
    lemma_varint_at_extend(b, extra, 4 * num, i);
    if i > 0 {
        lemma_id_sum_extend(b, extra, num, (i - 1) as nat);
    }
}

/// Bytes after a body of `num` entries do not change the offsets.
proof fn lemma_offset_at_extend(b: Seq<u8>, extra: Seq<u8>, num: nat, i: nat)
    requires
        varint_pos(b, 4 * num) is Some,
        i < num,
    ensures
        offset_at(b + extra, num, i) == offset_at(b, num, i),
    decreases i,
{
    lemma_varint_at_extend(b, extra, 4 * num, 3 * num + i);
    if i > 0 {
        lemma_varint_at_extend(b, extra, 4 * num, (2 * num + i - 1) as nat);
        lemma_offset_at_extend(b, extra, num, (i - 1) as nat);
    }
}

/// Bytes after the last varint of a directory do not change its parse:
/// `parse_directory` reads a prefix of what it is given.
pub proof fn lemma_parse_ignores_trailing(s: Seq<u8>, extra: Seq<u8>)
    requires
        parse_directory(s) is Some,
    ensures
        parse_directory(s + extra) == parse_directory(s),
{
    reveal(parse_directory);
    let (num, n0) = decode_varint(s).unwrap();
    lemma_decode_extend(s, extra);
    lemma_decode_len(s);
    let b = tail(s, n0 as int);
    lemma_tail_extend(s, extra, n0 as int);
    let b2 = tail(s + extra, n0 as int);
    let m = num as nat;
    assert(body_ok(b, m));
    lemma_varint_pos_extend(b, extra, 4 * m);
    assert forall|i: nat| i < m implies #[trigger] entry_at(b2, m, i) == entry_at(b, m, i) by {
        lemma_id_sum_extend(b, extra, m, i);
        lemma_offset_at_extend(b, extra, m, i);
        lemma_varint_at_extend(b, extra, 4 * m, m + i);
        lemma_varint_at_extend(b, extra, 4 * m, 2 * m + i);
    }
    assert forall|i: nat| i < m implies 0 <= #[trigger] offset_at(b2, m, i) <= u64::MAX by {
        lemma_offset_at_extend(b, extra, m, i);
    }
    if m > 0 {
        lemma_id_sum_extend(b, extra, m, (m - 1) as nat);
    }
    assert(body_ok(b2, m));
    assert(Seq::new(m, |i: int| entry_at(b2, m, i as nat)) =~= Seq::new(
        m,
        |i: int| entry_at(b, m, i as nat),
    ));
}

/// Ids never decrease along a body.
pub proof fn lemma_id_sum_monotone(b: Seq<u8>, i: nat, j: nat)
    requires
        i <= j,
    ensures
        id_sum(b, i) <= id_sum(b, j),
    decreases j,
{
    if i < j {
        lemma_id_sum_monotone(b, i, (j - 1) as nat);
    }
}

/// Reads the varint numbered `k` of the body that starts at `start`.
fn read_body_varint(data: &[u8], p: &mut usize, start: usize, Ghost(k): Ghost<nat>) -> (res:
    Result<u64, PmTilesError>)
    requires
        start <= *old(p) <= data@.len(),
        varint_pos(tail(data@, start as int), k) == Some((*old(p) - start) as nat),
    ensures
        match res {
            Ok(v) => {
                &&& *old(p) < *final(p) <= data@.len()
                &&& varint_pos(tail(data@, start as int), k + 1) == Some((*final(p) - start) as nat)
                &&& varint_at(tail(data@, start as int), k) == v
            },
            Err(e) => {
                &&& e == PmTilesError::CorruptDirectory
                &&& varint_pos(tail(data@, start as int), k + 1) is None
            },
        },
{
    let ghost b = tail(data@, start as int);
    let ghost q = (*p - start) as int;
    proof {
        lemma_tail_tail(data@, start as int, q);
        lemma_decode_len(tail(data@, *p as int));
    }
    read_varint(data, p)
}

/// Reads `count` consecutive varints of the body that starts at `start`,
/// beginning with the one numbered `k0`.
fn read_column(data: &[u8], p: &mut usize, start: usize, count: u64, Ghost(k0): Ghost<nat>) -> (res:
    Result<Vec<u64>, PmTilesError>)
    requires
        start <= *old(p) <= data@.len(),
        varint_pos(tail(data@, start as int), k0) == Some((*old(p) - start) as nat),
    ensures
        match res {
            Ok(vals) => {
                &&& vals@.len() == count
                &&& start <= *final(p) <= data@.len()
                &&& varint_pos(tail(data@, start as int), (k0 + count) as nat) == Some(
                    (*final(p) - start) as nat,
                )
                &&& forall|j: int|
                    0 <= j < count ==> #[trigger] vals@[j] == varint_at(
                        tail(data@, start as int),
                        (k0 + j) as nat,
                    )
            },
            Err(e) => {
                &&& e == PmTilesError::CorruptDirectory
                &&& varint_pos(tail(data@, start as int), (k0 + count) as nat) is None
            },
        },
{
    let ghost b = tail(data@, start as int);
    let mut vals: Vec<u64> = Vec::new();
    let mut i: usize = 0;
    while (i as u64) < count
        invariant
            b == tail(data@, start as int),
            start <= *p <= data@.len(),
            i <= *p - start,
            i <= count,
            vals@.len() == i,
            varint_pos(b, (k0 + i) as nat) == Some((*p - start) as nat),
            forall|j: int| 0 <= j < i ==> #[trigger] vals@[j] == varint_at(b, (k0 + j) as nat),
        decreases count - i,
    {
        let v = match read_body_varint(data, p, start, Ghost((k0 + i) as nat)) {
            Ok(v) => v,
            Err(e) => {
                proof {
                    lemma_varint_pos_none(b, (k0 + i + 1) as nat, (k0 + count) as nat);
                }
                return Err(e);
            },
        };
        vals.push(v);
        i = i + 1;
    }
    Ok(vals)
}

/// Parses a directory: the count, then the id deltas, run lengths, lengths
/// and offsets of the entries, column by column.
#[verifier::rlimit(60)]
pub fn deserialize_directory(data: &[u8]) -> (res: Result<Vec<Entry>, PmTilesError>)
    ensures
        match parse_directory(data@) {
            Some(es) => res matches Ok(v) && v@ == es,
            None => res matches Err(e) && e == PmTilesError::CorruptDirectory,
        },
{
    reveal(parse_directory);
    let mut p: usize = 0;
    proof {
        lemma_decode_len(data@);
        assert(tail(data@, 0) =~= data@);
    }
    let num = match read_varint(data, &mut p) {
        Ok(v) => v,
        Err(e) => {
            return Err(e);
        },
    };
    let start = p;
    let ghost b = tail(data@, start as int);
    let ghost n = num as nat;
    assert(decode_varint(data@) == Some((num, start as nat)));
    assert(varint_pos(b, 0) == Some(0nat));
    let deltas = match read_column(data, &mut p, start, num, Ghost(0)) {
        Ok(v) => v,
        Err(e) => {
            proof {
                lemma_varint_pos_none(b, n, 4 * n);
            }
            return Err(e);
        },
    };
    let runs = match read_column(data, &mut p, start, num, Ghost(n)) {
        Ok(v) => v,
        Err(e) => {
            proof {
                lemma_varint_pos_none(b, 2 * n, 4 * n);
            }
            return Err(e);
        },
    };
    let lengths = match read_column(data, &mut p, start, num, Ghost(2 * n)) {
        Ok(v) => v,
        Err(e) => {
            proof {
                lemma_varint_pos_none(b, 3 * n, 4 * n);
            }
            return Err(e);
        },
    };
    let codes = match read_column(data, &mut p, start, num, Ghost(3 * n)) {
        Ok(v) => v,
        Err(e) => {
            return Err(e);
        },
    };
    let mut entries: Vec<Entry> = Vec::new();
    let mut last_id: u64 = 0;
    let mut i: usize = 0;
    while i < deltas.len()
        invariant
            b == tail(data@, start as int),
            n == num as nat,
            decode_varint(data@) == Some((num, start as nat)),
            varint_pos(b, 4 * n) is Some,
            deltas@.len() == n,
            runs@.len() == n,
            lengths@.len() == n,
            codes@.len() == n,
            forall|j: int| 0 <= j < n ==> #[trigger] deltas@[j] == varint_at(b, j as nat),
            forall|j: int| 0 <= j < n ==> #[trigger] runs@[j] == varint_at(b, (n + j) as nat),
            forall|j: int| 0 <= j < n ==> #[trigger] lengths@[j] == varint_at(b, (2 * n + j) as nat),
            forall|j: int| 0 <= j < n ==> #[trigger] codes@[j] == varint_at(b, (3 * n + j) as nat),
            i <= n,
            entries@.len() == i,
            i > 0 ==> last_id == id_sum(b, (i - 1) as nat),
            forall|j: int| 0 <= j < i ==> #[trigger] entries@[j] == entry_at(b, n, j as nat),
            forall|j: nat| j < i ==> 0 <= #[trigger] offset_at(b, n, j) <= u64::MAX,
        decreases n - i,
    {
        reveal(parse_directory);
        let id = if i == 0 {
            deltas[0]
        } else {
            match last_id.checked_add(deltas[i]) {
                Some(s) => s,
                None => {
                    proof {
                        lemma_id_sum_monotone(b, i as nat, (n - 1) as nat);
                    }
                    return Err(PmTilesError::CorruptDirectory);
                },
            }
        };
        let code = codes[i];
        let offset = if code == 0 && i > 0 {
            let prev = entries[i - 1];
            match prev.offset.checked_add(prev.length as u64) {
                Some(o) => o,
                None => {
                    proof {
                        assert(offset_at(b, n, i as nat) > u64::MAX);
                    }
                    return Err(PmTilesError::CorruptDirectory);
                },
            }
        } else if code == 0 {
            proof {
                assert(offset_at(b, n, 0) == -1);
            }
            return Err(PmTilesError::CorruptDirectory);
        } else {
            code - 1
        };
        let e = Entry {
            tile_id: id,
            offset,
            length: (lengths[i] % 0x1_0000_0000) as u32,
            run_length: (runs[i] % 0x1_0000_0000) as u32,
        };
        assert(e == entry_at(b, n, i as nat));
        entries.push(e);
        last_id = id;
        i = i + 1;
    }
    proof {
        if n > 0 {
            assert(last_id == id_sum(b, (n - 1) as nat));
        }
        assert(body_ok(b, n));
        assert(entries@ =~= Seq::new(n, |j: int| entry_at(b, n, j as nat)));
    }
    Ok(entries)
}


/// The bytes of the varints `vals`, one after another.
pub open spec fn encode_all(vals: Seq<u64>) -> Seq<u8>
    decreases vals.len(),
{
    if vals.len() == 0 {
        Seq::empty()
    } else {
        encode_all(vals.drop_last()) + encode_varint(vals.last() as nat)
    }
}

/// The offset column value the writer stores for entry `i` of `es`: 0 where
/// the entry directly follows the previous one, else the offset plus one.
pub open spec fn offset_code(es: Seq<(u64, u64, u32)>, i: int) -> u64 {
    if i > 0 && es[i].1 == es[i - 1].1 + es[i - 1].2 {
        0
    } else {
        (es[i].1 + 1) as u64
    }
}

/// The id column value the writer stores for entry `i` of `es`: the first id,
/// then the difference to the previous id.
pub open spec fn id_delta(es: Seq<(u64, u64, u32)>, i: int) -> u64 {
    if i == 0 {
        es[0].0
    } else {
        (es[i].0 - es[i - 1].0) as u64
    }
}

/// The varints of the directory written for `es` (tile id, offset, length
/// triples): the count, the id deltas, a run length of 1 for each entry, the
/// lengths and the offset codes.
#[verifier::opaque]
pub open spec fn directory_values(es: Seq<(u64, u64, u32)>) -> Seq<u64> {
    let n = es.len();
    seq![n as u64] + Seq::new(n, |i: int| id_delta(es, i)) + Seq::new(n, |i: int| 1u64) + Seq::new(n, |i: int| es[i].2 as u64) + Seq::new(
        n,
        |i: int| offset_code(es, i),
    )
}

/// The bytes of the directory written for `es`.
pub open spec fn directory_bytes(es: Seq<(u64, u64, u32)>) -> Seq<u8> {
    encode_all(directory_values(es))
}

/// Entries a directory can be written for: ids in order, and offsets and
/// ends that fit in 64 bits.
pub open spec fn writable(es: Seq<(u64, u64, u32)>) -> bool {
    &&& forall|i: int| 0 < i < es.len() ==> es[i - 1].0 <= #[trigger] es[i].0
    &&& forall|i: int| 0 <= i < es.len() ==> #[trigger] es[i].1 + es[i].2 <= u64::MAX
    &&& forall|i: int|
        0 <= i < es.len() && (i == 0 || es[i].1 != es[i - 1].1 + es[i - 1].2) ==> #[trigger] es[i].1
            < u64::MAX
}

/// The entries a reader finds in the directory written for `es`: the same
/// ids, offsets and lengths, each a run of one tile.
pub open spec fn written_entries(es: Seq<(u64, u64, u32)>) -> Seq<Entry> {
    Seq::new(
        es.len(),
        |i: int| Entry { tile_id: es[i].0, offset: es[i].1, length: es[i].2, run_length: 1 },
    )
}

/// The layout of `directory_values`: the count, then four columns.
pub proof fn lemma_values_layout(es: Seq<(u64, u64, u32)>)
    ensures
        directory_values(es).len() == 1 + 4 * es.len(),
        directory_values(es)[0] == es.len() as u64,
        forall|j: int|
            1 <= j < 1 + es.len() ==> #[trigger] directory_values(es)[j] == id_delta(es, j - 1),
        forall|j: int|
            1 + es.len() <= j < 1 + 2 * es.len() ==> #[trigger] directory_values(es)[j] == 1u64,
        forall|j: int|
            1 + 2 * es.len() <= j < 1 + 3 * es.len() ==> #[trigger] directory_values(es)[j]
                == es[j - 1 - 2 * es.len()].2 as u64,
        forall|j: int|
            1 + 3 * es.len() <= j < 1 + 4 * es.len() ==> #[trigger] directory_values(es)[j]
                == offset_code(es, j - 1 - 3 * es.len()),
{
    reveal(directory_values);
}

/// Encoding one value is that value's varint.
pub proof fn lemma_encode_all_single(x: u64)
    ensures
        encode_all(seq![x]) == encode_varint(x as nat),
{
    assert(seq![x].drop_last() =~= Seq::<u64>::empty());
    assert(encode_all(Seq::<u64>::empty()) == Seq::<u8>::empty());
    assert(encode_all(seq![x]) =~= encode_varint(x as nat));
}

/// Encoding one more value appends its varint.
pub proof fn lemma_encode_all_step(vals: Seq<u64>, k: int)
    requires
        0 <= k < vals.len(),
    ensures
        encode_all(vals.take(k + 1)) == encode_all(vals.take(k)) + encode_varint(vals[k] as nat),
{
    assert(vals.take(k + 1).drop_last() =~= vals.take(k));
}

/// Encoding two runs of values one after the other.
pub proof fn lemma_encode_all_concat(a: Seq<u64>, b: Seq<u64>)
    ensures
        encode_all(a + b) == encode_all(a) + encode_all(b),
    decreases b.len(),
{
    if b.len() == 0 {
        assert(a + b =~= a);
        assert(encode_all(a) + encode_all(b) =~= encode_all(a));
    } else {
        lemma_encode_all_concat(a, b.drop_last());
        assert((a + b).drop_last() =~= a + b.drop_last());
        assert((a + b).last() == b.last());
        assert(encode_all(a) + encode_all(b) =~= encode_all(a) + encode_all(b.drop_last())
            + encode_varint(b.last() as nat));
    }
}

/// Reading back encoded values: the first `k` varints end where the first
/// `k` encodings end, and varint `k` is `vals[k]`.
pub proof fn lemma_decode_all(vals: Seq<u64>, rest: Seq<u8>, k: nat)
    requires
        k <= vals.len(),
    ensures
        varint_pos(encode_all(vals) + rest, k) == Some(encode_all(vals.take(k as int)).len()),
        k < vals.len() ==> decode_varint(
            tail(encode_all(vals) + rest, encode_all(vals.take(k as int)).len() as int),
        ) == Some((vals[k as int], encode_varint(vals[k as int] as nat).len())),
        k < vals.len() ==> varint_at(encode_all(vals) + rest, k) == vals[k as int],
    decreases k,
{
    let s = encode_all(vals) + rest;
    if k == 0 {
        assert(vals.take(0) =~= Seq::<u64>::empty());
    } else {
        lemma_decode_all(vals, rest, (k - 1) as nat);
        lemma_encode_all_step(vals, k - 1);
    }
    if k < vals.len() {
        let ki = k as int;
        let e = encode_varint(vals[ki] as nat);
        let front = encode_all(vals.take(ki));
        let back = encode_all(vals.skip(ki + 1));
        assert(vals =~= vals.take(ki) + seq![vals[ki]] + vals.skip(ki + 1));
        lemma_encode_all_concat(vals.take(ki) + seq![vals[ki]], vals.skip(ki + 1));
        lemma_encode_all_concat(vals.take(ki), seq![vals[ki]]);
        lemma_encode_all_single(vals[ki]);
        assert(s =~= front + (e + (back + rest)));
        assert(tail(s, front.len() as int) =~= e + (back + rest));
        lemma_varint_roundtrip(vals[ki], back + rest);
    }
}

/// The ids read back are the ids written: the deltas sum up again.
proof fn lemma_ids_back(es: Seq<(u64, u64, u32)>, b: Seq<u8>, i: nat)
    requires
        writable(es),
        i < es.len(),
        forall|j: nat| j < es.len() ==> #[trigger] varint_at(b, j) == id_delta(es, j as int),
    ensures
        id_sum(b, i) == es[i as int].0,
    decreases i,
{
    assert(varint_at(b, i) == id_delta(es, i as int));
    if i > 0 {
        lemma_ids_back(es, b, (i - 1) as nat);
        assert(es[i - 1].0 <= es[i as int].0);
    }
}

/// The offsets read back are the offsets written.
proof fn lemma_offsets_back(es: Seq<(u64, u64, u32)>, b: Seq<u8>, i: nat)
    requires
        writable(es),
        i < es.len(),
        forall|j: nat| j < es.len() ==> #[trigger] length_at(b, es.len(), j) == es[j as int].2,
        forall|j: nat|
            j < es.len() ==> #[trigger] varint_at(b, 3 * es.len() + j) == offset_code(es, j as int),
    ensures
        offset_at(b, es.len(), i) == es[i as int].1,
    decreases i,
{
    let n = es.len();
    let ii = i as int;
    assert(varint_at(b, 3 * n + i) == offset_code(es, ii));
    if i > 0 && es[ii].1 == es[ii - 1].1 + es[ii - 1].2 {
        lemma_offsets_back(es, b, (i - 1) as nat);
        assert(length_at(b, n, (i - 1) as nat) == es[ii - 1].2);
    } else {
        assert(es[ii].1 < u64::MAX);
    }
}

/// The body of the directory written for `es`, read varint by varint.
proof fn lemma_body_back(es: Seq<(u64, u64, u32)>, b: Seq<u8>)
    requires
        es.len() <= u64::MAX,
        b == encode_all(directory_values(es).skip(1)),
    ensures
        varint_pos(b, 4 * es.len()) is Some,
        forall|j: nat| j < es.len() ==> #[trigger] varint_at(b, j) == id_delta(es, j as int),
        forall|j: nat| j < es.len() ==> #[trigger] run_length_at(b, es.len(), j) == 1,
        forall|j: nat| j < es.len() ==> #[trigger] length_at(b, es.len(), j) == es[j as int].2,
        forall|j: nat|
            j < es.len() ==> #[trigger] varint_at(b, 3 * es.len() + j) == offset_code(es, j as int),
{
    let n = es.len();
    let vals = directory_values(es);
    let rv = vals.skip(1);
    lemma_values_layout(es);
    assert(b =~= encode_all(rv) + Seq::<u8>::empty());
    lemma_decode_all(rv, Seq::empty(), 4 * n);
    assert forall|j: nat| j < n implies #[trigger] varint_at(b, j) == id_delta(es, j as int) by {
        lemma_decode_all(rv, Seq::empty(), j);
        assert(rv[j as int] == vals[1 + j as int]);
    }
    assert forall|j: nat| j < n implies #[trigger] run_length_at(b, n, j) == 1 by {
        lemma_decode_all(rv, Seq::empty(), n + j);
        assert(rv[(n + j) as int] == vals[1 + (n + j) as int]);
    }
    assert forall|j: nat| j < n implies #[trigger] length_at(b, n, j) == es[j as int].2 by {
        lemma_decode_all(rv, Seq::empty(), 2 * n + j);
        assert(rv[(2 * n + j) as int] == vals[1 + (2 * n + j) as int]);
    }
    assert forall|j: nat| j < n implies #[trigger] varint_at(b, 3 * n + j) == offset_code(
        es,
        j as int,
    ) by {
        lemma_decode_all(rv, Seq::empty(), 3 * n + j);
        assert(rv[(3 * n + j) as int] == vals[1 + (3 * n + j) as int]);
    }
}

/// Parsing the directory written for `es` gives back its ids, offsets and
/// lengths, each entry a run of one tile.
pub proof fn lemma_directory_roundtrip(es: Seq<(u64, u64, u32)>)
    requires
        writable(es),
        es.len() <= u64::MAX,
    ensures
        parse_directory(directory_bytes(es)) == Some(written_entries(es)),
{
    reveal(parse_directory);
    let n = es.len();
    let vals = directory_values(es);
    let rv = vals.skip(1);
    lemma_values_layout(es);
    assert(vals =~= seq![n as u64] + rv);
    lemma_encode_all_concat(seq![n as u64], rv);
    lemma_encode_all_single(n as u64);
    let s = directory_bytes(es);
    let b = encode_all(rv);
    assert(s =~= encode_varint(n as nat) + b);
    lemma_varint_roundtrip(n as u64, b);
    let n0 = encode_varint(n as nat).len();
    assert(tail(s, n0 as int) =~= b);
    lemma_body_back(es, b);
    assert forall|i: nat| i < n implies 0 <= #[trigger] offset_at(b, n, i) <= u64::MAX by {
        lemma_offsets_back(es, b, i);
    }
    if n > 0 {
        lemma_ids_back(es, b, (n - 1) as nat);
    }
    assert(body_ok(b, n));
    assert forall|i: int| 0 <= i < n implies #[trigger] entry_at(b, n, i as nat) == written_entries(
        es,
    )[i] by {
        lemma_ids_back(es, b, i as nat);
        lemma_offsets_back(es, b, i as nat);
    }
    assert(Seq::new(n, |i: int| entry_at(b, n, i as nat)) =~= written_entries(es));
}

/// The id, offset and length of each entry.
pub open spec fn entry_triples(es: Seq<Entry>) -> Seq<(u64, u64, u32)> {
    Seq::new(es.len(), |i: int| (es[i].tile_id, es[i].offset, es[i].length))
}

/// The varints of a directory that lists `es` with their own run lengths:
/// the count, the id deltas, the run lengths, the lengths and the offset
/// codes.
#[verifier::opaque]
pub open spec fn entries_values(es: Seq<Entry>) -> Seq<u64> {
    let t = entry_triples(es);
    let n = es.len();
    seq![n as u64] + Seq::new(n, |i: int| id_delta(t, i)) + Seq::new(
        n,
        |i: int| es[i].run_length as u64,
    ) + Seq::new(n, |i: int| es[i].length as u64) + Seq::new(n, |i: int| offset_code(t, i))
}

/// The bytes of a directory that lists `es`, leaf pointers and runs alike.
pub open spec fn entries_bytes(es: Seq<Entry>) -> Seq<u8> {
    encode_all(entries_values(es))
}

/// The layout of `entries_values`: the count, then four columns.
proof fn lemma_entries_layout(es: Seq<Entry>)
    ensures
        entries_values(es).len() == 1 + 4 * es.len(),
        entries_values(es)[0] == es.len() as u64,
        forall|j: int|
            1 <= j < 1 + es.len() ==> #[trigger] entries_values(es)[j] == id_delta(
                entry_triples(es),
                j - 1,
            ),
        forall|j: int|
            1 + es.len() <= j < 1 + 2 * es.len() ==> #[trigger] entries_values(es)[j]
                == es[j - 1 - es.len()].run_length as u64,
        forall|j: int|
            1 + 2 * es.len() <= j < 1 + 3 * es.len() ==> #[trigger] entries_values(es)[j]
                == es[j - 1 - 2 * es.len()].length as u64,
        forall|j: int|
            1 + 3 * es.len() <= j < 1 + 4 * es.len() ==> #[trigger] entries_values(es)[j]
                == offset_code(entry_triples(es), j - 1 - 3 * es.len()),
{
    reveal(entries_values);
}

/// The body of a directory that lists `es`, read varint by varint.
proof fn lemma_entries_body(es: Seq<Entry>, b: Seq<u8>)
    requires
        es.len() <= u64::MAX,
        b == encode_all(entries_values(es).skip(1)),
    ensures
        varint_pos(b, 4 * es.len()) is Some,
        forall|j: nat|
            j < es.len() ==> #[trigger] varint_at(b, j) == id_delta(entry_triples(es), j as int),
        forall|j: nat| j < es.len() ==> #[trigger] run_length_at(b, es.len(), j) == es[j as int].run_length,
        forall|j: nat| j < es.len() ==> #[trigger] length_at(b, es.len(), j) == es[j as int].length,
        forall|j: nat|
            j < es.len() ==> #[trigger] varint_at(b, 3 * es.len() + j) == offset_code(
                entry_triples(es),
                j as int,
            ),
{
    let n = es.len();
    let t = entry_triples(es);
    let vals = entries_values(es);
    let rv = vals.skip(1);
    lemma_entries_layout(es);
    assert(b =~= encode_all(rv) + Seq::<u8>::empty());
    lemma_decode_all(rv, Seq::empty(), 4 * n);
    assert forall|j: nat| j < n implies #[trigger] varint_at(b, j) == id_delta(t, j as int) by {
        lemma_decode_all(rv, Seq::empty(), j);
        assert(rv[j as int] == vals[1 + j as int]);
    }
    assert forall|j: nat| j < n implies #[trigger] run_length_at(b, n, j) == es[j as int].run_length by {
        lemma_decode_all(rv, Seq::empty(), n + j);
        assert(rv[(n + j) as int] == vals[1 + (n + j) as int]);
    }
    assert forall|j: nat| j < n implies #[trigger] length_at(b, n, j) == es[j as int].length by {
        lemma_decode_all(rv, Seq::empty(), 2 * n + j);
        assert(rv[(2 * n + j) as int] == vals[1 + (2 * n + j) as int]);
    }
    assert forall|j: nat| j < n implies #[trigger] varint_at(b, 3 * n + j) == offset_code(
        t,
        j as int,
    ) by {
        lemma_decode_all(rv, Seq::empty(), 3 * n + j);
        assert(rv[(3 * n + j) as int] == vals[1 + (3 * n + j) as int]);
    }
}

/// Parsing a directory that lists `es` (ids in order, offsets and ends in
/// 64 bits) gives back `es` itself: every id, offset, length and run length,
/// a run length of 0 (a leaf pointer) at any position included.
pub proof fn lemma_entries_roundtrip(es: Seq<Entry>)
    requires
        writable(entry_triples(es)),
        es.len() <= u64::MAX,
    ensures
        parse_directory(entries_bytes(es)) == Some(es),
{
    reveal(parse_directory);
    let n = es.len();
    let t = entry_triples(es);
    let vals = entries_values(es);
    let rv = vals.skip(1);
    lemma_entries_layout(es);
    assert(vals =~= seq![n as u64] + rv);
    lemma_encode_all_concat(seq![n as u64], rv);
    lemma_encode_all_single(n as u64);
    let s = entries_bytes(es);
    let b = encode_all(rv);
    assert(s =~= encode_varint(n as nat) + b);
    lemma_varint_roundtrip(n as u64, b);
    let n0 = encode_varint(n as nat).len();
    assert(tail(s, n0 as int) =~= b);
    lemma_entries_body(es, b);
    assert forall|j: nat| j < n implies #[trigger] length_at(b, n, j) == t[j as int].2 by {
        assert(length_at(b, n, j) == es[j as int].length);
    }
    assert forall|i: nat| i < n implies 0 <= #[trigger] offset_at(b, n, i) <= u64::MAX by {
        lemma_offsets_back(t, b, i);
    }
    if n > 0 {
        lemma_ids_back(t, b, (n - 1) as nat);
    }
    assert(body_ok(b, n));
    assert forall|i: int| 0 <= i < n implies #[trigger] entry_at(b, n, i as nat) == es[i] by {
        lemma_ids_back(t, b, i as nat);
        lemma_offsets_back(t, b, i as nat);
        assert(run_length_at(b, n, i as nat) == es[i].run_length);
        assert(length_at(b, n, i as nat) == es[i].length);
    }
    assert(Seq::new(n, |i: int| entry_at(b, n, i as nat)) =~= es);
}

/// Writes the directory for `entries` (tile id, offset, length triples in id
/// order): every entry is a run of one tile, and an entry that starts where
/// the previous one ends stores offset 0.
#[verifier::rlimit(40)]
pub fn serialize_directory(entries: &[(u64, u64, u32)]) -> (buf: Vec<u8>)
    requires
        writable(entries@),
    ensures
        buf@ == directory_bytes(entries@),
{
    let ghost es = entries@;
    let ghost vals = directory_values(es);
    let n = entries.len();
    let ghost nn = n as int;
    let mut buf: Vec<u8> = Vec::new();
    proof {
        lemma_values_layout(es);
        assert(vals.take(0) =~= Seq::<u64>::empty());
        lemma_encode_all_step(vals, 0);
    }
    write_varint(&mut buf, n as u64);
    let mut last: u64 = 0;
    let mut i: usize = 0;
    while i < n
        invariant
            es == entries@,
            vals == directory_values(es),
            writable(es),
            n == es.len(),
            i <= n,
            buf@ == encode_all(vals.take(1 + i)),
            i > 0 ==> last == es[i - 1].0,
            i == 0 ==> last == 0,
        decreases n - i,
    {
        let (id, _, _) = entries[i];
        proof {
            lemma_values_layout(es);
            lemma_encode_all_step(vals, 1 + i);
            assert(es[i as int].0 == id);
            if i > 0 {
                assert(es[i - 1].0 <= es[i as int].0);
            }
            assert(vals[1 + i] == id_delta(es, i as int));
        }
        write_varint(&mut buf, id - last);
        last = id;
        i = i + 1;
    }
    let mut i: usize = 0;
    while i < n
        invariant
            vals == directory_values(es),
            n == es.len(),
            i <= n,
            buf@ == encode_all(vals.take(1 + nn + i)),
            nn == n,
        decreases n - i,
    {
        proof {
            lemma_values_layout(es);
            lemma_encode_all_step(vals, 1 + nn + i);
            assert(vals[1 + nn + i] == 1u64);
        }
        write_varint(&mut buf, 1);
        i = i + 1;
    }
    let mut i: usize = 0;
    while i < n
        invariant
            es == entries@,
            vals == directory_values(es),
            n == es.len(),
            i <= n,
            buf@ == encode_all(vals.take(1 + 2 * nn + i)),
            nn == n,
        decreases n - i,
    {
        let (_, _, length) = entries[i];
        proof {
            lemma_values_layout(es);
            lemma_encode_all_step(vals, 1 + 2 * nn + i);
            assert(vals[1 + 2 * nn + i] == length as u64);
        }
        write_varint(&mut buf, length as u64);
        i = i + 1;
    }
    let mut expected: u64 = 0;
    let mut i: usize = 0;
    while i < n
        invariant
            es == entries@,
            vals == directory_values(es),
            writable(es),
            n == es.len(),
            i <= n,
            buf@ == encode_all(vals.take(1 + 3 * nn + i)),
            nn == n,
            i > 0 ==> expected == es[i - 1].1 + es[i - 1].2,
        decreases n - i,
    {
        let offset = entries[i].1;
        let length = entries[i].2;
        let follows = i > 0 && offset == expected;
        proof {
            assert(es[i as int].1 == offset && es[i as int].2 == length);
            assert(offset + length <= u64::MAX);
            if !follows {
                assert(offset < u64::MAX);
            }
        }
        let code: u64 = if follows {
            0
        } else {
            offset + 1
        };
        proof {
            assert(code == offset_code(es, i as int));
            lemma_values_layout(es);
            lemma_encode_all_step(vals, 1 + 3 * nn + i);
            assert(vals[1 + 3 * nn + i] == code);
        }
        write_varint(&mut buf, code);
        expected = offset + length as u64;
        i = i + 1;
    }
    proof {
        lemma_values_layout(es);
        assert(vals.take(1 + 4 * nn) =~= vals);
    }
    buf
}


} // verus!
