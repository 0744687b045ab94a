//! The fixed 127-byte header at the start of every archive: magic bytes,
//! spec version, little-endian offsets and lengths, and compression ids.

use vstd::prelude::*;
use crate::error::PmTilesError;

verus! {

/// The length of the header in bytes.
pub const HEADER_LEN: usize = 127;

/// The header fields the reader uses.
#[derive(Clone, Copy, Debug)]
pub struct Header {
    pub root_dir_offset: u64,
    pub root_dir_length: u64,
    pub leaf_dirs_offset: u64,
    pub tile_data_offset: u64,
    pub internal_compression: u8,
    pub tile_compression: u8,
}

/// The value of eight little-endian bytes.
pub open spec fn le_value(b: Seq<u8>) -> int {
    b[0] as int + 0x100 * b[1] + 0x1_0000 * b[2] + 0x100_0000 * b[3] + 0x1_0000_0000 * b[4]
        + 0x100_0000_0000 * b[5] + 0x1_0000_0000_0000 * b[6] + 0x100_0000_0000_0000 * b[7]
}

/// The eight little-endian bytes of `v`.
pub open spec fn le_bytes(v: u64) -> Seq<u8> {
    seq![
        (v % 0x100) as u8,
        ((v / 0x100) % 0x100) as u8,
        ((v / 0x1_0000) % 0x100) as u8,
        ((v / 0x100_0000) % 0x100) as u8,
        ((v / 0x1_0000_0000) % 0x100) as u8,
        ((v / 0x100_0000_0000) % 0x100) as u8,
        ((v / 0x1_0000_0000_0000) % 0x100) as u8,
        ((v / 0x100_0000_0000_0000) % 0x100) as u8,
    ]
}

/// The `u64` stored little-endian at `at` in `b`.
pub open spec fn u64_at(b: Seq<u8>, at: int) -> u64 {
    le_value(b.subrange(at, at + 8)) as u64
}

/// The magic bytes `PMTiles`.
pub open spec fn magic() -> Seq<u8> {
    seq![0x50u8, 0x4d, 0x54, 0x69, 0x6c, 0x65, 0x73]
}

/// What the first 127 bytes of an archive say: the magic bytes must be
/// there and the version must be 3.
pub open spec fn parse_header(b: Seq<u8>) -> Result<Header, PmTilesError> {
    if b.subrange(0, 7) != magic() {
        Err(PmTilesError::InvalidArchive)
    } else if b[7] != 3 {
        Err(PmTilesError::UnsupportedVersion { version: b[7] })
    } else {
        Ok(
            Header {
                root_dir_offset: u64_at(b, 8),
                root_dir_length: u64_at(b, 16),
                leaf_dirs_offset: u64_at(b, 40),
                tile_data_offset: u64_at(b, 56),
                internal_compression: b[97],
                tile_compression: b[98],
            },
        )
    }
}

/// Reading back the bytes of `v` gives `v`.
pub proof fn lemma_le_roundtrip(v: u64)
    ensures
        le_value(le_bytes(v)) == v,
{
    let b = le_bytes(v);
    assert(b[0] as int + 0x100 * b[1] + 0x1_0000 * b[2] + 0x100_0000 * b[3] + 0x1_0000_0000 * b[4]
        + 0x100_0000_0000 * b[5] + 0x1_0000_0000_0000 * b[6] + 0x100_0000_0000_0000 * b[7]
        == v) by {
        assert((v % 0x100) + 0x100 * ((v / 0x100) % 0x100) + 0x1_0000 * ((v / 0x1_0000) % 0x100)
            + 0x100_0000 * ((v / 0x100_0000) % 0x100) + 0x1_0000_0000 * ((v / 0x1_0000_0000)
            % 0x100) + 0x100_0000_0000 * ((v / 0x100_0000_0000) % 0x100) + 0x1_0000_0000_0000 * ((
        v / 0x1_0000_0000_0000) % 0x100) + 0x100_0000_0000_0000 * ((v / 0x100_0000_0000_0000)
            % 0x100) == v) by (bit_vector);
    }
}

/// Reads the little-endian `u64` at `buf[at..at + 8]`.
pub fn read_u64(buf: &[u8], at: usize) -> (v: u64)
    requires
        at + 8 <= buf@.len(),
    ensures
        v == u64_at(buf@, at as int),
{
    let ghost b = buf@.subrange(at as int, at + 8);
    assert(b[0] == buf@[at as int] && b[1] == buf@[at + 1] && b[2] == buf@[at + 2] && b[3]
        == buf@[at + 3] && b[4] == buf@[at + 4] && b[5] == buf@[at + 5] && b[6] == buf@[at + 6]
        && b[7] == buf@[at + 7]);
    buf[at] as u64 + 0x100 * (buf[at + 1] as u64) + 0x1_0000 * (buf[at + 2] as u64) + 0x100_0000 * (
    buf[at + 3] as u64) + 0x1_0000_0000 * (buf[at + 4] as u64) + 0x100_0000_0000 * (buf[at
        + 5] as u64) + 0x1_0000_0000_0000 * (buf[at + 6] as u64) + 0x100_0000_0000_0000 * (buf[at
        + 7] as u64)
}

/// Stores `v` little-endian at `buf[at..at + 8]`, leaving the other bytes.
pub fn put_u64(buf: &mut Vec<u8>, at: usize, v: u64)
    requires
        at + 8 <= old(buf)@.len(),
    ensures
        final(buf)@ == old(buf)@.subrange(0, at as int) + le_bytes(v) + old(buf)@.subrange(
            at + 8,
            old(buf)@.len() as int,
        ),
{
    let len = buf.len();
    assert(at + 8 <= len);
    buf.set(at, (v % 0x100) as u8);
    buf.set(at + 1, ((v / 0x100) % 0x100) as u8);
    buf.set(at + 2, ((v / 0x1_0000) % 0x100) as u8);
    buf.set(at + 3, ((v / 0x100_0000) % 0x100) as u8);
    buf.set(at + 4, ((v / 0x1_0000_0000) % 0x100) as u8);
    buf.set(at + 5, ((v / 0x100_0000_0000) % 0x100) as u8);
    buf.set(at + 6, ((v / 0x1_0000_0000_0000) % 0x100) as u8);
    buf.set(at + 7, ((v / 0x100_0000_0000_0000) % 0x100) as u8);
    assert(buf@ =~= old(buf)@.subrange(0, at as int) + le_bytes(v) + old(buf)@.subrange(
        at + 8,
        old(buf)@.len() as int,
    ));
}

/// Checks the magic bytes and the version of a header and reads its fields.
/// Only the first 127 bytes of `buf` are read.
pub fn decode_header(buf: &[u8]) -> (res: Result<Header, PmTilesError>)
    requires
        buf@.len() >= HEADER_LEN,
    ensures
        res == parse_header(buf@),
{
    if !(buf[0] == 0x50 && buf[1] == 0x4d && buf[2] == 0x54 && buf[3] == 0x69 && buf[4] == 0x6c
        && buf[5] == 0x65 && buf[6] == 0x73) {
        assert(buf@.subrange(0, 7) != magic()) by {
            if buf@.subrange(0, 7) == magic() {
                assert(buf@.subrange(0, 7)[0] == buf@[0]);
                assert(buf@.subrange(0, 7)[1] == buf@[1]);
                assert(buf@.subrange(0, 7)[2] == buf@[2]);
                assert(buf@.subrange(0, 7)[3] == buf@[3]);
                assert(buf@.subrange(0, 7)[4] == buf@[4]);
                assert(buf@.subrange(0, 7)[5] == buf@[5]);
                assert(buf@.subrange(0, 7)[6] == buf@[6]);
            }
        }
        return Err(PmTilesError::InvalidArchive);
    }
    assert(buf@.subrange(0, 7) =~= magic());
    let version = buf[7];
    if version != 3 {
        return Err(PmTilesError::UnsupportedVersion { version });
    }
    Ok(
        Header {
            root_dir_offset: read_u64(buf, 8),
            root_dir_length: read_u64(buf, 16),
            leaf_dirs_offset: read_u64(buf, 40),
            tile_data_offset: read_u64(buf, 56),
            internal_compression: buf[97],
            tile_compression: buf[98],
        },
    )
}


/// `n` zero bytes.
pub open spec fn zeros(n: nat) -> Seq<u8> {
    Seq::new(n, |i: int| 0u8)
}

/// Byte `i` of the header of an archive with a root directory of `dir_len`
/// bytes right after the header, no leaf directories, `data_len` bytes of
/// tile data right after the root directory, and compression ids `ic` for
/// directories and `tc` for tiles: the magic bytes, version 3, the root
/// directory's offset and length, the tile data's offset and length, the two
/// compression ids, and zeros everywhere else.
pub open spec fn header_byte(dir_len: u64, data_len: u64, ic: u8, tc: u8, i: int) -> u8 {
    if i < 7 {
        magic()[i]
    } else if i == 7 {
        3
    } else if i < 16 {
        le_bytes(127)[i - 8]
    } else if i < 24 {
        le_bytes(dir_len)[i - 16]
    } else if i < 56 {
        0
    } else if i < 64 {
        le_bytes((127 + dir_len) as u64)[i - 56]
    } else if i < 72 {
        le_bytes(data_len)[i - 64]
    } else if i == 97 {
        ic
    } else if i == 98 {
        tc
    } else {
        0
    }
}

/// The 127 header bytes of `header_byte`.
#[verifier::opaque]
pub open spec fn header_bytes(dir_len: u64, data_len: u64, ic: u8, tc: u8) -> Seq<u8> {
    Seq::new(127, |i: int| header_byte(dir_len, data_len, ic, tc, i))
}

/// Fills the first 127 bytes of `buf`, all zero, with the header of
/// `header_bytes`.
pub fn write_header(buf: &mut Vec<u8>, dir_len: u64, data_len: u64, ic: u8, tc: u8)
    requires
        old(buf)@.len() >= HEADER_LEN,
        old(buf)@.subrange(0, 127) == zeros(127),
        127 + dir_len <= u64::MAX,
    ensures
        final(buf)@ == header_bytes(dir_len, data_len, ic, tc) + old(buf)@.subrange(
            127,
            old(buf)@.len() as int,
        ),
{
    let ghost rest = old(buf)@.subrange(127, old(buf)@.len() as int);
    let len = buf.len();
    reveal(header_bytes);
    buf.set(0, 0x50);
    buf.set(1, 0x4d);
    buf.set(2, 0x54);
    buf.set(3, 0x69);
    buf.set(4, 0x6c);
    buf.set(5, 0x65);
    buf.set(6, 0x73);
    buf.set(7, 3);
    put_u64(buf, 8, HEADER_LEN as u64);
    put_u64(buf, 16, dir_len);
    put_u64(buf, 56, HEADER_LEN as u64 + dir_len);
    put_u64(buf, 64, data_len);
    buf.set(97, ic);
    buf.set(98, tc);
    let ghost h = header_bytes(dir_len, data_len, ic, tc);
    assert(h.len() == 127);
    assert forall|i: int| 0 <= i < len implies #[trigger] buf@[i] == (h + rest)[i] by {
        if i >= 127 {
            assert(buf@[i] == old(buf)@[i]);
        } else {
            assert(old(buf)@[i] == old(buf)@.subrange(0, 127)[i]);
            assert(h[i] == header_byte(dir_len, data_len, ic, tc, i));
        }
    }
    assert(buf@ =~= h + rest);
}

/// A header is 127 bytes long.
pub proof fn lemma_header_len(dir_len: u64, data_len: u64, ic: u8, tc: u8)
    ensures
        header_bytes(dir_len, data_len, ic, tc).len() == 127,
{
    reveal(header_bytes);
}

/// Reading a header that `header_bytes` describes.
pub proof fn lemma_header_roundtrip(dir_len: u64, data_len: u64, ic: u8, tc: u8, b: Seq<u8>)
    requires
        127 + dir_len <= u64::MAX,
        b.len() >= 127,
        b.subrange(0, 127) == header_bytes(dir_len, data_len, ic, tc),
    ensures
        parse_header(b) == Ok::<Header, PmTilesError>(
            Header {
                root_dir_offset: 127,
                root_dir_length: dir_len,
                leaf_dirs_offset: 0,
                tile_data_offset: (127 + dir_len) as u64,
                internal_compression: ic,
                tile_compression: tc,
            },
        ),
{
    reveal(header_bytes);
    let h = header_bytes(dir_len, data_len, ic, tc);
    assert forall|i: int| 0 <= i < 127 implies #[trigger] b[i] == header_byte(
        dir_len,
        data_len,
        ic,
        tc,
        i,
    ) by {
        assert(b.subrange(0, 127)[i] == b[i]);
        assert(h[i] == header_byte(dir_len, data_len, ic, tc, i));
    }
    assert(b.subrange(0, 7) =~= magic()) by {
        assert forall|j: int| 0 <= j < 7 implies b.subrange(0, 7)[j] == magic()[j] by {
            assert(b[j] == header_byte(dir_len, data_len, ic, tc, j));
        }
    }
    assert(b.subrange(8, 16) =~= le_bytes(127)) by {
        assert forall|j: int| 0 <= j < 8 implies b.subrange(8, 16)[j] == le_bytes(127)[j] by {
            assert(b[8 + j] == header_byte(dir_len, data_len, ic, tc, 8 + j));
        }
    }
    assert(b.subrange(16, 24) =~= le_bytes(dir_len)) by {
        assert forall|j: int| 0 <= j < 8 implies b.subrange(16, 24)[j] == le_bytes(dir_len)[j] by {
            assert(b[16 + j] == header_byte(dir_len, data_len, ic, tc, 16 + j));
        }
    }
    assert(b.subrange(40, 48) =~= le_bytes(0)) by {
        assert forall|j: int| 0 <= j < 8 implies b.subrange(40, 48)[j] == le_bytes(0)[j] by {
            assert(b[40 + j] == header_byte(dir_len, data_len, ic, tc, 40 + j));
        }
    }
    assert(b.subrange(56, 64) =~= le_bytes((127 + dir_len) as u64)) by {
        assert forall|j: int| 0 <= j < 8 implies b.subrange(56, 64)[j] == le_bytes(
            (127 + dir_len) as u64,
        )[j] by {
            assert(b[56 + j] == header_byte(dir_len, data_len, ic, tc, 56 + j));
        }
    }
    assert(b[7] == header_byte(dir_len, data_len, ic, tc, 7));
    assert(b[97] == header_byte(dir_len, data_len, ic, tc, 97));
    assert(b[98] == header_byte(dir_len, data_len, ic, tc, 98));
    lemma_le_roundtrip(127);
    lemma_le_roundtrip(dir_len);
    lemma_le_roundtrip(0);
    lemma_le_roundtrip((127 + dir_len) as u64);
}

/// What a header says, field by field: it opens exactly when it starts with
/// the magic bytes and version 3, each offset and length is the
/// little-endian value of its own eight bytes, whatever the other bytes hold,
/// and the compression ids are bytes 97 and 98.
pub proof fn lemma_header_fields(b: Seq<u8>)
    requires
        b.len() >= 127,
    ensures
        b.subrange(0, 7) != magic() ==> parse_header(b) == Err::<Header, PmTilesError>(
            PmTilesError::InvalidArchive,
        ),
        b.subrange(0, 7) == magic() && b[7] != 3 ==> parse_header(b) == Err::<Header, PmTilesError>(
            PmTilesError::UnsupportedVersion { version: b[7] },
        ),
        b.subrange(0, 7) == magic() && b[7] == 3 ==> (parse_header(b) matches Ok(h) && {
            &&& h.root_dir_offset == le_value(b.subrange(8, 16))
            &&& h.root_dir_length == le_value(b.subrange(16, 24))
            &&& h.leaf_dirs_offset == le_value(b.subrange(40, 48))
            &&& h.tile_data_offset == le_value(b.subrange(56, 64))
            &&& h.internal_compression == b[97]
            &&& h.tile_compression == b[98]
        }),
{
    lemma_le_value_fits(b.subrange(8, 16));
    lemma_le_value_fits(b.subrange(16, 24));
    lemma_le_value_fits(b.subrange(40, 48));
    lemma_le_value_fits(b.subrange(56, 64));
}

/// Eight bytes hold a value that fits in 64 bits.
pub proof fn lemma_le_value_fits(b: Seq<u8>)
    requires
        b.len() == 8,
    ensures
        0 <= le_value(b) <= u64::MAX,
{
}

} // verus!
