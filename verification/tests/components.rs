use pmtiles_core::compression::{compress, decompress};
use pmtiles_core::directory::{deserialize_directory, serialize_directory, Entry};
use pmtiles_core::search::find_tile;
use pmtiles_core::header::{decode_header, put_u64, read_u64};
use pmtiles_core::reader::read_range;
use pmtiles_core::varint::{read_varint, write_varint};
use pmtiles_core::{Compression, LookupStep, PmTilesError, PmTilesReader, PmTilesWriter};

fn encode(v: u64) -> Vec<u8> {
    let mut buf = Vec::new();
    write_varint(&mut buf, v);
    buf
}

#[test]
fn varint_encodings() {
    assert_eq!(encode(0), vec![0x00]);
    assert_eq!(encode(127), vec![0x7f]);
    assert_eq!(encode(128), vec![0x80, 0x01]);
    assert_eq!(encode(300), vec![0xac, 0x02]);
    assert_eq!(encode(u64::MAX).len(), 10);
}

#[test]
fn varint_roundtrip_values() {
    for v in [0u64, 1, 127, 128, 300, 16383, 16384, 1 << 35, u64::MAX - 1, u64::MAX] {
        let mut buf = encode(v);
        let n = buf.len();
        buf.extend_from_slice(&[0xff, 0x01]);
        let mut p = 0usize;
        assert_eq!(read_varint(&buf, &mut p).unwrap(), v);
        assert_eq!(p, n);
    }
}

#[test]
fn varint_reads_from_a_position() {
    let buf = vec![0x05, 0xac, 0x02, 0x07];
    let mut p = 1usize;
    assert_eq!(read_varint(&buf, &mut p).unwrap(), 300);
    assert_eq!(p, 3);
    assert_eq!(read_varint(&buf, &mut p).unwrap(), 7);
    assert_eq!(p, 4);
    assert!(matches!(read_varint(&buf, &mut p), Err(PmTilesError::CorruptDirectory)));
}

#[test]
fn varint_accepts_padding_and_drops_high_bits() {
    // A padded zero is read as zero, two bytes long.
    let mut p = 0usize;
    assert_eq!(read_varint(&[0x80, 0x00], &mut p).unwrap(), 0);
    assert_eq!(p, 2);
    // In the tenth byte only the lowest bit still fits in 64 bits.
    let mut bytes = vec![0xffu8; 9];
    bytes.push(0x7f);
    let mut p = 0usize;
    assert_eq!(read_varint(&bytes, &mut p).unwrap(), u64::MAX);
    assert_eq!(p, 10);
}

#[test]
fn varint_errors() {
    let mut p = 0usize;
    assert!(matches!(read_varint(&[0x80], &mut p), Err(PmTilesError::CorruptDirectory)));
    let mut p = 0usize;
    assert!(matches!(read_varint(&[0x80; 11], &mut p), Err(PmTilesError::CorruptDirectory)));
    let mut p = 0usize;
    assert!(matches!(read_varint(&[], &mut p), Err(PmTilesError::CorruptDirectory)));
    let mut p = 7usize;
    assert!(matches!(read_varint(&[1, 2], &mut p), Err(PmTilesError::CorruptDirectory)));
}

#[test]
fn directory_roundtrip() {
    let written = vec![(5u64, 0u64, 10u32), (7, 10, 3), (7, 13, 0), (9, 20, 4)];
    let bytes = serialize_directory(&written);
    // count, deltas, run lengths, lengths, offset codes
    assert_eq!(
        bytes,
        vec![4, 5, 2, 0, 2, 1, 1, 1, 1, 10, 3, 0, 4, 1, 0, 0, 21]
    );
    let entries = deserialize_directory(&bytes).unwrap();
    assert_eq!(entries.len(), 4);
    for (e, w) in entries.iter().zip(written.iter()) {
        assert_eq!(e.tile_id, w.0);
        assert_eq!(e.offset, w.1);
        assert_eq!(e.length, w.2);
        assert_eq!(e.run_length, 1);
    }
}

#[test]
fn directory_empty_and_trailing_bytes() {
    assert_eq!(deserialize_directory(&[0]).unwrap().len(), 0);
    assert_eq!(deserialize_directory(&[0, 0xff, 0xff]).unwrap().len(), 0);
    assert!(matches!(deserialize_directory(&[]), Err(PmTilesError::CorruptDirectory)));
}

#[test]
fn directory_rejects_bad_offsets_and_ids() {
    // First entry with offset code 0.
    assert!(matches!(
        deserialize_directory(&[1, 0, 1, 1, 0]),
        Err(PmTilesError::CorruptDirectory)
    ));
    // Ids that overflow 64 bits.
    let mut bytes = vec![2];
    write_varint(&mut bytes, u64::MAX);
    write_varint(&mut bytes, 1);
    bytes.extend_from_slice(&[1, 1, 1, 1, 1, 1]);
    assert!(matches!(deserialize_directory(&bytes), Err(PmTilesError::CorruptDirectory)));
    // A count larger than the columns that follow.
    assert!(matches!(deserialize_directory(&[3, 0, 1]), Err(PmTilesError::CorruptDirectory)));
    // Truncation of run lengths and lengths to 32 bits.
    let mut bytes = vec![1, 0];
    write_varint(&mut bytes, (1u64 << 32) + 3);
    write_varint(&mut bytes, (1u64 << 33) + 5);
    bytes.push(1);
    let e = deserialize_directory(&bytes).unwrap();
    assert_eq!(e[0].run_length, 3);
    assert_eq!(e[0].length, 5);
}

fn entry(tile_id: u64, run_length: u32) -> Entry {
    Entry { tile_id, offset: tile_id * 10, length: 1, run_length }
}

#[test]
fn find_tile_cases() {
    let entries = vec![entry(2, 1), entry(4, 3), entry(10, 0), entry(20, 1)];
    assert_eq!(find_tile(&entries, 4).unwrap().tile_id, 4);
    assert_eq!(find_tile(&entries, 20).unwrap().tile_id, 20);
    // Covered by the run of 3 tiles starting at 4.
    assert_eq!(find_tile(&entries, 6).unwrap().tile_id, 4);
    assert!(find_tile(&entries, 7).is_none());
    // A leaf pointer covers every id after it.
    assert_eq!(find_tile(&entries, 15).unwrap().tile_id, 10);
    assert!(find_tile(&entries, 1).is_none());
    assert!(find_tile(&entries, 21).is_none());
    assert!(find_tile(&[], 0).is_none());
}

#[test]
fn le_u64_roundtrip() {
    let mut buf = vec![0u8; 20];
    put_u64(&mut buf, 5, 0x0102_0304_0506_0708);
    assert_eq!(&buf[5..13], &[8, 7, 6, 5, 4, 3, 2, 1]);
    assert_eq!(buf[4], 0);
    assert_eq!(buf[13], 0);
    assert_eq!(read_u64(&buf, 5), 0x0102_0304_0506_0708);
    put_u64(&mut buf, 12, u64::MAX);
    assert_eq!(read_u64(&buf, 12), u64::MAX);
}

#[test]
fn header_fields_and_errors() {
    let mut h = vec![0u8; 127];
    h[0..7].copy_from_slice(b"PMTiles");
    h[7] = 3;
    put_u64(&mut h, 8, 127);
    put_u64(&mut h, 16, 55);
    put_u64(&mut h, 40, 1000);
    put_u64(&mut h, 56, 2000);
    h[97] = 2;
    h[98] = 4;
    let header = decode_header(&h).unwrap();
    assert_eq!(header.root_dir_offset, 127);
    assert_eq!(header.root_dir_length, 55);
    assert_eq!(header.leaf_dirs_offset, 1000);
    assert_eq!(header.tile_data_offset, 2000);
    assert_eq!(header.internal_compression, 2);
    assert_eq!(header.tile_compression, 4);
    h[3] = b'x';
    assert!(matches!(decode_header(&h), Err(PmTilesError::InvalidArchive)));
}

#[test]
fn compression_roundtrip() {
    let data = b"hello hello hello hello".to_vec();
    let gz = compress(&data, Compression::Gzip);
    assert_ne!(gz, data);
    assert_eq!(&gz[0..2], &[0x1f, 0x8b]);
    assert_eq!(decompress(&gz, 2).unwrap(), data);
    assert_eq!(compress(&data, Compression::Uncompressed), data);
    assert_eq!(Compression::Uncompressed.id(), 1);
    assert_eq!(Compression::Gzip.id(), 2);
    // Ids other than gzip, brotli and zstd are read as stored bytes.
    for id in [0u8, 1, 5, 255] {
        assert_eq!(decompress(&data, id).unwrap(), data);
    }
    // Brotli (3) and zstd (4) streams are decoded.
    let br = pmtiles2::util::compress_all(pmtiles2::Compression::Brotli, &data).unwrap();
    assert_ne!(br, data);
    assert_eq!(decompress(&br, 3).unwrap(), data);
    let zs = pmtiles2::util::compress_all(pmtiles2::Compression::ZStd, &data).unwrap();
    assert_ne!(zs, data);
    assert_eq!(decompress(&zs, 4).unwrap(), data);
    assert!(matches!(decompress(&[0xff; 8], 3), Err(PmTilesError::Io { .. })));
    assert!(matches!(decompress(&data, 4), Err(PmTilesError::Io { .. })));
    assert!(matches!(decompress(&data, 2), Err(PmTilesError::Io { .. })));
}

#[test]
fn read_range_bounds() {
    let data = [1u8, 2, 3, 4];
    assert_eq!(read_range(&data, 1, 2).unwrap(), &[2, 3]);
    assert_eq!(read_range(&data, 4, 0).unwrap(), &[] as &[u8]);
    match read_range(&data, 3, 2) {
        Err(PmTilesError::Io { msg }) => assert_eq!(msg, "failed to fill whole buffer"),
        other => panic!("expected a short read, got {:?}", other),
    }
    assert!(matches!(read_range(&data, u64::MAX, 2), Err(PmTilesError::Io { .. })));
}

#[test]
fn lookup_steps_over_a_written_archive() {
    let mut w = PmTilesWriter::with_compression(Compression::Gzip, Compression::Uncompressed);
    w.add_tile(1, 1, 1, b"three".to_vec());
    let archive = w.build();
    let r = PmTilesReader::open(&archive).unwrap();
    let lk = r.begin_lookup(1, 1, 1);
    assert_eq!(lk.tile_id, 3);
    assert_eq!(lk.dir_offset, 127);
    assert_eq!(lk.depth, 0);
    let dir = read_range(&archive, lk.dir_offset, lk.dir_length).unwrap();
    match r.step_lookup(&lk, dir).unwrap() {
        LookupStep::FetchTile { offset, length } => {
            let stored = read_range(&archive, offset, length).unwrap();
            assert_eq!(r.finish_tile(stored).unwrap(), b"three".to_vec());
        }
        other => panic!("unexpected step {:?}", other),
    }
    let lk = r.begin_lookup(1, 0, 1);
    assert!(matches!(r.step_lookup(&lk, dir).unwrap(), LookupStep::Missing));
    // A directory that does not decompress is an I/O error.
    assert!(matches!(r.step_lookup(&lk, b"not gzip"), Err(PmTilesError::Io { .. })));
}

#[test]
fn writer_orders_tiles_and_keeps_duplicates_in_order() {
    let mut w = PmTilesWriter::with_compression(Compression::Uncompressed, Compression::Uncompressed);
    w.add_tile(1, 1, 0, b"four".to_vec());
    w.add_tile(0, 0, 0, b"zero".to_vec());
    w.add_tile(1, 1, 0, b"FOUR".to_vec());
    let archive = w.build();
    assert_eq!(w.try_build().unwrap(), archive);
    assert_eq!(&archive[0..7], b"PMTiles");
    assert_eq!(archive[7], 3);
    // Tile data: "zero", then the two tiles with id 4 in the order they were added.
    assert_eq!(&archive[archive.len() - 12..], b"zerofourFOUR");
    let r = PmTilesReader::open(&archive).unwrap();
    assert_eq!(r.get_tile(&archive, 0, 0, 0).unwrap().unwrap(), b"zero".to_vec());
    let four = r.get_tile(&archive, 1, 1, 0).unwrap().unwrap();
    assert!(four == b"four".to_vec() || four == b"FOUR".to_vec());
    assert!(r.get_tile(&archive, 2, 0, 0).unwrap().is_none());
}

#[test]
fn empty_writer_builds_an_archive_without_tiles() {
    let w = PmTilesWriter::new();
    let archive = w.build();
    let r = PmTilesReader::open(&archive).unwrap();
    assert!(r.get_tile(&archive, 0, 0, 0).unwrap().is_none());
}

#[test]
fn reading_past_the_archive_is_an_io_error() {
    let mut w = PmTilesWriter::with_compression(Compression::Uncompressed, Compression::Uncompressed);
    w.add_tile(0, 0, 0, b"tile".to_vec());
    let archive = w.build();
    let r = PmTilesReader::open(&archive).unwrap();
    let cut = &archive[..archive.len() - 1];
    match r.get_tile(cut, 0, 0, 0) {
        Err(PmTilesError::Io { msg }) => assert_eq!(msg, "failed to fill whole buffer"),
        other => panic!("expected a short read, got {:?}", other),
    }
}

#[test]
fn bytes_after_a_directory_are_ignored() {
    let entries = [(5u64, 0u64, 10u32), (9, 10, 3)];
    let dir = serialize_directory(&entries);
    let parsed = deserialize_directory(&dir).unwrap();
    let mut longer = dir.clone();
    longer.extend_from_slice(&[0xff, 0x80, 7, 0]);
    let again = deserialize_directory(&longer).unwrap();
    assert_eq!(parsed.len(), again.len());
    for (a, b) in parsed.iter().zip(again.iter()) {
        assert_eq!((a.tile_id, a.offset, a.length, a.run_length), (b.tile_id, b.offset, b.length, b.run_length));
    }
}

#[test]
fn find_tile_on_unsorted_entries_does_not_fail() {
    let e = |tile_id: u64, run_length: u32| Entry { tile_id, offset: 0, length: 1, run_length };
    let entries = [e(9, 1), e(2, 1), e(30, 1), e(1, 1)];
    for id in 0..40u64 {
        let _ = find_tile(&entries, id);
    }
    assert_eq!(find_tile(&entries, 30).map(|x| x.tile_id), Some(30));
}
