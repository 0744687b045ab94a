use pmtiles_core::{Compression, PmTilesError, PmTilesReader, PmTilesWriter};

fn roundtrip(internal: Compression, tile: Compression) {
    let t000 = b"tile-payload-0-0-0".to_vec();
    let t100 = b"tile-payload-1-0-0".to_vec();
    let t111 = b"tile-payload-1-1-1-with-a-longer-body".to_vec();

    let mut w = PmTilesWriter::with_compression(internal, tile);
    w.add_tile(0, 0, 0, t000.clone());
    w.add_tile(1, 0, 0, t100.clone());
    w.add_tile(1, 1, 1, t111.clone());
    let archive = w.build();

    let r = PmTilesReader::open(&archive).unwrap();
    assert_eq!(r.get_tile(&archive, 0, 0, 0).unwrap().as_deref(), Some(&t000[..]));
    assert_eq!(r.get_tile(&archive, 1, 0, 0).unwrap().as_deref(), Some(&t100[..]));
    assert_eq!(r.get_tile(&archive, 1, 1, 1).unwrap().as_deref(), Some(&t111[..]));
    assert!(r.get_tile(&archive, 1, 0, 1).unwrap().is_none());
}

#[test]
fn roundtrip_gzip_dirs_and_tiles() {
    roundtrip(Compression::Gzip, Compression::Gzip);
}

#[test]
fn roundtrip_uncompressed() {
    roundtrip(Compression::Uncompressed, Compression::Uncompressed);
}

#[test]
fn roundtrip_uncompressed_dirs_gzip_tiles() {
    roundtrip(Compression::Uncompressed, Compression::Gzip);
}

#[test]
fn rejects_non_pmtiles() {
    let bytes = [0u8; 200];
    assert!(matches!(PmTilesReader::open(&bytes), Err(PmTilesError::InvalidArchive)));
}

#[test]
fn writer_new_defaults_to_gzip() {
    let payload = b"default-writer".to_vec();
    let mut w = PmTilesWriter::new();
    w.add_tile(0, 0, 0, payload.clone());
    let archive = w.build();
    assert_eq!(archive[97], 2);
    assert_eq!(archive[98], 2);
    let r = PmTilesReader::open(&archive).unwrap();
    assert_eq!(r.get_tile(&archive, 0, 0, 0).unwrap().as_deref(), Some(&payload[..]));
}

#[test]
fn large_tile_uses_multibyte_varints() {
    // A >=128-byte payload makes the length varint multibyte on write and read.
    let payload = vec![0xABu8; 500];
    let mut w = PmTilesWriter::with_compression(Compression::Uncompressed, Compression::Uncompressed);
    w.add_tile(0, 0, 0, payload.clone());
    let archive = w.build();
    let r = PmTilesReader::open(&archive).unwrap();
    assert_eq!(r.get_tile(&archive, 0, 0, 0).unwrap().as_deref(), Some(&payload[..]));
}

#[test]
fn unsupported_version_is_error() {
    let mut bytes = vec![0u8; 127];
    bytes[0..7].copy_from_slice(b"PMTiles");
    bytes[7] = 2;
    assert!(matches!(
        PmTilesReader::open(&bytes),
        Err(PmTilesError::UnsupportedVersion { version: 2 })
    ));
}

#[test]
fn empty_directory_returns_none() {
    let root = vec![0u8]; // num_entries = 0
    let bytes = with_root_dir(&root);
    let r = PmTilesReader::open(&bytes).unwrap();
    assert!(r.get_tile(&bytes, 0, 0, 0).unwrap().is_none());
}

#[test]
fn corrupt_directory_truncated_varint() {
    let root = vec![0x80u8]; // continuation bit set, but no following byte
    let bytes = with_root_dir(&root);
    let r = PmTilesReader::open(&bytes).unwrap();
    assert!(matches!(r.get_tile(&bytes, 0, 0, 0), Err(PmTilesError::CorruptDirectory)));
}

#[test]
fn corrupt_directory_varint_overflow() {
    let root = vec![0x80u8; 10]; // never terminates -> shift overflow
    let bytes = with_root_dir(&root);
    let r = PmTilesReader::open(&bytes).unwrap();
    assert!(matches!(r.get_tile(&bytes, 0, 0, 0), Err(PmTilesError::CorruptDirectory)));
}

#[test]
fn reads_through_leaf_directory() {
    // Root dir holds one leaf pointer (run_length 0); the leaf holds a tile entry
    // whose run_length covers id 5 (= z2/0/0). Requesting z2/0/0 is not an exact
    // entry id, so it exercises the leaf-directory traversal and run-length match.
    let tile = b"leaf-tile".to_vec();

    let mut leaf = Vec::new();
    write_varint(&mut leaf, 1); // entries
    write_varint(&mut leaf, 0); // tile_id delta -> id 0
    write_varint(&mut leaf, 1000); // run_length covers id 5
    write_varint(&mut leaf, tile.len() as u64); // length
    write_varint(&mut leaf, 1); // offset 0 (encoded +1)

    let mut root = Vec::new();
    write_varint(&mut root, 1); // entries
    write_varint(&mut root, 0); // tile_id delta -> id 0
    write_varint(&mut root, 0); // run_length 0 -> leaf pointer
    write_varint(&mut root, leaf.len() as u64); // length of leaf dir
    write_varint(&mut root, 1); // offset 0 into leaf_dirs (encoded +1)

    let leaf_off = 127 + root.len() as u64;
    let tile_off = leaf_off + leaf.len() as u64;
    let mut bytes = header(root.len() as u64, leaf_off, tile_off, tile.len() as u64);
    bytes.extend_from_slice(&root);
    bytes.extend_from_slice(&leaf);
    bytes.extend_from_slice(&tile);

    let r = PmTilesReader::open(&bytes).unwrap();
    assert_eq!(r.get_tile(&bytes, 2, 0, 0).unwrap().as_deref(), Some(&tile[..]));
}

// --- helpers for crafting malformed / special-layout archives ---

fn put_u64(buf: &mut [u8], at: usize, v: u64) {
    buf[at..at + 8].copy_from_slice(&v.to_le_bytes());
}

fn write_varint(buf: &mut Vec<u8>, mut v: u64) {
    loop {
        let mut b = (v & 0x7f) as u8;
        v >>= 7;
        if v != 0 {
            b |= 0x80;
        }
        buf.push(b);
        if v == 0 {
            break;
        }
    }
}

fn header(root_len: u64, leaf_off: u64, tile_off: u64, tile_len: u64) -> Vec<u8> {
    let mut h = vec![0u8; 127];
    h[0..7].copy_from_slice(b"PMTiles");
    h[7] = 3;
    put_u64(&mut h, 8, 127); // root_dir_offset
    put_u64(&mut h, 16, root_len); // root_dir_length
    put_u64(&mut h, 40, leaf_off); // leaf_dirs_offset
    put_u64(&mut h, 56, tile_off); // tile_data_offset
    put_u64(&mut h, 64, tile_len);
    h[97] = 1; // internal compression: none
    h[98] = 1; // tile compression: none
    h
}

fn with_root_dir(root: &[u8]) -> Vec<u8> {
    let mut bytes = header(root.len() as u64, 0, 127 + root.len() as u64, 0);
    bytes.extend_from_slice(root);
    bytes
}

#[test]
fn every_position_reads_back_its_own_tile() {
    // All tiles of zooms 0 to 3, added out of order, each with its own bytes.
    let mut positions = Vec::new();
    for z in (0u8..=3).rev() {
        let side: u32 = 1 << z;
        for x in 0..side {
            for y in (0..side).rev() {
                positions.push((z, x, y));
            }
        }
    }
    let mut w = PmTilesWriter::with_compression(Compression::Gzip, Compression::Uncompressed);
    for &(z, x, y) in &positions {
        w.add_tile(z, x, y, format!("{}/{}/{}", z, x, y).into_bytes());
    }
    let archive = w.build();
    let r = PmTilesReader::open(&archive).unwrap();
    for &(z, x, y) in &positions {
        let tile = r.get_tile(&archive, z, x, y).unwrap().unwrap();
        assert_eq!(tile, format!("{}/{}/{}", z, x, y).into_bytes());
    }
    assert!(r.get_tile(&archive, 4, 0, 0).unwrap().is_none());
}

#[test]
fn brotli_and_zstd_tiles_are_decompressed() {
    let tile = b"a tile stored with brotli or zstd".to_vec();
    for (id, compression) in [(3u8, pmtiles2::Compression::Brotli), (4u8, pmtiles2::Compression::ZStd)] {
        let stored = pmtiles2::util::compress_all(compression, &tile).unwrap();
        // One tile entry covering id 0; the header names the tile compression.
        let mut root = Vec::new();
        write_varint(&mut root, 1);
        write_varint(&mut root, 0);
        write_varint(&mut root, 1);
        write_varint(&mut root, stored.len() as u64);
        write_varint(&mut root, 1);
        let tile_off = 127 + root.len() as u64;
        let mut bytes = header(root.len() as u64, 0, tile_off, stored.len() as u64);
        bytes[98] = id;
        bytes.extend_from_slice(&root);
        bytes.extend_from_slice(&stored);
        let r = PmTilesReader::open(&bytes).unwrap();
        assert_eq!(r.get_tile(&bytes, 0, 0, 0).unwrap(), Some(tile.clone()));
        assert!(r.get_tile(&bytes, 1, 0, 0).unwrap().is_none());
    }
}

#[test]
fn brotli_and_zstd_directories_are_decompressed() {
    let mut root = Vec::new();
    write_varint(&mut root, 1);
    write_varint(&mut root, 0);
    write_varint(&mut root, 1);
    write_varint(&mut root, 4);
    write_varint(&mut root, 1);
    for (id, compression) in [(3u8, pmtiles2::Compression::Brotli), (4u8, pmtiles2::Compression::ZStd)] {
        let dir = pmtiles2::util::compress_all(compression, &root).unwrap();
        let tile_off = 127 + dir.len() as u64;
        let mut bytes = header(dir.len() as u64, 0, tile_off, 4);
        bytes[97] = id;
        bytes.extend_from_slice(&dir);
        bytes.extend_from_slice(b"tile");
        let r = PmTilesReader::open(&bytes).unwrap();
        assert_eq!(r.get_tile(&bytes, 0, 0, 0).unwrap(), Some(b"tile".to_vec()));
    }
}

#[test]
fn building_twice_gives_the_same_archive_and_keeps_the_tiles() {
    let mut w = PmTilesWriter::new();
    w.add_tile(0, 0, 0, b"first".to_vec());
    let a = w.build();
    let b = w.build();
    assert_eq!(a, b);
    w.add_tile(1, 1, 0, b"second".to_vec());
    let c = w.build();
    let r = PmTilesReader::open(&c).unwrap();
    assert_eq!(r.get_tile(&c, 0, 0, 0).unwrap(), Some(b"first".to_vec()));
    assert_eq!(r.get_tile(&c, 1, 1, 0).unwrap(), Some(b"second".to_vec()));
}

#[test]
fn add_order_does_not_change_the_archive() {
    let tiles: Vec<(u8, u32, u32, Vec<u8>)> = vec![
        (0, 0, 0, b"root".to_vec()),
        (2, 3, 1, b"two-three-one".to_vec()),
        (1, 1, 0, b"one-one-zero".to_vec()),
        (2, 0, 2, b"two-zero-two".to_vec()),
    ];
    let mut forward = PmTilesWriter::new();
    for (z, x, y, d) in tiles.iter() {
        forward.add_tile(*z, *x, *y, d.clone());
    }
    let mut backward = PmTilesWriter::new();
    for (z, x, y, d) in tiles.iter().rev() {
        backward.add_tile(*z, *x, *y, d.clone());
    }
    assert_eq!(forward.build(), backward.build());
}
