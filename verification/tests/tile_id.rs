use pmtiles_core::tile_id::zxy_to_tile_id;

#[test]
fn tile_id_matches_known_values() {
    assert_eq!(zxy_to_tile_id(0, 0, 0), 0);
    assert_eq!(zxy_to_tile_id(1, 0, 0), 1);
    assert_eq!(zxy_to_tile_id(1, 0, 1), 2);
    assert_eq!(zxy_to_tile_id(1, 1, 1), 3);
    assert_eq!(zxy_to_tile_id(1, 1, 0), 4);
}

#[test]
fn tile_id_zoom_two_follows_the_hilbert_curve() {
    // Zoom 2 starts after the 1 + 4 tiles of zooms 0 and 1.
    assert_eq!(zxy_to_tile_id(2, 0, 0), 5);
    assert_eq!(zxy_to_tile_id(2, 1, 0), 6);
    assert_eq!(zxy_to_tile_id(2, 1, 1), 7);
    assert_eq!(zxy_to_tile_id(2, 0, 1), 8);
    assert_eq!(zxy_to_tile_id(2, 3, 0), 20);
}

#[test]
fn tile_id_stays_in_its_zoom_band() {
    // The first id of zoom 32 is (4^32 - 1) / 3; every id of zoom 31 is below it.
    assert_eq!(zxy_to_tile_id(32, 0, 0), 6148914691236517205);
    let top31 = zxy_to_tile_id(31, u32::MAX, u32::MAX);
    assert!(top31 < 6148914691236517205);
    assert!(zxy_to_tile_id(31, 0, 0) <= top31);
    assert!(zxy_to_tile_id(32, 0x7fff_ffff, u32::MAX) < u64::MAX);
}

#[test]
fn distinct_tiles_get_distinct_ids() {
    // Zooms 0 to 4 hold 1 + 4 + 16 + 64 + 256 = 341 tiles; their ids are
    // exactly 0..341, each once.
    let mut seen = vec![false; 341];
    for z in 0u8..=4 {
        let side: u32 = 1 << z;
        for x in 0..side {
            for y in 0..side {
                let id = zxy_to_tile_id(z, x, y) as usize;
                assert!(id < 341);
                assert!(!seen[id], "id {} given twice", id);
                seen[id] = true;
            }
        }
    }
    assert!(seen.iter().all(|s| *s));
}

#[test]
fn consecutive_ids_are_neighbouring_tiles() {
    // Zoom 3: ids 21..85 walk the 8 x 8 grid from (0, 0) to (7, 0) one edge
    // at a time.
    let mut at = vec![(u32::MAX, u32::MAX); 64];
    for x in 0..8u32 {
        for y in 0..8u32 {
            at[(zxy_to_tile_id(3, x, y) - 21) as usize] = (x, y);
        }
    }
    assert_eq!(at[0], (0, 0));
    assert_eq!(at[63], (7, 0));
    for w in at.windows(2) {
        let (a, b) = (w[0], w[1]);
        assert_eq!(a.0.abs_diff(b.0) + a.1.abs_diff(b.1), 1, "{:?} -> {:?}", a, b);
    }
}
