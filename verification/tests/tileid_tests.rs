use pmtiles::tileid::TileId;

#[test]
fn decode_tileid() {
    assert_eq!(TileId::new(0).decode(), (0, 0, 0));
    assert_eq!(TileId::new(1).decode(), (1, 0, 0));
    assert_eq!(TileId::new(2).decode(), (1, 0, 1));
    assert_eq!(TileId::new(3).decode(), (1, 1, 1));
    assert_eq!(TileId::new(4).decode(), (1, 1, 0));
    assert_eq!(TileId::new(5).decode(), (2, 0, 0));
    assert_eq!(TileId::new(19078479).decode(), (12, 3423, 1763));
}

#[test]
fn encode_tileid() {
    assert_eq!(TileId::encode(0, 0, 0).value(), 0);
    assert_eq!(TileId::encode(1, 0, 0).value(), 1);
    assert_eq!(TileId::encode(1, 0, 1).value(), 2);
    assert_eq!(TileId::encode(1, 1, 1).value(), 3);
    assert_eq!(TileId::encode(1, 1, 0).value(), 4);
    assert_eq!(TileId::encode(2, 0, 0).value(), 5);
    assert_eq!(TileId::encode(12, 3423, 1763).value(), 19078479);
}

#[test]
fn tileid_round_trip_small_grids() {
    for z in 0u8..=5 {
        let side = 1u32 << z;
        for x in 0..side {
            for y in 0..side {
                let id = TileId::encode(z, x, y);
                assert_eq!(id.decode(), (z, x, y));
            }
        }
    }
}

#[test]
fn tileid_round_trip_deep_zoom() {
    let cases = [
        (16u8, 58166u32, 25820u32),
        (16, 55234, 27904),
        (20, 0, 0),
        (20, (1 << 20) - 1, (1 << 20) - 1),
        (31, 5, 7),
    ];
    for &(z, x, y) in cases.iter() {
        assert_eq!(TileId::encode(z, x, y).decode(), (z, x, y));
    }
}

#[test]
fn zoom_levels_visit_each_cell_once() {
    // one zoom level: every distance below 4^z lands on a distinct cell
    let z = 3u8;
    let side = 1u32 << z;
    let mut seen = vec![false; (side * side) as usize];
    let base = TileId::encode(z, 0, 0).value();
    for d in 0..(side as u64 * side as u64) {
        let (dz, x, y) = TileId::new(base + d).decode();
        assert_eq!(dz, z);
        let cell = (y * side + x) as usize;
        assert!(!seen[cell]);
        seen[cell] = true;
    }
    assert!(seen.iter().all(|&v| v));
}

#[test]
fn consecutive_distances_are_neighbours() {
    let z = 4u8;
    let base = TileId::encode(z, 0, 0).value();
    let cells = 1u64 << (2 * z);
    let (mut px, mut py) = {
        let (_, x, y) = TileId::new(base).decode();
        (x, y)
    };
    for d in 1..cells {
        let (_, x, y) = TileId::new(base + d).decode();
        let dx = if x > px { x - px } else { px - x };
        let dy = if y > py { y - py } else { py - y };
        assert_eq!(dx + dy, 1);
        px = x;
        py = y;
    }
}
