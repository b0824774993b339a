use pmtiles::tile::{pyramid_size_by_zoom, TileCoord, TileId, MAX_TILE_ID, MAX_ZOOM};

fn coord(z: u8, x: u32, y: u32) -> TileCoord {
    TileCoord::new(z, x, y).unwrap()
}

fn coord_to_id(z: u8, x: u32, y: u32) -> u64 {
    TileId::from_coord(coord(z, x, y)).value()
}

fn id_to_coord(id: u64) -> (u8, u32, u32) {
    let c = TileCoord::from_id(TileId::new(id).unwrap());
    (c.z(), c.x(), c.y())
}

#[test]
fn test_tile_id() {
    assert_eq!(TileId::new(0).unwrap().value(), 0);
    assert_eq!(TileId::new(MAX_TILE_ID + 1), None);
    assert_eq!(TileId::new(MAX_TILE_ID).unwrap().value(), MAX_TILE_ID);

    assert_eq!(coord_to_id(0, 0, 0), 0);
    assert_eq!(coord_to_id(1, 1, 0), 4);
    assert_eq!(coord_to_id(2, 1, 3), 11);
    assert_eq!(coord_to_id(3, 3, 0), 26);
    assert_eq!(coord_to_id(20, 0, 0), 366503875925);
    assert_eq!(coord_to_id(21, 0, 0), 1466015503701);
    assert_eq!(coord_to_id(22, 0, 0), 5864062014805);
    assert_eq!(coord_to_id(23, 0, 0), 23456248059221);
    assert_eq!(coord_to_id(24, 0, 0), 93824992236885);
    assert_eq!(coord_to_id(25, 0, 0), 375299968947541);
    assert_eq!(coord_to_id(26, 0, 0), 1501199875790165);
    assert_eq!(coord_to_id(27, 0, 0), 6004799503160661);
    assert_eq!(coord_to_id(28, 0, 0), 24019198012642645);
    assert_eq!(coord_to_id(31, 0, 0), 1537228672809129301);
    let max_v = (1u32 << 31) - 1;
    assert_eq!(coord_to_id(31, max_v, max_v), 4611686018427387903);
    assert_eq!(coord_to_id(31, 0, max_v), 3074457345618258602);
    assert_eq!(coord_to_id(31, max_v, 0), 6148914691236517204);
}

fn test_id(id: u64) {
    let id1 = TileId::new(id).unwrap();
    let coord1 = TileCoord::from_id(id1);
    let coord2 = TileCoord::new(coord1.z(), coord1.x(), coord1.y()).unwrap();
    let id2 = TileId::from_coord(coord2);
    assert_eq!(id, id2.value(), "Failed round-trip for id={id}");
}

#[test]
fn round_trip_ids() {
    let last_base = pyramid_size_by_zoom(31);
    for id in [
        0,
        1,
        2,
        3,
        4,
        5,
        6,
        last_base,
        last_base - 1,
        last_base + 1,
        MAX_TILE_ID - 1,
        MAX_TILE_ID,
    ] {
        test_id(id);
    }
    for id in 0..1000 {
        test_id(id);
    }
}

#[test]
fn test_calc_tile_coords() {
    let test_cases = [
        (0, 0, 0),
        (1, 1, 0),
        (2, 1, 3),
        (3, 3, 0),
        (20, 0, 0),
        (21, 0, 0),
        (22, 0, 0),
        (23, 0, 0),
        (24, 0, 0),
        (25, 0, 0),
        (26, 0, 0),
        (27, 0, 0),
        (28, 0, 0),
    ];

    for (z, x, y) in test_cases {
        let (z2, x2, y2) = id_to_coord(coord_to_id(z, x, y));
        assert_eq!((z, x, y), (z2, x2, y2), "Failed round-trip for z={z}, x={x}, y={y}");
    }
}

#[test]
fn pyramid_base_table() {
    assert_eq!(MAX_ZOOM, 31);
    let expected: [u64; 8] = [0, 1, 5, 21, 85, 341, 1365, 5461];
    for (z, v) in expected.iter().enumerate() {
        assert_eq!(pyramid_size_by_zoom(z as u8), *v);
    }
    let mut acc: u64 = 1;
    for z in 0..31u8 {
        let diff = pyramid_size_by_zoom(z + 1) - pyramid_size_by_zoom(z);
        assert_eq!(diff, acc, "difference at zoom {z}");
        assert!(pyramid_size_by_zoom(z + 1) > pyramid_size_by_zoom(z));
        acc *= 4;
    }
    assert_eq!(pyramid_size_by_zoom(31), 1537228672809129301);
}

#[test]
fn parent_ids() {
    assert_eq!(TileId::new(0).unwrap().parent_id(), None);
    let child = TileId::from_coord(coord(2, 1, 3));
    let parent = child.parent_id().unwrap();
    let pc = TileCoord::from_id(parent);
    assert_eq!((pc.z(), pc.x(), pc.y()), (1, 0, 1));
}
