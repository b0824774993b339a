use pmtiles::cache::{DirCacheResult, HashMapCache, NoCache};
use pmtiles::compression::decompress;
use pmtiles::directory::DirEntry;
use pmtiles::tile::TileId;
use pmtiles::directory::Directory;
use pmtiles::header::{Compression, TileType, HEADER_SIZE, MAX_INITIAL_BYTES};
use pmtiles::reader::{parse_initial_bytes, resolve_step, ResolveAction};
use pmtiles::tile::TileCoord;
use pmtiles::writer::PmTilesWriter;

fn coord(z: u8, x: u32, y: u32) -> TileCoord {
    TileCoord::new(z, x, y).unwrap()
}

#[test]
fn writer_round_trip_uncompressed() {
    let mut w = PmTilesWriter::new(TileType::Png)
        .internal_compression(Compression::NoCompression)
        .max_zoom(3)
        .metadata("{\"name\":\"t\"}")
        .create()
        .unwrap();
    let tiles: Vec<(TileCoord, Vec<u8>)> = vec![
        (coord(0, 0, 0), vec![1, 2, 3]),
        (coord(1, 0, 0), vec![4, 5]),
        (coord(1, 0, 1), vec![6]),
    ];
    for (c, data) in &tiles {
        w.add_tile(*c, data).unwrap();
    }
    let bytes = w.finalize().unwrap();
    assert!(bytes.len() >= MAX_INITIAL_BYTES);
    assert_eq!(&bytes[0..7], b"PMTiles");

    let (h, root) = parse_initial_bytes(&bytes[..MAX_INITIAL_BYTES]).unwrap();
    assert!(h.clustered);
    assert_eq!(h.n_addressed_tiles, 3);
    assert_eq!(h.n_tile_entries, 3);
    assert_eq!(h.n_tile_contents, 3);
    assert_eq!(h.root_offset, HEADER_SIZE as u64);
    assert_eq!(root.entries.len(), 3);
    for (i, (c, data)) in tiles.iter().enumerate() {
        let id = pmtiles::tile::TileId::from_coord(*c);
        let e = root.find_tile_id(id).unwrap();
        assert_eq!(e.tile_id, id.value());
        let lo = (h.data_offset + e.offset) as usize;
        let hi = lo + e.length as usize;
        assert_eq!(&bytes[lo..hi], &data[..], "payload {i}");
    }
    let meta = &bytes[h.metadata_offset as usize..(h.metadata_offset + h.metadata_length) as usize];
    assert_eq!(meta, b"{\"name\":\"t\"}");
}

#[test]
fn writer_round_trip_gzip_internal() {
    let mut w = PmTilesWriter::new(TileType::Mvt).max_zoom(2).create().unwrap();
    w.add_tile(coord(0, 0, 0), b"hello tile").unwrap();
    w.add_tile(coord(1, 1, 0), b"another tile").unwrap();
    let bytes = w.finalize().unwrap();

    let (h, root) = parse_initial_bytes(&bytes[..MAX_INITIAL_BYTES]).unwrap();
    assert_eq!(h.internal_compression, Compression::Gzip);
    assert_eq!(h.tile_compression, Compression::Gzip);
    assert_eq!(root.entries.len(), 2);
    let e = &root.entries[0];
    let lo = (h.data_offset + e.offset) as usize;
    let hi = lo + e.length as usize;
    let stored = &bytes[lo..hi];
    let unpacked = decompress(h.tile_compression, stored).unwrap();
    assert_eq!(unpacked, b"hello tile");
    let meta_lo = h.metadata_offset as usize;
    let meta_hi = meta_lo + h.metadata_length as usize;
    let meta = decompress(h.internal_compression, &bytes[meta_lo..meta_hi]).unwrap();
    assert_eq!(meta, b"{}");
}

#[test]
fn writer_dedup_and_rle() {
    let mut w = PmTilesWriter::new(TileType::Png)
        .internal_compression(Compression::NoCompression)
        .create()
        .unwrap();
    // run of identical payloads at consecutive tile ids collapses into one
    // entry
    let c = |id: u64| TileCoord::from_id(TileId::new(id).unwrap());
    w.add_tile(c(5), b"AAAA").unwrap();
    w.add_tile(c(6), b"AAAA").unwrap();
    w.add_tile(c(7), b"AAAA").unwrap();
    let bytes = w.finalize().unwrap();
    let (h, root) = parse_initial_bytes(&bytes[..MAX_INITIAL_BYTES]).unwrap();
    assert_eq!(h.n_addressed_tiles, 3);
    assert_eq!(h.n_tile_entries, 1);
    assert_eq!(h.n_tile_contents, 1);
    assert_eq!(root.entries[0].run_length, 3);
}

#[test]
fn writer_dedup_nonconsecutive_no_rle() {
    let mut w = PmTilesWriter::new(TileType::Png)
        .internal_compression(Compression::NoCompression)
        .create()
        .unwrap();
    let c = |id: u64| TileCoord::from_id(TileId::new(id).unwrap());
    w.add_tile(c(0), b"ABC").unwrap();
    w.add_tile(c(1), b"X").unwrap();
    w.add_tile(c(2), b"ABC").unwrap();
    let bytes = w.finalize().unwrap();
    let (h, root) = parse_initial_bytes(&bytes[..MAX_INITIAL_BYTES]).unwrap();
    assert_eq!(h.n_addressed_tiles, 3);
    assert_eq!(h.n_tile_entries, 3);
    assert_eq!(h.n_tile_contents, 2);
    let e0 = &root.entries[0];
    let e1 = &root.entries[1];
    let e2 = &root.entries[2];
    assert_eq!(e0.run_length, 1);
    assert_eq!(e1.run_length, 1);
    assert_eq!(e2.run_length, 1);
    assert_eq!(e0.offset, e2.offset);
    assert_eq!(e0.length, e2.length);
    assert_ne!(e1.offset, e0.offset);
}

#[test]
fn writer_unclustered_sorts() {
    let mut w = PmTilesWriter::new(TileType::Png)
        .internal_compression(Compression::NoCompression)
        .create()
        .unwrap();
    w.add_tile(coord(1, 1, 1), b"zz").unwrap();
    w.add_tile(coord(0, 0, 0), b"aa").unwrap();
    let bytes = w.finalize().unwrap();
    let (h, root) = parse_initial_bytes(&bytes[..MAX_INITIAL_BYTES]).unwrap();
    assert!(!h.clustered);
    assert!(root.entries[0].tile_id < root.entries[1].tile_id);
}

#[test]
fn writer_empty_tiles_ignored() {
    let mut w = PmTilesWriter::new(TileType::Png)
        .internal_compression(Compression::NoCompression)
        .create()
        .unwrap();
    w.add_tile(coord(0, 0, 0), b"").unwrap();
    let bytes = w.finalize().unwrap();
    let (h, root) = parse_initial_bytes(&bytes[..MAX_INITIAL_BYTES]).unwrap();
    assert_eq!(h.n_addressed_tiles, 0);
    assert_eq!(root.entries.len(), 0);
}

#[test]
fn cache_lookup() {
    let none = NoCache;
    assert!(matches!(none.get_dir_entry(0, TileId::new(0).unwrap()), DirCacheResult::NotCached));

    let mut cache = HashMapCache::new();
    assert!(matches!(cache.get_dir_entry(7, TileId::new(1).unwrap()), DirCacheResult::NotCached));
    let dir = Directory::from_entries(vec![DirEntry {
        tile_id: 1,
        offset: 0,
        length: 4,
        run_length: 1,
    }]);
    cache.insert_dir(7, dir);
    match cache.get_dir_entry(7, TileId::new(1).unwrap()) {
        DirCacheResult::Found(e) => assert_eq!(e.tile_id, 1),
        _ => panic!("expected a hit"),
    }
    assert!(matches!(cache.get_dir_entry(7, TileId::new(9).unwrap()), DirCacheResult::NotFound));
}

#[test]
fn writer_then_reader_round_trip_tiles() {
    // every tile written in increasing id order reads back byte-identical
    let mut w = PmTilesWriter::new(TileType::Png)
        .internal_compression(Compression::NoCompression)
        .create()
        .unwrap();
    let tiles: Vec<(u64, Vec<u8>)> =
        vec![(0, vec![10, 11]), (3, vec![12]), (7, vec![13, 14, 15])];
    for (id, data) in &tiles {
        w.add_tile(TileCoord::from_id(TileId::new(*id).unwrap()), data).unwrap();
    }
    let bytes = w.finalize().unwrap();
    let (h, root) = parse_initial_bytes(&bytes[..MAX_INITIAL_BYTES]).unwrap();
    assert!(h.clustered);
    for (id, data) in &tiles {
        match resolve_step(&h, &root, TileId::new(*id).unwrap()).unwrap() {
            ResolveAction::Payload(off, len) => {
                let lo = off as usize;
                let hi = lo + len as usize;
                assert_eq!(&bytes[lo..hi], &data[..]);
            }
            _ => panic!("expected a payload"),
        }
    }
    assert!(matches!(
        resolve_step(&h, &root, TileId::new(5).unwrap()).unwrap(),
        ResolveAction::Absent
    ));
}
