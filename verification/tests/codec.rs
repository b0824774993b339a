use pmtiles::directory::{DirEntry, Directory};
use pmtiles::error::PmtError;
use pmtiles::extract::{apply_copy_discards, CopyDiscard};
use pmtiles::header::{Compression, Header, TileType};
use pmtiles::tile::TileId;

fn entry(tid: u64, offset: u64, length: u32, rl: u32) -> DirEntry {
    DirEntry { tile_id: tid, offset, length, run_length: rl }
}

#[test]
fn directory_lookup() {
    let d = Directory::from_entries(vec![entry(0, 0, 5, 1), entry(5, 5, 5, 3)]);
    assert_eq!(d.find_tile_id(TileId::new(5).unwrap()).unwrap().tile_id, 5);
    assert_eq!(d.find_tile_id(TileId::new(7).unwrap()).unwrap().tile_id, 5);
    assert_eq!(d.find_tile_id(TileId::new(8).unwrap()), None);
    assert_eq!(d.find_tile_id(TileId::new(3).unwrap()), None);
    assert_eq!(d.find_tile_id(TileId::new(0).unwrap()).unwrap().tile_id, 0);
}

#[test]
fn directory_round_trip() {
    let d = Directory::from_entries(vec![
        entry(0, 0, 100, 1),
        entry(1, 100, 50, 2),
        entry(10, 0, 100, 1),
        entry(20, 150, 7, 0),
    ]);
    let mut bytes = Vec::new();
    d.write_to(&mut bytes);
    let back = Directory::try_from_bytes(&bytes).unwrap();
    assert_eq!(back.entries, d.entries);
}

#[test]
fn directory_rejects_truncated() {
    let d = Directory::from_entries(vec![entry(0, 0, 100, 1), entry(9, 100, 50, 1)]);
    let mut bytes = Vec::new();
    d.write_to(&mut bytes);
    bytes.pop();
    match Directory::try_from_bytes(&bytes) {
        Err(e) => assert_eq!(e, PmtError::InvalidEntry),
        Ok(_) => panic!("expected truncated parse to fail"),
    }
}

fn sample_header() -> Header {
    Header {
        version: 3,
        root_offset: 127,
        root_length: 25,
        metadata_offset: 16384,
        metadata_length: 2,
        leaf_offset: 0,
        leaf_length: 0,
        data_offset: 16386,
        data_length: 99,
        n_addressed_tiles: 85,
        n_tile_entries: 84,
        n_tile_contents: 80,
        clustered: true,
        internal_compression: Compression::Gzip,
        tile_compression: Compression::NoCompression,
        tile_type: TileType::Png,
        min_zoom: 0,
        max_zoom: 3,
        min_longitude_e7: -1800000000,
        min_latitude_e7: -850000000,
        max_longitude_e7: 1800000000,
        max_latitude_e7: 850000000,
        center_zoom: 0,
        center_longitude_e7: 0,
        center_latitude_e7: 0,
    }
}

#[test]
fn header_parse() {
    let h = sample_header();
    let mut bytes = Vec::new();
    h.write_to(&mut bytes);
    assert_eq!(bytes.len(), 127);
    assert_eq!(&bytes[0..7], b"PMTiles");
    assert_eq!(bytes[7], 3);
    let back = Header::try_from_bytes(&bytes).unwrap();
    assert_eq!(back, h);
    assert_eq!(back.tile_type, TileType::Png);
    assert_eq!(back.n_addressed_tiles, 85);
    assert_eq!(back.n_tile_entries, 84);
    assert_eq!(back.n_tile_contents, 80);
    assert_eq!(back.min_zoom, 0);
    assert_eq!(back.max_zoom, 3);
    assert!(back.clustered);
    assert_eq!(back.min_longitude_e7, -1800000000);
    assert_eq!(back.max_latitude_e7, 850000000);
}

#[test]
fn header_magic_errors() {
    let h = sample_header();
    let mut bytes = Vec::new();
    h.write_to(&mut bytes);
    let mut v2 = bytes.clone();
    v2[2] = b'X';
    assert_eq!(Header::try_from_bytes(&v2), Err(PmtError::UnsupportedPmTilesVersion));
    let mut bad = bytes.clone();
    bad[0] = b'Q';
    assert_eq!(Header::try_from_bytes(&bad), Err(PmtError::InvalidMagicNumber));
    assert_eq!(Header::try_from_bytes(&bytes[..100]), Err(PmtError::InvalidHeader));
    let mut badc = bytes.clone();
    badc[97] = 9;
    assert_eq!(Header::try_from_bytes(&badc), Err(PmtError::InvalidCompression));
    let mut badt = bytes;
    badt[99] = 9;
    assert_eq!(Header::try_from_bytes(&badt), Err(PmtError::InvalidTileType));
}

#[test]
fn content_codes() {
    assert_eq!(Compression::Gzip.content_encoding(), Some("gzip"));
    assert_eq!(Compression::Brotli.content_encoding(), Some("br"));
    assert_eq!(Compression::NoCompression.content_encoding(), None);
    assert_eq!(TileType::Mvt.content_type(), "application/vnd.mapbox-vector-tile");
    assert_eq!(TileType::Png.content_type(), "image/png");
    assert_eq!(Compression::from_code(2), Ok(Compression::Gzip));
    assert_eq!(Compression::from_code(7), Err(PmtError::InvalidCompression));
    assert_eq!(TileType::from_code(5), Ok(TileType::Avif));
    assert_eq!(TileType::from_code(6), Err(PmtError::InvalidTileType));
}

#[test]
fn copy_discards_split_merged_fetch() {
    let bytes: Vec<u8> = (0u8..120).collect();
    let cds = vec![
        CopyDiscard { wanted: 50, discard: 10 },
        CopyDiscard { wanted: 60, discard: 0 },
    ];
    let kept = apply_copy_discards(&bytes, &cds).unwrap();
    assert_eq!(kept.len(), 110);
    assert_eq!(&kept[..50], &bytes[..50]);
    assert_eq!(&kept[50..], &bytes[60..120]);
    let short = apply_copy_discards(&bytes[..100], &cds);
    assert_eq!(short, Err(PmtError::IoRangeOverflow));
}
