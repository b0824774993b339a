use pmtiles::bitmap::tile_rect_bitmap;
use pmtiles::directory::DirEntry;
use pmtiles::error::PmtError;
use pmtiles::directory::Directory;
use pmtiles::extract::{
    apply_copy_discards, effective_zooms, extract_header, extract_output_head, merge_ranges,
    plan_extraction, relevant_entries, SrcDstRange,
};
use pmtiles::reader::{resolve_step, ResolveAction};
use pmtiles::tile::TileId;
use pmtiles::header::{Compression, Header, TileType};
use roaring::RoaringTreemap;

fn sample_header(clustered: bool, min_zoom: u8, max_zoom: u8) -> Header {
    Header {
        version: 3,
        root_offset: 127,
        root_length: 25,
        metadata_offset: 16384,
        metadata_length: 2,
        leaf_offset: 0,
        leaf_length: 0,
        data_offset: 16386,
        data_length: 99,
        n_addressed_tiles: 85,
        n_tile_entries: 84,
        n_tile_contents: 80,
        clustered,
        internal_compression: Compression::Gzip,
        tile_compression: Compression::NoCompression,
        tile_type: TileType::Png,
        min_zoom,
        max_zoom,
        min_longitude_e7: -1800000000,
        min_latitude_e7: -850000000,
        max_longitude_e7: 1800000000,
        max_latitude_e7: 850000000,
        center_zoom: 0,
        center_longitude_e7: 0,
        center_latitude_e7: 0,
    }
}

fn budget_of(ranges: &[SrcDstRange], overfetch: f32) -> u64 {
    let total: u64 = ranges.iter().map(|r| r.length).sum();
    (total as f32 * overfetch) as u64
}

#[test]
fn ranges_test_merge_ranges() {
    let ranges = vec![
        SrcDstRange { src_offset: 0, dst_offset: 0, length: 50 },
        SrcDstRange { src_offset: 60, dst_offset: 60, length: 60 },
    ];

    let budget = budget_of(&ranges, 0.1);
    let (result, total_transfer_bytes) = merge_ranges(ranges, budget);

    assert_eq!(result.len(), 1);
    assert_eq!(total_transfer_bytes, 120);
    let front = &result[0];
    assert_eq!(
        front.range,
        SrcDstRange { src_offset: 0, dst_offset: 0, length: 120 }
    );
    assert_eq!(front.copy_discards.len(), 2);
    assert_eq!(front.copy_discards[0].wanted, 50);
    assert_eq!(front.copy_discards[0].discard, 10);
    assert_eq!(front.copy_discards[1].wanted, 60);
    assert_eq!(front.copy_discards[1].discard, 0);
}

#[test]
fn ranges_test_merge_ranges_multiple() {
    let ranges = vec![
        SrcDstRange { src_offset: 0, dst_offset: 0, length: 50 },
        SrcDstRange { src_offset: 60, dst_offset: 60, length: 10 },
        SrcDstRange { src_offset: 80, dst_offset: 80, length: 10 },
    ];

    let budget = budget_of(&ranges, 0.3);
    let (result, total_transfer_bytes) = merge_ranges(ranges, budget);
    assert_eq!(total_transfer_bytes, 90);
    assert_eq!(result.len(), 1);
    let front = &result[0];
    assert_eq!(
        front.range,
        SrcDstRange { src_offset: 0, dst_offset: 0, length: 90 }
    );
    assert_eq!(front.copy_discards.len(), 3);
}

#[test]
fn ranges_test_merge_ranges_non_src_ordered() {
    let ranges = vec![
        SrcDstRange { src_offset: 20, dst_offset: 0, length: 50 },
        SrcDstRange { src_offset: 0, dst_offset: 60, length: 50 },
    ];

    let budget = budget_of(&ranges, 0.1);
    let (result, _) = merge_ranges(ranges, budget);
    assert_eq!(result.len(), 2);
}

#[test]
fn ranges_tests_test_merge_ranges() {
    let ranges = vec![
        SrcDstRange { src_offset: 0, dst_offset: 0, length: 50 },
        SrcDstRange { src_offset: 60, dst_offset: 60, length: 60 },
    ];

    let budget = budget_of(&ranges, 0.1);
    let (result, total_transfer_bytes) = merge_ranges(ranges, budget);

    assert_eq!(result.len(), 1);
    assert_eq!(total_transfer_bytes, 120);

    let front = &result[0];
    assert_eq!(front.range.src_offset, 0);
    assert_eq!(front.range.dst_offset, 0);
    assert_eq!(front.range.length, 120);
    assert_eq!(front.copy_discards.len(), 2);
    assert_eq!(front.copy_discards[0].wanted, 50);
    assert_eq!(front.copy_discards[0].discard, 10);
    assert_eq!(front.copy_discards[1].wanted, 60);
    assert_eq!(front.copy_discards[1].discard, 0);
}

#[test]
fn ranges_tests_test_merge_ranges_multiple() {
    let ranges = vec![
        SrcDstRange { src_offset: 0, dst_offset: 0, length: 50 },
        SrcDstRange { src_offset: 60, dst_offset: 60, length: 10 },
        SrcDstRange { src_offset: 80, dst_offset: 80, length: 10 },
    ];

    let budget = budget_of(&ranges, 0.3);
    let (result, total_transfer_bytes) = merge_ranges(ranges, budget);

    assert_eq!(total_transfer_bytes, 90);
    assert_eq!(result.len(), 1);

    let front = &result[0];
    assert_eq!(front.range.src_offset, 0);
    assert_eq!(front.range.dst_offset, 0);
    assert_eq!(front.range.length, 90);
    assert_eq!(front.copy_discards.len(), 3);
}

#[test]
fn ranges_tests_test_merge_ranges_non_src_ordered() {
    let ranges = vec![
        SrcDstRange { src_offset: 20, dst_offset: 0, length: 50 },
        SrcDstRange { src_offset: 0, dst_offset: 60, length: 50 },
    ];

    let budget = budget_of(&ranges, 0.1);
    let (result, _) = merge_ranges(ranges, budget);
    assert_eq!(result.len(), 2);
}

#[test]
fn merge_then_copy_discards_reassembles() {
    // un-merging a merged fetch yields exactly the two inputs' bytes
    let src: Vec<u8> = (0u8..=120).collect();
    let ranges = vec![
        SrcDstRange { src_offset: 0, dst_offset: 0, length: 50 },
        SrcDstRange { src_offset: 60, dst_offset: 60, length: 60 },
    ];
    let (result, _) = merge_ranges(ranges, 11);
    assert_eq!(result.len(), 1);
    let o = &result[0];
    let lo = o.range.src_offset as usize;
    let hi = lo + o.range.length as usize;
    let got = apply_copy_discards(&src[lo..hi], &o.copy_discards).unwrap();
    let mut expected = src[0..50].to_vec();
    expected.extend_from_slice(&src[60..120]);
    assert_eq!(got, expected);
}

#[test]
fn test_relevant_entries() {
    let entries = vec![DirEntry { tile_id: 0, offset: 0, length: 0, run_length: 1 }];

    let mut bitmap = RoaringTreemap::new();
    bitmap.insert(0);

    let (tiles, leaves) = relevant_entries(&bitmap, 4, &entries);

    assert_eq!(tiles.len(), 1);
    assert_eq!(leaves.len(), 0);
}

#[test]
fn test_relevant_entries_run_length() {
    let entries = vec![DirEntry { tile_id: 0, offset: 0, length: 0, run_length: 5 }];

    let mut bitmap = RoaringTreemap::new();
    bitmap.insert(1);
    bitmap.insert(2);
    bitmap.insert(4);

    let (tiles, leaves) = relevant_entries(&bitmap, 4, &entries);

    assert_eq!(tiles.len(), 2);
    assert_eq!(tiles[0].run_length, 2);
    assert_eq!(tiles[1].run_length, 1);
    assert_eq!(leaves.len(), 0);
}

#[test]
fn test_relevant_entries_leaf() {
    let entries = vec![DirEntry { tile_id: 0, offset: 0, length: 0, run_length: 0 }];

    let mut bitmap = RoaringTreemap::new();
    bitmap.insert(1);

    let (tiles, leaves) = relevant_entries(&bitmap, 4, &entries);

    assert_eq!(tiles.len(), 0);
    assert_eq!(leaves.len(), 1);
}

#[test]
fn test_relevant_entries_not_leaf() {
    let entries = vec![
        DirEntry { tile_id: 0, offset: 0, length: 0, run_length: 0 },
        DirEntry { tile_id: 2, offset: 0, length: 0, run_length: 1 },
        DirEntry { tile_id: 4, offset: 0, length: 0, run_length: 0 },
    ];

    let mut bitmap = RoaringTreemap::new();
    bitmap.insert(3);

    let (tiles, leaves) = relevant_entries(&bitmap, 4, &entries);

    assert_eq!(tiles.len(), 0);
    assert_eq!(leaves.len(), 0);
}

#[test]
fn test_relevant_entries_max_zoom() {
    let entries = vec![DirEntry { tile_id: 0, offset: 0, length: 0, run_length: 0 }];

    let mut bitmap = RoaringTreemap::new();
    bitmap.insert(6);

    let (_, leaves) = relevant_entries(&bitmap, 1, &entries);
    assert_eq!(leaves.len(), 0);

    let (_, leaves) = relevant_entries(&bitmap, 2, &entries);
    assert_eq!(leaves.len(), 1);
}

/// The tile holding the given position at zoom `z`, by the Web Mercator
/// slippy-map formula.
fn lon_lat_tile(lon: f64, lat: f64, z: u8) -> (u32, u32) {
    let n = (1u64 << z) as f64;
    let x = ((lon + 180.0) / 360.0 * n).floor();
    let lat_rad = lat.to_radians();
    let y = ((1.0 - (lat_rad.tan() + 1.0 / lat_rad.cos()).ln() / std::f64::consts::PI) / 2.0 * n)
        .floor();
    let max = (1u64 << z) - 1;
    (
        (x.max(0.0) as u64).min(max) as u32,
        (y.max(0.0) as u64).min(max) as u32,
    )
}

#[test]
fn test_bbox_to_bitmap() {
    // small bbox north-east-south-west (37.8, -122.4, 37.7, -122.5)
    let (min_x, min_y) = lon_lat_tile(-122.5, 37.8, 12);
    let (max_x, max_y) = lon_lat_tile(-122.4, 37.7, 12);
    let bitmap = tile_rect_bitmap(min_x, max_x, min_y, max_y, 10, 12);
    assert!(!bitmap.is_empty());
    assert!(!bitmap.is_empty());
}

#[test]
fn florence_bitmap_is_exact() {
    // bbox (43.77, 43.78) x (11.24, 11.26) at zooms 10 through 12: the
    // bitmap holds the rectangle at zoom 12 and its ancestors, nothing
    // else
    let min_zoom = 10u8;
    let max_zoom = 12u8;
    let (min_x, min_y) = lon_lat_tile(11.24, 43.78, max_zoom);
    let (max_x, max_y) = lon_lat_tile(11.26, 43.77, max_zoom);
    assert!(min_x <= max_x && min_y <= max_y);
    let bitmap = tile_rect_bitmap(min_x, max_x, min_y, max_y, min_zoom, max_zoom);

    let mut expected = RoaringTreemap::new();
    for z in min_zoom..=max_zoom {
        let d = max_zoom - z;
        for x in (min_x >> d)..=(max_x >> d) {
            for y in (min_y >> d)..=(max_y >> d) {
                let coord = pmtiles::tile::TileCoord::new(z, x, y).unwrap();
                expected.insert(pmtiles::tile::TileId::from_coord(coord).value());
            }
        }
    }
    assert_eq!(bitmap, expected);
}

#[test]
fn effective_zooms_clamp_and_reject() {
    let header = sample_header(true, 3, 9);
    assert_eq!(effective_zooms(&header, None, None), Ok((3, 9)));
    assert_eq!(effective_zooms(&header, Some(1), Some(7)), Ok((3, 7)));
    assert_eq!(effective_zooms(&header, Some(5), Some(20)), Ok((5, 9)));
    assert_eq!(
        effective_zooms(&header, Some(8), Some(4)),
        Err(PmtError::InvalidHeader)
    );
    let unclustered = sample_header(false, 3, 9);
    assert_eq!(
        effective_zooms(&unclustered, None, None),
        Err(PmtError::InvalidHeader)
    );
}

#[test]
fn metadata_decodes_gzip_and_rejects_bad_utf8() {
    let text = "{\"name\":\"firenze\"}";
    let compressed =
        pmtiles::compression::compress(Compression::Gzip, text.as_bytes()).unwrap();
    let decoded = pmtiles::reader::decode_metadata(Compression::Gzip, &compressed).unwrap();
    assert_eq!(decoded, text);

    let bad = vec![0xff, 0xfe, 0x80];
    assert_eq!(
        pmtiles::reader::decode_metadata(Compression::NoCompression, &bad),
        Err(PmtError::InvalidMetadataUtf8)
    );
}

#[test]
fn plan_extraction_composes() {
    let mut bitmap = RoaringTreemap::new();
    bitmap.insert(0);
    bitmap.insert(1);
    bitmap.insert(5);

    let root = vec![
        DirEntry { tile_id: 0, offset: 0, length: 10, run_length: 2 },
        DirEntry { tile_id: 2, offset: 0, length: 20, run_length: 0 },
    ];
    let (root_tiles, root_leaves) = relevant_entries(&bitmap, 4, &root);
    assert_eq!(root_tiles.len(), 1);
    assert_eq!(root_tiles[0].run_length, 2);
    assert_eq!(root_leaves.len(), 1);

    let leaf = Directory::from_entries(vec![DirEntry {
        tile_id: 5,
        offset: 10,
        length: 7,
        run_length: 1,
    }]);
    let plan = plan_extraction(&bitmap, 4, root_tiles, &vec![leaf], 0).unwrap();

    assert_eq!(plan.reencoded_entries.len(), 2);
    assert_eq!(plan.reencoded_entries[0].offset, 0);
    assert_eq!(plan.reencoded_entries[1].offset, 10);
    assert_eq!(plan.tile_data_length, 17);
    assert_eq!(plan.addressed_tiles, 3);
    assert_eq!(plan.tile_contents, 2);
    // the two source ranges are contiguous, so one fetch covers both
    assert_eq!(plan.overfetch_ranges.len(), 1);
    assert_eq!(
        plan.overfetch_ranges[0].range,
        SrcDstRange { src_offset: 0, dst_offset: 0, length: 17 }
    );
    assert_eq!(plan.total_transfer_bytes, 17);
}

#[test]
fn resolve_step_walks_root() {
    let header = sample_header(true, 0, 9);
    let dir = Directory::from_entries(vec![
        DirEntry { tile_id: 0, offset: 0, length: 4, run_length: 1 },
        DirEntry { tile_id: 5, offset: 100, length: 50, run_length: 0 },
    ]);
    match resolve_step(&header, &dir, TileId::new(0).unwrap()).unwrap() {
        ResolveAction::Payload(off, len) => {
            assert_eq!(off, header.data_offset);
            assert_eq!(len, 4);
        }
        _ => panic!("expected a payload"),
    }
    match resolve_step(&header, &dir, TileId::new(7).unwrap()).unwrap() {
        ResolveAction::Descend(off, len) => {
            assert_eq!(off, header.leaf_offset + 100);
            assert_eq!(len, 50);
        }
        _ => panic!("expected a descent"),
    }
    assert!(matches!(
        resolve_step(&header, &dir, TileId::new(3).unwrap()).unwrap(),
        ResolveAction::Absent
    ));
}

#[test]
fn extract_header_lays_out_regions() {
    let mut bitmap = RoaringTreemap::new();
    bitmap.insert(0);
    let root = vec![DirEntry { tile_id: 0, offset: 0, length: 10, run_length: 1 }];
    let (root_tiles, _) = relevant_entries(&bitmap, 4, &root);
    let plan = plan_extraction(&bitmap, 4, root_tiles, &vec![], 0).unwrap();

    let source = sample_header(true, 0, 9);
    let root_blob = vec![1u8, 2, 3];
    let metadata = vec![9u8, 8];
    let hd = extract_header(
        &source,
        &plan,
        0,
        4,
        112_400_000,
        437_700_000,
        112_600_000,
        437_800_000,
        root_blob.len() as u64,
        0,
    );
    assert_eq!(hd.root_offset, 127);
    assert_eq!(hd.root_length, 3);
    assert_eq!(hd.metadata_offset, 130);
    assert_eq!(hd.metadata_length, source.metadata_length);
    assert_eq!(hd.leaf_offset, 130 + source.metadata_length);
    assert_eq!(hd.data_offset, hd.leaf_offset);
    assert_eq!(hd.data_length, 10);
    assert_eq!(hd.n_tile_entries, 1);
    assert_eq!(hd.n_addressed_tiles, 1);
    assert_eq!(hd.center_longitude_e7, 112_500_000);
    assert_eq!(hd.center_latitude_e7, 437_750_000);
    assert_eq!(hd.center_zoom, 0);

    let out = extract_output_head(&hd, &root_blob, &metadata, &vec![]);
    assert_eq!(out.len(), 127 + 3 + 2);
    assert_eq!(&out[127..130], &root_blob[..]);
    assert_eq!(&out[130..132], &metadata[..]);
    let parsed = pmtiles::header::Header::try_from_bytes(&out).unwrap();
    assert_eq!(parsed, hd);
}
