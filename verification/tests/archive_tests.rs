use pmtiles::archive::PMTiles;
use pmtiles::types::Error;
use pmtiles::varint::encode_as_varint;
use std::io::Write;

fn gzip(data: &[u8]) -> Vec<u8> {
    let mut encoder = flate2::write::GzEncoder::new(Vec::new(), flate2::Compression::default());
    encoder.write_all(data).expect("compress test bytes");
    encoder.finish().expect("finish gzip stream")
}

/// Serialises a directory: entry count, then the four varint columns
/// (deltas, run lengths, lengths, raw offsets).
fn build_directory(entries: &[(u64, u64, u64, u64)]) -> Vec<u8> {
    let mut out = encode_as_varint(entries.len() as u64);
    for &(delta, _, _, _) in entries {
        out.extend(encode_as_varint(delta));
    }
    for &(_, run, _, _) in entries {
        out.extend(encode_as_varint(run));
    }
    for &(_, _, len, _) in entries {
        out.extend(encode_as_varint(len));
    }
    for &(_, _, _, off) in entries {
        out.extend(encode_as_varint(off));
    }
    out
}

struct Regions {
    root: Vec<u8>,
    metadata: Vec<u8>,
    leaves: Vec<u8>,
    tiles: Vec<u8>,
}

/// Assembles a complete archive: the 127-byte prologue, then the root
/// directory, metadata, leaf-directories, and tile-data regions in order.
fn build_archive(regions: &Regions) -> Vec<u8> {
    let root_off = 127u64;
    let meta_off = root_off + regions.root.len() as u64;
    let leaf_off = meta_off + regions.metadata.len() as u64;
    let tile_off = leaf_off + regions.leaves.len() as u64;

    let mut data = Vec::new();
    data.extend_from_slice(b"PMTiles");
    data.push(3); // version
    for (off, len) in [
        (root_off, regions.root.len() as u64),
        (meta_off, regions.metadata.len() as u64),
        (leaf_off, regions.leaves.len() as u64),
        (tile_off, regions.tiles.len() as u64),
    ] {
        data.extend_from_slice(&off.to_le_bytes());
        data.extend_from_slice(&len.to_le_bytes());
    }
    data.extend_from_slice(&2u64.to_le_bytes()); // addressed tiles
    data.extend_from_slice(&2u64.to_le_bytes()); // tile entries
    data.extend_from_slice(&2u64.to_le_bytes()); // tile contents
    data.push(1); // clustered
    data.push(2); // internal compression: gzip
    data.push(2); // tile compression: gzip
    data.push(1); // tile type: MVT
    data.push(0); // min zoom
    data.push(3); // max zoom
    data.extend_from_slice(&0i32.to_le_bytes()); // min lon
    data.extend_from_slice(&0i32.to_le_bytes()); // min lat
    data.extend_from_slice(&0i32.to_le_bytes()); // max lon
    data.extend_from_slice(&0i32.to_le_bytes()); // max lat
    data.push(0); // center zoom
    data.extend_from_slice(&0i32.to_le_bytes()); // center lon
    data.extend_from_slice(&0i32.to_le_bytes()); // center lat
    assert_eq!(data.len(), 127);

    data.extend_from_slice(&regions.root);
    data.extend_from_slice(&regions.metadata);
    data.extend_from_slice(&regions.leaves);
    data.extend_from_slice(&regions.tiles);
    data
}

/// An archive with two tiles: tile id 1 (zoom 1, x 0, y 0) directly in the
/// root, and tile id 2 (zoom 1, x 0, y 1) behind a leaf directory.
fn sample_archive() -> Vec<u8> {
    // leaf directory: id 2, run 1, five bytes at offset 5 of the tile data
    let leaf = gzip(&build_directory(&[(2, 1, 5, 6)]));
    // root: id 1 run 1 -> tile bytes; id 2 run 0 -> the leaf above
    let root = gzip(&build_directory(&[
        (1, 1, 5, 1),
        (1, 0, leaf.len() as u64, 1),
    ]));
    let metadata = gzip(b"{\"name\":\"sample\"}");
    build_archive(&Regions {
        root,
        metadata,
        leaves: leaf,
        tiles: b"AAAAABBBBB".to_vec(),
    })
}

#[test]
fn open_reads_header_and_metadata() {
    let archive = PMTiles::parse(sample_archive()).expect("open sample archive");
    assert_eq!(archive.header.version, 3);
    assert_eq!(archive.header.root_dir_offset, 127);
    assert_eq!(archive.metadata.json, "{\"name\":\"sample\"}");
    assert_eq!(archive.root_directory.entries.len(), 2);
    assert_eq!(archive.root_directory.entries[0].tileid.value(), 1);
    assert_eq!(archive.root_directory.entries[1].tileid.value(), 2);
}

#[test]
fn get_exact_match_returns_tile_bytes() {
    let archive = PMTiles::parse(sample_archive()).expect("open sample archive");
    let tile = archive.get(1, 0, 0).expect("lookup must not error");
    assert_eq!(tile, Some(b"AAAAA".to_vec()));
}

#[test]
fn get_through_leaf_directory() {
    let archive = PMTiles::parse(sample_archive()).expect("open sample archive");
    let tile = archive.get(1, 0, 1).expect("lookup must not error");
    assert_eq!(tile, Some(b"BBBBB".to_vec()));
}

#[test]
fn get_missing_tile_is_none_not_error() {
    let archive = PMTiles::parse(sample_archive()).expect("open sample archive");
    // tile id 0 lies below every entry: nothing covers it
    assert_eq!(archive.get(0, 0, 0).expect("lookup must not error"), None);
}

#[test]
fn get_floor_run_covers_higher_ids() {
    let archive = PMTiles::parse(sample_archive()).expect("open sample archive");
    // tile id 4 has no entry; the floor entry is id 2, which points at the
    // leaf directory, and the leaf holds no id 4 either
    assert_eq!(archive.get(1, 1, 0).expect("lookup must not error"), None);
}

#[test]
fn repeated_gets_are_identical() {
    let archive = PMTiles::parse(sample_archive()).expect("open sample archive");
    let first = archive.get(1, 0, 1).expect("lookup must not error");
    let second = archive.get(1, 0, 1).expect("lookup must not error");
    assert_eq!(first, second);
    assert_eq!(
        archive.get(0, 0, 0).expect("lookup"),
        archive.get(0, 0, 0).expect("lookup")
    );
}

#[test]
fn truncated_archive_fails_to_open() {
    let data = sample_archive();
    assert_eq!(PMTiles::parse(data[..100].to_vec()).unwrap_err(), Error::Truncated);
}

#[test]
fn out_of_range_root_directory_fails_to_open() {
    let mut data = sample_archive();
    // stretch the root directory length beyond the file
    let huge = (data.len() as u64 + 1000).to_le_bytes();
    data[0x10..0x18].copy_from_slice(&huge);
    assert_eq!(PMTiles::parse(data).unwrap_err(), Error::OutOfBounds);
}

#[test]
fn corrupt_root_directory_fails_to_open() {
    let mut data = sample_archive();
    // the root directory region no longer starts with a gzip stream
    data[127] ^= 0xff;
    data[128] ^= 0xff;
    let err = PMTiles::parse(data).unwrap_err();
    assert_eq!(err, Error::DecompressionFailed);
}

#[test]
fn corrupt_leaf_directory_surfaces_as_error() {
    // the root's second entry points into the leaf region, but the region
    // holds garbage instead of a gzip stream
    let leaf_garbage = b"definitely not gzip".to_vec();
    let root = gzip(&build_directory(&[
        (1, 1, 5, 1),
        (1, 0, leaf_garbage.len() as u64, 1),
    ]));
    let metadata = gzip(b"{}");
    let data = build_archive(&Regions {
        root,
        metadata,
        leaves: leaf_garbage,
        tiles: b"AAAAABBBBB".to_vec(),
    });
    let archive = PMTiles::parse(data).expect("open archive");
    assert_eq!(archive.get(1, 0, 1).unwrap_err(), Error::DecompressionFailed);
}

#[test]
fn out_of_bounds_tile_range_is_an_error() {
    // the only entry claims more tile bytes than the archive holds
    let root = gzip(&build_directory(&[(1, 1, 100, 1)]));
    let metadata = gzip(b"{}");
    let data = build_archive(&Regions {
        root,
        metadata,
        leaves: Vec::new(),
        tiles: b"AAAAA".to_vec(),
    });
    let archive = PMTiles::parse(data).expect("open archive");
    assert_eq!(archive.get(1, 0, 0).unwrap_err(), Error::OutOfBounds);
}

#[test]
fn bad_metadata_json_fails_to_open_mvt_archive() {
    let root = gzip(&build_directory(&[(1, 1, 5, 1)]));
    let metadata = gzip(b"not json");
    let data = build_archive(&Regions {
        root,
        metadata,
        leaves: Vec::new(),
        tiles: b"AAAAA".to_vec(),
    });
    assert_eq!(PMTiles::parse(data).unwrap_err(), Error::JsonInvalid);
}
