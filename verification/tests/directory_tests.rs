use pmtiles::directory::{Directory, DirectoryEntry};
use pmtiles::tileid::TileId;
use pmtiles::types::Error;
use std::io::Write;

const DIR_DATA: [u8; 17] = [
    0x04, // Number of entries: 4
    0x01, 0x02, 0x03, 0x04, // Delta-encoded Tile IDs
    0x00, 0x01, 0x00, 0x00, // Run Lengths
    10, 20, 30, 40, // Lengths
    11, 0, 51, 1, // Offsets
];

fn gzip(data: &[u8]) -> Vec<u8> {
    let mut encoder = flate2::write::GzEncoder::new(Vec::new(), flate2::Compression::default());
    encoder.write_all(data).expect("compress test bytes");
    encoder.finish().expect("finish gzip stream")
}

#[test]
fn test_parse_directory() {
    let directory = Directory::parse(&DIR_DATA).expect("should parse directory data");
    assert_eq!(directory.entries.len(), 4);

    assert_eq!(
        directory.entries[0],
        DirectoryEntry {
            delta_encoded_tileid: 1,
            tileid: TileId::new(1),
            run_length: 0,
            length: 10,
            offset: 10,
        }
    );

    assert_eq!(
        directory.entries[1],
        DirectoryEntry {
            delta_encoded_tileid: 2,
            tileid: TileId::new(3),
            run_length: 1,
            length: 20,
            offset: 20,
        }
    );

    assert_eq!(
        directory.entries[2],
        DirectoryEntry {
            delta_encoded_tileid: 3,
            tileid: TileId::new(6),
            run_length: 0,
            length: 30,
            offset: 50,
        }
    );

    assert_eq!(
        directory.entries[3],
        DirectoryEntry {
            delta_encoded_tileid: 4,
            tileid: TileId::new(10),
            run_length: 0,
            length: 40,
            offset: 0,
        }
    );
}

#[test]
fn directory_ids_resolve_in_order() {
    let directory = Directory::parse(&DIR_DATA).expect("should parse directory data");
    let ids: Vec<u64> = directory.entries.iter().map(|e| e.tileid.value()).collect();
    assert_eq!(ids, vec![1, 3, 6, 10]);
    for w in ids.windows(2) {
        assert!(w[0] < w[1]);
    }
}

#[test]
fn empty_directory_parses() {
    let directory = Directory::parse(&[0x00]).expect("zero entries");
    assert_eq!(directory.entries.len(), 0);
}

#[test]
fn truncated_directory_is_malformed() {
    assert_eq!(Directory::parse(&[]).unwrap_err(), Error::Malformed);
    // claims 4 entries but holds bytes for fewer than 4 columns
    assert_eq!(
        Directory::parse(&DIR_DATA[..10]).unwrap_err(),
        Error::Malformed
    );
}

#[test]
fn compressed_directory_round_trips() {
    let compressed = gzip(&DIR_DATA);
    assert_ne!(compressed, DIR_DATA.to_vec());
    let directory = Directory::parse_compressed(&compressed).expect("inflate and parse");
    let plain = Directory::parse(&DIR_DATA).expect("parse raw");
    assert_eq!(directory.entries, plain.entries);
}

#[test]
fn garbage_is_not_gzip() {
    let err = Directory::parse_compressed(&DIR_DATA).unwrap_err();
    assert_eq!(err, Error::DecompressionFailed);
}
