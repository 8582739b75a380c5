use pmtiles::metadata::Metadata;
use pmtiles::types::{Error, TileType};
use std::io::Write;

const METADATA: &str =
    "{\"name\":\"optimal_bvmap-v1\",\"description\":\"\u{6700}\u{9069}\u{5316}\u{3055}\u{308c}\u{305f}\u{30d9}\u{30af}\u{30c8}\u{30eb}\u{30bf}\u{30a4}\u{30eb}\u{5730}\u{56f3}\",\"version\":\"1.0.0\"}";

fn gzip(data: &[u8]) -> Vec<u8> {
    let mut encoder = flate2::write::GzEncoder::new(Vec::new(), flate2::Compression::default());
    encoder.write_all(data).expect("compress test bytes");
    encoder.finish().expect("finish gzip stream")
}

#[test]
fn test_parse() {
    let metadata = Metadata::parse(METADATA.as_bytes().to_vec(), TileType::MVT).unwrap();
    assert_eq!(metadata.json, METADATA);
}

#[test]
fn invalid_json_is_rejected_for_mvt() {
    let err = Metadata::parse(b"not json at all".to_vec(), TileType::MVT).unwrap_err();
    assert_eq!(err, Error::JsonInvalid);
}

#[test]
fn invalid_json_passes_for_other_tile_types() {
    let metadata = Metadata::parse(b"not json at all".to_vec(), TileType::PNG).unwrap();
    assert_eq!(metadata.json, "not json at all");
}

#[test]
fn invalid_utf8_is_rejected() {
    let err = Metadata::parse(vec![0xff, 0xfe, 0x80], TileType::PNG).unwrap_err();
    assert_eq!(err, Error::Utf8Invalid);
}

#[test]
fn compressed_metadata_round_trips() {
    let compressed = gzip(METADATA.as_bytes());
    let metadata = Metadata::parse_compressed(&compressed, TileType::MVT).unwrap();
    assert_eq!(metadata.json, METADATA);
}

#[test]
fn metadata_garbage_is_not_gzip() {
    let err = Metadata::parse_compressed(b"plainly not gzip", TileType::MVT).unwrap_err();
    assert_eq!(err, Error::DecompressionFailed);
}
