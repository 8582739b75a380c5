use pmtiles::header::Header;
use pmtiles::types::{Compression, Error, TileType};

const HEADER_DATA: [u8; 127] = [
    0x50, 0x4d, 0x54, 0x69, 0x6c, 0x65, 0x73, 0x03, 0x7f, 0x00, 0x00, 0x00, 0x00, 0x00, 0x00, 0x00,
    0x45, 0x09, 0x00, 0x00, 0x00, 0x00, 0x00, 0x00, 0xc4, 0x09, 0x00, 0x00, 0x00, 0x00, 0x00, 0x00,
    0x46, 0x10, 0x00, 0x00, 0x00, 0x00, 0x00, 0x00, 0x0a, 0x1a, 0x00, 0x00, 0x00, 0x00, 0x00, 0x00,
    0x8c, 0xd8, 0x57, 0x00, 0x00, 0x00, 0x00, 0x00, 0x96, 0xf2, 0x57, 0x00, 0x00, 0x00, 0x00, 0x00,
    0x95, 0x51, 0x3d, 0xef, 0x03, 0x00, 0x00, 0x00, 0x44, 0xfe, 0x2c, 0x00, 0x00, 0x00, 0x00, 0x00,
    0x47, 0x27, 0x2c, 0x00, 0x00, 0x00, 0x00, 0x00, 0x03, 0x64, 0x27, 0x00, 0x00, 0x00, 0x00, 0x00,
    0x01, 0x02, 0x02, 0x01, 0x04, 0x10, 0x00, 0xb9, 0xb7, 0x48, 0xe8, 0x54, 0x27, 0x0a, 0xee, 0x84,
    0x3f, 0x5c, 0x00, 0x0b, 0x6b, 0x1b, 0x10, 0xa2, 0x25, 0xd3, 0x50, 0xbd, 0x92, 0xc2, 0x14,
];

#[test]
fn parse_correct_header() {
    let header = Header::parse(&HEADER_DATA).expect("parse header successful");
    assert_eq!(header.version, 3);
    assert_eq!(header.root_dir_offset, 127);
    assert_eq!(header.root_dir_length, 2373);
    assert_eq!(header.metadata_offset, 2500);
    assert_eq!(header.metadata_length, 4166);
    assert_eq!(header.leaf_dirs_offset, 6666);
    assert_eq!(header.leaf_dirs_length, 5757068);
    assert_eq!(header.tile_data_offset, 5763734);
    assert_eq!(header.tile_data_length, 16898675093);
    assert_eq!(header.num_addressed_tiles, 2948676);
    assert_eq!(header.num_tile_entries, 2893639);
    assert_eq!(header.num_tile_contents, 2581507);
    assert_eq!(header.clustered, 1);
    assert_eq!(header.internal_compression, Compression::Gzip);
    assert_eq!(header.tile_compression, Compression::Gzip);
    assert_eq!(header.tile_type, TileType::MVT);
    assert_eq!(header.min_zoom, 4);
    assert_eq!(header.max_zoom, 16);
    let min_position = (
        header.min_lon_e7 as f64 / 10_000_000.0,
        header.min_lat_e7 as f64 / 10_000_000.0,
    );
    let max_position = (
        header.max_lon_e7 as f64 / 10_000_000.0,
        header.max_lat_e7 as f64 / 10_000_000.0,
    );
    let center_position = (
        header.center_lon_e7 as f64 / 10_000_000.0,
        header.center_lat_e7 as f64 / 10_000_000.0,
    );
    assert_eq!(min_position, (122.0, 17.03498));
    assert_eq!(max_position, (154.766667, 46.0));
    assert_eq!(header.center_zoom, 16);
    assert_eq!(center_position, (135.601501, 34.8295869));
}

#[test]
fn short_header_is_truncated() {
    assert_eq!(Header::parse(&[]), Err(Error::Truncated));
    assert_eq!(Header::parse(&HEADER_DATA[..126]), Err(Error::Truncated));
}

#[test]
fn wrong_magic_is_rejected() {
    let mut data = HEADER_DATA;
    data[0] = b'Q';
    assert_eq!(Header::parse(&data), Err(Error::InvalidMagic));
}

#[test]
fn unknown_compression_is_rejected() {
    let mut data = HEADER_DATA;
    data[0x61] = 9;
    assert_eq!(Header::parse(&data), Err(Error::InvalidEnum));
    let mut data2 = HEADER_DATA;
    data2[0x62] = 200;
    assert_eq!(Header::parse(&data2), Err(Error::InvalidEnum));
}

#[test]
fn unknown_tile_type_is_rejected() {
    let mut data = HEADER_DATA;
    data[0x63] = 6;
    assert_eq!(Header::parse(&data), Err(Error::InvalidEnum));
}

#[test]
fn negative_coordinates_decode() {
    let mut data = HEADER_DATA;
    // min longitude -1e7 * 12.5 degrees: -125000000 as little-endian i32
    let v: i32 = -125_000_000;
    let bytes = v.to_le_bytes();
    data[0x66..0x6A].copy_from_slice(&bytes);
    let header = Header::parse(&data).expect("header with negative longitude");
    assert_eq!(header.min_lon_e7, -125_000_000);
    assert_eq!(header.min_lon_e7 as f64 / 10_000_000.0, -12.5);
}
