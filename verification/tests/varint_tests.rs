use pmtiles::types::Error;
use pmtiles::varint::{decode_varint, encode_as_varint};

#[test]
fn decode_150() {
    let bytes = [0b1001_0110_u8, 0b0000_0001_u8, 0b0_u8];
    let result = decode_varint(&bytes);
    assert_eq!(result, Ok((150, 2)));
}

#[test]
fn encode_small_values() {
    assert_eq!(encode_as_varint(0), vec![0x00]);
    assert_eq!(encode_as_varint(1), vec![0x01]);
    assert_eq!(encode_as_varint(127), vec![0x7f]);
    assert_eq!(encode_as_varint(128), vec![0x80, 0x01]);
    assert_eq!(encode_as_varint(150), vec![0x96, 0x01]);
    assert_eq!(encode_as_varint(300), vec![0xac, 0x02]);
}

#[test]
fn varint_round_trip_samples() {
    let samples: Vec<u64> = vec![
        0,
        1,
        127,
        128,
        150,
        16383,
        16384,
        624485,
        u64::from(u32::MAX),
        u64::MAX - 1,
        u64::MAX,
    ];
    for v in samples {
        let encoded = encode_as_varint(v);
        assert!(encoded.len() >= 1 && encoded.len() <= 10);
        let decoded = decode_varint(&encoded);
        assert_eq!(decoded, Ok((v, encoded.len())));
    }
}

#[test]
fn largest_value_takes_ten_bytes() {
    let encoded = encode_as_varint(u64::MAX);
    assert_eq!(encoded.len(), 10);
    assert_eq!(decode_varint(&encoded), Ok((u64::MAX, 10)));
}

#[test]
fn truncated_varint_is_rejected() {
    assert_eq!(decode_varint(&[]), Err(Error::Truncated));
    assert_eq!(decode_varint(&[0x80]), Err(Error::Truncated));
    assert_eq!(decode_varint(&[0xff, 0xff, 0xff]), Err(Error::Truncated));
    // ten continuation bytes and nothing after them: still unterminated
    assert_eq!(decode_varint(&[0x80; 10]), Err(Error::Truncated));
}

#[test]
fn overlong_varint_is_rejected() {
    // ten continuation bytes followed by anything at all: the shift would
    // pass 64 bits before the eleventh byte is even looked at
    assert_eq!(decode_varint(&[0x80; 11]), Err(Error::Overflow));
    let mut bytes = [0xffu8; 11];
    bytes[10] = 0x01;
    assert_eq!(decode_varint(&bytes), Err(Error::Overflow));
}

#[test]
fn decode_reads_only_one_varint() {
    let bytes = [0x96, 0x01, 0x7f, 0x00];
    assert_eq!(decode_varint(&bytes), Ok((150, 2)));
}
