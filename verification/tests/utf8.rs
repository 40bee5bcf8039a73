use flacbits::utf8::{int_to_bin, Utf8Encoder, Utf8Error};

#[test]
fn encode_one_byte() {
    // 65 fits seven bits: a single byte `0` + payload.
    let bits = Utf8Encoder::encode(65).unwrap();
    assert_eq!(bits, vec![0, 1, 0, 0, 0, 0, 0, 1]);
}

#[test]
fn encode_zero() {
    let bits = Utf8Encoder::encode(0).unwrap();
    assert_eq!(bits, vec![0, 0, 0, 0, 0, 0, 0, 0]);
}

#[test]
fn encode_two_bytes() {
    // 0xA2 encodes as the bytes 0xC2 0xA2.
    let bits = Utf8Encoder::encode(0xA2).unwrap();
    assert_eq!(bits, vec![1, 1, 0, 0, 0, 0, 1, 0, 1, 0, 1, 0, 0, 0, 1, 0]);
}

#[test]
fn encode_three_bytes() {
    // 0x2262 encodes as the bytes 0xE2 0x89 0xA2.
    let bits = Utf8Encoder::encode(0x2262).unwrap();
    assert_eq!(
        bits,
        vec![1, 1, 1, 0, 0, 0, 1, 0, 1, 0, 0, 0, 1, 0, 0, 1, 1, 0, 1, 0, 0, 0, 1, 0]
    );
}

#[test]
fn encode_seven_bytes() {
    // Bit 35 set: a 0xFE leading byte and six continuation bytes.
    let bits = Utf8Encoder::encode(0x800000000).unwrap();
    let mut expected: Vec<u8> = vec![1, 1, 1, 1, 1, 1, 1, 0];
    expected.extend_from_slice(&[1, 0, 1, 0, 0, 0, 0, 0]);
    for _ in 0..5 {
        expected.extend_from_slice(&[1, 0, 0, 0, 0, 0, 0, 0]);
    }
    assert_eq!(bits, expected);
}

#[test]
fn encode_lengths_follow_magnitude_table() {
    let cases: Vec<(u64, usize)> = vec![
        (0, 1),
        (0x7F, 1),
        (0x80, 2),
        (0x7FF, 2),
        (0x800, 3),
        (0xFFFF, 3),
        (0x10000, 4),
        (0x1FFFFF, 4),
        (0x200000, 5),
        (0x3FFFFFF, 5),
        (0x4000000, 6),
        (0x7FFFFFFF, 6),
        (0x80000000, 7),
        (0xFFFFFFFFF, 7),
    ];
    for (value, bytes) in cases {
        let bits = Utf8Encoder::encode(value).unwrap();
        assert_eq!(bits.len(), 8 * bytes);
    }
}

#[test]
fn encode_rejects_out_of_range() {
    // 2^36 needs 37 significant bits.
    assert_eq!(
        Utf8Encoder::encode(0x1000000000),
        Err(Utf8Error::ValueOutOfRange)
    );
    assert_eq!(Utf8Encoder::encode(u64::MAX), Err(Utf8Error::ValueOutOfRange));
}

#[test]
fn decode_inverts_encode() {
    let values: Vec<u64> = vec![
        0,
        1,
        65,
        0x7F,
        0x80,
        0xA2,
        0x7FF,
        0x800,
        0x2262,
        0xFFFF,
        0x10000,
        0x1FFFFF,
        0x200000,
        0x4000000,
        0x80000000,
        0x123456789,
        0xFFFFFFFFF,
    ];
    for value in values {
        let bits = Utf8Encoder::encode(value).unwrap();
        assert_eq!(Utf8Encoder::decode(&bits), Ok(value));
    }
}

#[test]
fn decode_rejects_bad_continuation() {
    // Two-byte prefix but the continuation byte starts with `00`.
    let bits: Vec<u8> = vec![1, 1, 0, 0, 0, 0, 1, 0, 0, 0, 1, 0, 0, 0, 1, 0];
    assert_eq!(Utf8Encoder::decode(&bits), Err(Utf8Error::InvalidEncoding));
}

#[test]
fn decode_rejects_ragged_length() {
    let bits: Vec<u8> = vec![0, 1, 0, 0];
    assert_eq!(Utf8Encoder::decode(&bits), Err(Utf8Error::InvalidEncoding));
    // A two-byte prefix with only one byte present.
    let bits: Vec<u8> = vec![1, 1, 0, 0, 0, 0, 1, 0];
    assert_eq!(Utf8Encoder::decode(&bits), Err(Utf8Error::InvalidEncoding));
}

#[test]
fn decode_rejects_all_ones_leading_byte() {
    let bits: Vec<u8> = vec![1, 1, 1, 1, 1, 1, 1, 1, 1, 0, 0, 0, 0, 0, 0, 0];
    assert_eq!(Utf8Encoder::decode(&bits), Err(Utf8Error::InvalidEncoding));
}

#[test]
fn int_to_bin_least_significant_first() {
    assert_eq!(int_to_bin(6), vec![0, 1, 1]);
    assert_eq!(int_to_bin(1), vec![1]);
    assert_eq!(int_to_bin(0), Vec::<u8>::new());
    assert_eq!(int_to_bin(0x80), vec![0, 0, 0, 0, 0, 0, 0, 1]);
}
