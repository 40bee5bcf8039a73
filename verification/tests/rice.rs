use flacbits::rice::{RiceEncoder, RiceError};

#[test]
fn encode_known_value() {
    // 9 >> 2 == 2 one-bits, a stop bit, then the low bits `01`.
    assert_eq!(RiceEncoder::encode(9, 2), vec![1, 1, 0, 0, 1]);
}

#[test]
fn encode_with_parameter_four() {
    // 38 >> 4 == 2, remainder 6 == 0110.
    assert_eq!(RiceEncoder::encode(38, 4), vec![1, 1, 0, 0, 1, 1, 0]);
}

#[test]
fn encode_zero_is_stop_bit_and_zero_remainder() {
    assert_eq!(RiceEncoder::encode(0, 4), vec![0, 0, 0, 0, 0]);
}

#[test]
fn encode_parameter_zero_is_pure_unary() {
    assert_eq!(RiceEncoder::encode(3, 0), vec![1, 1, 1, 0]);
}

#[test]
fn encode_length_is_quotient_stop_remainder() {
    for value in [0u64, 1, 2, 15, 16, 17, 100, 1023] {
        for k in [0usize, 1, 2, 4, 7] {
            let bits = RiceEncoder::encode(value, k);
            assert_eq!(bits.len() as u64, (value >> k) + 1 + k as u64);
        }
    }
}

#[test]
fn rice_decode_inverts_encode() {
    let cases: Vec<(u64, usize)> = vec![
        (0, 0),
        (1, 0),
        (2, 1),
        (9, 2),
        (38, 4),
        (100, 3),
        (1023, 0),
        (1023, 4),
        (65536, 13),
        (u64::MAX >> 20, 40),
    ];
    for (value, k) in cases {
        let bits = RiceEncoder::encode(value, k);
        assert_eq!(RiceEncoder::decode(&bits, k), Ok(value));
    }
}

#[test]
fn decode_round_trips_large_parameter() {
    let bits = RiceEncoder::encode(u64::MAX, 63);
    assert_eq!(RiceEncoder::decode(&bits, 63), Ok(u64::MAX));
    let bits = RiceEncoder::encode(7, 100);
    assert_eq!(bits.len(), 101);
    assert_eq!(RiceEncoder::decode(&bits, 100), Ok(7));
}

#[test]
fn decode_rejects_missing_stop_bit() {
    assert_eq!(
        RiceEncoder::decode(&vec![1, 1], 2),
        Err(RiceError::InvalidEncoding)
    );
}

#[test]
fn decode_rejects_wrong_remainder_length() {
    assert_eq!(
        RiceEncoder::decode(&vec![1, 0, 1], 2),
        Err(RiceError::InvalidEncoding)
    );
}

#[test]
fn decode_rejects_value_beyond_64_bits() {
    // Quotient 2 with parameter 63 exceeds an unsigned 64-bit value.
    let mut bits: Vec<u8> = vec![1, 1, 0];
    for _ in 0..63 {
        bits.push(0);
    }
    assert_eq!(
        RiceEncoder::decode(&bits, 63),
        Err(RiceError::ValueOutOfRange)
    );
}
