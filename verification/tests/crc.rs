use flacbits::crc::CrcOptions;

#[test]
fn crc8_known_value() {
    let builder = CrcOptions::new(0b0000_0111u8, 8u8);
    let data: Vec<u8> = vec![1, 0, 1, 0, 1, 0, 1, 0, 1, 0];
    assert_eq!(builder.build_crc8(&data), 117);
}

#[test]
fn crc8_empty_data_is_zero() {
    let builder = CrcOptions::new(0b0000_0111u8, 8u8);
    let data: Vec<u8> = vec![];
    assert_eq!(builder.build_crc8(&data), 0);
}

#[test]
fn crc8_combine_appends_msb_first() {
    let builder = CrcOptions::new(0b0000_0111u8, 8u8);
    let data: Vec<u8> = vec![1, 0, 1, 1];
    let combined = builder.combine_crc8(data.clone(), 0b0111_0101);
    assert_eq!(combined.len(), data.len() + 8);
    assert_eq!(&combined[..4], &data[..]);
    assert_eq!(&combined[4..], &[0, 1, 1, 1, 0, 1, 0, 1]);
}

#[test]
fn crc8_appended_checksum_rechecks_to_zero() {
    let builder = CrcOptions::new(0b0000_0111u8, 8u8);
    let data: Vec<u8> = vec![1, 0, 1, 0, 1, 0, 1, 0, 1, 0];
    let checksum = builder.build_crc8(&data);
    let combined = builder.combine_crc8(data, checksum);
    assert_eq!(builder.build_crc8(&combined), 0);
}

#[test]
fn crc16_known_value() {
    let builder = CrcOptions::new(0b1000_0000_0000_0101u16, 16u16);
    let data: Vec<u16> = vec![1, 0, 1, 0, 1, 0, 1, 0, 1, 0];
    assert_eq!(builder.build_crc16(&data), 0x8FFF);
}

#[test]
fn crc16_combine_appends_msb_first() {
    let builder = CrcOptions::new(0b1000_0000_0000_0101u16, 16u16);
    let data: Vec<u16> = vec![1, 1, 0];
    let combined = builder.combine_crc16(data, 0x8FFF);
    assert_eq!(
        combined,
        vec![1, 1, 0, 1, 0, 0, 0, 1, 1, 1, 1, 1, 1, 1, 1, 1, 1, 1, 1]
    );
}

#[test]
fn crc16_appended_checksum_rechecks_to_zero() {
    let builder = CrcOptions::new(0b1000_0000_0000_0101u16, 16u16);
    let data: Vec<u16> = vec![1, 0, 1, 0, 1, 0, 1, 0, 1, 0];
    let checksum = builder.build_crc16(&data);
    let combined = builder.combine_crc16(data, checksum);
    assert_eq!(builder.build_crc16(&combined), 0);
}

#[test]
fn crc_engine_rejects_zero_width() {
    assert_eq!(
        flacbits::crc::crc_compute(0, 0, &vec![1, 0, 1]),
        Err(flacbits::crc::CrcError::InvalidConfig)
    );
}

#[test]
fn crc_engine_rejects_wide_polynomial() {
    // Nine significant polynomial bits cannot fit an 8-bit register.
    assert_eq!(
        flacbits::crc::crc_compute(0x1FF, 8, &vec![1, 0, 1]),
        Err(flacbits::crc::CrcError::InvalidConfig)
    );
}

#[test]
fn crc_engine_generalizes_to_small_widths() {
    // x^3 + x + 1 over the bits 101: remainder 100.
    assert_eq!(flacbits::crc::crc_compute(0b011, 3, &vec![1, 0, 1]), Ok(4));
}

#[test]
fn crc_engine_accepts_full_width_register() {
    assert_eq!(flacbits::crc::crc_compute(0, 64, &vec![]), Ok(0));
    // With a zero polynomial every bit is shifted out of the register.
    assert_eq!(flacbits::crc::crc_compute(0, 64, &vec![1]), Ok(0));
}

#[test]
fn crc_engine_matches_crc8_builder() {
    let data: Vec<u8> = vec![1, 0, 1, 0, 1, 0, 1, 0, 1, 0];
    assert_eq!(flacbits::crc::crc_compute(0b111, 8, &data), Ok(117));
}
