use flacbits::wav::{
    PCMWaveFormatChunk, WaveReader, WaveReaderError,
};

fn riff(bytes: &[u8]) -> Result<(u32, bool), WaveReaderError> {
    let buffer: Vec<u8> = bytes.to_vec();
    WaveReader::read_riff_chunk(&buffer, 0).map(|c| (c.file_size, c.is_big_endian))
}

#[test]
fn it_valid_le_00() {
    let input = [0x52, 0x49, 0x46, 0x46, 0x0, 0x0, 0x0, 0x0, 0x57, 0x41, 0x56, 0x45];
    assert_eq!(riff(&input), Ok((0, false)));
}

#[test]
fn it_valid_le_01() {
    let input = [0x52, 0x49, 0x46, 0x46, 0x80, 0x0, 0x0, 0x0, 0x57, 0x41, 0x56, 0x45];
    assert_eq!(riff(&input), Ok((128, false)));
}

#[test]
fn it_valid_le_02() {
    let input = [0x52, 0x49, 0x46, 0x46, 0x1C, 0x40, 0x36, 0x0, 0x57, 0x41, 0x56, 0x45];
    assert_eq!(riff(&input), Ok((3_555_356, false)));
}

#[test]
fn it_valid_be_00() {
    let input = [0x52, 0x49, 0x46, 0x58, 0x0, 0x0, 0x0, 0x0, 0x57, 0x41, 0x56, 0x45];
    assert_eq!(riff(&input), Ok((0, true)));
}

#[test]
fn it_valid_be_01() {
    let input = [0x52, 0x49, 0x46, 0x58, 0x00, 0x0, 0x0, 0x80, 0x57, 0x41, 0x56, 0x45];
    assert_eq!(riff(&input), Ok((128, true)));
}

#[test]
fn it_valid_be_02() {
    let input = [0x52, 0x49, 0x46, 0x58, 0x00, 0x36, 0x40, 0x1C, 0x57, 0x41, 0x56, 0x45];
    assert_eq!(riff(&input), Ok((3_555_356, true)));
}

#[test]
fn it_bad_riff() {
    let input = [0x00, 0x49, 0x46, 0x46, 0x00, 0x36, 0x40, 0x1C, 0x57, 0x41, 0x56, 0x45];
    assert_eq!(riff(&input), Err(WaveReaderError::NotRiffError));
}

#[test]
fn it_bad_wave() {
    let input = [0x52, 0x49, 0x46, 0x46, 0x00, 0x36, 0x40, 0x1C, 0x57, 0x41, 0x56, 0x00];
    assert_eq!(riff(&input), Err(WaveReaderError::NotWaveError));
}

fn fmt(bytes: &[u8]) -> Result<PCMWaveFormatChunk, WaveReaderError> {
    let buffer: Vec<u8> = bytes.to_vec();
    WaveReader::read_fmt_chunk(&buffer, 0)
}

#[test]
fn it_valid_00() {
    let input = [
        0x66, 0x6d, 0x74, 0x20, 0x10, 0x0, 0x0, 0x0, 0x01, 0x0, 0x01, 0x0, 0x44, 0xac, 0x0, 0x0,
        0x44, 0xac, 0x0, 0x0, 0x01, 0x00, 0x08, 0x0,
    ];
    let chunk = fmt(&input).unwrap();
    assert_eq!(chunk.num_channels, 1);
    assert_eq!(chunk.samp_rate, 44100);
    assert_eq!(chunk.bps, 8);
}

#[test]
fn it_valid_01() {
    let input = [
        0x66, 0x6d, 0x74, 0x20, 0x10, 0x0, 0x0, 0x0, 0x01, 0x0, 0x02, 0x0, 0x44, 0xac, 0x0, 0x0,
        0x88, 0x58, 0x01, 0x0, 0x02, 0x00, 0x08, 0x0,
    ];
    let chunk = fmt(&input).unwrap();
    assert_eq!(chunk.num_channels, 2);
    assert_eq!(chunk.samp_rate, 44100);
    assert_eq!(chunk.bps, 8);
}

#[test]
fn it_valid_02() {
    let input = [
        0x66, 0x6d, 0x74, 0x20, 0x10, 0x0, 0x0, 0x0, 0x01, 0x0, 0x02, 0x0, 0x44, 0xac, 0x0, 0x0,
        0x10, 0xb1, 0x02, 0x0, 0x04, 0x00, 0x10, 0x0,
    ];
    let chunk = fmt(&input).unwrap();
    assert_eq!(chunk.num_channels, 2);
    assert_eq!(chunk.samp_rate, 44100);
    assert_eq!(chunk.bps, 16);
}

#[test]
fn fmt_bad_tag() {
    let input = [
        0x66, 0x6d, 0x74, 0x21, 0x10, 0x0, 0x0, 0x0, 0x01, 0x0, 0x01, 0x0, 0x44, 0xac, 0x0, 0x0,
        0x44, 0xac, 0x0, 0x0, 0x01, 0x00, 0x08, 0x0,
    ];
    assert_eq!(fmt(&input), Err(WaveReaderError::ChunkTypeError));
}

#[test]
fn fmt_not_pcm() {
    let input = [
        0x66, 0x6d, 0x74, 0x20, 0x10, 0x0, 0x0, 0x0, 0x03, 0x0, 0x01, 0x0, 0x44, 0xac, 0x0, 0x0,
        0x44, 0xac, 0x0, 0x0, 0x01, 0x00, 0x08, 0x0,
    ];
    assert_eq!(fmt(&input), Err(WaveReaderError::NotPCMError));
}

#[test]
fn fmt_bad_bit_depth() {
    // 12 bits per sample is not a whole number of bytes.
    let input = [
        0x66, 0x6d, 0x74, 0x20, 0x10, 0x0, 0x0, 0x0, 0x01, 0x0, 0x01, 0x0, 0x44, 0xac, 0x0, 0x0,
        0x44, 0xac, 0x0, 0x0, 0x01, 0x00, 0x0C, 0x0,
    ];
    assert_eq!(fmt(&input), Err(WaveReaderError::DataAlignmentError));
}

#[test]
fn byte_rate_and_block_align_derivation() {
    let chunk = PCMWaveFormatChunk { num_channels: 2, samp_rate: 44100, bps: 16 };
    assert_eq!(chunk.byte_rate(), 176400);
    assert_eq!(chunk.block_align(), 4);
}

fn mono8_chunk(payload: &[u8]) -> flacbits::wav::PCMWaveDataChunk {
    flacbits::wav::PCMWaveDataChunk {
        size_bytes: payload.len() as u32,
        format: PCMWaveFormatChunk { num_channels: 1, samp_rate: 8000, bps: 8 },
        data: payload.to_vec(),
        pos: 0,
    }
}

#[test]
fn window_of_four_over_ten_groups() {
    let chunk = mono8_chunk(&[0, 1, 2, 3, 4, 5, 6, 7, 8, 9]);
    let mut window = chunk.chunks(4);
    let first = window.next().unwrap();
    assert_eq!(first.len(), 4);
    assert_eq!(first, vec![vec![0], vec![1], vec![2], vec![3]]);
    let second = window.next().unwrap();
    assert_eq!(second.len(), 4);
    let third = window.next().unwrap();
    assert_eq!(third.len(), 2);
    assert_eq!(third, vec![vec![8], vec![9]]);
    assert_eq!(window.next(), None);
}

#[test]
fn window_byte_rate_is_one_second_of_groups() {
    let chunk = flacbits::wav::PCMWaveDataChunk {
        size_bytes: 5,
        format: PCMWaveFormatChunk { num_channels: 1, samp_rate: 2, bps: 8 },
        data: vec![10, 20, 30, 40, 50],
        pos: 0,
    };
    let mut window = chunk.chunks_byte_rate();
    assert_eq!(window.next(), Some(vec![vec![10], vec![20]]));
    assert_eq!(window.next(), Some(vec![vec![30], vec![40]]));
    assert_eq!(window.next(), Some(vec![vec![50]]));
    assert_eq!(window.next(), None);
}

#[test]
fn stereo16_samples_are_signed_little_endian() {
    let mut chunk = flacbits::wav::PCMWaveDataChunk {
        size_bytes: 8,
        format: PCMWaveFormatChunk { num_channels: 2, samp_rate: 44100, bps: 16 },
        data: vec![0xFF, 0xFF, 0x00, 0x80, 0x34, 0x12, 0x01, 0x00],
        pos: 0,
    };
    assert_eq!(chunk.next(), Some(vec![-1i64, -32768]));
    assert_eq!(chunk.next(), Some(vec![0x1234, 1]));
    assert_eq!(chunk.next(), None);
}

#[test]
fn mono8_samples_pass_through_unsigned() {
    let mut chunk = mono8_chunk(&[200, 0, 127]);
    assert_eq!(chunk.next(), Some(vec![200i64]));
    assert_eq!(chunk.next(), Some(vec![0i64]));
    assert_eq!(chunk.next(), Some(vec![127i64]));
    assert_eq!(chunk.next(), None);
}

#[test]
fn short_tail_ends_stream_without_padding() {
    let mut chunk = flacbits::wav::PCMWaveDataChunk {
        size_bytes: 3,
        format: PCMWaveFormatChunk { num_channels: 2, samp_rate: 44100, bps: 8 },
        data: vec![1, 2, 3],
        pos: 0,
    };
    // One whole group, then a single leftover byte.
    assert_eq!(chunk.next(), Some(vec![1i64, 2]));
    assert_eq!(chunk.next(), None);
}

fn container(payload: &[u8]) -> Vec<u8> {
    let mut bytes: Vec<u8> = Vec::new();
    bytes.extend_from_slice(&[0x52, 0x49, 0x46, 0x46]); // RIFF
    bytes.extend_from_slice(&(36 + payload.len() as u32).to_le_bytes());
    bytes.extend_from_slice(&[0x57, 0x41, 0x56, 0x45]); // WAVE
    bytes.extend_from_slice(&[0x66, 0x6d, 0x74, 0x20]); // fmt_
    bytes.extend_from_slice(&16u32.to_le_bytes());
    bytes.extend_from_slice(&1u16.to_le_bytes()); // integer PCM
    bytes.extend_from_slice(&1u16.to_le_bytes()); // one channel
    bytes.extend_from_slice(&8000u32.to_le_bytes());
    bytes.extend_from_slice(&8000u32.to_le_bytes());
    bytes.extend_from_slice(&1u16.to_le_bytes());
    bytes.extend_from_slice(&8u16.to_le_bytes());
    bytes.extend_from_slice(&[0x64, 0x61, 0x74, 0x61]); // data
    bytes.extend_from_slice(&(payload.len() as u32).to_le_bytes());
    bytes.extend_from_slice(payload);
    bytes
}

#[test]
fn open_pcm_parses_whole_container() {
    let buffer = container(&[1, 2, 3, 4]);
    let info = WaveReader::open_pcm(&buffer).unwrap();
    assert_eq!(info.riff_header.file_size, 40);
    assert!(!info.riff_header.is_big_endian);
    assert_eq!(info.fmt_header.num_channels, 1);
    assert_eq!(info.fmt_header.samp_rate, 8000);
    assert_eq!(info.fmt_header.bps, 8);
    assert_eq!(info.data_chunks.len(), 1);
    assert_eq!(info.data_chunks[0].size_bytes, 4);
    assert_eq!(info.data_chunks[0].data, vec![1, 2, 3, 4]);
}

#[test]
fn open_pcm_streams_the_payload() {
    let buffer = container(&[9, 8, 7]);
    let info = WaveReader::open_pcm(&buffer).unwrap();
    let mut chunks = info.data_chunks;
    let chunk = chunks.remove(0);
    let mut window = chunk.chunks(2);
    assert_eq!(window.next(), Some(vec![vec![9], vec![8]]));
    assert_eq!(window.next(), Some(vec![vec![7]]));
    assert_eq!(window.next(), None);
}

#[test]
fn open_pcm_short_buffer_is_read_error() {
    let buffer: Vec<u8> = vec![0x52, 0x49, 0x46, 0x46];
    assert!(matches!(
        WaveReader::open_pcm(&buffer),
        Err(WaveReaderError::ReadError)
    ));
}

#[test]
fn open_pcm_corrupt_first_byte_is_format_error() {
    let mut buffer = container(&[1, 2]);
    buffer[0] = 0x00;
    assert!(matches!(
        WaveReader::open_pcm(&buffer),
        Err(WaveReaderError::NotRiffError)
    ));
}

#[test]
fn open_pcm_bad_data_tag_is_chunk_error() {
    let mut buffer = container(&[1, 2]);
    buffer[36] = 0x65;
    assert!(matches!(
        WaveReader::open_pcm(&buffer),
        Err(WaveReaderError::ChunkTypeError)
    ));
}

#[test]
fn data_chunk_reader_takes_payload_after_header() {
    let fmt_info = PCMWaveFormatChunk { num_channels: 1, samp_rate: 8000, bps: 8 };
    let buffer: Vec<u8> = vec![0x64, 0x61, 0x74, 0x61, 0x02, 0x00, 0x00, 0x00, 0xAA, 0xBB];
    let chunk = WaveReader::read_data_chunk(&buffer, 0, &fmt_info).unwrap();
    assert_eq!(chunk.size_bytes, 2);
    assert_eq!(chunk.data, vec![0xAA, 0xBB]);
    assert_eq!(chunk.pos, 0);
}
