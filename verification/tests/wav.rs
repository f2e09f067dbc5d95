use lib::wav::{DerivedField, WavFile, WavParseError};

fn build_wav(num_channels: u16, sample_rate: u32, bits_per_sample: u16, payload: &[u8]) -> Vec<u8> {
    let mut v = Vec::new();
    v.extend_from_slice(b"RIFF");
    v.extend_from_slice(&(36u32 + payload.len() as u32).to_le_bytes());
    v.extend_from_slice(b"WAVE");
    v.extend_from_slice(b"fmt ");
    v.extend_from_slice(&16u32.to_le_bytes());
    v.extend_from_slice(&1u16.to_le_bytes());
    v.extend_from_slice(&num_channels.to_le_bytes());
    v.extend_from_slice(&sample_rate.to_le_bytes());
    let byte_rate = sample_rate * num_channels as u32 * (bits_per_sample as u32 / 8);
    v.extend_from_slice(&byte_rate.to_le_bytes());
    let block_align = num_channels * (bits_per_sample / 8);
    v.extend_from_slice(&block_align.to_le_bytes());
    v.extend_from_slice(&bits_per_sample.to_le_bytes());
    v.extend_from_slice(b"data");
    v.extend_from_slice(&(payload.len() as u32).to_le_bytes());
    v.extend_from_slice(payload);
    v
}

#[test]
fn parses_valid_wav() {
    let payload = [1u8, 2, 3, 4, 5, 6];
    let bytes = build_wav(2, 44100, 16, &payload);
    let wav = WavFile::parse(&bytes).expect("should parse");
    assert_eq!(wav.num_channels, 2);
    assert_eq!(wav.sample_rate, 44100);
    assert_eq!(wav.bits_per_sample, 16);
    assert_eq!(wav.data, &payload);
}

#[test]
fn rejects_too_short() {
    let bytes = vec![0u8; 10];
    assert!(matches!(
        WavFile::parse(&bytes),
        Err(WavParseError::UnexpectedEof)
    ));
}

#[test]
fn rejects_bad_riff_magic() {
    let mut bytes = build_wav(1, 8000, 8, &[9, 9]);
    bytes[0] = b'X';
    assert!(matches!(
        WavFile::parse(&bytes),
        Err(WavParseError::UnexpectedValue { .. })
    ));
}

#[test]
fn rejects_bad_wave_magic() {
    let mut bytes = build_wav(1, 8000, 8, &[9, 9]);
    bytes[8] = b'X';
    assert!(matches!(
        WavFile::parse(&bytes),
        Err(WavParseError::UnexpectedValue { .. })
    ));
}

#[test]
fn rejects_bad_fmt_magic() {
    let mut bytes = build_wav(1, 8000, 8, &[9, 9]);
    bytes[12] = b'X';
    assert!(matches!(
        WavFile::parse(&bytes),
        Err(WavParseError::UnexpectedValue { .. })
    ));
}

#[test]
fn rejects_bad_data_magic() {
    let mut bytes = build_wav(1, 8000, 8, &[9, 9]);
    bytes[36] = b'X';
    assert!(matches!(
        WavFile::parse(&bytes),
        Err(WavParseError::UnexpectedValue { .. })
    ));
}

#[test]
fn rejects_truncated_payload() {
    let mut bytes = build_wav(1, 8000, 8, &[9, 9, 9, 9]);
    bytes.truncate(bytes.len() - 2);
    assert!(matches!(
        WavFile::parse(&bytes),
        Err(WavParseError::UnexpectedEof)
    ));
}

#[test]
fn rejects_non_pcm_format() {
    let mut bytes = build_wav(1, 8000, 8, &[1, 2]);
    bytes[20] = 2;
    assert!(matches!(
        WavFile::parse(&bytes),
        Err(WavParseError::UnsupportedFormat { format: 2 })
    ));
}

#[test]
fn zero_length_payload() {
    let bytes = build_wav(1, 8000, 8, &[]);
    let wav = WavFile::parse(&bytes).expect("should parse");
    assert_eq!(wav.data.len(), 0);
}

#[test]
fn stereo_16bit_roundtrip() {
    let payload = vec![0u8; 100];
    let bytes = build_wav(2, 48000, 24, &payload);
    let wav = WavFile::parse(&bytes).expect("should parse");
    assert_eq!(wav.num_channels, 2);
    assert_eq!(wav.sample_rate, 48000);
    assert_eq!(wav.bits_per_sample, 24);
    assert_eq!(wav.data.len(), 100);
}

// Further cases.

#[test]
fn mismatch_reports_expected_and_found_bytes() {
    let mut bytes = build_wav(1, 8000, 8, &[9, 9]);
    bytes[9] = b'Z';
    match WavFile::parse(&bytes) {
        Err(WavParseError::UnexpectedValue { expected, found }) => {
            assert_eq!(expected, b"WAVE");
            assert_eq!(found, b"WZVE");
        }
        _ => panic!("expected a mismatch of the WAVE marker"),
    }
}

#[test]
fn first_fault_in_header_order_wins() {
    // Both the fmt marker and the audio format are wrong: the marker comes first.
    let mut bytes = build_wav(1, 8000, 8, &[9, 9]);
    bytes[12] = b'X';
    bytes[20] = 3;
    match WavFile::parse(&bytes) {
        Err(WavParseError::UnexpectedValue { expected, found }) => {
            assert_eq!(expected, b"fmt ");
            assert_eq!(found, b"Xmt ");
        }
        _ => panic!("expected a mismatch of the fmt marker"),
    }
    // The audio format is checked before the data marker.
    let mut bytes = build_wav(1, 8000, 8, &[9, 9]);
    bytes[20] = 3;
    bytes[36] = b'X';
    assert!(matches!(
        WavFile::parse(&bytes),
        Err(WavParseError::UnsupportedFormat { format: 3 })
    ));
}

#[test]
fn little_endian_fields_are_read_exactly() {
    let bytes = build_wav(0x0102, 0x0001_0203, 8, &[7, 8, 9]);
    let wav = WavFile::parse(&bytes).expect("should parse");
    assert_eq!(wav.num_channels, 0x0102);
    assert_eq!(wav.sample_rate, 0x0001_0203);
    assert_eq!(wav.bits_per_sample, 8);
    assert_eq!(wav.data, &[7, 8, 9]);
}

#[test]
fn inconsistent_byte_rate_is_refused() {
    let mut bytes = build_wav(2, 44100, 16, &[1, 2, 3, 4]);
    bytes[28..32].copy_from_slice(&1000u32.to_le_bytes());
    assert!(matches!(
        WavFile::parse(&bytes),
        Err(WavParseError::MismatchedField { field: DerivedField::ByteRate, required: 176400, actual: 1000 })
    ));
}

#[test]
fn inconsistent_block_align_is_refused() {
    let mut bytes = build_wav(2, 44100, 16, &[1, 2, 3, 4]);
    bytes[32..34].copy_from_slice(&3u16.to_le_bytes());
    assert!(matches!(
        WavFile::parse(&bytes),
        Err(WavParseError::MismatchedField { field: DerivedField::BlockAlign, required: 4, actual: 3 })
    ));
}

#[test]
fn inconsistent_chunk_size_is_refused() {
    let mut bytes = build_wav(1, 8000, 8, &[1, 2]);
    bytes[4..8].copy_from_slice(&99u32.to_le_bytes());
    assert!(matches!(
        WavFile::parse(&bytes),
        Err(WavParseError::MismatchedField { field: DerivedField::ChunkSize, required: 38, actual: 99 })
    ));
}

#[test]
fn trailing_bytes_must_be_counted_by_chunk_size() {
    let mut bytes = build_wav(1, 8000, 8, &[1, 2, 3]);
    bytes.extend_from_slice(&[4, 5, 6]);
    assert!(matches!(
        WavFile::parse(&bytes),
        Err(WavParseError::MismatchedField { field: DerivedField::ChunkSize, required: 42, actual: 39 })
    ));
    let chunk = (bytes.len() - 8) as u32;
    bytes[4..8].copy_from_slice(&chunk.to_le_bytes());
    let wav = WavFile::parse(&bytes).expect("should parse");
    assert_eq!(wav.data, &[1, 2, 3]);
}

#[test]
fn derived_fields_are_checked_after_markers_and_length() {
    // A bad data marker, or a short file, is reported before a bad byte rate;
    // a short file before a bad chunk size; the byte rate before the block
    // alignment and the chunk size.
    let mut bytes = build_wav(1, 8000, 8, &[1, 2]);
    bytes[28] ^= 1;
    bytes[36] = b'X';
    assert!(matches!(
        WavFile::parse(&bytes),
        Err(WavParseError::UnexpectedValue { .. })
    ));
    let mut bytes = build_wav(1, 8000, 8, &[1, 2, 3, 4]);
    bytes[28] ^= 1;
    bytes.truncate(bytes.len() - 1);
    assert!(matches!(WavFile::parse(&bytes), Err(WavParseError::UnexpectedEof)));
    let mut bytes = build_wav(1, 8000, 8, &[1, 2, 3, 4]);
    bytes[4] ^= 1;
    bytes.truncate(bytes.len() - 1);
    assert!(matches!(WavFile::parse(&bytes), Err(WavParseError::UnexpectedEof)));
    let mut bytes = build_wav(1, 8000, 8, &[1, 2]);
    bytes[28] ^= 1;
    bytes[32] ^= 1;
    bytes[4] ^= 1;
    assert!(matches!(
        WavFile::parse(&bytes),
        Err(WavParseError::MismatchedField { field: DerivedField::ByteRate, .. })
    ));
}

#[test]
fn header_of_exactly_44_bytes_with_empty_payload() {
    let bytes = build_wav(1, 8000, 8, &[]);
    assert_eq!(bytes.len(), 44);
    assert!(WavFile::parse(&bytes[..43]).is_err());
    assert!(WavFile::parse(&bytes).is_ok());
}

#[test]
fn huge_declared_length_is_eof() {
    let mut bytes = build_wav(1, 8000, 8, &[1, 2]);
    bytes[40..44].copy_from_slice(&u32::MAX.to_le_bytes());
    assert!(matches!(
        WavFile::parse(&bytes),
        Err(WavParseError::UnexpectedEof)
    ));
}
