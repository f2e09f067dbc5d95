//! Zero-copy parser for the WAV (RIFF/WAVE) file format, PCM only.
//!
//! Layout: a 44-byte header, all numbers little-endian, then the sample data.
//!
//! | Offset | Size | Field           | Value                               |
//! |--------|------|-----------------|-------------------------------------|
//! | 0      | 4    | `ChunkID`       | ASCII `"RIFF"`                      |
//! | 4      | 4    | `ChunkSize`     | `u32`, bytes after this field       |
//! | 8      | 4    | `Format`        | ASCII `"WAVE"`                      |
//! | 12     | 4    | `Subchunk1ID`   | ASCII `"fmt "`                      |
//! | 20     | 2    | `AudioFormat`   | `u16`, must be 1 (PCM)              |
//! | 22     | 2    | `NumChannels`   | `u16`                               |
//! | 24     | 4    | `SampleRate`    | `u32`                               |
//! | 28     | 4    | `ByteRate`      | `u32`, `SampleRate * BlockAlign`    |
//! | 32     | 2    | `BlockAlign`    | `u16`, `NumChannels * (Bits / 8)`   |
//! | 34     | 2    | `BitsPerSample` | `u16`                               |
//! | 36     | 4    | `Subchunk2ID`   | ASCII `"data"`                      |
//! | 40     | 4    | `Subchunk2Size` | `u32`, length of the sample data    |
//! | 44     | ...  | sample data     | borrowed, not copied                |
use crate::text::slices_equal;
use vstd::prelude::*;

verus! {

/// Fixed header size: everything up to and including `Subchunk2Size`.
const HEADER_SIZE: usize = 44;

/// Offset of `ChunkID`, which must be ASCII `"RIFF"`.
const RIFF_MAGIC_AT: usize = 0;

/// Offset of `Format`, which must be ASCII `"WAVE"`.
const WAVE_MAGIC_AT: usize = 8;

/// Offset of `Subchunk1ID`, which must be ASCII `"fmt "` (trailing space).
const FMT_MAGIC_AT: usize = 12;

/// Offset of `ChunkSize`: `u32`, the number of bytes after this field.
const CHUNK_SIZE_AT: usize = 4;

/// Offset of `AudioFormat`: `u16`, must be `1` (PCM).
const AUDIO_FORMAT_AT: usize = 20;

/// Offset of `NumChannels`: `u16`, e.g. 1 = mono, 2 = stereo.
const NUM_CHANNELS_AT: usize = 22;

/// Offset of `SampleRate`: `u32`, samples per second (e.g. 44100).
const SAMPLE_RATE_AT: usize = 24;

/// Offset of `ByteRate`: `u32`, bytes played per second.
const BYTE_RATE_AT: usize = 28;

/// Offset of `BlockAlign`: `u16`, bytes per sample frame (all channels).
const BLOCK_ALIGN_AT: usize = 32;

/// Offset of `BitsPerSample`: `u16`, bit depth per sample (e.g. 16).
const BITS_PER_SAMPLE_AT: usize = 34;

/// Offset of `Subchunk2ID`, which must be ASCII `"data"`.
const DATA_MAGIC_AT: usize = 36;

/// Offset of `Subchunk2Size`: `u32`, length of the sample data after the header.
const PAYLOAD_LEN_AT: usize = 40;

/// A parsed PCM WAV file; `data` borrows the sample bytes from the input.
pub struct WavFile<'a> {
    pub num_channels: u16,
    pub sample_rate: u32,
    pub bits_per_sample: u16,
    pub data: &'a [u8],
}

/// Why [`WavFile::parse`] refused its input.
#[derive(Debug)]
pub enum WavParseError<'a> {
    /// The input ends before the header or before the sample data does.
    UnexpectedEof,
    /// `AudioFormat` is not 1 (PCM).
    UnsupportedFormat { format: u16 },
    /// A four-byte marker does not hold the ASCII text it must.
    UnexpectedValue { expected: &'a [u8], found: &'a [u8] },
    /// A field that follows from the others does not hold the value it must.
    MismatchedField { field: DerivedField, required: u64, actual: u64 },
}

/// The header fields whose values follow from the rest of the file.
#[derive(Debug, Clone, Copy, PartialEq, Eq, Structural)]
pub enum DerivedField {
    /// `ChunkSize`: the number of bytes after this field, to the end of the file.
    ChunkSize,
    /// `ByteRate`: `SampleRate * BlockAlign`.
    ByteRate,
    /// `BlockAlign`: `NumChannels * (BitsPerSample / 8)`.
    BlockAlign,
}

/// The first fault of a WAV input, in the order the header is checked.
pub enum WavFault {
    UnexpectedEof,
    UnsupportedFormat(u16),
    /// The marker at this offset is wrong.
    UnexpectedValue(usize),
    /// This derived field is inconsistent with the rest of the file.
    MismatchedField(DerivedField),
}

/// The frame size that `NumChannels` and `BitsPerSample` give.
pub open spec fn block_align_of(b: Seq<u8>) -> int {
    le_u16(b, 22) * (le_u16(b, 34) / 8)
}

/// The value that a derived field must hold in the file `b`.
pub open spec fn expected_field(b: Seq<u8>, f: DerivedField) -> int {
    match f {
        DerivedField::ChunkSize => b.len() - 8,
        DerivedField::ByteRate => le_u32(b, 24) * block_align_of(b),
        DerivedField::BlockAlign => block_align_of(b),
    }
}

/// The value that a derived field holds in the file `b`.
pub open spec fn found_field(b: Seq<u8>, f: DerivedField) -> int {
    match f {
        DerivedField::ChunkSize => le_u32(b, 4) as int,
        DerivedField::ByteRate => le_u32(b, 28) as int,
        DerivedField::BlockAlign => le_u16(b, 32) as int,
    }
}

/// True when the derived field `f` of `b` holds the value it must.
pub open spec fn field_ok(b: Seq<u8>, f: DerivedField) -> bool {
    found_field(b, f) == expected_field(b, f)
}

/// The little-endian `u16` at `at`.
pub open spec fn le_u16(b: Seq<u8>, at: int) -> u16 {
    (b[at] + 256 * b[at + 1]) as u16
}

/// The little-endian `u32` at `at`.
pub open spec fn le_u32(b: Seq<u8>, at: int) -> u32 {
    (b[at] + 256 * b[at + 1] + 65536 * b[at + 2] + 16777216 * b[at + 3]) as u32
}

/// The ASCII text that the marker at `at` must hold.
pub open spec fn magic_at(at: int) -> Seq<u8> {
    if at == 0 {
        seq![82u8, 73, 70, 70]  // "RIFF"

    } else if at == 8 {
        seq![87u8, 65, 86, 69]  // "WAVE"

    } else if at == 12 {
        seq![102u8, 109, 116, 32]  // "fmt "

    } else {
        seq![100u8, 97, 116, 97]  // "data"

    }
}

/// True when the four bytes at `at` hold the marker they must.
pub open spec fn magic_ok(b: Seq<u8>, at: int) -> bool {
    b.subrange(at, at + 4) == magic_at(at)
}

/// The first fault of `b` as a WAV file, or `None` when it is a valid one.
/// The markers and the audio format are checked in file order, then that the
/// sample data fits in the input; only then are the derived fields compared
/// with what the rest of the file gives: `ByteRate`, `BlockAlign`, and
/// `ChunkSize` against the length of the input.
pub open spec fn wav_fault(b: Seq<u8>) -> Option<WavFault> {
    if b.len() < 44 {
        Some(WavFault::UnexpectedEof)
    } else if !magic_ok(b, 0) {
        Some(WavFault::UnexpectedValue(0))
    } else if !magic_ok(b, 8) {
        Some(WavFault::UnexpectedValue(8))
    } else if !magic_ok(b, 12) {
        Some(WavFault::UnexpectedValue(12))
    } else if le_u16(b, 20) != 1 {
        Some(WavFault::UnsupportedFormat(le_u16(b, 20)))
    } else if !magic_ok(b, 36) {
        Some(WavFault::UnexpectedValue(36))
    } else if 44 + le_u32(b, 40) > b.len() {
        Some(WavFault::UnexpectedEof)
    } else if !field_ok(b, DerivedField::ByteRate) {
        Some(WavFault::MismatchedField(DerivedField::ByteRate))
    } else if !field_ok(b, DerivedField::BlockAlign) {
        Some(WavFault::MismatchedField(DerivedField::BlockAlign))
    } else if !field_ok(b, DerivedField::ChunkSize) {
        Some(WavFault::MismatchedField(DerivedField::ChunkSize))
    } else {
        None
    }
}

impl<'a> WavFile<'a> {
    /// Parses a PCM WAV file, borrowing its sample data from `input`.
    pub fn parse(input: &'a [u8]) -> (r: Result<Self, WavParseError<'a>>)
        ensures
            match r {
                Ok(w) => {
                    &&& wav_fault(input@) is None
                    &&& w.num_channels == le_u16(input@, 22)
                    &&& w.sample_rate == le_u32(input@, 24)
                    &&& w.bits_per_sample == le_u16(input@, 34)
                    &&& w.data@ == input@.subrange(44, 44 + le_u32(input@, 40))
                },
                Err(WavParseError::UnexpectedEof) => wav_fault(input@) == Some(WavFault::UnexpectedEof),
                Err(WavParseError::UnsupportedFormat { format }) => wav_fault(input@) == Some(
                    WavFault::UnsupportedFormat(format),
                ),
                Err(WavParseError::UnexpectedValue { expected, found }) => {
                    &&& wav_fault(input@) matches Some(WavFault::UnexpectedValue(at))
                    &&& expected@ == magic_at(at as int)
                    &&& found@ == input@.subrange(at as int, at + 4)
                },
                Err(WavParseError::MismatchedField { field, required, actual }) => {
                    &&& wav_fault(input@) == Some(WavFault::MismatchedField(field))
                    &&& required == expected_field(input@, field)
                    &&& actual == found_field(input@, field)
                },
            },
    {
        if input.len() < HEADER_SIZE {
            return Err(WavParseError::UnexpectedEof);
        }
        expect_magic(&input[RIFF_MAGIC_AT..RIFF_MAGIC_AT + 4], &[82, 73, 70, 70])?;
        expect_magic(&input[WAVE_MAGIC_AT..WAVE_MAGIC_AT + 4], &[87, 65, 86, 69])?;
        expect_magic(&input[FMT_MAGIC_AT..FMT_MAGIC_AT + 4], &[102, 109, 116, 32])?;

        let audio_format = read_u16(&input[AUDIO_FORMAT_AT..AUDIO_FORMAT_AT + 2]);
        if audio_format != 1 {
            return Err(WavParseError::UnsupportedFormat { format: audio_format });
        }

        expect_magic(&input[DATA_MAGIC_AT..DATA_MAGIC_AT + 4], &[100, 97, 116, 97])?;

        let payload_len = read_u32(&input[PAYLOAD_LEN_AT..PAYLOAD_LEN_AT + 4]);
        if payload_len as usize > input.len() - HEADER_SIZE {
            return Err(WavParseError::UnexpectedEof);
        }

        let num_channels = read_u16(&input[NUM_CHANNELS_AT..NUM_CHANNELS_AT + 2]);
        let sample_rate = read_u32(&input[SAMPLE_RATE_AT..SAMPLE_RATE_AT + 4]);
        let bits_per_sample = read_u16(&input[BITS_PER_SAMPLE_AT..BITS_PER_SAMPLE_AT + 2]);
        let block_align = frame_size(num_channels, bits_per_sample);
        let byte_rate = byte_rate_for(sample_rate, block_align);
        let found_byte_rate = read_u32(&input[BYTE_RATE_AT..BYTE_RATE_AT + 4]) as u64;
        if found_byte_rate != byte_rate {
            return Err(
                WavParseError::MismatchedField {
                    field: DerivedField::ByteRate,
                    required: byte_rate,
                    actual: found_byte_rate,
                },
            );
        }
        let found_block_align = read_u16(&input[BLOCK_ALIGN_AT..BLOCK_ALIGN_AT + 2]) as u64;
        if found_block_align != block_align {
            return Err(
                WavParseError::MismatchedField {
                    field: DerivedField::BlockAlign,
                    required: block_align,
                    actual: found_block_align,
                },
            );
        }

        let chunk_size = (input.len() - 8) as u64;
        let found_chunk_size = read_u32(&input[CHUNK_SIZE_AT..CHUNK_SIZE_AT + 4]) as u64;
        if found_chunk_size != chunk_size {
            return Err(
                WavParseError::MismatchedField {
                    field: DerivedField::ChunkSize,
                    required: chunk_size,
                    actual: found_chunk_size,
                },
            );
        }

        let wav_file = Self {
            num_channels,
            sample_rate,
            bits_per_sample,
            data: &input[HEADER_SIZE..HEADER_SIZE + payload_len as usize],
        };

        Ok(wav_file)
    }
}

/// `num_channels * (bits_per_sample / 8)`, the bytes of one sample frame.
fn frame_size(num_channels: u16, bits_per_sample: u16) -> (r: u64)
    ensures
        r == num_channels * (bits_per_sample / 8),
        r < 0x2000_0000,
{
    let per_sample = (bits_per_sample / 8) as u64;
    assert(num_channels * per_sample < 0x2000_0000) by (nonlinear_arith)
        requires
            num_channels < 0x10000,
            per_sample < 0x2000,
    ;
    (num_channels as u64) * per_sample
}

/// `sample_rate * block_align`, the bytes played per second.
fn byte_rate_for(sample_rate: u32, block_align: u64) -> (r: u64)
    requires
        block_align < 0x2000_0000,
    ensures
        r == sample_rate * block_align,
{
    assert(sample_rate * block_align < 0x2000_0000_0000_0000) by (nonlinear_arith)
        requires
            sample_rate < 0x1_0000_0000,
            block_align < 0x2000_0000,
    ;
    (sample_rate as u64) * block_align
}

/// The little-endian `u16` held by `bytes`.
fn read_u16(bytes: &[u8]) -> (v: u16)
    requires
        bytes@.len() == 2,
    ensures
        v == le_u16(bytes@, 0),
{
    let lo = bytes[0];
    let hi = bytes[1];
    assert((lo as u16) | ((hi as u16) << 8u16) == lo + 256 * hi) by (bit_vector);
    (lo as u16) | ((hi as u16) << 8u16)
}

/// The little-endian `u32` held by `bytes`.
fn read_u32(bytes: &[u8]) -> (v: u32)
    requires
        bytes@.len() == 4,
    ensures
        v == le_u32(bytes@, 0),
{
    let b0 = bytes[0];
    let b1 = bytes[1];
    let b2 = bytes[2];
    let b3 = bytes[3];
    assert((b0 as u32) | ((b1 as u32) << 8u32) | ((b2 as u32) << 16u32) | ((b3 as u32) << 24u32)
        == b0 + 256 * b1 + 65536 * b2 + 16777216 * b3) by (bit_vector);
    (b0 as u32) | ((b1 as u32) << 8u32) | ((b2 as u32) << 16u32) | ((b3 as u32) << 24u32)
}

/// `Ok` when `found` holds the bytes of `expected`, else the mismatch.
fn expect_magic<'a>(found: &'a [u8], expected: &'static [u8]) -> (r: Result<(), WavParseError<'a>>)
    ensures
        match r {
            Ok(()) => found@ == expected@,
            Err(WavParseError::UnexpectedValue { expected: e, found: f }) => found@ != expected@
                && e@ == expected@ && f@ == found@,
            _ => false,
        },
{
    if slices_equal(found, expected) {
        Ok(())
    } else {
        Err(WavParseError::UnexpectedValue { expected, found })
    }
}


/// The little-endian bytes of `x`.
pub open spec fn le16_bytes(x: u16) -> Seq<u8> {
    seq![(x % 256) as u8, (x / 256) as u8]
}

/// The little-endian bytes of `x`.
pub open spec fn le32_bytes(x: u32) -> Seq<u8> {
    seq![(x % 256) as u8, ((x / 256) % 256) as u8, ((x / 65536) % 256) as u8, (x / 16777216) as u8]
}

/// A PCM WAV file as a writer lays it out, with the given header fields and
/// sample data. `ChunkSize`, `Subchunk1Size`, `ByteRate` and `BlockAlign`
/// are whatever the writer put there.
pub open spec fn wav_bytes(
    chunk_size: u32,
    fmt_size: u32,
    num_channels: u16,
    sample_rate: u32,
    byte_rate: u32,
    block_align: u16,
    bits_per_sample: u16,
    payload: Seq<u8>,
) -> Seq<u8> {
    let riff = magic_at(0) + le32_bytes(chunk_size) + magic_at(8);
    let fmt = magic_at(12) + le32_bytes(fmt_size) + le16_bytes(1) + le16_bytes(num_channels)
        + le32_bytes(sample_rate) + le32_bytes(byte_rate) + le16_bytes(block_align) + le16_bytes(
        bits_per_sample,
    );
    let data = magic_at(36) + le32_bytes(payload.len() as u32);
    riff + fmt + data + payload
}

proof fn lemma_le16(x: u16)
    ensures
        le_u16(le16_bytes(x), 0) == x,
{
    let b0 = (x % 256) as u8;
    let b1 = (x / 256) as u8;
    assert(x % 256 < 256 && x / 256 < 256);
    assert(b0 + 256 * b1 == x);
}

proof fn lemma_le32(x: u32)
    ensures
        le_u32(le32_bytes(x), 0) == x,
{
    let b0 = (x % 256) as u8;
    let b1 = ((x / 256) % 256) as u8;
    let b2 = ((x / 65536) % 256) as u8;
    let b3 = (x / 16777216) as u8;
    assert(x / 16777216 < 256);
    assert(b0 + 256 * b1 + 65536 * b2 + 16777216 * b3 == x);
}

/// Round trip: a file laid out by a writer, with its derived fields
/// consistent, parses back to the number of channels, sample rate, bit depth
/// and sample data that were written.
pub proof fn law_parse_reads_back_written_fields(
    chunk_size: u32,
    fmt_size: u32,
    num_channels: u16,
    sample_rate: u32,
    byte_rate: u32,
    block_align: u16,
    bits_per_sample: u16,
    payload: Seq<u8>,
)
    requires
        payload.len() <= u32::MAX - 36,
        chunk_size == 36 + payload.len(),
        block_align == num_channels * (bits_per_sample / 8),
        byte_rate == sample_rate * block_align,
    ensures
        ({
            let b = wav_bytes(
                chunk_size,
                fmt_size,
                num_channels,
                sample_rate,
                byte_rate,
                block_align,
                bits_per_sample,
                payload,
            );
            &&& wav_fault(b) is None
            &&& le_u16(b, 22) == num_channels
            &&& le_u32(b, 24) == sample_rate
            &&& le_u16(b, 34) == bits_per_sample
            &&& b.subrange(44, 44 + le_u32(b, 40)) == payload
        }),
{
    let b = wav_bytes(
        chunk_size,
        fmt_size,
        num_channels,
        sample_rate,
        byte_rate,
        block_align,
        bits_per_sample,
        payload,
    );
    let riff = magic_at(0) + le32_bytes(chunk_size) + magic_at(8);
    let fmt = magic_at(12) + le32_bytes(fmt_size) + le16_bytes(1) + le16_bytes(num_channels)
        + le32_bytes(sample_rate) + le32_bytes(byte_rate) + le16_bytes(block_align) + le16_bytes(
        bits_per_sample,
    );
    let data = magic_at(36) + le32_bytes(payload.len() as u32);
    assert(riff.len() == 12);
    assert(fmt.len() == 24);
    assert(data.len() == 8);
    let header = riff + fmt + data;
    assert(b == header + payload);
    assert(b.subrange(0, 4) =~= magic_at(0));
    assert(b.subrange(8, 12) =~= magic_at(8));
    assert(b.subrange(12, 16) =~= magic_at(12));
    assert(b.subrange(36, 40) =~= magic_at(36));
    lemma_le16(1);
    lemma_le16(num_channels);
    lemma_le16(bits_per_sample);
    lemma_le32(sample_rate);
    lemma_le32(payload.len() as u32);
    assert(b.subrange(20, 22) =~= le16_bytes(1));
    assert(b.subrange(22, 24) =~= le16_bytes(num_channels));
    assert(b.subrange(24, 28) =~= le32_bytes(sample_rate));
    assert(b.subrange(34, 36) =~= le16_bytes(bits_per_sample));
    assert(b.subrange(40, 44) =~= le32_bytes(payload.len() as u32));
    assert(le_u16(b, 20) == le_u16(b.subrange(20, 22), 0));
    assert(le_u16(b, 22) == le_u16(b.subrange(22, 24), 0));
    assert(le_u32(b, 24) == le_u32(b.subrange(24, 28), 0));
    assert(le_u16(b, 34) == le_u16(b.subrange(34, 36), 0));
    assert(le_u32(b, 40) == le_u32(b.subrange(40, 44), 0));
    assert(b.subrange(44, 44 + le_u32(b, 40)) =~= payload);
    lemma_le32(chunk_size);
    lemma_le32(byte_rate);
    lemma_le16(block_align);
    assert(b.subrange(4, 8) =~= le32_bytes(chunk_size));
    assert(b.subrange(28, 32) =~= le32_bytes(byte_rate));
    assert(b.subrange(32, 34) =~= le16_bytes(block_align));
    assert(le_u32(b, 4) == le_u32(b.subrange(4, 8), 0));
    assert(le_u32(b, 28) == le_u32(b.subrange(28, 32), 0));
    assert(le_u16(b, 32) == le_u16(b.subrange(32, 34), 0));
}

} // verus!
