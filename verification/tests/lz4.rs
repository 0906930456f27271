use block_codec::common::CodecError;
use block_codec::lz4_jblock::Lz4JBlockReader;
use block_codec::lz4_jblock_decompress::lz4_jblock_decompress;
use block_codec::xxhash32::XXHash32;

const SEED: u32 = 0x9747B28C;

fn masked_checksum(data: &[u8]) -> u32 {
    let mut h = XXHash32::new(SEED);
    h.update(data);
    h.digest() & 0x0FFFFFFF
}

fn frame(token: u8, chunk_len: u32, orig_len: u32, checksum: u32, payload: &[u8]) -> Vec<u8> {
    let mut f: Vec<u8> = Vec::new();
    f.extend_from_slice(b"LZ4Block");
    f.push(token);
    f.extend_from_slice(&chunk_len.to_le_bytes());
    f.extend_from_slice(&orig_len.to_le_bytes());
    f.extend_from_slice(&checksum.to_le_bytes());
    f.extend_from_slice(payload);
    f
}

fn raw_frame(payload: &[u8]) -> Vec<u8> {
    let n = payload.len() as u32;
    frame(0x10, n, n, masked_checksum(payload), payload)
}

fn marker_frame() -> Vec<u8> {
    frame(0x10, 0, 0, 0, &[])
}

fn drain(reader: &mut Lz4JBlockReader) -> Result<Vec<u8>, CodecError> {
    let mut all: Vec<u8> = Vec::new();
    loop {
        let piece = reader.read(1024)?;
        if piece.is_empty() {
            return Ok(all);
        }
        all.extend_from_slice(&piece);
    }
}

// The chunk below decodes to sixteen 'a' bytes: token 0x13 is a 1-byte
// literal and a match of length 3 + 4 at offset 1; token 0x80 is the
// terminal 8-byte literal run.
fn compressed_a16_chunk() -> Vec<u8> {
    let mut c: Vec<u8> = vec![0x13, b'a', 0x01, 0x00, 0x80];
    c.extend_from_slice(&[b'a'; 8]);
    c
}

#[test]
fn lz4_decompress_fixture() {
    let out = lz4_jblock_decompress(&compressed_a16_chunk(), 16).unwrap();
    assert_eq!(out, vec![b'a'; 16]);
}

#[test]
fn lz4_decompress_zero_offset_is_format_error() {
    // same as the fixture but with a zero back-reference offset
    let mut c = compressed_a16_chunk();
    c[2] = 0x00;
    assert_eq!(lz4_jblock_decompress(&c, 16), Err(CodecError::FormatError));
}

#[test]
fn lz4_decompress_terminal_run_mismatch_is_format_error() {
    // a 3-byte terminal literal cannot fill a 4-byte destination
    let c = vec![0x30, b'a', b'a', b'a'];
    assert_eq!(lz4_jblock_decompress(&c, 4), Err(CodecError::FormatError));
}

#[test]
fn lz4_decompress_empty_chunk() {
    let out = lz4_jblock_decompress(&[0x00], 0).unwrap();
    assert!(out.is_empty());
}

#[test]
fn lz4_decompress_chunk_ending_early_is_format_error() {
    // the match offset bytes are missing
    let c = vec![0x13, b'a'];
    assert_eq!(lz4_jblock_decompress(&c, 16), Err(CodecError::FormatError));
}

#[test]
fn lz4_decompress_long_literal_extension() {
    // literal-length code 15 with extension bytes 0xFF, 0x05: 15 + 255 + 5
    let lit_len = 275usize;
    let mut c: Vec<u8> = vec![0xF0, 0xFF, 0x05];
    c.extend_from_slice(&vec![b'x'; lit_len]);
    let out = lz4_jblock_decompress(&c, lit_len).unwrap();
    assert_eq!(out, vec![b'x'; lit_len]);
}

#[test]
fn lz4_decompress_long_match_extension() {
    // match-length code 15 with extension byte 0: run 15 + 0 + 4
    let c = vec![0x1F, b'a', 0x01, 0x00, 0x00, 0x00];
    let out = lz4_jblock_decompress(&c, 20).unwrap();
    assert_eq!(out, vec![b'a'; 20]);
}

#[test]
fn lz4_decompress_extension_running_off_chunk_is_format_error() {
    // the 0xFF extension byte promises another byte that is missing
    let c = vec![0xF0, 0xFF];
    assert_eq!(lz4_jblock_decompress(&c, 300), Err(CodecError::FormatError));
}

#[test]
fn lz4_decompress_offset_before_start_is_format_error() {
    // offset 2 with only 1 byte produced so far
    let mut c = compressed_a16_chunk();
    c[2] = 0x02;
    assert_eq!(lz4_jblock_decompress(&c, 16), Err(CodecError::FormatError));
}

#[test]
fn reader_raw_chunk_then_marker_stops() {
    let payload = b"hello lz4 world!";
    assert_eq!(masked_checksum(payload), 0x014A9818);
    let mut stream = raw_frame(payload);
    stream.extend_from_slice(&marker_frame());
    let mut reader = Lz4JBlockReader::new(stream, true, true);
    assert_eq!(drain(&mut reader).unwrap(), payload.to_vec());
    // once ended, further reads stay at the end
    assert!(reader.read(16).unwrap().is_empty());
}

#[test]
fn reader_marker_is_invisible_without_stop() {
    let first = b"hello lz4 world!";
    let second = b"second chunk bytes";
    let mut stream = raw_frame(first);
    stream.extend_from_slice(&marker_frame());
    stream.extend_from_slice(&raw_frame(second));
    let mut reader = Lz4JBlockReader::new(stream, false, true);
    let mut expected = first.to_vec();
    expected.extend_from_slice(second);
    assert_eq!(drain(&mut reader).unwrap(), expected);
}

#[test]
fn reader_stop_honours_marker_before_more_data() {
    let first = b"hello lz4 world!";
    let second = b"second chunk bytes";
    let mut stream = raw_frame(first);
    stream.extend_from_slice(&marker_frame());
    stream.extend_from_slice(&raw_frame(second));
    let mut reader = Lz4JBlockReader::new(stream, true, true);
    assert_eq!(drain(&mut reader).unwrap(), first.to_vec());
}

#[test]
fn reader_compressed_chunk_with_checksum() {
    let chunk = compressed_a16_chunk();
    let stream = frame(0x20, chunk.len() as u32, 16, 0x0FD3C79A, &chunk);
    let mut reader = Lz4JBlockReader::new(stream, false, true);
    assert_eq!(drain(&mut reader).unwrap(), vec![b'a'; 16]);
}

#[test]
fn reader_detects_corrupted_payload() {
    let mut chunk = compressed_a16_chunk();
    chunk[1] = b'b';
    let stream = frame(0x20, chunk.len() as u32, 16, 0x0FD3C79A, &chunk);
    let mut reader = Lz4JBlockReader::new(stream, false, true);
    assert_eq!(drain(&mut reader), Err(CodecError::IntegrityError));
}

#[test]
fn reader_ignores_checksum_when_disabled() {
    let mut chunk = compressed_a16_chunk();
    chunk[1] = b'b';
    let stream = frame(0x20, chunk.len() as u32, 16, 0x0FD3C79A, &chunk);
    let mut reader = Lz4JBlockReader::new(stream, false, false);
    let mut expected = vec![b'b'; 8];
    expected.extend_from_slice(&[b'a'; 8]);
    assert_eq!(drain(&mut reader).unwrap(), expected);
}

#[test]
fn reader_truncated_mid_payload_is_truncation_error() {
    let mut stream = raw_frame(b"hello lz4 world!");
    stream.truncate(stream.len() - 5);
    let mut reader = Lz4JBlockReader::new(stream, false, true);
    assert_eq!(drain(&mut reader), Err(CodecError::TruncatedInputError));
}

#[test]
fn reader_truncated_mid_header_is_truncation_error() {
    let mut stream = raw_frame(b"hello lz4 world!");
    stream.truncate(12);
    let mut reader = Lz4JBlockReader::new(stream, false, true);
    assert_eq!(drain(&mut reader), Err(CodecError::TruncatedInputError));
}

#[test]
fn reader_bad_magic_is_format_error() {
    let mut stream = raw_frame(b"hello lz4 world!");
    stream[3] = b'x';
    let mut reader = Lz4JBlockReader::new(stream, false, true);
    assert_eq!(drain(&mut reader), Err(CodecError::FormatError));
}

#[test]
fn reader_unknown_method_is_format_error() {
    let payload = b"hello lz4 world!";
    let stream = frame(0x30, 16, 16, masked_checksum(payload), payload);
    let mut reader = Lz4JBlockReader::new(stream, false, true);
    assert_eq!(drain(&mut reader), Err(CodecError::FormatError));
}

#[test]
fn reader_marker_with_nonzero_length_is_format_error() {
    let stream = frame(0x10, 0, 5, 0, &[]);
    let mut reader = Lz4JBlockReader::new(stream, false, true);
    assert_eq!(drain(&mut reader), Err(CodecError::FormatError));
}

#[test]
fn reader_marker_with_nonzero_checksum_is_format_error() {
    let stream = frame(0x10, 0, 0, 7, &[]);
    let mut reader = Lz4JBlockReader::new(stream, false, true);
    assert_eq!(drain(&mut reader), Err(CodecError::FormatError));
}

#[test]
fn reader_raw_length_mismatch_is_format_error() {
    let payload = b"hello lz4 world!";
    let stream = frame(0x10, 16, 12, masked_checksum(payload), payload);
    let mut reader = Lz4JBlockReader::new(stream, false, true);
    assert_eq!(drain(&mut reader), Err(CodecError::FormatError));
}

#[test]
fn reader_oversized_declared_length_is_format_error() {
    // level nibble 0 allows at most 1024 decompressed bytes
    let payload = vec![b'x'; 2000];
    let stream = frame(0x10, 2000, 2000, masked_checksum(&payload), &payload);
    let mut reader = Lz4JBlockReader::new(stream, false, true);
    assert_eq!(drain(&mut reader), Err(CodecError::FormatError));
}

#[test]
fn reader_empty_source_is_clean_end() {
    let mut reader = Lz4JBlockReader::new(Vec::new(), false, true);
    assert!(reader.read(16).unwrap().is_empty());
}

#[test]
fn reader_fill_buf_and_consume_protocol() {
    let payload = b"hello lz4 world!";
    let stream = raw_frame(payload);
    let mut reader = Lz4JBlockReader::new(stream, false, true);
    assert_eq!(reader.fill_buf().unwrap(), 16);
    reader.consume(4);
    assert_eq!(reader.fill_buf().unwrap(), 12);
    let rest = reader.read(100).unwrap();
    assert_eq!(rest, payload[4..].to_vec());
    // consuming past the end is capped
    reader.consume(1000);
    assert!(reader.read(16).unwrap().is_empty());
}
