use block_codec::common::CodecError;
use block_codec::lzf::LzfReader;
use block_codec::lzf_decompress::lzf_decompress;

fn uncompressed_frame(payload: &[u8]) -> Vec<u8> {
    let mut f: Vec<u8> = Vec::new();
    f.extend_from_slice(b"ZV");
    f.push(0);
    f.extend_from_slice(&(payload.len() as u16).to_be_bytes());
    f.extend_from_slice(payload);
    f
}

fn compressed_frame(chunk: &[u8], original_len: u16) -> Vec<u8> {
    let mut f: Vec<u8> = Vec::new();
    f.extend_from_slice(b"ZV");
    f.push(1);
    f.extend_from_slice(&(chunk.len() as u16).to_be_bytes());
    f.extend_from_slice(&original_len.to_be_bytes());
    f.extend_from_slice(chunk);
    f
}

fn drain(reader: &mut LzfReader) -> Result<Vec<u8>, CodecError> {
    let mut all: Vec<u8> = Vec::new();
    loop {
        let piece = reader.read(1024)?;
        if piece.is_empty() {
            return Ok(all);
        }
        all.extend_from_slice(&piece);
    }
}

// literal "abc" then a match of length 6 at offset 3: "abcabcabc"
fn overlap_chunk() -> Vec<u8> {
    vec![0x02, b'a', b'b', b'c', 0x80, 0x02]
}

#[test]
fn lzf_decompress_literal_run() {
    let out = lzf_decompress(&[0x02, b'a', b'b', b'c']).unwrap();
    assert_eq!(out, b"abc".to_vec());
}

#[test]
fn lzf_decompress_overlapping_backref() {
    let out = lzf_decompress(&overlap_chunk()).unwrap();
    assert_eq!(out, b"abcabcabc".to_vec());
}

#[test]
fn lzf_decompress_repeat_matches_sequential_copy() {
    // offset 1, run 6: each copied byte was written by the copy itself,
    // exactly as a byte-by-byte reference decoder propagates it
    let out = lzf_decompress(&[0x00, b'a', 0x80, 0x00]).unwrap();
    assert_eq!(out, vec![b'a'; 7]);

    // two-byte period: "ab" then run 9 at offset 2
    let out2 = lzf_decompress(&[0x01, b'a', b'b', 0xE0, 0x00, 0x01]).unwrap();
    assert_eq!(out2, b"abababababa".to_vec());
}

#[test]
fn lzf_decompress_long_match() {
    // control 0xE0 reads one extension byte: run length 3 + 9
    let out = lzf_decompress(&[0x00, b'a', 0xE0, 0x03, 0x00]).unwrap();
    assert_eq!(out, vec![b'a'; 13]);
}

#[test]
fn lzf_decompress_truncated_literal_is_format_error() {
    assert_eq!(lzf_decompress(&[0x05, b'a']), Err(CodecError::FormatError));
}

#[test]
fn lzf_decompress_offset_before_start_is_format_error() {
    // offset 6 with only one byte produced
    assert_eq!(
        lzf_decompress(&[0x00, b'a', 0x80, 0x05]),
        Err(CodecError::FormatError)
    );
}

#[test]
fn lzf_reader_uncompressed_chunk() {
    let mut reader = LzfReader::new(uncompressed_frame(b"plain bytes"));
    assert_eq!(drain(&mut reader).unwrap(), b"plain bytes".to_vec());
}

#[test]
fn lzf_reader_compressed_chunk() {
    let mut reader = LzfReader::new(compressed_frame(&overlap_chunk(), 9));
    assert_eq!(drain(&mut reader).unwrap(), b"abcabcabc".to_vec());
}

#[test]
fn lzf_reader_chains_chunks() {
    let mut stream = uncompressed_frame(b"one,");
    stream.extend_from_slice(&compressed_frame(&overlap_chunk(), 9));
    stream.extend_from_slice(&uncompressed_frame(b",two"));
    let mut reader = LzfReader::new(stream);
    assert_eq!(drain(&mut reader).unwrap(), b"one,abcabcabc,two".to_vec());
}

#[test]
fn lzf_reader_declared_length_mismatch_is_format_error() {
    let mut reader = LzfReader::new(compressed_frame(&overlap_chunk(), 8));
    assert_eq!(drain(&mut reader), Err(CodecError::FormatError));
}

#[test]
fn lzf_reader_truncated_mid_payload_is_truncation_error() {
    let mut stream = uncompressed_frame(b"plain bytes");
    stream.truncate(stream.len() - 3);
    let mut reader = LzfReader::new(stream);
    assert_eq!(drain(&mut reader), Err(CodecError::TruncatedInputError));
}

#[test]
fn lzf_reader_truncated_mid_header_is_truncation_error() {
    let mut reader = LzfReader::new(vec![b'Z', b'V', 1, 0]);
    assert_eq!(drain(&mut reader), Err(CodecError::TruncatedInputError));
}

#[test]
fn lzf_reader_bad_magic_is_format_error() {
    let mut reader = LzfReader::new(vec![b'Z', b'W', 0, 0, 0]);
    assert_eq!(drain(&mut reader), Err(CodecError::FormatError));
}

#[test]
fn lzf_reader_unknown_chunk_type_is_format_error() {
    let mut reader = LzfReader::new(vec![b'Z', b'V', 9, 0, 0]);
    assert_eq!(drain(&mut reader), Err(CodecError::FormatError));
}

#[test]
fn lzf_reader_empty_source_is_clean_end() {
    let mut reader = LzfReader::new(Vec::new());
    assert!(reader.read(16).unwrap().is_empty());
}

#[test]
fn lzf_reader_fill_buf_and_consume_protocol() {
    let mut reader = LzfReader::new(uncompressed_frame(b"plain bytes"));
    assert_eq!(reader.fill_buf().unwrap(), 11);
    reader.consume(6);
    assert_eq!(reader.fill_buf().unwrap(), 5);
    assert_eq!(reader.read(100).unwrap(), b"bytes".to_vec());
    assert!(reader.read(16).unwrap().is_empty());
}
