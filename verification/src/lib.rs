//! Decode-only codec library for two streaming block-compression container
//! formats: the Java-compatible LZ4 block framing format and the LZF block
//! framing format. Frame readers pull decompressed bytes on demand from an
//! owned byte source; chunk decompressors and the xxHash32 integrity check
//! are pure functions with exact functional contracts.
pub mod common;
pub mod lz4_jblock;
pub mod lz4_jblock_decompress;
pub mod lzf;
pub mod lzf_decompress;
pub mod xxhash32;
