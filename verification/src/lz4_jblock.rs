//! Streaming reader for the Java-compatible LZ4 block container: a sequence
//! of frames, each `"LZ4Block"`, a token byte (high nibble: 0x10 raw, 0x20
//! compressed; low nibble + 10 = compression level, bounding the decompressed
//! size by two to that power), three 32-bit little-endian fields (compressed
//! length, original length, stored checksum), and the payload. A frame with
//! compressed length zero is an end-of-block marker and must carry zero
//! original length and checksum; depending on configuration it either ends
//! the logical stream or is skipped invisibly.
//!
//! The reader owns the stream bytes and exposes the standard pull protocol:
//! `fill_buf` decodes the next frame when the buffered span is exhausted,
//! `consume` advances the cursor, `read` combines both. The spec function
//! `lz4_next` says exactly what one refill produces: the decompressed chunk
//! bytes, a clean end, or which error, for every stream.
use crate::common::le32_at;
use crate::common::read_le32;
use crate::common::CodecError;
use crate::lz4_jblock_decompress::lz4_decode;
use crate::lz4_jblock_decompress::lz4_jblock_decompress;
use crate::xxhash32::xxh32;
use crate::xxhash32::XXHash32;
use vstd::prelude::*;

verus! {

/// Seed of the per-chunk xxHash32 checksum.
pub const DEFAULT_SEED: u32 = 0x9747B28C;

/// The 8 magic bytes `"LZ4Block"` that open every frame.
pub open spec fn lz4_magic() -> Seq<u8> {
    seq![0x4Cu8, 0x5Au8, 0x34u8, 0x42u8, 0x6Cu8, 0x6Fu8, 0x63u8, 0x6Bu8]
}

/// What one refill attempt produces on a stream suffix: a clean end (empty
/// span), a chunk of decompressed bytes, or an error. `used` counts the
/// source bytes consumed; `saw` is the end-of-block-marker flag afterwards.
pub enum Lz4Step {
    Eos { used: int, saw: bool },
    Chunk { data: Seq<u8>, used: int, saw: bool },
    Fail { err: CodecError },
}

/// Adds `k` to the consumed-byte count of a step.
pub open spec fn step_bump(st: Lz4Step, k: int) -> Lz4Step {
    match st {
        Lz4Step::Eos { used, saw } => Lz4Step::Eos { used: used + k, saw },
        Lz4Step::Chunk { data, used, saw } => Lz4Step::Chunk { data, used: used + k, saw },
        Lz4Step::Fail { err } => Lz4Step::Fail { err },
    }
}

/// One refill on stream suffix `s`: parse a frame header, decode its chunk,
/// verify the checksum when `check` is set, and skip end-of-block markers
/// transparently unless `stop` is set. Clean end of source is only accepted
/// before any byte of a frame was consumed.
pub open spec fn lz4_next(s: Seq<u8>, saw_empty: bool, stop: bool, check: bool) -> Lz4Step
    decreases s.len(),
{
    if stop && saw_empty {
        Lz4Step::Eos { used: 0, saw: saw_empty }
    } else if s.len() == 0 {
        Lz4Step::Eos { used: 0, saw: saw_empty }
    } else if s[0] != 0x4C {
        Lz4Step::Fail { err: CodecError::FormatError }
    } else if s.len() < 8 {
        Lz4Step::Fail { err: CodecError::TruncatedInputError }
    } else if s.subrange(0, 8) != lz4_magic() {
        Lz4Step::Fail { err: CodecError::FormatError }
    } else if s.len() < 21 {
        Lz4Step::Fail { err: CodecError::TruncatedInputError }
    } else {
        let token = s[8];
        let method = token & 0xF0;
        let max_len = (1usize << ((10 + (token & 0x0F)) as usize)) as int;
        let chunk_len = le32_at(s, 9) as int;
        let orig_len = le32_at(s, 13) as int;
        let stored = le32_at(s, 17);
        if chunk_len == 0 {
            if orig_len != 0 {
                Lz4Step::Fail { err: CodecError::FormatError }
            } else if stored != 0 {
                Lz4Step::Fail { err: CodecError::FormatError }
            } else if stop {
                Lz4Step::Eos { used: 21, saw: true }
            } else {
                step_bump(lz4_next(s.skip(21), true, stop, check), 21)
            }
        } else if orig_len > max_len {
            Lz4Step::Fail { err: CodecError::FormatError }
        } else if method == 0x10 {
            if chunk_len != orig_len {
                Lz4Step::Fail { err: CodecError::FormatError }
            } else if s.len() < 21 + chunk_len {
                Lz4Step::Fail { err: CodecError::TruncatedInputError }
            } else {
                let data = s.subrange(21, 21 + chunk_len);
                if check && xxh32(DEFAULT_SEED, data) & 0x0FFFFFFF != stored {
                    Lz4Step::Fail { err: CodecError::IntegrityError }
                } else {
                    Lz4Step::Chunk { data, used: 21 + chunk_len, saw: saw_empty }
                }
            }
        } else if method == 0x20 {
            if s.len() < 21 + chunk_len {
                Lz4Step::Fail { err: CodecError::TruncatedInputError }
            } else {
                match lz4_decode(s.subrange(21, 21 + chunk_len), orig_len) {
                    None => Lz4Step::Fail { err: CodecError::FormatError },
                    Some(data) => {
                        if check && xxh32(DEFAULT_SEED, data) & 0x0FFFFFFF != stored {
                            Lz4Step::Fail { err: CodecError::IntegrityError }
                        } else {
                            Lz4Step::Chunk { data, used: 21 + chunk_len, saw: saw_empty }
                        }
                    },
                }
            }
        } else {
            Lz4Step::Fail { err: CodecError::FormatError }
        }
    }
}

/// Turning checksum verification off never changes which bytes a refill
/// yields: a refill with verification enabled returns the same step as one
/// without, except that a chunk whose stored checksum does not match becomes
/// an `IntegrityError`. In particular a stream that decodes with
/// verification on decodes to the same bytes with verification off.
pub proof fn lemma_lz4_checksum_optional(s: Seq<u8>, saw: bool, stop: bool)
    ensures
        lz4_next(s, saw, stop, true) == lz4_next(s, saw, stop, false) || (lz4_next(
            s,
            saw,
            stop,
            false,
        ) is Chunk && lz4_next(s, saw, stop, true) == (Lz4Step::Fail {
            err: CodecError::IntegrityError,
        })),
    decreases s.len(),
{
    if !(stop && saw) && s.len() >= 21 && s[0] == 0x4C && s.subrange(0, 8) == lz4_magic() {
        if le32_at(s, 9) == 0 && le32_at(s, 13) == 0 && le32_at(s, 17) == 0 && !stop {
            lemma_lz4_checksum_optional(s.skip(21), true, stop);
        }
    }
}

/// Truncating a stream inside a frame that a refill would accept never
/// yields a silent short read: the truncated stream fails with a
/// `TruncatedInputError`. `s` must begin with a data frame (a nonzero
/// compressed length), since cutting exactly at the boundary after a skipped
/// end-of-block marker is a clean frame boundary, not a truncation.
pub proof fn lemma_lz4_truncation(s: Seq<u8>, saw: bool, stop: bool, check: bool, j: int)
    requires
        s.len() >= 21,
        le32_at(s, 9) != 0,
        lz4_next(s, saw, stop, check) matches Lz4Step::Chunk { used, .. } && 1 <= j < used,
    ensures
        lz4_next(s.take(j), saw, stop, check) == (Lz4Step::Fail {
            err: CodecError::TruncatedInputError,
        }),
{
    let t = s.take(j);
    assert(forall|i: int| 0 <= i < j ==> t[i] == s[i]);
    if j < 8 {
        assert(t[0] == s[0]);
    } else {
        assert(t.subrange(0, 8) =~= s.subrange(0, 8));
        if j >= 21 {
            reveal(le32_at);
            assert(le32_at(t, 9) == le32_at(s, 9));
            assert(le32_at(t, 13) == le32_at(s, 13));
            assert(le32_at(t, 17) == le32_at(s, 17));
        }
    }
}

/// Pull reader over an owned LZ4-JBlock stream. `stop_after_empty_block`
/// makes an end-of-block marker end the logical stream instead of being
/// skipped; `check_checksum` verifies every chunk against its stored
/// checksum (low 28 bits of xxHash32 with seed `DEFAULT_SEED`).
pub struct Lz4JBlockReader {
    src: Vec<u8>,
    src_pos: usize,
    buf_decompressed: Vec<u8>,
    pos: usize,
    cap: usize,
    stop_after_empty_block: bool,
    saw_empty_block: bool,
    check_checksum: bool,
}

impl Lz4JBlockReader {
    /// Cursors stay inside their buffers.
    pub closed spec fn wf(self) -> bool {
        &&& self.pos <= self.cap <= self.buf_decompressed@.len()
        &&& self.src_pos <= self.src@.len()
    }

    /// The decompressed bytes buffered and not yet consumed.
    pub closed spec fn available(self) -> Seq<u8> {
        self.buf_decompressed@.subrange(self.pos as int, self.cap as int)
    }

    /// The source bytes not yet parsed.
    pub closed spec fn remaining_source(self) -> Seq<u8> {
        self.src@.skip(self.src_pos as int)
    }

    /// Whether an end-of-block marker ends the logical stream.
    pub closed spec fn stop_config(self) -> bool {
        self.stop_after_empty_block
    }

    /// Whether chunk checksums are verified.
    pub closed spec fn checksum_config(self) -> bool {
        self.check_checksum
    }

    /// Whether an end-of-block marker has been seen.
    pub closed spec fn saw_marker(self) -> bool {
        self.saw_empty_block
    }

    /// What the next refill of this reader produces.
    pub open spec fn next_step(self) -> Lz4Step {
        lz4_next(
            self.remaining_source(),
            self.saw_marker(),
            self.stop_config(),
            self.checksum_config(),
        )
    }

    /// A reader over the stream `src`, with nothing buffered yet.
    pub fn new(src: Vec<u8>, stop_after_empty_block: bool, check_checksum: bool) -> (r:
        Lz4JBlockReader)
        ensures
            r.wf(),
            r.available() == Seq::<u8>::empty(),
            r.remaining_source() == src@,
            r.stop_config() == stop_after_empty_block,
            r.checksum_config() == check_checksum,
            !r.saw_marker(),
    {
        let r = Lz4JBlockReader {
            src,
            src_pos: 0,
            buf_decompressed: Vec::new(),
            pos: 0,
            cap: 0,
            stop_after_empty_block,
            saw_empty_block: false,
            check_checksum,
        };
        proof {
            assert(r.available() =~= Seq::<u8>::empty());
            assert(r.remaining_source() =~= r.src@);
        }
        r
    }

    /// Parses frames from the current source position until a chunk, a clean
    /// end, or an error, leaving the chunk (if any) as the buffered span.
    #[verifier::rlimit(100)]
    fn fill_buf_decompressed(&mut self) -> (r: Result<(), CodecError>)
        requires
            old(self).wf(),
            old(self).pos == old(self).cap,
        ensures
            final(self).wf(),
            final(self).stop_config() == old(self).stop_config(),
            final(self).checksum_config() == old(self).checksum_config(),
            match r {
                Ok(()) => match old(self).next_step() {
                    Lz4Step::Eos { used, saw } => {
                        &&& final(self).available() == Seq::<u8>::empty()
                        &&& final(self).remaining_source() == old(self).remaining_source().skip(
                            used,
                        )
                        &&& final(self).saw_marker() == saw
                    },
                    Lz4Step::Chunk { data, used, saw } => {
                        &&& final(self).available() == data
                        &&& final(self).remaining_source() == old(self).remaining_source().skip(
                            used,
                        )
                        &&& final(self).saw_marker() == saw
                    },
                    Lz4Step::Fail { .. } => false,
                },
                Err(e) => {
                    &&& old(self).next_step() == (Lz4Step::Fail { err: e })
                    &&& final(self).available() == Seq::<u8>::empty()
                },
            },
    {
        let ghost s0 = old(self).remaining_source();
        let ghost saw0 = old(self).saw_empty_block;
        let ghost pos0 = old(self).src_pos as int;
        if self.stop_after_empty_block && self.saw_empty_block {
            self.pos = 0;
            self.cap = 0;
            proof {
                assert(self.available() =~= Seq::<u8>::empty());
                assert(self.remaining_source() =~= s0.skip(0));
            }
            return Ok(());
        }
        proof {
            assert(s0.skip(0) =~= s0);
        }
        loop
            invariant
                self.wf(),
                self.src@ == old(self).src@,
                self.buf_decompressed@ == old(self).buf_decompressed@,
                self.pos == old(self).pos,
                self.cap == old(self).cap,
                self.pos == self.cap,
                self.stop_after_empty_block == old(self).stop_after_empty_block,
                self.check_checksum == old(self).check_checksum,
                pos0 == old(self).src_pos as int,
                pos0 <= self.src_pos as int,
                self.stop_after_empty_block ==> !self.saw_empty_block,
                old(self).next_step() == step_bump(
                    lz4_next(
                        self.remaining_source(),
                        self.saw_empty_block,
                        self.stop_after_empty_block,
                        self.check_checksum,
                    ),
                    self.src_pos - pos0,
                ),
                old(self).remaining_source().skip(self.src_pos - pos0) == self.remaining_source(),
            decreases self.src@.len() - self.src_pos,
        {
            let ghost rest = self.remaining_source();
            let ghost saw_cur = self.saw_empty_block;
            let n = self.src.len();
            let rem = n - self.src_pos;
            if rem == 0 {
                self.pos = 0;
                self.cap = 0;
                proof {
                    assert(self.available() =~= Seq::<u8>::empty());
                }
                return Ok(());
            }
            let base = self.src_pos;
            let b0 = self.src[base];
            proof {
                assert(rest[0] == self.src@[base as int]);
            }
            if b0 != 0x4C {
                proof {
                    assert(self.available() =~= Seq::<u8>::empty());
                }
                return Err(CodecError::FormatError);
            }
            if rem < 8 {
                proof {
                    assert(self.available() =~= Seq::<u8>::empty());
                }
                return Err(CodecError::TruncatedInputError);
            }
            let m1 = self.src[base + 1];
            let m2 = self.src[base + 2];
            let m3 = self.src[base + 3];
            let m4 = self.src[base + 4];
            let m5 = self.src[base + 5];
            let m6 = self.src[base + 6];
            let m7 = self.src[base + 7];
            proof {
                assert forall|j: int| 1 <= j < 8 implies rest[j] == self.src@[base + j] by {}
            }
            if m1 != 0x5A || m2 != 0x34 || m3 != 0x42 || m4 != 0x6C || m5 != 0x6F || m6 != 0x63
                || m7 != 0x6B {
                proof {
                    assert(rest.subrange(0, 8) != lz4_magic());
                    assert(self.available() =~= Seq::<u8>::empty());
                }
                return Err(CodecError::FormatError);
            }
            proof {
                assert(rest.subrange(0, 8) =~= lz4_magic());
            }
            if rem < 21 {
                proof {
                    assert(self.available() =~= Seq::<u8>::empty());
                }
                return Err(CodecError::TruncatedInputError);
            }
            let token = self.src[base + 8];
            proof {
                assert(rest[8] == self.src@[base + 8]);
                assert(token & 0x0F <= 0x0F) by (bit_vector);
            }
            let method = token & 0xF0;
            let max_len = 1usize << ((10 + (token & 0x0F)) as usize);
            let chunk_len = read_le32(self.src.as_slice(), base + 9) as usize;
            let orig_len = read_le32(self.src.as_slice(), base + 13) as usize;
            let stored = read_le32(self.src.as_slice(), base + 17);
            proof {
                reveal(crate::common::le32_at);
                assert(le32_at(rest, 9) == le32_at(self.src@, base + 9));
                assert(le32_at(rest, 13) == le32_at(self.src@, base + 13));
                assert(le32_at(rest, 17) == le32_at(self.src@, base + 17));
            }
            if chunk_len == 0 {
                if orig_len != 0 {
                    proof {
                        assert(self.available() =~= Seq::<u8>::empty());
                    }
                    return Err(CodecError::FormatError);
                }
                if stored != 0 {
                    proof {
                        assert(self.available() =~= Seq::<u8>::empty());
                    }
                    return Err(CodecError::FormatError);
                }
                self.saw_empty_block = true;
                self.src_pos = base + 21;
                proof {
                    assert(rest.skip(21) =~= self.remaining_source());
                    assert(old(self).remaining_source().skip(self.src_pos - pos0)
                        =~= self.remaining_source());
                }
                if self.stop_after_empty_block {
                    self.pos = 0;
                    self.cap = 0;
                    proof {
                        assert(self.available() =~= Seq::<u8>::empty());
                    }
                    return Ok(());
                }
            } else {
                if orig_len > max_len {
                    proof {
                        assert(self.available() =~= Seq::<u8>::empty());
                    }
                    return Err(CodecError::FormatError);
                }
                let data: Vec<u8>;
                if method == 0x10 {
                    // raw chunk
                    if chunk_len != orig_len {
                        proof {
                            assert(self.available() =~= Seq::<u8>::empty());
                        }
                        return Err(CodecError::FormatError);
                    }
                    if rem - 21 < chunk_len {
                        proof {
                            assert(self.available() =~= Seq::<u8>::empty());
                        }
                        return Err(CodecError::TruncatedInputError);
                    }
                    let mut d: Vec<u8> = Vec::new();
                    crate::common::append_range(
                        &mut d,
                        self.src.as_slice(),
                        base + 21,
                        base + 21 + chunk_len,
                    );
                    proof {
                        assert(d@ =~= rest.subrange(21, 21 + chunk_len as int));
                    }
                    data = d;
                } else if method == 0x20 {
                    // compressed chunk
                    if rem - 21 < chunk_len {
                        proof {
                            assert(self.available() =~= Seq::<u8>::empty());
                        }
                        return Err(CodecError::TruncatedInputError);
                    }
                    let chunk: &[u8] = &self.src[base + 21..base + 21 + chunk_len];
                    proof {
                        assert(chunk@ =~= rest.subrange(21, 21 + chunk_len as int));
                    }
                    match lz4_jblock_decompress(chunk, orig_len) {
                        Ok(d) => {
                            data = d;
                        },
                        Err(_) => {
                            proof {
                                assert(self.available() =~= Seq::<u8>::empty());
                            }
                            return Err(CodecError::FormatError);
                        },
                    }
                } else {
                    proof {
                        assert(self.available() =~= Seq::<u8>::empty());
                    }
                    return Err(CodecError::FormatError);
                }
                if self.check_checksum {
                    let mut hasher = XXHash32::new(DEFAULT_SEED);
                    hasher.update(data.as_slice());
                    proof {
                        assert(Seq::<u8>::empty() + data@ =~= data@);
                    }
                    let computed = hasher.digest() & 0x0FFFFFFF;
                    if stored != computed {
                        proof {
                            assert(self.available() =~= Seq::<u8>::empty());
                        }
                        return Err(CodecError::IntegrityError);
                    }
                }
                self.src_pos = base + 21 + chunk_len;
                self.buf_decompressed = data;
                self.pos = 0;
                self.cap = self.buf_decompressed.len();
                proof {
                    assert(self.available() =~= self.buf_decompressed@);
                    assert(rest.skip(21 + chunk_len as int) =~= self.remaining_source());
                    assert(old(self).remaining_source().skip(self.src_pos - pos0)
                        =~= self.remaining_source());
                }
                return Ok(());
            }
        }
    }

    /// Refills the buffer when the unread span is empty; returns how many
    /// unread decompressed bytes are buffered. `Ok(0)` is a clean end of the
    /// logical stream.
    pub fn fill_buf(&mut self) -> (r: Result<usize, CodecError>)
        requires
            old(self).wf(),
        ensures
            final(self).wf(),
            final(self).stop_config() == old(self).stop_config(),
            final(self).checksum_config() == old(self).checksum_config(),
            old(self).available().len() > 0 ==> {
                &&& r == Ok::<usize, CodecError>(old(self).available().len() as usize)
                &&& final(self).available() == old(self).available()
                &&& final(self).remaining_source() == old(self).remaining_source()
                &&& final(self).saw_marker() == old(self).saw_marker()
            },
            old(self).available().len() == 0 ==> match old(self).next_step() {
                Lz4Step::Eos { used, saw } => {
                    &&& r == Ok::<usize, CodecError>(0)
                    &&& final(self).available() == Seq::<u8>::empty()
                    &&& final(self).remaining_source() == old(self).remaining_source().skip(used)
                    &&& final(self).saw_marker() == saw
                },
                Lz4Step::Chunk { data, used, saw } => {
                    &&& r == Ok::<usize, CodecError>(data.len() as usize)
                    &&& final(self).available() == data
                    &&& final(self).remaining_source() == old(self).remaining_source().skip(used)
                    &&& final(self).saw_marker() == saw
                },
                Lz4Step::Fail { err } => {
                    &&& r == Err::<usize, CodecError>(err)
                    &&& final(self).available() == Seq::<u8>::empty()
                },
            },
    {
        if self.pos >= self.cap {
            match self.fill_buf_decompressed() {
                Ok(()) => {},
                Err(e) => {
                    return Err(e);
                },
            }
        }
        Ok(self.cap - self.pos)
    }

    /// Advances the read cursor by `amt`, capped at the buffered span.
    pub fn consume(&mut self, amt: usize)
        requires
            old(self).wf(),
        ensures
            final(self).wf(),
            final(self).available() == if amt <= old(self).available().len() {
                old(self).available().skip(amt as int)
            } else {
                Seq::<u8>::empty()
            },
            final(self).remaining_source() == old(self).remaining_source(),
            final(self).saw_marker() == old(self).saw_marker(),
            final(self).stop_config() == old(self).stop_config(),
            final(self).checksum_config() == old(self).checksum_config(),
    {
        let left = self.cap - self.pos;
        if amt >= left {
            self.pos = self.cap;
            proof {
                assert(self.available() =~= Seq::<u8>::empty());
                if amt <= old(self).available().len() {
                    assert(old(self).available().skip(amt as int) =~= Seq::<u8>::empty());
                }
            }
        } else {
            self.pos = self.pos + amt;
            proof {
                assert(self.available() =~= old(self).available().skip(amt as int));
            }
        }
    }

    /// Pulls up to `max` decompressed bytes, refilling from the source when
    /// the buffered span is empty. An empty result is a clean end of the
    /// logical stream.
    pub fn read(&mut self, max: usize) -> (r: Result<Vec<u8>, CodecError>)
        requires
            old(self).wf(),
        ensures
            final(self).wf(),
            final(self).stop_config() == old(self).stop_config(),
            final(self).checksum_config() == old(self).checksum_config(),
            match r {
                Ok(v) => {
                    if old(self).available().len() > 0 {
                        let k = if max <= old(self).available().len() {
                            max as int
                        } else {
                            old(self).available().len() as int
                        };
                        &&& v@ == old(self).available().take(k)
                        &&& final(self).available() == old(self).available().skip(k)
                        &&& final(self).remaining_source() == old(self).remaining_source()
                    } else {
                        match old(self).next_step() {
                            Lz4Step::Eos { used, saw } => {
                                &&& v@ == Seq::<u8>::empty()
                                &&& final(self).available() == Seq::<u8>::empty()
                                &&& final(self).remaining_source() == old(
                                    self,
                                ).remaining_source().skip(used)
                            },
                            Lz4Step::Chunk { data, used, saw } => {
                                let k = if max <= data.len() {
                                    max as int
                                } else {
                                    data.len() as int
                                };
                                &&& v@ == data.take(k)
                                &&& final(self).available() == data.skip(k)
                                &&& final(self).remaining_source() == old(
                                    self,
                                ).remaining_source().skip(used)
                            },
                            Lz4Step::Fail { .. } => false,
                        }
                    }
                },
                Err(e) => {
                    &&& old(self).available().len() == 0
                    &&& old(self).next_step() == (Lz4Step::Fail { err: e })
                    &&& final(self).available() == Seq::<u8>::empty()
                },
            },
    {
        let avail = match self.fill_buf() {
            Ok(a) => a,
            Err(e) => {
                return Err(e);
            },
        };
        let k = if max <= avail {
            max
        } else {
            avail
        };
        let mut v: Vec<u8> = Vec::new();
        crate::common::append_range(&mut v, self.buf_decompressed.as_slice(), self.pos, self.pos + k);
        proof {
            assert(v@ =~= self.available().take(k as int));
        }
        self.consume(k);
        Ok(v)
    }
}

} // verus!
