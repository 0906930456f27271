//! Streaming reader for the LZF block container: a sequence of frames, each
//! opening with the magic bytes `"ZV"`, a chunk-type byte (0 uncompressed,
//! 1 compressed), one or two 16-bit big-endian lengths, and the payload.
//! Chunk sizes fit in 16 bits by construction of the format.
//!
//! The reader owns the stream bytes and exposes the same pull protocol as
//! the LZ4-JBlock reader. The spec function `lzf_next` says exactly what one
//! refill produces for every stream.
use crate::common::be16_at;
use crate::common::read_be16;
use crate::common::CodecError;
use crate::lzf_decompress::lzf_decode;
use crate::lzf_decompress::lzf_decompress;
use vstd::prelude::*;

verus! {

/// What one refill attempt produces on a stream suffix: a clean end, a chunk
/// of decompressed bytes (with `used` source bytes consumed), or an error.
pub enum LzfStep {
    Eos,
    Chunk { data: Seq<u8>, used: int },
    Fail { err: CodecError },
}

/// One refill on stream suffix `s`: parse one frame and produce its bytes.
/// A compressed chunk must decompress to exactly its declared original
/// length. Clean end of source is only accepted at a frame boundary.
pub open spec fn lzf_next(s: Seq<u8>) -> LzfStep {
    if s.len() == 0 {
        LzfStep::Eos
    } else if s[0] != 0x5A {
        LzfStep::Fail { err: CodecError::FormatError }
    } else if s.len() < 2 {
        LzfStep::Fail { err: CodecError::TruncatedInputError }
    } else if s[1] != 0x56 {
        LzfStep::Fail { err: CodecError::FormatError }
    } else if s.len() < 3 {
        LzfStep::Fail { err: CodecError::TruncatedInputError }
    } else {
        let chunk_type = s[2];
        if chunk_type == 0 {
            if s.len() < 5 {
                LzfStep::Fail { err: CodecError::TruncatedInputError }
            } else {
                let len = be16_at(s, 3) as int;
                if s.len() < 5 + len {
                    LzfStep::Fail { err: CodecError::TruncatedInputError }
                } else {
                    LzfStep::Chunk { data: s.subrange(5, 5 + len), used: 5 + len }
                }
            }
        } else if chunk_type == 1 {
            if s.len() < 7 {
                LzfStep::Fail { err: CodecError::TruncatedInputError }
            } else {
                let clen = be16_at(s, 3) as int;
                let olen = be16_at(s, 5) as int;
                if s.len() < 7 + clen {
                    LzfStep::Fail { err: CodecError::TruncatedInputError }
                } else {
                    match lzf_decode(s.subrange(7, 7 + clen)) {
                        None => LzfStep::Fail { err: CodecError::FormatError },
                        Some(d) => {
                            if d.len() != olen {
                                LzfStep::Fail { err: CodecError::FormatError }
                            } else {
                                LzfStep::Chunk { data: d, used: 7 + clen }
                            }
                        },
                    }
                }
            }
        } else {
            LzfStep::Fail { err: CodecError::FormatError }
        }
    }
}

/// Truncating a stream inside a frame that a refill would accept never
/// yields a silent short read: the truncated stream fails with a
/// `TruncatedInputError`.
pub proof fn lemma_lzf_truncation(s: Seq<u8>, j: int)
    requires
        lzf_next(s) matches LzfStep::Chunk { used, .. } && 1 <= j < used,
    ensures
        lzf_next(s.take(j)) == (LzfStep::Fail { err: CodecError::TruncatedInputError }),
{
    let t = s.take(j);
    assert(forall|i: int| 0 <= i < j ==> t[i] == s[i]);
    if j >= 5 {
        reveal(be16_at);
        assert(be16_at(t, 3) == be16_at(s, 3));
        if j >= 7 {
            assert(be16_at(t, 5) == be16_at(s, 5));
        }
    }
}

/// Pull reader over an owned LZF stream.
pub struct LzfReader {
    src: Vec<u8>,
    src_pos: usize,
    buf_decompressed: Vec<u8>,
    pos: usize,
    cap: usize,
}

impl LzfReader {
    /// Cursors stay inside their buffers.
    pub closed spec fn wf(self) -> bool {
        &&& self.pos <= self.cap <= self.buf_decompressed@.len()
        &&& self.src_pos <= self.src@.len()
    }

    /// The decompressed bytes buffered and not yet consumed.
    pub closed spec fn available(self) -> Seq<u8> {
        self.buf_decompressed@.subrange(self.pos as int, self.cap as int)
    }

    /// The source bytes not yet parsed.
    pub closed spec fn remaining_source(self) -> Seq<u8> {
        self.src@.skip(self.src_pos as int)
    }

    /// What the next refill of this reader produces.
    pub open spec fn next_step(self) -> LzfStep {
        lzf_next(self.remaining_source())
    }

    /// A reader over the stream `src`, with nothing buffered yet.
    pub fn new(src: Vec<u8>) -> (r: LzfReader)
        ensures
            r.wf(),
            r.available() == Seq::<u8>::empty(),
            r.remaining_source() == src@,
    {
        let r = LzfReader { src, src_pos: 0, buf_decompressed: Vec::new(), pos: 0, cap: 0 };
        proof {
            assert(r.available() =~= Seq::<u8>::empty());
            assert(r.remaining_source() =~= r.src@);
        }
        r
    }

    /// Parses one frame from the current source position, leaving its bytes
    /// (if any) as the buffered span.
    fn fill_buf_decompressed(&mut self) -> (r: Result<(), CodecError>)
        requires
            old(self).wf(),
            old(self).pos == old(self).cap,
        ensures
            final(self).wf(),
            match r {
                Ok(()) => match old(self).next_step() {
                    LzfStep::Eos => {
                        &&& final(self).available() == Seq::<u8>::empty()
                        &&& final(self).remaining_source() == old(self).remaining_source()
                    },
                    LzfStep::Chunk { data, used } => {
                        &&& final(self).available() == data
                        &&& final(self).remaining_source() == old(self).remaining_source().skip(
                            used,
                        )
                    },
                    LzfStep::Fail { .. } => false,
                },
                Err(e) => {
                    &&& old(self).next_step() == (LzfStep::Fail { err: e })
                    &&& final(self).available() == Seq::<u8>::empty()
                },
            },
    {
        let ghost rest = self.remaining_source();
        let n = self.src.len();
        let base = self.src_pos;
        let rem = n - base;
        proof {
            assert(self.available() =~= Seq::<u8>::empty());
        }
        if rem == 0 {
            self.pos = 0;
            self.cap = 0;
            proof {
                assert(self.available() =~= Seq::<u8>::empty());
            }
            return Ok(());
        }
        let b0 = self.src[base];
        proof {
            assert(rest[0] == self.src@[base as int]);
        }
        if b0 != 0x5A {
            return Err(CodecError::FormatError);
        }
        if rem < 2 {
            return Err(CodecError::TruncatedInputError);
        }
        let b1 = self.src[base + 1];
        proof {
            assert(rest[1] == self.src@[base + 1]);
        }
        if b1 != 0x56 {
            return Err(CodecError::FormatError);
        }
        if rem < 3 {
            return Err(CodecError::TruncatedInputError);
        }
        let chunk_type = self.src[base + 2];
        proof {
            assert(rest[2] == self.src@[base + 2]);
        }
        if chunk_type == 0 {
            // uncompressed chunk
            if rem < 5 {
                return Err(CodecError::TruncatedInputError);
            }
            let len = read_be16(self.src.as_slice(), base + 3) as usize;
            proof {
                reveal(crate::common::be16_at);
                assert(be16_at(rest, 3) == be16_at(self.src@, base + 3));
            }
            if rem - 5 < len {
                return Err(CodecError::TruncatedInputError);
            }
            let mut d: Vec<u8> = Vec::new();
            crate::common::append_range(&mut d, self.src.as_slice(), base + 5, base + 5 + len);
            proof {
                assert(d@ =~= rest.subrange(5, 5 + len as int));
            }
            self.src_pos = base + 5 + len;
            self.buf_decompressed = d;
            self.pos = 0;
            self.cap = self.buf_decompressed.len();
            proof {
                assert(self.available() =~= self.buf_decompressed@);
                assert(rest.skip(5 + len as int) =~= self.remaining_source());
            }
            Ok(())
        } else if chunk_type == 1 {
            // compressed chunk
            if rem < 7 {
                return Err(CodecError::TruncatedInputError);
            }
            let clen = read_be16(self.src.as_slice(), base + 3) as usize;
            let olen = read_be16(self.src.as_slice(), base + 5) as usize;
            proof {
                reveal(crate::common::be16_at);
                assert(be16_at(rest, 3) == be16_at(self.src@, base + 3));
                assert(be16_at(rest, 5) == be16_at(self.src@, base + 5));
            }
            if rem - 7 < clen {
                return Err(CodecError::TruncatedInputError);
            }
            let chunk: &[u8] = &self.src[base + 7..base + 7 + clen];
            proof {
                assert(chunk@ =~= rest.subrange(7, 7 + clen as int));
            }
            let d = match lzf_decompress(chunk) {
                Ok(d) => d,
                Err(_) => {
                    return Err(CodecError::FormatError);
                },
            };
            if d.len() != olen {
                return Err(CodecError::FormatError);
            }
            self.src_pos = base + 7 + clen;
            self.buf_decompressed = d;
            self.pos = 0;
            self.cap = self.buf_decompressed.len();
            proof {
                assert(self.available() =~= self.buf_decompressed@);
                assert(rest.skip(7 + clen as int) =~= self.remaining_source());
            }
            Ok(())
        } else {
            Err(CodecError::FormatError)
        }
    }

    /// Refills the buffer when the unread span is empty; returns how many
    /// unread decompressed bytes are buffered. `Ok(0)` is a clean end of the
    /// stream.
    pub fn fill_buf(&mut self) -> (r: Result<usize, CodecError>)
        requires
            old(self).wf(),
        ensures
            final(self).wf(),
            old(self).available().len() > 0 ==> {
                &&& r == Ok::<usize, CodecError>(old(self).available().len() as usize)
                &&& final(self).available() == old(self).available()
                &&& final(self).remaining_source() == old(self).remaining_source()
            },
            old(self).available().len() == 0 ==> match old(self).next_step() {
                LzfStep::Eos => {
                    &&& r == Ok::<usize, CodecError>(0)
                    &&& final(self).available() == Seq::<u8>::empty()
                    &&& final(self).remaining_source() == old(self).remaining_source()
                },
                LzfStep::Chunk { data, used } => {
                    &&& r == Ok::<usize, CodecError>(data.len() as usize)
                    &&& final(self).available() == data
                    &&& final(self).remaining_source() == old(self).remaining_source().skip(used)
                },
                LzfStep::Fail { err } => {
                    &&& r == Err::<usize, CodecError>(err)
                    &&& final(self).available() == Seq::<u8>::empty()
                },
            },
    {
        if self.pos >= self.cap {
            match self.fill_buf_decompressed() {
                Ok(()) => {},
                Err(e) => {
                    return Err(e);
                },
            }
        }
        Ok(self.cap - self.pos)
    }

    /// Advances the read cursor by `amt`, capped at the buffered span.
    pub fn consume(&mut self, amt: usize)
        requires
            old(self).wf(),
        ensures
            final(self).wf(),
            final(self).available() == if amt <= old(self).available().len() {
                old(self).available().skip(amt as int)
            } else {
                Seq::<u8>::empty()
            },
            final(self).remaining_source() == old(self).remaining_source(),
    {
        let left = self.cap - self.pos;
        if amt >= left {
            self.pos = self.cap;
            proof {
                assert(self.available() =~= Seq::<u8>::empty());
                if amt <= old(self).available().len() {
                    assert(old(self).available().skip(amt as int) =~= Seq::<u8>::empty());
                }
            }
        } else {
            self.pos = self.pos + amt;
            proof {
                assert(self.available() =~= old(self).available().skip(amt as int));
            }
        }
    }

    /// Pulls up to `max` decompressed bytes, refilling from the source when
    /// the buffered span is empty. An empty result is a clean end of the
    /// stream.
    pub fn read(&mut self, max: usize) -> (r: Result<Vec<u8>, CodecError>)
        requires
            old(self).wf(),
        ensures
            final(self).wf(),
            match r {
                Ok(v) => {
                    if old(self).available().len() > 0 {
                        let k = if max <= old(self).available().len() {
                            max as int
                        } else {
                            old(self).available().len() as int
                        };
                        &&& v@ == old(self).available().take(k)
                        &&& final(self).available() == old(self).available().skip(k)
                        &&& final(self).remaining_source() == old(self).remaining_source()
                    } else {
                        match old(self).next_step() {
                            LzfStep::Eos => {
                                &&& v@ == Seq::<u8>::empty()
                                &&& final(self).available() == Seq::<u8>::empty()
                                &&& final(self).remaining_source() == old(self).remaining_source()
                            },
                            LzfStep::Chunk { data, used } => {
                                let k = if max <= data.len() {
                                    max as int
                                } else {
                                    data.len() as int
                                };
                                &&& v@ == data.take(k)
                                &&& final(self).available() == data.skip(k)
                                &&& final(self).remaining_source() == old(
                                    self,
                                ).remaining_source().skip(used)
                            },
                            LzfStep::Fail { .. } => false,
                        }
                    }
                },
                Err(e) => {
                    &&& old(self).available().len() == 0
                    &&& old(self).next_step() == (LzfStep::Fail { err: e })
                    &&& final(self).available() == Seq::<u8>::empty()
                },
            },
    {
        let avail = match self.fill_buf() {
            Ok(a) => a,
            Err(e) => {
                return Err(e);
            },
        };
        let k = if max <= avail {
            max
        } else {
            avail
        };
        let mut v: Vec<u8> = Vec::new();
        crate::common::append_range(
            &mut v,
            self.buf_decompressed.as_slice(),
            self.pos,
            self.pos + k,
        );
        proof {
            assert(v@ =~= self.available().take(k as int));
        }
        self.consume(k);
        Ok(v)
    }
}

} // verus!
