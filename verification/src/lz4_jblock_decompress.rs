//! LZ4 chunk decompression in the Java-compatible block dialect. The dialect
//! deviates from generic LZ4 in its terminal-sequence rule: when fewer than 8
//! bytes of destination slack would remain after a literal run, that run must
//! fill the destination exactly and the chunk ends there, with no trailing
//! match.
//!
//! `lz4_from` is the reference decoder over mathematical sequences; the
//! executable decompressor returns exactly its result, with `None` reported
//! as a `FormatError`. A back-reference position before the start of the
//! output, a zero offset, or any read past the end of the chunk is treated
//! as a format error rather than undefined behaviour.
use crate::common::copy_back_ref;
use crate::common::extend_match;
use crate::common::le16_at;
use crate::common::lemma_extend_match_len;
use crate::common::append_range;
use crate::common::CodecError;
use vstd::prelude::*;

verus! {

/// Decodes a length extension: starting from `acc`, each byte is added; a
/// byte below 255 ends the extension. Returns the decoded value and the
/// number of bytes consumed, or `None` when the input ends first.
pub open spec fn ext_len(c: Seq<u8>, acc: int) -> Option<(int, int)>
    decreases c.len(),
{
    if c.len() == 0 {
        None
    } else if c[0] == 255 {
        match ext_len(c.skip(1), acc + 255) {
            Some(vu) => Some((vu.0, vu.1 + 1)),
            None => None,
        }
    } else {
        Some((acc + c[0], 1))
    }
}

/// Decodes a length from a 4-bit code: codes 0 to 14 are the length itself
/// (consuming nothing); code 15 starts an extension at 15.
pub open spec fn len_code(code: int, c: Seq<u8>) -> Option<(int, int)> {
    if code < 15 {
        Some((code, 0))
    } else {
        ext_len(c, 15)
    }
}

proof fn lemma_ext_len_bounds(c: Seq<u8>, acc: int)
    ensures
        ext_len(c, acc) matches Some(vu) ==> 1 <= vu.1 <= c.len() && acc <= vu.0 <= acc + 255
            * c.len(),
    decreases c.len(),
{
    if c.len() != 0 && c[0] == 255 {
        lemma_ext_len_bounds(c.skip(1), acc + 255);
    }
}

/// One step of the token-driven loop, decoding the whole remaining chunk
/// `c` onto the end of `out`, which must come out at exactly `out_len`
/// bytes. `None` means the chunk is malformed.
pub open spec fn lz4_from(c: Seq<u8>, out: Seq<u8>, out_len: int) -> Option<Seq<u8>>
    decreases c.len(),
    via lz4_from_decreases
{
    if c.len() == 0 {
        None
    } else {
        let token = c[0];
        match len_code((token >> 4) as int, c.skip(1)) {
            None => None,
            Some(lu) => {
                let lit = lu.0;
                let hdr = 1 + lu.1;
                if out_len - out.len() - lit < 8 {
                    // terminal literal run: must fill the destination and
                    // consume the rest of the chunk exactly
                    if lit != out_len - out.len() {
                        None
                    } else if c.len() - hdr != lit {
                        None
                    } else {
                        Some(out + c.skip(hdr))
                    }
                } else {
                    if c.len() < hdr + lit + 2 {
                        None
                    } else {
                        let out2 = out + c.subrange(hdr, hdr + lit);
                        let op = hdr + lit;
                        let offset = le16_at(c, op) as int;
                        if offset == 0 {
                            None
                        } else if offset > out2.len() {
                            None
                        } else {
                            match len_code((token & 0x0F) as int, c.skip(op + 2)) {
                                None => None,
                                Some(mu) => {
                                    let run = mu.0 + 4;
                                    if out2.len() + run > out_len {
                                        None
                                    } else {
                                        lz4_from(
                                            c.skip(op + 2 + mu.1),
                                            extend_match(out2, out2.len() - offset, run as nat),
                                            out_len,
                                        )
                                    }
                                }
                            }
                        }
                    }
                }
            }
        }
    }
}

#[via_fn]
proof fn lz4_from_decreases(c: Seq<u8>, out: Seq<u8>, out_len: int) {
    if c.len() != 0 {
        let token = c[0];
        lemma_ext_len_bounds(c.skip(1), 15);
        match len_code((token >> 4) as int, c.skip(1)) {
            Some(lu) => {
                let hdr = 1 + lu.1;
                let lit = lu.0;
                assert(lit >= 0 && lu.1 >= 0);
                if !(out_len - out.len() - lit < 8) && c.len() >= hdr + lit + 2 {
                    lemma_ext_len_bounds(c.skip(hdr + lit + 2), 15);
                }
            },
            None => {},
        }
    }
}

/// The decompressed bytes of the whole chunk `c`, which must produce exactly
/// `out_len` bytes, or `None` when `c` is malformed.
pub open spec fn lz4_decode(c: Seq<u8>, out_len: int) -> Option<Seq<u8>> {
    lz4_from(c, Seq::<u8>::empty(), out_len)
}

spec fn opt_shift(o: Option<(int, int)>, k: int) -> Option<(int, int)> {
    match o {
        Some(vu) => Some((vu.0, vu.1 + k)),
        None => None,
    }
}

/// Decodes a length from a 4-bit code, reading extension bytes from `buf`.
/// Returns the length and how many bytes were consumed, or `None` when the
/// extension runs off the end of `buf`.
fn read_multibyte_number(base: u8, buf: &[u8]) -> (r: Option<(u64, usize)>)
    requires
        base <= 0x0F,
        buf@.len() <= 0xFFFF_FFFF,
    ensures
        match r {
            Some(nu) => len_code(base as int, buf@) == Some((nu.0 as int, nu.1 as int)),
            None => len_code(base as int, buf@) is None,
        },
{
    if base < 15 {
        return Some((base as u64, 0));
    }
    let mut in_pos: usize = 0;
    let mut acc: u64 = 15;
    proof {
        assert(buf@.skip(0) =~= buf@);
    }
    loop
        invariant
            base == 15,
            in_pos <= buf@.len() <= 0xFFFF_FFFF,
            acc <= 15 + 255 * in_pos,
            ext_len(buf@, 15) == opt_shift(ext_len(buf@.skip(in_pos as int), acc as int), in_pos as int),
        decreases buf@.len() - in_pos,
    {
        if in_pos >= buf.len() {
            proof {
                assert(buf@.skip(in_pos as int).len() == 0);
                assert(ext_len(buf@.skip(in_pos as int), acc as int) is None);
            }
            return None;
        }
        let ghost prev_pos = in_pos as int;
        let ghost prev_acc = acc as int;
        let v = buf[in_pos];
        proof {
            assert(buf@.skip(prev_pos)[0] == buf@[prev_pos]);
            assert(buf@.skip(prev_pos).skip(1) =~= buf@.skip(prev_pos + 1));
        }
        in_pos = in_pos + 1;
        acc = acc + v as u64;
        if v != 0xFF {
            proof {
                assert(ext_len(buf@.skip(prev_pos), prev_acc) == Some((prev_acc + v, 1int)));
                assert(ext_len(buf@, 15) == Some((acc as int, in_pos as int)));
            }
            return Some((acc, in_pos));
        }
        proof {
            assert(ext_len(buf@.skip(prev_pos), prev_acc) == opt_shift(
                ext_len(buf@.skip(prev_pos + 1), prev_acc + 255),
                1,
            ));
        }
    }
}

/// Decompresses one LZ4-JBlock chunk into exactly `original_length` bytes.
/// Succeeds if and only if the reference decoder accepts the chunk, and then
/// returns exactly its bytes; every malformed chunk is a `FormatError`.
#[verifier::rlimit(100)]
pub fn lz4_jblock_decompress(buf_compressed: &[u8], original_length: usize) -> (r: Result<
    Vec<u8>,
    CodecError,
>)
    requires
        buf_compressed@.len() <= 0xFFFF_FFFF,
    ensures
        match r {
            Ok(v) => {
                &&& lz4_decode(buf_compressed@, original_length as int) == Some(v@)
                &&& v@.len() == original_length
            },
            Err(e) => {
                &&& e == CodecError::FormatError
                &&& lz4_decode(buf_compressed@, original_length as int) is None
            },
        },
{
    let ghost c = buf_compressed@;
    let n = buf_compressed.len();
    let mut out: Vec<u8> = Vec::new();
    let mut in_pos: usize = 0;
    proof {
        assert(c.skip(0) =~= c);
    }
    loop
        invariant
            in_pos <= n == c.len() <= 0xFFFF_FFFF,
            buf_compressed@ == c,
            out@.len() <= original_length,
            lz4_decode(c, original_length as int) == lz4_from(
                c.skip(in_pos as int),
                out@,
                original_length as int,
            ),
        decreases c.len() - in_pos,
    {
        let ghost rest = c.skip(in_pos as int);
        let ghost out0 = out@;
        if in_pos == n {
            return Err(CodecError::FormatError);
        }
        let token = buf_compressed[in_pos];
        proof {
            assert(rest[0] == c[in_pos as int]);
            assert(token >> 4 <= 0x0F) by (bit_vector);
            assert(token & 0x0F <= 0x0F) by (bit_vector);
            assert(rest.skip(1) =~= c.subrange(in_pos + 1, n as int));
        }
        let mb = read_multibyte_number(token >> 4, &buf_compressed[in_pos + 1..n]);
        let (lit, used1) = match mb {
            None => {
                return Err(CodecError::FormatError);
            },
            Some(nu) => nu,
        };
        proof {
            lemma_ext_len_bounds(rest.skip(1), 15);
        }
        let hdr_end = in_pos + 1 + used1;
        let rem_dest = original_length - out.len();
        if (rem_dest as u64) < lit + 8 {
            // terminal literal run
            if lit != rem_dest as u64 {
                return Err(CodecError::FormatError);
            }
            if (n - hdr_end) as u64 != lit {
                return Err(CodecError::FormatError);
            }
            append_range(&mut out, buf_compressed, hdr_end, n);
            proof {
                assert(c.subrange(hdr_end as int, n as int) =~= rest.skip(1 + used1));
                assert(out@ == out0 + rest.skip(1 + used1));
            }
            return Ok(out);
        }
        // literal run followed by a match
        if ((n - hdr_end) as u64) < lit + 2 {
            return Err(CodecError::FormatError);
        }
        let lit_us = lit as usize;
        append_range(&mut out, buf_compressed, hdr_end, hdr_end + lit_us);
        proof {
            assert(c.subrange(hdr_end as int, hdr_end + lit) =~= rest.subrange(
                1 + used1,
                1 + used1 + lit,
            ));
        }
        let op = hdr_end + lit_us;
        let offset = crate::common::read_le16(buf_compressed, op) as usize;
        proof {
            reveal(crate::common::le16_at);
            assert(le16_at(rest, 1 + used1 + lit) == le16_at(c, op as int));
        }
        if offset == 0 {
            return Err(CodecError::FormatError);
        }
        if offset > out.len() {
            return Err(CodecError::FormatError);
        }
        proof {
            assert(rest.skip(1 + used1 + lit + 2) =~= c.subrange(op + 2, n as int));
        }
        let mb2 = read_multibyte_number(token & 0x0F, &buf_compressed[op + 2..n]);
        let (mlen, used2) = match mb2 {
            None => {
                return Err(CodecError::FormatError);
            },
            Some(nu) => nu,
        };
        proof {
            lemma_ext_len_bounds(rest.skip(1 + used1 + lit + 2), 15);
        }
        let run = mlen + 4;
        if run > (original_length - out.len()) as u64 {
            return Err(CodecError::FormatError);
        }
        let run_us = run as usize;
        let ref_pos = out.len() - offset;
        copy_back_ref(&mut out, ref_pos, run_us);
        proof {
            lemma_extend_match_len(out0 + rest.subrange(1 + used1, 1 + used1 + lit), ref_pos as int, run_us as nat);
        }
        in_pos = op + 2 + used2;
        proof {
            assert(rest.skip(1 + used1 + lit + 2 + used2) =~= c.skip(in_pos as int));
        }
    }
}

} // verus!
