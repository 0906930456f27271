//! LZF chunk decompression. A chunk is a sequence of control bytes: values
//! below 32 introduce a literal run of `ctrl + 1` bytes; higher values encode
//! a back-reference whose run length comes from the top three bits (with one
//! extension byte when they are all set) and whose offset combines the low
//! five bits with one following byte, plus one. The whole compressed input is
//! consumed; the output length is whatever the chunk produces.
//!
//! `lzf_from` is the reference decoder over mathematical sequences; the
//! executable decompressor returns exactly its result, with `None` reported
//! as a `FormatError`. An offset reaching before the start of the output or
//! a read past the end of the chunk is treated as a format error.
use crate::common::append_range;
use crate::common::copy_back_ref;
use crate::common::extend_match;
use crate::common::CodecError;
use vstd::prelude::*;

verus! {

/// Decodes the remaining chunk `c` onto the end of `out`. `None` means the
/// chunk is malformed.
pub open spec fn lzf_from(c: Seq<u8>, out: Seq<u8>) -> Option<Seq<u8>>
    decreases c.len(),
{
    if c.len() == 0 {
        Some(out)
    } else {
        let ctrl = c[0];
        if ctrl < 32 {
            let run = ctrl + 1;
            if c.len() < 1 + run {
                None
            } else {
                lzf_from(c.skip(1 + run), out + c.subrange(1, 1 + run))
            }
        } else {
            let more: int = if ctrl >> 5 == 7 {
                1
            } else {
                0
            };
            if c.len() < 2 + more {
                None
            } else {
                let run: int = if ctrl >> 5 == 7 {
                    c[1] + 9
                } else {
                    (ctrl >> 5) + 2
                };
                let offset = (ctrl & 0x1F) * 256 + c[1 + more] + 1;
                if offset > out.len() {
                    None
                } else {
                    lzf_from(c.skip(2 + more), extend_match(out, out.len() - offset, run as nat))
                }
            }
        }
    }
}

/// The decompressed bytes of the whole chunk `c`, or `None` when `c` is
/// malformed.
pub open spec fn lzf_decode(c: Seq<u8>) -> Option<Seq<u8>> {
    lzf_from(c, Seq::<u8>::empty())
}

/// Decompresses one LZF chunk, consuming all of it. Succeeds if and only if
/// the reference decoder accepts the chunk, and then returns exactly its
/// bytes; every malformed chunk is a `FormatError`.
pub fn lzf_decompress(buf_compressed: &[u8]) -> (r: Result<Vec<u8>, CodecError>)
    ensures
        match r {
            Ok(v) => lzf_decode(buf_compressed@) == Some(v@),
            Err(e) => {
                &&& e == CodecError::FormatError
                &&& lzf_decode(buf_compressed@) is None
            },
        },
{
    let ghost c = buf_compressed@;
    let n = buf_compressed.len();
    let mut out: Vec<u8> = Vec::new();
    let mut in_pos: usize = 0;
    proof {
        assert(c.skip(0) =~= c);
    }
    while in_pos < n
        invariant
            in_pos <= n == c.len(),
            buf_compressed@ == c,
            lzf_decode(c) == lzf_from(c.skip(in_pos as int), out@),
        decreases n - in_pos,
    {
        let ghost rest = c.skip(in_pos as int);
        let ghost out0 = out@;
        let ctrl = buf_compressed[in_pos];
        proof {
            assert(rest[0] == c[in_pos as int]);
        }
        if ctrl < 32 {
            // literal run
            let run = ctrl as usize + 1;
            if n - in_pos < 1 + run {
                return Err(CodecError::FormatError);
            }
            append_range(&mut out, buf_compressed, in_pos + 1, in_pos + 1 + run);
            proof {
                assert(c.subrange(in_pos + 1, in_pos + 1 + run) =~= rest.subrange(
                    1,
                    1 + run as int,
                ));
            }
            in_pos = in_pos + 1 + run;
            proof {
                assert(rest.skip(1 + run as int) =~= c.skip(in_pos as int));
            }
        } else {
            // back-reference
            let more: usize = if ctrl >> 5 == 7 {
                1
            } else {
                0
            };
            if n - in_pos < 2 + more {
                return Err(CodecError::FormatError);
            }
            proof {
                assert(rest[1] == c[in_pos + 1]);
                assert(rest[1 + more as int] == c[in_pos + 1 + more as int]);
            }
            let run: usize = if more == 1 {
                buf_compressed[in_pos + 1] as usize + 9
            } else {
                (ctrl >> 5) as usize + 2
            };
            let lsb = buf_compressed[in_pos + 1 + more] as usize;
            let offset = ((ctrl & 0x1F) as usize) * 256 + lsb + 1;
            if offset > out.len() {
                return Err(CodecError::FormatError);
            }
            let ref_pos = out.len() - offset;
            copy_back_ref(&mut out, ref_pos, run);
            in_pos = in_pos + 2 + more;
            proof {
                assert(rest.skip(2 + more as int) =~= c.skip(in_pos as int));
            }
        }
    }
    proof {
        assert(c.skip(n as int) =~= Seq::<u8>::empty());
    }
    Ok(out)
}

} // verus!
