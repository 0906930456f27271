//! Shared pieces of the codec library: the error type, fixed-width integer
//! reads from byte buffers, and the overlap-aware back-reference copy that
//! both chunk decompressors use.
use vstd::prelude::*;

verus! {

/// The failures a decode can report.
///
/// `FormatError`: the bytes violate the container or chunk format (bad magic,
/// unknown method or chunk type, inconsistent declared lengths, a zero or
/// out-of-range back-reference offset, a terminal literal run that does not
/// fill the destination exactly).
/// `TruncatedInputError`: the source ended in the middle of a frame header or
/// payload. A clean end of stream at a frame boundary is not an error.
/// `IntegrityError`: a stored chunk checksum does not match the checksum of
/// the decompressed bytes (only possible on LZ4-JBlock frames with
/// verification enabled).
#[derive(Clone, Copy, Debug, PartialEq, Eq, Structural)]
pub enum CodecError {
    FormatError,
    TruncatedInputError,
    IntegrityError,
}

/// The 32-bit little-endian integer stored at `s[i..i+4]`.
#[verifier::opaque]
pub open spec fn le32_at(s: Seq<u8>, i: int) -> u32
    recommends
        0 <= i,
        i + 4 <= s.len(),
{
    (s[i] as u32) | ((s[i + 1] as u32) << 8) | ((s[i + 2] as u32) << 16) | ((s[i + 3] as u32)
        << 24)
}

/// The 16-bit little-endian integer stored at `s[i..i+2]`.
#[verifier::opaque]
pub open spec fn le16_at(s: Seq<u8>, i: int) -> u16
    recommends
        0 <= i,
        i + 2 <= s.len(),
{
    (s[i] as u16) | ((s[i + 1] as u16) << 8)
}

/// The 16-bit big-endian integer stored at `s[i..i+2]`.
#[verifier::opaque]
pub open spec fn be16_at(s: Seq<u8>, i: int) -> u16
    recommends
        0 <= i,
        i + 2 <= s.len(),
{
    ((s[i] as u16) << 8) | (s[i + 1] as u16)
}

/// Reads the 32-bit little-endian integer at `s[i..i+4]`.
pub fn read_le32(s: &[u8], i: usize) -> (r: u32)
    requires
        i + 4 <= s@.len(),
    ensures
        r == le32_at(s@, i as int),
{
    proof {
        reveal(le32_at);
    }
    (s[i] as u32) | ((s[i + 1] as u32) << 8) | ((s[i + 2] as u32) << 16) | ((s[i + 3] as u32)
        << 24)
}

/// Reads the 16-bit little-endian integer at `s[i..i+2]`.
pub fn read_le16(s: &[u8], i: usize) -> (r: u16)
    requires
        i + 2 <= s@.len(),
    ensures
        r == le16_at(s@, i as int),
{
    proof {
        reveal(le16_at);
    }
    (s[i] as u16) | ((s[i + 1] as u16) << 8)
}

/// Reads the 16-bit big-endian integer at `s[i..i+2]`.
pub fn read_be16(s: &[u8], i: usize) -> (r: u16)
    requires
        i + 2 <= s@.len(),
    ensures
        r == be16_at(s@, i as int),
{
    proof {
        reveal(be16_at);
    }
    ((s[i] as u16) << 8) | (s[i + 1] as u16)
}

/// Appends `src[start..end]` to `out`.
pub fn append_range(out: &mut Vec<u8>, src: &[u8], start: usize, end: usize)
    requires
        start <= end <= src@.len(),
    ensures
        final(out)@ == old(out)@ + src@.subrange(start as int, end as int),
{
    proof {
        assert(old(out)@ + src@.subrange(start as int, start as int) =~= old(out)@);
    }
    let mut i: usize = start;
    while i < end
        invariant
            start <= i <= end <= src@.len(),
            out@ == old(out)@ + src@.subrange(start as int, i as int),
        decreases end - i,
    {
        out.push(src[i]);
        proof {
            assert(src@.subrange(start as int, i + 1) =~= src@.subrange(
                start as int,
                i as int,
            ).push(src@[i as int]));
        }
        i = i + 1;
    }
}

/// Extends `s` by `n` bytes copied one at a time from position `ref_pos`
/// onward, in increasing index order, so that bytes written earlier in the
/// same copy are valid sources for later positions. This is the meaning of a
/// back-reference in both chunk formats, including the overlapping case
/// (offset smaller than the run length), which reproduces earlier bytes
/// periodically.
pub open spec fn extend_match(s: Seq<u8>, ref_pos: int, n: nat) -> Seq<u8>
    recommends
        0 <= ref_pos < s.len(),
    decreases n,
{
    if n == 0 {
        s
    } else {
        extend_match(s.push(s[ref_pos]), ref_pos + 1, (n - 1) as nat)
    }
}

/// A back-reference copy grows the output by exactly the run length.
pub proof fn lemma_extend_match_len(s: Seq<u8>, ref_pos: int, n: nat)
    ensures
        extend_match(s, ref_pos, n).len() == s.len() + n,
    decreases n,
{
    if n != 0 {
        lemma_extend_match_len(s.push(s[ref_pos]), ref_pos + 1, (n - 1) as nat);
    }
}

/// Appends `run` bytes to `out`, copied byte by byte in increasing index
/// order starting at `ref_pos`, as `extend_match` describes.
pub fn copy_back_ref(out: &mut Vec<u8>, ref_pos: usize, run: usize) -> (r: ())
    requires
        ref_pos < old(out)@.len(),
    ensures
        final(out)@ == extend_match(old(out)@, ref_pos as int, run as nat),
{
    let mut j: usize = 0;
    while j < run
        invariant
            j <= run,
            ref_pos < old(out)@.len(),
            out@.len() == old(out)@.len() + j,
            extend_match(old(out)@, ref_pos as int, run as nat) == extend_match(
                out@,
                ref_pos + j,
                (run - j) as nat,
            ),
        decreases run - j,
    {
        let cur_len = out.len();
        assert(ref_pos + j < cur_len);
        let b = out[ref_pos + j];
        out.push(b);
        j = j + 1;
    }
}

} // verus!
