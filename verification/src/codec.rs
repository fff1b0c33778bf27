//! ZPS1 stream framing and the top-level compress / decompress entry points.
//!
//! Stream layout: 4-byte magic `"ZPS1"`, one version byte, a little-endian
//! `u32` block size, four option bytes, then a sequence of blocks, each
//! introduced by two little-endian `u32` fields (uncompressed length,
//! compressed length).  A block header with both fields zero terminates the
//! stream.

use vstd::prelude::*;

use crate::error::ZparsError;
use crate::lz77::{decode_lz77_block, encode_lz77_block};
use crate::tokens::decode_block;

verus! {

/// Tuning options for the LZ77 encoder, serialized into every ZPS1 stream.
#[derive(Debug, Clone, Copy)]
pub struct CompressionOptions {
    /// Bytes of raw input compressed as one block; `1..=u32::MAX`.
    pub block_size: usize,
    /// Shortest usable match, and primary hash width; `1..=64`.
    pub min_match: usize,
    /// Width of the secondary (longer-context) hash; `0` disables it.
    pub secondary_match: usize,
    /// Bucket size is `(1 << search_log) - 1`; `0..=10`.
    pub search_log: u8,
    /// Hash table size is `1 << table_log`; `8..=28`.
    pub table_log: u8,
}

/// Options for decompression.  The ZPS1 stream is self-describing, so there
/// is nothing to configure yet.
#[derive(Debug, Clone, Default)]
pub struct DecompressionOptions;

pub open spec fn default_options() -> CompressionOptions {
    CompressionOptions {
        block_size: 0x10_0000,
        min_match: 4,
        secondary_match: 0,
        search_log: 3,
        table_log: 20,
    }
}

impl Default for CompressionOptions {
    fn default() -> (r: Self)
        ensures
            r == default_options(),
    {
        CompressionOptions {
            block_size: 0x10_0000,
            min_match: 4,
            secondary_match: 0,
            search_log: 3,
            table_log: 20,
        }
    }
}

/// Validity of a set of options.  The block size must also fit the
/// little-endian `u32` field that carries it in the stream header.
pub open spec fn opts_valid(o: CompressionOptions) -> bool {
    &&& 1 <= o.min_match <= 64
    &&& o.secondary_match <= 64
    &&& 0 < o.block_size <= 0xffff_ffff
    &&& o.search_log <= 10
    &&& 8 <= o.table_log <= 28
}

/// Checks options on both the encode and the decode path.
pub fn validate_options(options: &CompressionOptions) -> (r: Result<(), ZparsError>)
    ensures
        r is Ok <==> opts_valid(*options),
        r is Err ==> r->Err_0 is InvalidOption,
{
    if options.min_match == 0 || options.min_match > 64 {
        return Err(ZparsError::InvalidOption("min-match must be 1..=64"));
    }
    if options.secondary_match > 64 {
        return Err(ZparsError::InvalidOption("secondary-match must be 0..=64"));
    }
    if options.block_size == 0 || options.block_size > 0xffff_ffff {
        return Err(ZparsError::InvalidOption("block-size must be 1..=u32::MAX"));
    }
    if options.search_log > 10 {
        return Err(ZparsError::InvalidOption("search-log must be <= 10"));
    }
    if options.table_log < 8 || options.table_log > 28 {
        return Err(ZparsError::InvalidOption("table-log must be 8..=28"));
    }
    Ok(())
}

/// Preset option tuples selected by the command-line `--level` flag.
/// Levels outside `0..=5` fall back to the defaults.
pub fn compression_options_for_level(level: u8) -> (r: CompressionOptions)
    ensures
        level == 0 ==> r == (CompressionOptions {
            block_size: 0x10_0000,
            min_match: 64,
            secondary_match: 0,
            search_log: 0,
            table_log: 8,
        }),
        level == 1 ==> r == default_options(),
        level == 2 ==> r == (CompressionOptions {
            block_size: 0x10_0000,
            min_match: 4,
            secondary_match: 6,
            search_log: 4,
            table_log: 22,
        }),
        level == 3 ==> r == (CompressionOptions {
            block_size: 0x10_0000,
            min_match: 3,
            secondary_match: 6,
            search_log: 5,
            table_log: 23,
        }),
        level == 4 ==> r == (CompressionOptions {
            block_size: 0x10_0000,
            min_match: 3,
            secondary_match: 8,
            search_log: 6,
            table_log: 24,
        }),
        level == 5 ==> r == (CompressionOptions {
            block_size: 0x10_0000,
            min_match: 3,
            secondary_match: 12,
            search_log: 7,
            table_log: 25,
        }),
        level > 5 ==> r == default_options(),
        opts_valid(r),
{
    match level {
        0 => CompressionOptions {
            block_size: 0x10_0000,
            min_match: 64,
            secondary_match: 0,
            search_log: 0,
            table_log: 8,
        },
        1 => CompressionOptions::default(),
        2 => CompressionOptions {
            block_size: 0x10_0000,
            min_match: 4,
            secondary_match: 6,
            search_log: 4,
            table_log: 22,
        },
        3 => CompressionOptions {
            block_size: 0x10_0000,
            min_match: 3,
            secondary_match: 6,
            search_log: 5,
            table_log: 23,
        },
        4 => CompressionOptions {
            block_size: 0x10_0000,
            min_match: 3,
            secondary_match: 8,
            search_log: 6,
            table_log: 24,
        },
        5 => CompressionOptions {
            block_size: 0x10_0000,
            min_match: 3,
            secondary_match: 12,
            search_log: 7,
            table_log: 25,
        },
        _ => CompressionOptions::default(),
    }
}

// ------------------------------------------------------------------
// Stream model
// ------------------------------------------------------------------

/// The four magic bytes `"ZPS1"`.
pub open spec fn zps_magic() -> Seq<u8> {
    seq![90u8, 80u8, 83u8, 49u8]
}

/// Little-endian encoding of `v` in four bytes.
pub open spec fn le32_bytes(v: int) -> Seq<u8> {
    seq![
        (v % 256) as u8,
        (v / 256 % 256) as u8,
        (v / 65536 % 256) as u8,
        (v / 16777216 % 256) as u8,
    ]
}

/// Little-endian value of the four bytes at `s[p..p + 4]`.
pub open spec fn le32_at(s: Seq<u8>, p: int) -> int {
    s[p] + 256 * (s[p + 1] + 256 * (s[p + 2] + 256 * s[p + 3]))
}

/// Reading back four little-endian bytes recovers the encoded value.
pub proof fn lemma_le32_at_of_bytes(s: Seq<u8>, p: int, v: int)
    requires
        0 <= p,
        p + 4 <= s.len(),
        0 <= v < 0x1_0000_0000,
        s.subrange(p, p + 4) == le32_bytes(v),
    ensures
        le32_at(s, p) == v,
{
    assert(s[p] == le32_bytes(v)[0]);
    assert(s[p + 1] == le32_bytes(v)[1]);
    assert(s[p + 2] == le32_bytes(v)[2]);
    assert(s[p + 3] == le32_bytes(v)[3]);
    assert((v / 256) / 256 == v / 65536) by {
        vstd::arithmetic::div_mod::lemma_div_denominator(v, 256, 256);
    }
    assert((v / 65536) / 256 == v / 16777216) by {
        vstd::arithmetic::div_mod::lemma_div_denominator(v, 65536, 256);
    }
    assert(v / 16777216 % 256 == v / 16777216);
    assert(v / 65536 == 256 * (v / 65536 / 256) + v / 65536 % 256);
    assert(v / 256 == 256 * (v / 256 / 256) + v / 256 % 256);
    assert(v == 256 * (v / 256) + v % 256);
}

/// The 13-byte stream header carrying the options.
pub open spec fn header_bytes(o: CompressionOptions) -> Seq<u8> {
    zps_magic() + seq![1u8] + le32_bytes(o.block_size as int) + seq![
        o.min_match as u8,
        o.secondary_match as u8,
        o.search_log,
        o.table_log,
    ]
}

/// Options encoded at their fixed positions in a stream.
pub open spec fn opts_of_bytes(s: Seq<u8>) -> CompressionOptions {
    CompressionOptions {
        block_size: le32_at(s, 5) as usize,
        min_match: s[9] as usize,
        secondary_match: s[10] as usize,
        search_log: s[11],
        table_log: s[12],
    }
}

/// Result of parsing the 13-byte stream header.
pub ghost enum HeaderParse {
    HOpts(CompressionOptions),
    HBadMagic,
    HBadVersion(u8),
    HBadOptions,
    HTruncated,
}

/// Reference parse of the stream header: magic, version, then options, which
/// must re-validate.
pub open spec fn parse_stream_header(s: Seq<u8>) -> HeaderParse {
    if s.len() < 4 {
        HeaderParse::HTruncated
    } else if s.subrange(0, 4) != zps_magic() {
        HeaderParse::HBadMagic
    } else if s.len() < 5 {
        HeaderParse::HTruncated
    } else if s[4] != 1 {
        HeaderParse::HBadVersion(s[4])
    } else if s.len() < 13 {
        HeaderParse::HTruncated
    } else if !opts_valid(opts_of_bytes(s)) {
        HeaderParse::HBadOptions
    } else {
        HeaderParse::HOpts(opts_of_bytes(s))
    }
}

/// Result of decoding a whole ZPS1 stream.
pub ghost enum StreamDecode {
    /// The raw bytes the stream stands for.
    Output(Seq<u8>),
    /// The magic did not match.
    BadMagic,
    /// The version byte was not 1.
    BadVersion(u8),
    /// The serialized options failed validation.
    BadOptions,
    /// A truncated or malformed header, block or token stream.
    Malformed,
}

/// Reference decode of the block sequence from position `p` on: repeated
/// `{uncompressed_len, compressed_len, payload}` frames until an all-zero
/// header terminates the stream.  Bytes after the terminator are ignored.
pub open spec fn decode_blocks(s: Seq<u8>, p: int, mm: int, acc: Seq<u8>) -> StreamDecode
    decreases s.len() - p,
{
    if p + 8 > s.len() {
        StreamDecode::Malformed
    } else {
        let ul = le32_at(s, p);
        let cl = le32_at(s, p + 4);
        if ul == 0 && cl == 0 {
            StreamDecode::Output(acc)
        } else if p + 8 + cl > s.len() {
            StreamDecode::Malformed
        } else {
            match decode_block(s.subrange(p + 8, p + 8 + cl), mm) {
                Option::None => StreamDecode::Malformed,
                Option::Some(o) => if o.len() != ul {
                    StreamDecode::Malformed
                } else {
                    decode_blocks(s, p + 8 + cl, mm, acc + o)
                },
            }
        }
    }
}

/// Reference meaning of a complete ZPS1 stream.
pub open spec fn decode_stream(s: Seq<u8>) -> StreamDecode {
    match parse_stream_header(s) {
        HeaderParse::HOpts(o) => decode_blocks(s, 13, o.min_match as int, Seq::empty()),
        HeaderParse::HBadMagic => StreamDecode::BadMagic,
        HeaderParse::HBadVersion(v) => StreamDecode::BadVersion(v),
        HeaderParse::HBadOptions => StreamDecode::BadOptions,
        HeaderParse::HTruncated => StreamDecode::Malformed,
    }
}

/// Header echo law: a written header parses back to exactly the options it
/// was written from, whatever follows it in the stream.
pub proof fn lemma_header_echo(o: CompressionOptions, rest: Seq<u8>)
    requires
        opts_valid(o),
    ensures
        parse_stream_header(header_bytes(o) + rest) == HeaderParse::HOpts(o),
{
    let s = header_bytes(o) + rest;
    assert(s.subrange(0, 4) =~= zps_magic());
    assert(s[4] == 1);
    assert(s.subrange(5, 9) =~= le32_bytes(o.block_size as int));
    lemma_le32_at_of_bytes(s, 5, o.block_size as int);
    assert(s[9] == o.min_match as u8);
    assert(s[10] == o.secondary_match as u8);
    assert(s[11] == o.search_log);
    assert(s[12] == o.table_log);
    assert(opts_of_bytes(s) == o);
}

// ------------------------------------------------------------------
// Executable framing
// ------------------------------------------------------------------

/// Per-block frame header: both fields zero terminates the stream.
struct BlockHeader {
    uncompressed_len: u32,
    compressed_len: u32,
}

/// Append `v` to `out` as four little-endian bytes.
fn push_le32(out: &mut Vec<u8>, v: u32)
    ensures
        final(out)@ == old(out)@ + le32_bytes(v as int),
{
    out.push((v % 256) as u8);
    out.push((v / 256 % 256) as u8);
    out.push((v / 65536 % 256) as u8);
    out.push((v / 16777216 % 256) as u8);
    proof {
        assert(out@ =~= old(out)@ + le32_bytes(v as int));
    }
}

/// Read the four little-endian bytes at `input[pos..pos + 4]`.
fn read_le32(input: &Vec<u8>, pos: usize) -> (v: u32)
    requires
        pos + 4 <= input@.len(),
    ensures
        v as int == le32_at(input@, pos as int),
{
    let n = input.len();
    assert(pos + 4 <= n);
    (input[pos] as u32) + 256 * (input[pos + 1] as u32) + 65536 * (input[pos + 2] as u32) + 16777216
        * (input[pos + 3] as u32)
}

/// Copy `v[a..b]` into a fresh buffer.
fn copy_range(v: &Vec<u8>, a: usize, b: usize) -> (r: Vec<u8>)
    requires
        a <= b <= v@.len(),
    ensures
        r@ == v@.subrange(a as int, b as int),
{
    let mut r: Vec<u8> = Vec::new();
    let mut i: usize = a;
    while i < b
        invariant
            a <= i <= b <= v@.len(),
            r@ == v@.subrange(a as int, i as int),
        decreases b - i,
    {
        proof {
            assert(v@.subrange(a as int, i + 1) =~= v@.subrange(a as int, i as int).push(v@[i as int]));
        }
        r.push(v[i]);
        i += 1;
    }
    r
}

/// Append all of `other` to `out`.
fn append_bytes(out: &mut Vec<u8>, other: &Vec<u8>)
    ensures
        final(out)@ == old(out)@ + other@,
{
    let mut i: usize = 0;
    while i < other.len()
        invariant
            i <= other@.len(),
            out@ == old(out)@ + other@.subrange(0, i as int),
        decreases other@.len() - i,
    {
        proof {
            assert(other@.subrange(0, i + 1) =~= other@.subrange(0, i as int).push(other@[i as int]));
        }
        out.push(other[i]);
        i += 1;
    }
    proof {
        assert(other@.subrange(0, other@.len() as int) =~= other@);
    }
}

/// Write the 13-byte stream header.
fn write_stream_header(out: &mut Vec<u8>, options: &CompressionOptions)
    requires
        opts_valid(*options),
    ensures
        final(out)@ == old(out)@ + header_bytes(*options),
{
    out.push(90u8);
    out.push(80u8);
    out.push(83u8);
    out.push(49u8);
    out.push(1u8);
    push_le32(out, options.block_size as u32);
    out.push(options.min_match as u8);
    out.push(options.secondary_match as u8);
    out.push(options.search_log);
    out.push(options.table_log);
    proof {
        assert(out@ =~= old(out)@ + header_bytes(*options));
    }
}

/// Parse and validate the stream header; the error reports the first defect
/// in stream order.
fn read_stream_header(input: &Vec<u8>) -> (r: Result<CompressionOptions, ZparsError>)
    ensures
        match r {
            Ok(o) => parse_stream_header(input@) == HeaderParse::HOpts(o),
            Err(e) => {
                &&& !(parse_stream_header(input@) is HOpts)
                &&& parse_stream_header(input@) is HBadMagic ==> e is InvalidFormat
                    && e->InvalidFormat_0@ == "bad magic"@
                &&& parse_stream_header(input@) is HBadVersion ==> e is UnsupportedVersion
                    && e->UnsupportedVersion_0 == parse_stream_header(input@)->HBadVersion_0
                &&& parse_stream_header(input@) is HBadOptions ==> e is InvalidOption
                &&& parse_stream_header(input@) is HTruncated ==> e is Corrupt && e->Corrupt_0@
                    == "truncated stream header"@
            },
        },
{
    if input.len() < 4 {
        return Err(ZparsError::Corrupt("truncated stream header"));
    }
    if input[0] != 90 || input[1] != 80 || input[2] != 83 || input[3] != 49 {
        proof {
            assert(input@.subrange(0, 4) != zps_magic());
        }
        return Err(ZparsError::InvalidFormat("bad magic"));
    }
    proof {
        assert(input@.subrange(0, 4) =~= zps_magic());
    }
    if input.len() < 5 {
        return Err(ZparsError::Corrupt("truncated stream header"));
    }
    let version = input[4];
    if version != 1 {
        return Err(ZparsError::UnsupportedVersion(version));
    }
    if input.len() < 13 {
        return Err(ZparsError::Corrupt("truncated stream header"));
    }
    let bs = read_le32(input, 5);
    let opts = CompressionOptions {
        block_size: bs as usize,
        min_match: input[9] as usize,
        secondary_match: input[10] as usize,
        search_log: input[11],
        table_log: input[12],
    };
    proof {
        assert(opts == opts_of_bytes(input@));
    }
    match validate_options(&opts) {
        Ok(_) => Ok(opts),
        Err(e) => Err(e),
    }
}

/// Write one block frame header.
fn write_block_header(out: &mut Vec<u8>, header: &BlockHeader)
    ensures
        final(out)@ == old(out)@ + le32_bytes(header.uncompressed_len as int) + le32_bytes(
            header.compressed_len as int,
        ),
{
    push_le32(out, header.uncompressed_len);
    push_le32(out, header.compressed_len);
}

/// Read one block frame header at `pos`, or report truncation.
fn read_block_header(input: &Vec<u8>, pos: usize) -> (r: Result<BlockHeader, ZparsError>)
    requires
        pos <= input@.len(),
    ensures
        match r {
            Ok(h) => pos + 8 <= input@.len() && h.uncompressed_len as int == le32_at(
                input@,
                pos as int,
            ) && h.compressed_len as int == le32_at(input@, pos as int + 4),
            Err(e) => pos + 8 > input@.len() && e is Corrupt,
        },
{
    if input.len() - pos < 8 {
        return Err(ZparsError::Corrupt("truncated block header"));
    }
    let ul = read_le32(input, pos);
    let cl = read_le32(input, pos + 4);
    Ok(BlockHeader { uncompressed_len: ul, compressed_len: cl })
}

// ------------------------------------------------------------------
// Compression: ghost frame records tie the emitted bytes to the input
// ------------------------------------------------------------------

/// One emitted block: the raw bytes it came from and its encoded payload.
pub ghost struct FrameRec {
    pub raw: Seq<u8>,
    pub enc: Seq<u8>,
}

/// Bytes of one framed block.
pub open spec fn frame_bytes(f: FrameRec) -> Seq<u8> {
    le32_bytes(f.raw.len() as int) + le32_bytes(f.enc.len() as int) + f.enc
}

/// Bytes of a sequence of framed blocks.
pub open spec fn frames_bytes(fs: Seq<FrameRec>) -> Seq<u8>
    decreases fs.len(),
{
    if fs.len() == 0 {
        Seq::empty()
    } else {
        frame_bytes(fs[0]) + frames_bytes(fs.subrange(1, fs.len() as int))
    }
}

/// Concatenation of the raw bytes the frames stand for.
pub open spec fn frames_raw(fs: Seq<FrameRec>) -> Seq<u8>
    decreases fs.len(),
{
    if fs.len() == 0 {
        Seq::empty()
    } else {
        fs[0].raw + frames_raw(fs.subrange(1, fs.len() as int))
    }
}

/// Every frame is well-formed: nonempty raw bytes that fit the `u32` length
/// fields, and a payload that decodes back to them.
pub open spec fn frames_ok(fs: Seq<FrameRec>, mm: int) -> bool {
    forall|k: int|
        0 <= k < fs.len() ==> {
            let f = #[trigger] fs[k];
            &&& 1 <= f.raw.len() <= 0xffff_ffff
            &&& f.enc.len() <= 0xffff_ffff
            &&& decode_block(f.enc, mm) == Some(f.raw)
        }
}

/// Every frame carries at most `bs` raw bytes.
pub open spec fn frames_within(fs: Seq<FrameRec>, bs: int) -> bool {
    forall|k: int| 0 <= k < fs.len() ==> (#[trigger] fs[k]).raw.len() <= bs
}

/// Splitting a known concatenation at the length of its first part.
proof fn lemma_split_concat(s: Seq<u8>, p: int, a: Seq<u8>, b: Seq<u8>)
    requires
        0 <= p <= s.len(),
        s.subrange(p, s.len() as int) == a + b,
    ensures
        p + a.len() <= s.len(),
        s.subrange(p, p + a.len() as int) == a,
        s.subrange(p + a.len() as int, s.len() as int) == b,
{
    assert(s.subrange(p, s.len() as int).len() == s.len() - p);
    assert((a + b).len() == a.len() + b.len());
    assert(s.len() - p == a.len() + b.len());
    assert forall|j: int| 0 <= j < a.len() implies s.subrange(p, p + a.len() as int)[j] == a[j] by {
        assert(s.subrange(p, s.len() as int)[j] == a[j]);
    }
    assert(s.subrange(p, p + a.len() as int) =~= a);
    assert forall|j: int|
        0 <= j < b.len() implies s.subrange(p + a.len() as int, s.len() as int)[j] == b[j] by {
        assert(s.subrange(p, s.len() as int)[a.len() + j] == b[j]);
    }
    assert(s.subrange(p + a.len() as int, s.len() as int) =~= b);
}

#[verifier::rlimit(100)]
proof fn lemma_frames_push(fs: Seq<FrameRec>, f: FrameRec)
    ensures
        frames_bytes(fs.push(f)) == frames_bytes(fs) + frame_bytes(f),
        frames_raw(fs.push(f)) == frames_raw(fs) + f.raw,
    decreases fs.len(),
{
    let t = fs.push(f);
    assert(t.len() == fs.len() + 1);
    if fs.len() == 0 {
        let e = t.subrange(1, t.len() as int);
        assert(e =~= Seq::<FrameRec>::empty());
        assert(frames_bytes(e) == Seq::<u8>::empty());
        assert(frames_raw(e) == Seq::<u8>::empty());
        assert(t[0] == f);
        assert(frames_bytes(t) == frame_bytes(f) + Seq::<u8>::empty());
        assert(frames_bytes(fs) == Seq::<u8>::empty());
        assert(frame_bytes(f) + Seq::<u8>::empty() =~= Seq::<u8>::empty() + frame_bytes(f));
        assert(frames_raw(t) == f.raw + Seq::<u8>::empty());
        assert(frames_raw(fs) == Seq::<u8>::empty());
        assert(f.raw + Seq::<u8>::empty() =~= Seq::<u8>::empty() + f.raw);
    } else {
        let fs1 = fs.subrange(1, fs.len() as int);
        let t1 = t.subrange(1, t.len() as int);
        assert(t1 =~= fs1.push(f));
        lemma_frames_push(fs1, f);
        assert(t[0] == fs[0]);
        assert(frames_bytes(t) == frame_bytes(fs[0]) + (frames_bytes(fs1) + frame_bytes(f)));
        assert(frames_bytes(fs) == frame_bytes(fs[0]) + frames_bytes(fs1));
        assert(frame_bytes(fs[0]) + (frames_bytes(fs1) + frame_bytes(f)) =~= (frame_bytes(fs[0])
            + frames_bytes(fs1)) + frame_bytes(f));
        assert(frames_raw(t) == fs[0].raw + (frames_raw(fs1) + f.raw));
        assert(frames_raw(fs) == fs[0].raw + frames_raw(fs1));
        assert(fs[0].raw + (frames_raw(fs1) + f.raw) =~= (fs[0].raw + frames_raw(fs1)) + f.raw);
    }
}

/// Decoding a stream tail made of well-formed frames and the terminator
/// yields the concatenated raw bytes.
#[verifier::rlimit(50)]
proof fn lemma_decode_blocks_of_frames(s: Seq<u8>, p: int, mm: int, acc: Seq<u8>, fs: Seq<FrameRec>)
    requires
        0 <= p <= s.len(),
        s.subrange(p, s.len() as int) == frames_bytes(fs) + le32_bytes(0) + le32_bytes(0),
        frames_ok(fs, mm),
    ensures
        decode_blocks(s, p, mm, acc) == StreamDecode::Output(acc + frames_raw(fs)),
    decreases fs.len(),
{
    let tail = s.subrange(p, s.len() as int);
    if fs.len() == 0 {
        assert(frames_bytes(fs) == Seq::<u8>::empty());
        assert(tail =~= le32_bytes(0) + le32_bytes(0));
        lemma_split_concat(s, p, le32_bytes(0), le32_bytes(0));
        lemma_le32_at_of_bytes(s, p, 0);
        lemma_le32_at_of_bytes(s, p + 4, 0);
        assert(frames_raw(fs) == Seq::<u8>::empty());
        assert(acc + frames_raw(fs) =~= acc);
    } else {
        let f = fs[0];
        let rest = fs.subrange(1, fs.len() as int);
        let ul = f.raw.len() as int;
        let cl = f.enc.len() as int;
        let term = le32_bytes(0) + le32_bytes(0);
        assert(frames_bytes(fs) == frame_bytes(f) + frames_bytes(rest));
        assert(tail =~= le32_bytes(ul) + (le32_bytes(cl) + (f.enc + (frames_bytes(rest)
            + term))));
        lemma_split_concat(s, p, le32_bytes(ul), le32_bytes(cl) + (f.enc + (frames_bytes(rest)
            + term)));
        lemma_split_concat(s, p + 4, le32_bytes(cl), f.enc + (frames_bytes(rest) + term));
        lemma_split_concat(s, p + 8, f.enc, frames_bytes(rest) + term);
        lemma_le32_at_of_bytes(s, p, ul);
        lemma_le32_at_of_bytes(s, p + 4, cl);
        assert(!(ul == 0 && cl == 0));
        assert(p + 8 + cl <= s.len());
        assert(s.subrange(p + 8, p + 8 + cl) == f.enc);
        assert(decode_block(s.subrange(p + 8, p + 8 + cl), mm) == Some(f.raw));
        assert(s.subrange(p + 8 + cl, s.len() as int) =~= frames_bytes(rest) + le32_bytes(0)
            + le32_bytes(0));
        lemma_decode_blocks_of_frames(s, p + 8 + cl, mm, acc + f.raw, rest);
        assert(acc + f.raw + frames_raw(rest) =~= acc + frames_raw(fs));
    }
}

/// Compress `input` into a complete ZPS1 stream.
///
/// On success the stream decodes back to exactly `input` (the round-trip
/// law); it is the written header — which parses back to the passed
/// options — followed by block frames whose raw sizes stay within
/// `block_size`, concatenate to `input`, and decode from their payloads,
/// closed by the all-zero terminator with nothing after it.  Success is
/// guaranteed whenever the options are valid and the worst-case block
/// expansion (four output bytes per input byte) still fits the `u32`
/// payload-length field.
#[verifier::rlimit(100)]
pub fn compress(input: &Vec<u8>, options: &CompressionOptions) -> (r: Result<Vec<u8>, ZparsError>)
    ensures
        (r is Err && r->Err_0 is InvalidOption) <==> !opts_valid(*options),
        match r {
            Ok(out) => {
                &&& decode_stream(out@) == StreamDecode::Output(input@)
                &&& out@.len() >= 13
                &&& out@.subrange(0, 4) == zps_magic()
                &&& parse_stream_header(out@) == HeaderParse::HOpts(*options)
                &&& exists|fs: Seq<FrameRec>|
                    {
                        &&& out@ == header_bytes(*options) + #[trigger] frames_bytes(fs)
                            + le32_bytes(0) + le32_bytes(0)
                        &&& frames_ok(fs, options.min_match as int)
                        &&& frames_within(fs, options.block_size as int)
                        &&& frames_raw(fs) == input@
                    }
            },
            Err(e) => e is InvalidOption || e is Corrupt,
        },
        opts_valid(*options) && 4 * options.block_size <= 0xffff_ffff ==> r is Ok,
{
    match validate_options(options) {
        Ok(_) => {},
        Err(e) => {
            return Err(e);
        },
    }
    let mut out: Vec<u8> = Vec::new();
    write_stream_header(&mut out, options);
    let ghost mut fs: Seq<FrameRec> = Seq::empty();
    let mut done: usize = 0;
    proof {
        assert(frames_bytes(fs) =~= Seq::<u8>::empty());
        assert(frames_raw(fs) =~= Seq::<u8>::empty());
        assert(out@ =~= header_bytes(*options) + frames_bytes(fs));
        assert(input@.subrange(0, 0) =~= Seq::<u8>::empty());
    }
    while done < input.len()
        invariant
            done <= input@.len(),
            opts_valid(*options),
            out@ == header_bytes(*options) + frames_bytes(fs),
            frames_ok(fs, options.min_match as int),
            frames_within(fs, options.block_size as int),
            frames_raw(fs) == input@.subrange(0, done as int),
        decreases input@.len() - done,
    {
        let n = if input.len() - done < options.block_size {
            input.len() - done
        } else {
            options.block_size
        };
        let chunk = copy_range(input, done, done + n);
        let encoded = encode_lz77_block(&chunk, options);
        if encoded.len() > 0xffff_ffff {
            return Err(ZparsError::Corrupt("compressed block exceeds frame limit"));
        }
        let header = BlockHeader {
            uncompressed_len: n as u32,
            compressed_len: encoded.len() as u32,
        };
        write_block_header(&mut out, &header);
        append_bytes(&mut out, &encoded);
        proof {
            let f = FrameRec { raw: chunk@, enc: encoded@ };
            lemma_frames_push(fs, f);
            fs = fs.push(f);
            assert(out@ =~= header_bytes(*options) + frames_bytes(fs));
            assert(frames_raw(fs) =~= input@.subrange(0, done + n));
        }
        done += n;
    }
    let terminator = BlockHeader { uncompressed_len: 0, compressed_len: 0 };
    write_block_header(&mut out, &terminator);
    proof {
        lemma_header_echo(*options, out@.subrange(13, out@.len() as int));
        assert(header_bytes(*options) + out@.subrange(13, out@.len() as int) =~= out@);
        assert(out@.subrange(13, out@.len() as int) =~= frames_bytes(fs) + le32_bytes(0)
            + le32_bytes(0));
        lemma_decode_blocks_of_frames(out@, 13, options.min_match as int, Seq::empty(), fs);
        assert(input@.subrange(0, done as int) =~= input@);
        assert(Seq::<u8>::empty() + frames_raw(fs) =~= frames_raw(fs));
        assert(out@.subrange(0, 4) =~= zps_magic());
        assert(out@ =~= header_bytes(*options) + frames_bytes(fs) + le32_bytes(0) + le32_bytes(
            0,
        ));
    }
    Ok(out)
}

/// Decompress a complete ZPS1 stream.  The result is exactly what
/// `decode_stream` says the bytes stand for, and each failure reports the
/// defect class the reference decode assigns to the stream.
pub fn decompress(input: &Vec<u8>, _options: &DecompressionOptions) -> (r: Result<
    Vec<u8>,
    ZparsError,
>)
    ensures
        match decode_stream(input@) {
            StreamDecode::Output(o) => r is Ok && r->Ok_0@ == o,
            StreamDecode::BadMagic => r is Err && r->Err_0 is InvalidFormat
                && r->Err_0->InvalidFormat_0@ == "bad magic"@,
            StreamDecode::BadVersion(v) => r is Err && r->Err_0 is UnsupportedVersion
                && r->Err_0->UnsupportedVersion_0 == v,
            StreamDecode::BadOptions => r is Err && r->Err_0 is InvalidOption,
            StreamDecode::Malformed => r is Err && r->Err_0 is Corrupt,
        },
{
    let options = match read_stream_header(input) {
        Ok(o) => o,
        Err(e) => {
            return Err(e);
        },
    };
    let ghost goal = decode_stream(input@);
    let mut out: Vec<u8> = Vec::new();
    let mut pos: usize = 13;
    proof {
        assert(goal == decode_blocks(input@, 13, options.min_match as int, Seq::empty()));
        assert(out@ =~= Seq::<u8>::empty());
    }
    loop
        invariant
            13 <= pos <= input@.len(),
            opts_valid(options),
            goal == decode_stream(input@),
            decode_blocks(input@, pos as int, options.min_match as int, out@) == goal,
        decreases input@.len() - pos,
    {
        let header = match read_block_header(input, pos) {
            Ok(h) => h,
            Err(e) => {
                return Err(e);
            },
        };
        if header.uncompressed_len == 0 && header.compressed_len == 0 {
            return Ok(out);
        }
        let cl = header.compressed_len as usize;
        if input.len() - pos - 8 < cl {
            return Err(ZparsError::Corrupt("truncated block payload"));
        }
        let payload = copy_range(input, pos + 8, pos + 8 + cl);
        let decoded = match decode_lz77_block(&payload, header.uncompressed_len as usize, &options)
        {
            Ok(d) => d,
            Err(e) => {
                return Err(e);
            },
        };
        append_bytes(&mut out, &decoded);
        pos = pos + 8 + cl;
    }
}

} // verus!
