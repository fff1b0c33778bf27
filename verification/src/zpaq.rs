//! ZPAQ archive reading: block scanning and unmodeled segment extraction.
//!
//! A ZPAQ block starts with a fixed 16-byte magic tag.  The scanner walks a
//! byte buffer, finds candidate tags, and validates the variable-layout
//! ZPAQL header behind each one (COMP and HCOMP sections, both terminated by
//! a zero byte).  For blocks with zero predictive components the segment
//! reader decodes the per-segment payloads: null-terminated filename and
//! comment, a big-endian chunked byte stream run through a small
//! postprocessor state machine, and an end marker with an optional SHA-1
//! trailer.

use vstd::prelude::*;

use crate::error::ZparsError;

verus! {

// ------------------------------------------------------------------
// Magic tags
// ------------------------------------------------------------------

/// The 13-byte short start tag.
pub open spec fn tag13() -> Seq<u8> {
    seq![0x37u8, 0x6bu8, 0x53u8, 0x74u8, 0xa0u8, 0x31u8, 0x83u8, 0xd3u8, 0x8cu8, 0xb2u8, 0x28u8,
        0xb0u8, 0xd3u8]
}

/// The full 16-byte block magic: the short tag followed by ASCII `zPQ`.
pub open spec fn magic16() -> Seq<u8> {
    tag13() + seq![122u8, 80u8, 81u8]
}

/// Whether the 16-byte magic occurs at offset `i`.
pub open spec fn magic_at(s: Seq<u8>, i: int) -> bool {
    0 <= i && i + 16 <= s.len() && s.subrange(i, i + 16) == magic16()
}

/// Smallest magic occurrence at or after `i`.
pub open spec fn first_magic_from(s: Seq<u8>, i: int) -> Option<int>
    decreases s.len() - i,
{
    if i < 0 || i + 16 > s.len() {
        None
    } else if magic_at(s, i) {
        Some(i)
    } else {
        first_magic_from(s, i + 1)
    }
}

pub proof fn lemma_first_magic_props(s: Seq<u8>, i: int)
    requires
        0 <= i,
    ensures
        match first_magic_from(s, i) {
            Some(at) => i <= at && magic_at(s, at) && forall|m: int|
                i <= m < at ==> !magic_at(s, m),
            None => forall|m: int| i <= m ==> !magic_at(s, m),
        },
    decreases s.len() - i,
{
    if i < 0 || i + 16 > s.len() {
    } else if magic_at(s, i) {
    } else {
        lemma_first_magic_props(s, i + 1);
    }
}

// ------------------------------------------------------------------
// Block headers
// ------------------------------------------------------------------

/// A validated ZPAQ block header.
#[derive(Debug, Clone)]
pub struct ZpaqBlockHeader {
    /// Offset of the 16-byte magic in the scanned buffer.
    pub start_offset: usize,
    /// ZPAQ level byte; 1 or 2.
    pub level: u8,
    /// ZPAQL type byte; always 1 here.
    pub zpaql_type: u8,
    /// Declared byte count of the COMP and HCOMP sections together.
    pub hsize: u16,
    /// Context-selection bytes.
    pub hh: u8,
    pub hm: u8,
    pub ph: u8,
    pub pm: u8,
    /// Number of predictive components; 0 marks an unmodeled block.
    pub n_components: u8,
    /// Bytes consumed by the COMP section, terminator included.
    pub comp_bytes: usize,
    /// Bytes left for the HCOMP section, terminator included.
    pub hcomp_bytes: usize,
    /// Offset where the block's segments begin.
    pub segment_offset: usize,
}

/// Byte cost of a COMP entry of type `t`, or 0 for an invalid type.
pub open spec fn comp_size(t: int) -> int {
    if t == 1 {
        2
    } else if t == 2 {
        3
    } else if t == 3 {
        2
    } else if t == 4 {
        3
    } else if t == 5 {
        4
    } else if t == 6 {
        6
    } else if t == 7 {
        6
    } else if t == 8 {
        3
    } else if t == 9 {
        5
    } else {
        0
    }
}

/// Walk `count` COMP entries from `cp`, staying inside `end`.
pub open spec fn comp_walk(s: Seq<u8>, cp: int, end: int, count: int) -> Option<int>
    decreases count,
{
    if count <= 0 {
        Some(cp)
    } else if cp >= end {
        None
    } else {
        let t = s[cp] as int;
        if comp_size(t) == 0 {
            None
        } else if cp + comp_size(t) > end {
            None
        } else {
            comp_walk(s, cp + comp_size(t), end, count - 1)
        }
    }
}

/// Result of attempting a header parse at a magic candidate: skip the
/// candidate, reject the whole buffer, or yield a header and the bytes it
/// consumed.
pub ghost enum HdrParse {
    PSkip,
    PBad,
    PGot(ZpaqBlockHeader, int),
}

/// Reference parse of a block header at offset `at`.
pub open spec fn parse_hdr(s: Seq<u8>, at: int) -> HdrParse {
    if at < 0 || at + 18 > s.len() {
        HdrParse::PSkip
    } else if s.subrange(at, at + 13) != tag13() {
        HdrParse::PSkip
    } else if s[at + 16] != 1 && s[at + 16] != 2 {
        HdrParse::PSkip
    } else if s[at + 17] != 1 {
        HdrParse::PSkip
    } else {
        let p = at + 18;
        if p + 7 > s.len() {
            HdrParse::PBad
        } else {
            let hsize = s[p] + 256 * (s[p + 1] as int);
            let header_total = hsize + 2;
            if p + header_total > s.len() {
                HdrParse::PBad
            } else {
                match comp_walk(s, p + 7, p + header_total, s[p + 6] as int) {
                    Option::None => HdrParse::PBad,
                    Option::Some(cp) => {
                        if cp >= p + header_total || s[cp] != 0 {
                            HdrParse::PBad
                        } else {
                            let comp_bytes = cp + 1 - (p + 2);
                            if comp_bytes > hsize {
                                HdrParse::PBad
                            } else if hsize - comp_bytes == 0 {
                                HdrParse::PBad
                            } else if s[p + header_total - 1] != 0 {
                                HdrParse::PBad
                            } else {
                                HdrParse::PGot(
                                    ZpaqBlockHeader {
                                        start_offset: at as usize,
                                        level: s[at + 16],
                                        zpaql_type: s[at + 17],
                                        hsize: hsize as u16,
                                        hh: s[p + 2],
                                        hm: s[p + 3],
                                        ph: s[p + 4],
                                        pm: s[p + 5],
                                        n_components: s[p + 6],
                                        comp_bytes: comp_bytes as usize,
                                        hcomp_bytes: (hsize - comp_bytes) as usize,
                                        segment_offset: (p + header_total) as usize,
                                    },
                                    header_total + 18,
                                )
                            }
                        }
                    },
                }
            }
        }
    }
}

/// Consumed counts reported by a successful parse are positive and stay
/// inside the buffer.
pub proof fn lemma_parse_hdr_got(s: Seq<u8>, at: int)
    requires
        s.len() <= usize::MAX,
        parse_hdr(s, at) is PGot,
    ensures
        ({
            let c = parse_hdr(s, at)->PGot_1;
            let h = parse_hdr(s, at)->PGot_0;
            20 <= c && at + c <= s.len() && h.segment_offset == at + c && h.start_offset == at
        }),
{
}

// ------------------------------------------------------------------
// Scanning
// ------------------------------------------------------------------

/// Reference scan: find each magic, try to parse a header, skip one byte on
/// a failed candidate, and advance past each accepted header.  `None` models
/// a `Corrupt` rejection.
pub open spec fn scan_from(s: Seq<u8>, i: int, acc: Seq<ZpaqBlockHeader>) -> Option<
    Seq<ZpaqBlockHeader>,
>
    decreases s.len() - i,
{
    if !(i + 18 < s.len()) {
        Some(acc)
    } else {
        match first_magic_from(s, i) {
            Option::None => Some(acc),
            Option::Some(at) => {
                if !(i <= at && at + 16 <= s.len()) {
                    Some(acc)
                } else {
                    match parse_hdr(s, at) {
                        HdrParse::PBad => None,
                        HdrParse::PSkip => scan_from(s, at + 1, acc),
                        HdrParse::PGot(h, consumed) => {
                            if consumed < 1 || at + consumed > s.len() {
                                None
                            } else {
                                scan_from(s, at + consumed, acc.push(h))
                            }
                        },
                    }
                }
            },
        }
    }
}

// ------------------------------------------------------------------
// Executable scanner
// ------------------------------------------------------------------

/// Byte `j` of the 16-byte magic.
fn magic_byte(j: usize) -> (b: u8)
    requires
        j < 16,
    ensures
        b == magic16()[j as int],
{
    let b: u8 = if j == 0 {
        0x37
    } else if j == 1 {
        0x6b
    } else if j == 2 {
        0x53
    } else if j == 3 {
        0x74
    } else if j == 4 {
        0xa0
    } else if j == 5 {
        0x31
    } else if j == 6 {
        0x83
    } else if j == 7 {
        0xd3
    } else if j == 8 {
        0x8c
    } else if j == 9 {
        0xb2
    } else if j == 10 {
        0x28
    } else if j == 11 {
        0xb0
    } else if j == 12 {
        0xd3
    } else if j == 13 {
        122
    } else if j == 14 {
        80
    } else {
        81
    };
    b
}

/// Find the first 16-byte magic occurrence at or after `from`.
fn find_magic(data: &Vec<u8>, from: usize) -> (r: Option<usize>)
    requires
        from <= data@.len(),
    ensures
        match r {
            Some(at) => from <= at && magic_at(data@, at as int) && first_magic_from(
                data@,
                from as int,
            ) == Some(at as int),
            None => first_magic_from(data@, from as int) is None,
        },
{
    let n = data.len();
    let mut i: usize = from;
    while n - i >= 16 && i < n
        invariant
            from <= i,
            i <= n == data@.len(),
            first_magic_from(data@, from as int) == first_magic_from(data@, i as int),
        decreases n - i,
    {
        let mut ok = true;
        let mut j: usize = 0;
        while j < 16
            invariant_except_break
                i + 16 <= n == data@.len(),
                j <= 16,
                ok,
                forall|l: int| 0 <= l < j ==> data@[i + l] == magic16()[l],
            ensures
                i + 16 <= n == data@.len(),
                ok ==> forall|l: int| 0 <= l < 16 ==> data@[i + l] == magic16()[l],
                !ok ==> !magic_at(data@, i as int),
            decreases 16 - j,
        {
            let m = magic_byte(j);
            if data[i + j] != m {
                ok = false;
                proof {
                    assert(data@.subrange(i as int, i + 16)[j as int] == data@[i + j]);
                    assert(!magic_at(data@, i as int));
                }
                break;
            }
            j += 1;
        }
        if ok {
            proof {
                assert(data@.subrange(i as int, i + 16) =~= magic16());
                assert(magic_at(data@, i as int));
                assert(first_magic_from(data@, i as int) == Some(i as int));
            }
            return Some(i);
        }
        proof {
            assert(first_magic_from(data@, i as int) == first_magic_from(data@, i + 1));
        }
        i += 1;
    }
    proof {
        assert(i + 16 > n);
        assert(first_magic_from(data@, i as int) is None);
    }
    None
}

/// Byte cost of a COMP entry of executable type `t`; 0 marks an invalid
/// type.
fn comp_size_of(t: u8) -> (r: usize)
    ensures
        r as int == comp_size(t as int),
{
    if t == 1 {
        2
    } else if t == 2 {
        3
    } else if t == 3 {
        2
    } else if t == 4 {
        3
    } else if t == 5 {
        4
    } else if t == 6 {
        6
    } else if t == 7 {
        6
    } else if t == 8 {
        3
    } else if t == 9 {
        5
    } else {
        0
    }
}

/// Attempt to parse a block header at `at`: `Ok(None)` skips the candidate,
/// `Err` rejects the buffer, `Ok(Some((header, consumed)))` accepts it.
fn parse_block_header(data: &Vec<u8>, at: usize) -> (r: Result<
    Option<(ZpaqBlockHeader, usize)>,
    ZparsError,
>)
    requires
        at <= data@.len(),
    ensures
        match r {
            Ok(opt) => match opt {
                Some((h, c)) => parse_hdr(data@, at as int) == HdrParse::PGot(h, c as int),
                None => parse_hdr(data@, at as int) is PSkip,
            },
            Err(e) => parse_hdr(data@, at as int) is PBad && e is Corrupt,
        },
{
    let n = data.len();
    if n - at < 18 {
        return Ok(None);
    }
    let mut j: usize = 0;
    while j < 13
        invariant_except_break
            at + 18 <= n == data@.len(),
            j <= 13,
            forall|l: int| 0 <= l < j ==> data@[at + l] == tag13()[l],
        ensures
            at + 18 <= n == data@.len(),
            (j == 13 && forall|l: int| 0 <= l < 13 ==> data@[at + l] == tag13()[l]) || (j < 13
                && data@.subrange(at as int, at + 13) != tag13()),
        decreases 13 - j,
    {
        let m = magic_byte(j);
        if data[at + j] != m {
            proof {
                assert(data@.subrange(at as int, at + 13)[j as int] == data@[at + j]);
                assert(magic16()[j as int] == tag13()[j as int]);
            }
            break;
        }
        j += 1;
    }
    if j < 13 {
        return Ok(None);
    }
    proof {
        assert(data@.subrange(at as int, at + 13) =~= tag13());
    }
    let level = data[at + 16];
    if level != 1 && level != 2 {
        return Ok(None);
    }
    let zpaql_type = data[at + 17];
    if zpaql_type != 1 {
        return Ok(None);
    }
    let p = at + 18;
    if n - p < 7 {
        return Err(ZparsError::Corrupt("truncated ZPAQL header prefix"));
    }
    let hsize: usize = (data[p] as usize) + 256 * (data[p + 1] as usize);
    let header_total = hsize + 2;
    if n - p < header_total {
        return Err(ZparsError::Corrupt("truncated ZPAQL header"));
    }
    let n_components = data[p + 6];
    let end = p + header_total;
    let mut cp = p + 7;
    let mut count: usize = 0;
    while count < n_components as usize
        invariant_except_break
            p + 7 <= cp,
            cp <= n == data@.len(),
            end <= n,
            count <= n_components as int,
            comp_walk(data@, cp as int, end as int, n_components as int - count) == comp_walk(
                data@,
                p + 7,
                end as int,
                n_components as int,
            ),
        ensures
            cp <= n == data@.len(),
            end <= n,
            p + 7 <= cp,
            ({
                let w = comp_walk(data@, p + 7, end as int, n_components as int);
                (count == n_components as int && w == Some(cp as int)) || (count
                    < n_components as int && w is None)
            }),
        decreases n_components as int - count,
    {
        if cp >= end {
            break;
        }
        let t = data[cp];
        let sz = comp_size_of(t);
        if sz == 0 {
            break;
        }
        if end - cp < sz {
            break;
        }
        cp += sz;
        count += 1;
    }
    if count < n_components as usize {
        return Err(ZparsError::Corrupt("invalid COMP section"));
    }
    if cp >= end {
        return Err(ZparsError::Corrupt("missing COMP END"));
    }
    if data[cp] != 0 {
        return Err(ZparsError::Corrupt("missing COMP END"));
    }
    let comp_bytes = cp + 1 - (p + 2);
    if comp_bytes > hsize {
        return Err(ZparsError::Corrupt("invalid hsize/COMP layout"));
    }
    let hcomp_bytes = hsize - comp_bytes;
    if hcomp_bytes == 0 {
        return Err(ZparsError::Corrupt("missing HCOMP"));
    }
    if data[end - 1] != 0 {
        return Err(ZparsError::Corrupt("missing HCOMP END"));
    }
    let header = ZpaqBlockHeader {
        start_offset: at,
        level,
        zpaql_type,
        hsize: hsize as u16,
        hh: data[p + 2],
        hm: data[p + 3],
        ph: data[p + 4],
        pm: data[p + 5],
        n_components,
        comp_bytes,
        hcomp_bytes,
        segment_offset: end,
    };
    Ok(Some((header, header_total + 18)))
}

/// Scan a byte buffer for ZPAQ block headers.
///
/// The result is pinned to the reference `scan_from`, a function of the
/// bytes alone: scanning the same buffer twice yields the same header list.
pub fn inspect_bytes(data: &Vec<u8>) -> (r: Result<Vec<ZpaqBlockHeader>, ZparsError>)
    ensures
        match r {
            Ok(v) => scan_from(data@, 0, Seq::empty()) == Some(v@),
            Err(e) => scan_from(data@, 0, Seq::empty()) is None && e is Corrupt,
        },
{
    let mut out: Vec<ZpaqBlockHeader> = Vec::new();
    let mut i: usize = 0;
    let ghost goal = scan_from(data@, 0, Seq::<ZpaqBlockHeader>::empty());
    proof {
        assert(out@ =~= Seq::<ZpaqBlockHeader>::empty());
    }
    loop
        invariant
            i <= data@.len(),
            goal == scan_from(data@, 0, Seq::<ZpaqBlockHeader>::empty()),
            scan_from(data@, i as int, out@) == goal,
        decreases data@.len() - i,
    {
        if data.len() - i <= 18 {
            return Ok(out);
        }
        let found = find_magic(data, i);
        let at = match found {
            Some(a) => a,
            None => {
                return Ok(out);
            },
        };
        match parse_block_header(data, at) {
            Ok(Some((header, consumed))) => {
                proof {
                    lemma_parse_hdr_got(data@, at as int);
                }
                out.push(header);
                i = at + consumed;
            },
            Ok(None) => {
                i = at + 1;
            },
            Err(e) => {
                return Err(e);
            },
        }
    }
}

// ------------------------------------------------------------------
// Segment extraction: specification
// ------------------------------------------------------------------

/// Big-endian value of the four bytes at `s[p..p + 4]`.
pub open spec fn be32_at(s: Seq<u8>, p: int) -> int {
    16777216 * s[p] + 65536 * (s[p + 1] as int) + 256 * (s[p + 2] as int) + s[p + 3]
}

/// One byte from the big-endian chunked stream at `(pos, curr)`, where
/// `curr` counts bytes left in the current chunk.  Yields `-1` for the
/// end-of-stream sentinel (a zero chunk length), or `None` for truncation.
pub open spec fn read_pl_byte(s: Seq<u8>, pos: int, curr: int) -> Option<(int, int, int)> {
    if curr == 0 {
        if pos + 4 > s.len() {
            None
        } else {
            let c = be32_at(s, pos);
            if c == 0 {
                Some((-1, pos + 4, 0))
            } else if pos + 4 >= s.len() {
                None
            } else {
                Some((s[pos + 4] as int, pos + 5, c - 1))
            }
        }
    } else {
        if pos >= s.len() {
            None
        } else {
            Some((s[pos] as int, pos + 1, curr - 1))
        }
    }
}

/// Invariant on the postprocessor: states 0 through 5, a bounded program
/// counter, and in the size-high state only a low byte recorded so far.
pub open spec fn pp_inv(st: int, rem: int) -> bool {
    &&& 0 <= st <= 5
    &&& 0 <= rem <= 65535
    &&& st == 3 ==> rem <= 255
}

/// One postprocessor transition on input `c` (`-1` is the end-of-stream
/// sentinel).  Yields the next state, the next program counter, and the
/// bytes emitted; `None` models `Corrupt`.
pub open spec fn pp_write_spec(st: int, rem: int, c: int) -> Option<(int, int, Seq<u8>)> {
    if st == 0 {
        if c == 0 {
            Some((1, rem, Seq::empty()))
        } else if c == 1 {
            Some((2, rem, Seq::empty()))
        } else {
            None
        }
    } else if st == 1 {
        if c >= 0 {
            Some((1, rem, seq![c as u8]))
        } else {
            Some((1, rem, Seq::empty()))
        }
    } else if st == 2 {
        if c < 0 {
            None
        } else {
            Some((3, c, Seq::empty()))
        }
    } else if st == 3 {
        if c < 0 {
            None
        } else {
            let r2 = rem + 256 * c;
            if r2 == 0 {
                None
            } else {
                Some((4, r2, Seq::empty()))
            }
        }
    } else if st == 4 {
        if c < 0 {
            None
        } else {
            let r2 = if rem <= 0 {
                0
            } else {
                rem - 1
            };
            if r2 == 0 {
                Some((5, 0, Seq::empty()))
            } else {
                Some((4, r2, Seq::empty()))
            }
        }
    } else if st == 5 {
        Some((5, rem, Seq::empty()))
    } else {
        None
    }
}

/// Feed stream bytes to the postprocessor until it reaches an emitting
/// state (pass-through or post-program), as the first segment of a block
/// must before payload data begins.
pub open spec fn prime_pp(s: Seq<u8>, pos: int, curr: int, st: int, rem: int, out: Seq<u8>) -> Option<
    (int, int, int, int, Seq<u8>),
>
    decreases s.len() - pos,
{
    if st == 1 || st == 5 {
        Some((pos, curr, st, rem, out))
    } else {
        match read_pl_byte(s, pos, curr) {
            Option::None => None,
            Option::Some((c, pos2, curr2)) => match pp_write_spec(st, rem, c) {
                Option::None => None,
                Option::Some((st2, rem2, em)) => prime_pp(s, pos2, curr2, st2, rem2, out + em),
            },
        }
    }
}

/// Run stream bytes through the postprocessor until the end-of-stream
/// sentinel, collecting the emitted bytes.
pub open spec fn seg_payload(s: Seq<u8>, pos: int, curr: int, st: int, rem: int, out: Seq<u8>) -> Option<
    (int, int, int, int, Seq<u8>),
>
    decreases s.len() - pos,
{
    match read_pl_byte(s, pos, curr) {
        Option::None => None,
        Option::Some((c, pos2, curr2)) => match pp_write_spec(st, rem, c) {
            Option::None => None,
            Option::Some((st2, rem2, em)) => if c < 0 {
                Some((pos2, curr2, st2, rem2, out + em))
            } else {
                seg_payload(s, pos2, curr2, st2, rem2, out + em)
            },
        },
    }
}

/// Position of the null terminator of the string starting at `pos`.
pub open spec fn cstr_end(s: Seq<u8>, pos: int) -> Option<int>
    decreases s.len() - pos,
{
    if pos < 0 || pos >= s.len() {
        None
    } else if s[pos] == 0 {
        Some(pos)
    } else {
        cstr_end(s, pos + 1)
    }
}

/// Everything one segment contributes: its fields and the reader state left
/// for the next segment.
pub ghost struct SegStep {
    pub fname: Seq<u8>,
    pub comment: Seq<u8>,
    pub data: Seq<u8>,
    pub sha1: Option<Seq<u8>>,
    pub pos: int,
    pub curr: int,
    pub st: int,
    pub rem: int,
}

/// End-of-segment marker: 254 closes the segment, 253 carries a 20-byte
/// SHA-1 trailer first.
pub open spec fn seg_finish(
    s: Seq<u8>,
    pos0: int,
    fe: int,
    ce: int,
    p2: int,
    c2: int,
    st2: int,
    rem2: int,
    dat: Seq<u8>,
) -> Option<SegStep> {
    if p2 >= s.len() {
        None
    } else {
        let endm = s[p2];
        if endm == 254 {
            Some(
                SegStep {
                    fname: s.subrange(pos0, fe),
                    comment: s.subrange(fe + 1, ce),
                    data: dat,
                    sha1: None,
                    pos: p2 + 1,
                    curr: c2,
                    st: st2,
                    rem: rem2,
                },
            )
        } else if endm == 253 {
            if p2 + 21 > s.len() {
                None
            } else {
                Some(
                    SegStep {
                        fname: s.subrange(pos0, fe),
                        comment: s.subrange(fe + 1, ce),
                        data: dat,
                        sha1: Some(s.subrange(p2 + 1, p2 + 21)),
                        pos: p2 + 21,
                        curr: c2,
                        st: st2,
                        rem: rem2,
                    },
                )
            }
        } else {
            None
        }
    }
}

/// One segment, starting at its filename (the begin marker is already
/// consumed): filename, comment, a reserved zero byte, priming for the
/// first segment of a block, the payload, and the end marker.
pub open spec fn seg_one(s: Seq<u8>, pos: int, curr: int, st: int, rem: int, first: bool) -> Option<
    SegStep,
> {
    match cstr_end(s, pos) {
        Option::None => None,
        Option::Some(fe) => match cstr_end(s, fe + 1) {
            Option::None => None,
            Option::Some(ce) => {
                let rp = ce + 1;
                if rp >= s.len() || s[rp] != 0 {
                    None
                } else {
                    let p0 = rp + 1;
                    let pr = if first {
                        prime_pp(s, p0, curr, st, rem, Seq::empty())
                    } else {
                        Some((p0, curr, st, rem, Seq::<u8>::empty()))
                    };
                    match pr {
                        Option::None => None,
                        Option::Some((p1, c1, st1, rem1, em1)) => match seg_payload(
                            s,
                            p1,
                            c1,
                            st1,
                            rem1,
                            em1,
                        ) {
                            Option::None => None,
                            Option::Some((p2, c2, st2, rem2, dat)) => seg_finish(
                                s,
                                pos,
                                fe,
                                ce,
                                p2,
                                c2,
                                st2,
                                rem2,
                                dat,
                            ),
                        },
                    }
                }
            },
        },
    }
}

/// One extracted segment, as the specification sees it.
pub ghost struct SegSpec {
    pub block_index: int,
    pub filename: Seq<u8>,
    pub comment: Seq<u8>,
    pub data: Seq<u8>,
    pub sha1: Option<Seq<u8>>,
}

/// All segments of one block: begin markers (1) until the end-of-block
/// marker (255).
pub open spec fn read_block_segments(
    s: Seq<u8>,
    pos: int,
    curr: int,
    st: int,
    rem: int,
    first: bool,
    bidx: int,
    acc: Seq<SegSpec>,
) -> Option<(int, Seq<SegSpec>)>
    decreases s.len() - pos,
{
    if pos < 0 || pos >= s.len() {
        None
    } else if s[pos] == 255 {
        Some((pos + 1, acc))
    } else if s[pos] != 1 {
        None
    } else {
        match seg_one(s, pos + 1, curr, st, rem, first) {
            Option::None => None,
            Option::Some(sg) => {
                if sg.pos <= pos || sg.pos > s.len() {
                    None
                } else {
                    read_block_segments(
                        s,
                        sg.pos,
                        sg.curr,
                        sg.st,
                        sg.rem,
                        false,
                        bidx,
                        acc.push(
                            SegSpec {
                                block_index: bidx,
                                filename: sg.fname,
                                comment: sg.comment,
                                data: sg.data,
                                sha1: sg.sha1,
                            },
                        ),
                    )
                }
            },
        }
    }
}

/// Result of extracting a whole buffer.
pub ghost enum ExtractDecode {
    /// The extracted segments, in stream order.
    Segs(Seq<SegSpec>),
    /// A block with predictive components was found.
    Modeled,
    /// A structurally broken header or segment.
    Bad,
}

/// Reference extraction: scan for blocks as `scan_from` does, reject
/// modeled blocks, and read each unmodeled block's segments with a fresh
/// chunk reader and postprocessor.
pub open spec fn extract_from(s: Seq<u8>, i: int, bidx: int, acc: Seq<SegSpec>) -> ExtractDecode
    decreases s.len() - i,
{
    if !(i + 18 < s.len()) {
        ExtractDecode::Segs(acc)
    } else {
        match first_magic_from(s, i) {
            Option::None => ExtractDecode::Segs(acc),
            Option::Some(at) => {
                if !(i <= at && at + 16 <= s.len()) {
                    ExtractDecode::Segs(acc)
                } else {
                    match parse_hdr(s, at) {
                        HdrParse::PBad => ExtractDecode::Bad,
                        HdrParse::PSkip => extract_from(s, at + 1, bidx, acc),
                        HdrParse::PGot(h, consumed) => {
                            if h.n_components != 0 {
                                ExtractDecode::Modeled
                            } else {
                                match read_block_segments(
                                    s,
                                    h.segment_offset as int,
                                    0,
                                    0,
                                    0,
                                    true,
                                    bidx,
                                    acc,
                                ) {
                                    Option::None => ExtractDecode::Bad,
                                    Option::Some((pos2, acc2)) => {
                                        let ni = if pos2 > at + consumed {
                                            pos2
                                        } else {
                                            at + consumed
                                        };
                                        if ni <= i || ni > s.len() {
                                            ExtractDecode::Bad
                                        } else {
                                            extract_from(s, ni, bidx + 1, acc2)
                                        }
                                    },
                                }
                            }
                        },
                    }
                }
            },
        }
    }
}

// ------------------------------------------------------------------
// Segment extraction: executable code
// ------------------------------------------------------------------

/// One segment extracted from an unmodeled ZPAQ block.
#[derive(Debug, Clone)]
pub struct ZpaqExtractedSegment {
    /// Index of the block the segment came from.
    pub block_index: usize,
    /// Null-terminated filename, decoded lossily for display.
    pub filename: String,
    /// Null-terminated comment, decoded lossily for display.
    pub comment: String,
    /// Decoded payload bytes.
    pub data: Vec<u8>,
    /// Optional 20-byte SHA-1 trailer.
    pub sha1: Option<Vec<u8>>,
}

/// What an extracted segment stands for in the model.
pub open spec fn seg_matches(e: ZpaqExtractedSegment, m: SegSpec) -> bool {
    &&& e.block_index as int == m.block_index
    &&& e.filename@ == lossy_utf8(m.filename)
    &&& e.comment@ == lossy_utf8(m.comment)
    &&& e.data@ == m.data
    &&& (m.sha1 is Some ==> e.sha1 is Some && e.sha1->Some_0@ == m.sha1->Some_0)
    &&& (m.sha1 is None ==> e.sha1 is None)
}

pub open spec fn segs_match(v: Seq<ZpaqExtractedSegment>, m: Seq<SegSpec>) -> bool {
    v.len() == m.len() && forall|k: int| 0 <= k < m.len() ==> seg_matches(#[trigger] v[k], m[k])
}

/// The character sequence `String::from_utf8_lossy` assigns to a byte
/// sequence.
pub uninterp spec fn lossy_utf8(bytes: Seq<u8>) -> Seq<char>;

/// Relies on String::from_utf8_lossy: the result depends on the bytes
/// alone; invalid UTF-8 is replaced, never rejected.
#[verifier::external_body]
fn utf8_lossy(bytes: &Vec<u8>) -> (r: String)
    ensures
        r@ == lossy_utf8(bytes@),
{
    String::from_utf8_lossy(bytes).into_owned()
}

/// Read the byte at `*pos` and advance, or report truncation under the
/// caller's label.
fn get_required(data: &Vec<u8>, pos: &mut usize, what: &'static str) -> (r: Result<u8, ZparsError>)
    requires
        *old(pos) <= data@.len(),
    ensures
        match r {
            Ok(b) => *old(pos) < data@.len() && b == data@[*old(pos) as int] && *final(pos) == *old(
                pos,
            ) + 1,
            Err(e) => *old(pos) >= data@.len() && e is Corrupt && e->Corrupt_0@ == what@
                && *final(pos) == *old(pos),
        },
{
    if *pos >= data.len() {
        return Err(ZparsError::Corrupt(what));
    }
    let b = data[*pos];
    *pos += 1;
    Ok(b)
}

/// Read a big-endian `u32` chunk length.
fn read_u32_be(data: &Vec<u8>, pos: &mut usize) -> (r: Result<u32, ZparsError>)
    requires
        *old(pos) <= data@.len(),
    ensures
        match r {
            Ok(x) => *old(pos) + 4 <= data@.len() && x as int == be32_at(data@, *old(pos) as int)
                && *final(pos) == *old(pos) + 4,
            Err(e) => *old(pos) + 4 > data@.len() && e is Corrupt && e->Corrupt_0@ == "u32"@
                && *final(pos) == data@.len(),
        },
{
    let b0 = match get_required(data, pos, "u32") {
        Ok(b) => b,
        Err(e) => {
            return Err(e);
        },
    };
    let b1 = match get_required(data, pos, "u32") {
        Ok(b) => b,
        Err(e) => {
            return Err(e);
        },
    };
    let b2 = match get_required(data, pos, "u32") {
        Ok(b) => b,
        Err(e) => {
            return Err(e);
        },
    };
    let b3 = match get_required(data, pos, "u32") {
        Ok(b) => b,
        Err(e) => {
            return Err(e);
        },
    };
    Ok(16777216 * (b0 as u32) + 65536 * (b1 as u32) + 256 * (b2 as u32) + (b3 as u32))
}

/// One byte of the big-endian chunked payload stream; `-1` is the
/// end-of-stream sentinel.
fn decompress_unmodeled_byte(data: &Vec<u8>, pos: &mut usize, curr: &mut u32) -> (r: Result<
    i32,
    ZparsError,
>)
    requires
        *old(pos) <= data@.len(),
    ensures
        match read_pl_byte(data@, *old(pos) as int, *old(curr) as int) {
            Option::None => {
                &&& r is Err && r->Err_0 is Corrupt
                &&& *final(pos) == data@.len()
                &&& *old(curr) == 0 && *old(pos) + 4 > data@.len() ==> r->Err_0->Corrupt_0@
                    == "u32"@
                &&& *old(curr) == 0 && *old(pos) + 4 <= data@.len() ==> r->Err_0->Corrupt_0@
                    == "compressed payload"@
                &&& *old(curr) != 0 ==> r->Err_0->Corrupt_0@ == "compressed payload"@
            },
            Option::Some((c, p2, c2)) => r is Ok && r->Ok_0 as int == c && *final(pos) == p2
                && *final(curr) as int == c2 && -1 <= c <= 255 && *old(pos) < p2 <= data@.len(),
        },
{
    if *curr == 0 {
        let x = match read_u32_be(data, pos) {
            Ok(x) => x,
            Err(e) => {
                return Err(e);
            },
        };
        if x == 0 {
            return Ok(-1);
        }
        *curr = x;
    }
    *curr = *curr - 1;
    let b = match get_required(data, pos, "compressed payload") {
        Ok(b) => b,
        Err(e) => {
            return Err(e);
        },
    };
    Ok(b as i32)
}

/// Read a null-terminated byte string and decode it lossily.
fn read_cstr(data: &Vec<u8>, pos: &mut usize) -> (r: Result<String, ZparsError>)
    requires
        *old(pos) <= data@.len(),
    ensures
        match r {
            Ok(s) => ({
                &&& cstr_end(data@, *old(pos) as int) matches Some(e0) && s@ == lossy_utf8(
                    data@.subrange(*old(pos) as int, e0),
                ) && *final(pos) == e0 + 1 && *old(pos) <= e0 < data@.len()
            }),
            Err(e) => cstr_end(data@, *old(pos) as int) is None && e is Corrupt && e->Corrupt_0@
                == "cstr"@ && *final(pos) == data@.len(),
        },
{
    let ghost p0 = *pos as int;
    let mut bytes: Vec<u8> = Vec::new();
    proof {
        assert(data@.subrange(p0, p0) =~= Seq::<u8>::empty());
    }
    loop
        invariant
            p0 == *old(pos) as int,
            p0 <= *pos as int <= data@.len(),
            bytes@ == data@.subrange(p0, *pos as int),
            cstr_end(data@, *pos as int) == cstr_end(data@, p0),
        decreases data@.len() - *pos,
    {
        let c = match get_required(data, pos, "cstr") {
            Ok(c) => c,
            Err(e) => {
                return Err(e);
            },
        };
        if c == 0 {
            return Ok(utf8_lossy(&bytes));
        }
        proof {
            assert(data@.subrange(p0, *pos as int) =~= data@.subrange(p0, *pos - 1).push(
                data@[*pos - 1],
            ));
        }
        bytes.push(c);
    }
}

/// Postprocessor over a segment payload: pass bytes through, or absorb an
/// embedded program header and then consume without emitting.
struct PassOrProgramPostProcessor {
    state: u8,
    program_remaining: usize,
    program_mode: bool,
    ph: u8,
    pm: u8,
}

impl PassOrProgramPostProcessor {
    /// A fresh postprocessor in the type-byte state.
    fn new(ph: u8, pm: u8) -> (r: Self)
        ensures
            r.state == 0 && r.program_remaining == 0,
    {
        PassOrProgramPostProcessor { state: 0, program_remaining: 0, program_mode: false, ph, pm }
    }

    fn state(&self) -> (s: u8)
        ensures
            s == self.state,
    {
        self.state
    }

    /// Feed one payload byte (or the `-1` sentinel); implements exactly
    /// `pp_write_spec`.  On every error the machine and the output buffer
    /// are left unchanged, and the reason names the defect.
    fn write(&mut self, c: i32, out: &mut Vec<u8>) -> (r: Result<(), ZparsError>)
        requires
            pp_inv(old(self).state as int, old(self).program_remaining as int),
            -1 <= c <= 255,
        ensures
            match pp_write_spec(
                old(self).state as int,
                old(self).program_remaining as int,
                c as int,
            ) {
                Option::None => {
                    &&& r is Err && r->Err_0 is Corrupt
                    &&& *final(self) == *old(self)
                    &&& final(out)@ == old(out)@
                    &&& old(self).state == 0 && c < 0 ==> r->Err_0->Corrupt_0@
                        == "unexpected EOS in postprocessor header"@
                    &&& old(self).state == 0 && c >= 2 ==> r->Err_0->Corrupt_0@
                        == "unknown postprocessing type"@
                    &&& old(self).state == 2 && c < 0 ==> r->Err_0->Corrupt_0@
                        == "unexpected EOS reading PCOMP size low"@
                    &&& old(self).state == 3 && c < 0 ==> r->Err_0->Corrupt_0@
                        == "unexpected EOS reading PCOMP size high"@
                    &&& old(self).state == 3 && c >= 0 ==> r->Err_0->Corrupt_0@ == "empty PCOMP"@
                    &&& old(self).state == 4 && c < 0 ==> r->Err_0->Corrupt_0@
                        == "unexpected EOS reading PCOMP body"@
                },
                Option::Some((st2, rem2, em)) => r is Ok && final(self).state as int == st2
                    && final(self).program_remaining as int == rem2 && final(out)@ == old(out)@ + em
                    && pp_inv(st2, rem2),
            },
    {
        let st = self.state;
        if st == 0 {
            if c == 0 {
                self.state = 1;
                Ok(())
            } else if c == 1 {
                self.state = 2;
                Ok(())
            } else if c < 0 {
                Err(ZparsError::Corrupt("unexpected EOS in postprocessor header"))
            } else {
                Err(ZparsError::Corrupt("unknown postprocessing type"))
            }
        } else if st == 1 {
            if c >= 0 {
                out.push(c as u8);
                proof {
                    assert(out@ =~= old(out)@ + seq![(c as int) as u8]);
                }
            } else {
                proof {
                    assert(out@ =~= old(out)@ + Seq::<u8>::empty());
                }
            }
            Ok(())
        } else if st == 2 {
            if c < 0 {
                return Err(ZparsError::Corrupt("unexpected EOS reading PCOMP size low"));
            }
            self.program_remaining = c as usize;
            self.state = 3;
            Ok(())
        } else if st == 3 {
            if c < 0 {
                return Err(ZparsError::Corrupt("unexpected EOS reading PCOMP size high"));
            }
            let size = self.program_remaining + 256 * (c as usize);
            if size == 0 {
                return Err(ZparsError::Corrupt("empty PCOMP"));
            }
            self.program_remaining = size;
            self.state = 4;
            Ok(())
        } else if st == 4 {
            if c < 0 {
                return Err(ZparsError::Corrupt("unexpected EOS reading PCOMP body"));
            }
            if self.program_remaining > 0 {
                self.program_remaining = self.program_remaining - 1;
            }
            if self.program_remaining == 0 {
                self.program_mode = true;
                self.state = 5;
            }
            Ok(())
        } else if st == 5 {
            Ok(())
        } else {
            Err(ZparsError::Corrupt("invalid postprocessor state"))
        }
    }
}

/// Read one segment: filename, comment, reserved byte, payload, end marker.
fn read_one_segment(
    data: &Vec<u8>,
    pos: &mut usize,
    curr: &mut u32,
    pp: &mut PassOrProgramPostProcessor,
    first: bool,
) -> (r: Result<(String, String, Vec<u8>, Option<Vec<u8>>), ZparsError>)
    requires
        *old(pos) <= data@.len(),
        pp_inv(old(pp).state as int, old(pp).program_remaining as int),
    ensures
        match seg_one(
            data@,
            *old(pos) as int,
            *old(curr) as int,
            old(pp).state as int,
            old(pp).program_remaining as int,
            first,
        ) {
            Option::None => r is Err && r->Err_0 is Corrupt,
            Option::Some(sg) => {
                &&& r is Ok
                &&& r->Ok_0.0@ == lossy_utf8(sg.fname)
                &&& r->Ok_0.1@ == lossy_utf8(sg.comment)
                &&& r->Ok_0.2@ == sg.data
                &&& (sg.sha1 is Some ==> r->Ok_0.3 is Some && r->Ok_0.3->Some_0@ == sg.sha1->Some_0)
                &&& (sg.sha1 is None ==> r->Ok_0.3 is None)
                &&& *final(pos) == sg.pos
                &&& *final(curr) as int == sg.curr
                &&& final(pp).state as int == sg.st
                &&& final(pp).program_remaining as int == sg.rem
                &&& pp_inv(sg.st, sg.rem)
                &&& *old(pos) < sg.pos <= data@.len()
            },
        },
{
    let ghost p0 = *pos as int;
    let ghost curr0 = *curr as int;
    let ghost st0 = pp.state as int;
    let ghost rem0 = pp.program_remaining as int;
    let ghost sg1 = seg_one(data@, p0, curr0, st0, rem0, first);
    let filename = match read_cstr(data, pos) {
        Ok(s) => s,
        Err(e) => {
            return Err(e);
        },
    };
    let ghost fe = (*pos - 1) as int;
    let comment = match read_cstr(data, pos) {
        Ok(s) => s,
        Err(e) => {
            return Err(e);
        },
    };
    let ghost ce = (*pos - 1) as int;
    let rb = match get_required(data, pos, "reserved byte") {
        Ok(b) => b,
        Err(e) => {
            return Err(e);
        },
    };
    if rb != 0 {
        return Err(ZparsError::Corrupt("missing reserved byte after comment"));
    }
    let mut segment_data: Vec<u8> = Vec::new();
    proof {
        assert(segment_data@ =~= Seq::<u8>::empty());
    }
    if first {
        while (pp.state() & 3) != 1
            invariant
                *pos as int <= data@.len(),
                pp_inv(pp.state as int, pp.program_remaining as int),
                0 <= p0 <= fe < ce < *pos as int,
                sg1 == seg_one(
                    data@,
                    *old(pos) as int,
                    *old(curr) as int,
                    old(pp).state as int,
                    old(pp).program_remaining as int,
                    first,
                ),
                ({
                    let pr = prime_pp(
                        data@,
                        *pos as int,
                        *curr as int,
                        pp.state as int,
                        pp.program_remaining as int,
                        segment_data@,
                    );
                    sg1 == match pr {
                        Option::None => Option::<SegStep>::None,
                        Option::Some((q1, d1, t1, m1, e1)) => match seg_payload(
                            data@,
                            q1,
                            d1,
                            t1,
                            m1,
                            e1,
                        ) {
                            Option::None => Option::<SegStep>::None,
                            Option::Some((q2, d2, t2, m2, dat)) => seg_finish(
                                data@,
                                p0,
                                fe,
                                ce,
                                q2,
                                d2,
                                t2,
                                m2,
                                dat,
                            ),
                        },
                    }
                }),
            decreases data@.len() - *pos,
        {
            proof {
                let stv = pp.state;
                assert(stv <= 5 ==> ((stv & 3) == 1 <==> (stv == 1 || stv == 5))) by (bit_vector);
            }
            let c = match decompress_unmodeled_byte(data, pos, curr) {
                Ok(c) => c,
                Err(e) => {
                    return Err(e);
                },
            };
            match pp.write(c, &mut segment_data) {
                Ok(_) => {},
                Err(e) => {
                    return Err(e);
                },
            }
        }
        proof {
            let stv = pp.state;
            assert(stv <= 5 ==> ((stv & 3) == 1 <==> (stv == 1 || stv == 5))) by (bit_vector);
        }
    }
    loop
        invariant_except_break
            *pos as int <= data@.len(),
            pp_inv(pp.state as int, pp.program_remaining as int),
            0 <= p0 <= fe < ce < *pos as int,
            sg1 == seg_one(
                data@,
                *old(pos) as int,
                *old(curr) as int,
                old(pp).state as int,
                old(pp).program_remaining as int,
                first,
            ),
            ({
                let pl = seg_payload(
                    data@,
                    *pos as int,
                    *curr as int,
                    pp.state as int,
                    pp.program_remaining as int,
                    segment_data@,
                );
                sg1 == match pl {
                    Option::None => Option::<SegStep>::None,
                    Option::Some((q2, d2, t2, m2, dat)) => seg_finish(
                        data@,
                        p0,
                        fe,
                        ce,
                        q2,
                        d2,
                        t2,
                        m2,
                        dat,
                    ),
                }
            }),
        ensures
            *pos as int <= data@.len(),
            pp_inv(pp.state as int, pp.program_remaining as int),
            0 <= p0 <= fe < ce < *pos as int,
            sg1 == seg_one(
                data@,
                *old(pos) as int,
                *old(curr) as int,
                old(pp).state as int,
                old(pp).program_remaining as int,
                first,
            ),
            sg1 == seg_finish(
                data@,
                p0,
                fe,
                ce,
                *pos as int,
                *curr as int,
                pp.state as int,
                pp.program_remaining as int,
                segment_data@,
            ),
        decreases data@.len() - *pos,
    {
        let c = match decompress_unmodeled_byte(data, pos, curr) {
            Ok(c) => c,
            Err(e) => {
                return Err(e);
            },
        };
        match pp.write(c, &mut segment_data) {
            Ok(_) => {},
            Err(e) => {
                return Err(e);
            },
        }
        if c < 0 {
            break;
        }
    }
    let ghost p2 = *pos as int;
    let ghost c2g = *curr as int;
    let ghost st2g = pp.state as int;
    let ghost rem2g = pp.program_remaining as int;
    let ghost datg = segment_data@;
    let seg_end = match get_required(data, pos, "segment end marker") {
        Ok(b) => b,
        Err(e) => {
            return Err(e);
        },
    };
    let sha1: Option<Vec<u8>> = if seg_end == 254 {
        None
    } else if seg_end == 253 {
        let mut sum: Vec<u8> = Vec::new();
        let mut k: usize = 0;
        proof {
            assert(data@.subrange(p2 + 1, p2 + 1) =~= Seq::<u8>::empty());
        }
        while k < 20
            invariant
                k <= 20,
                p2 + 1 + k == *pos as int,
                *pos as int <= data@.len(),
                0 <= p2 < data@.len(),
                data@[p2] == 253,
                sum@ == data@.subrange(p2 + 1, p2 + 1 + k),
                sg1 == seg_one(
                    data@,
                    *old(pos) as int,
                    *old(curr) as int,
                    old(pp).state as int,
                    old(pp).program_remaining as int,
                    first,
                ),
                sg1 == seg_finish(data@, p0, fe, ce, p2, c2g, st2g, rem2g, datg),
            decreases 20 - k,
        {
            let b = match get_required(data, pos, "sha1 byte") {
                Ok(b) => b,
                Err(e) => {
                    proof {
                        assert(p2 + 21 > data@.len());
                        assert(seg_finish(data@, p0, fe, ce, p2, c2g, st2g, rem2g, datg)
                            is None);
                    }
                    return Err(e);
                },
            };
            proof {
                assert(data@.subrange(p2 + 1, p2 + 1 + (k + 1)) =~= data@.subrange(
                    p2 + 1,
                    p2 + 1 + k,
                ).push(data@[p2 + 1 + k]));
            }
            sum.push(b);
            k += 1;
        }
        Some(sum)
    } else {
        return Err(ZparsError::Corrupt("missing end-of-segment marker"));
    };
    Ok((filename, comment, segment_data, sha1))
}

/// Extract every segment of every unmodeled block in the buffer.
///
/// The result is pinned to the reference `extract_from`, a function of the
/// bytes alone.  A block with predictive components is rejected as
/// `InvalidFormat`; a structural defect behind a short start tag is
/// `Corrupt`.
pub fn extract_unmodeled_bytes(data: &Vec<u8>) -> (r: Result<Vec<ZpaqExtractedSegment>, ZparsError>)
    ensures
        match extract_from(data@, 0, 0, Seq::empty()) {
            ExtractDecode::Segs(ss) => r is Ok && segs_match(r->Ok_0@, ss),
            ExtractDecode::Modeled => r is Err && r->Err_0 is InvalidFormat
                && r->Err_0->InvalidFormat_0@
                == "modeled blocks are not supported yet; use zpaq -m0 for now"@,
            ExtractDecode::Bad => r is Err && r->Err_0 is Corrupt,
        },
{
    let mut out: Vec<ZpaqExtractedSegment> = Vec::new();
    let ghost mut models: Seq<SegSpec> = Seq::empty();
    let mut i: usize = 0;
    let mut block_index: usize = 0;
    let ghost egoal = extract_from(data@, 0, 0, Seq::<SegSpec>::empty());
    proof {
        assert(out@ =~= Seq::<ZpaqExtractedSegment>::empty());
    }
    loop
        invariant
            i <= data@.len(),
            block_index <= i,
            egoal == extract_from(data@, 0, 0, Seq::<SegSpec>::empty()),
            extract_from(data@, i as int, block_index as int, models) == egoal,
            segs_match(out@, models),
        decreases data@.len() - i,
    {
        if data.len() - i <= 18 {
            return Ok(out);
        }
        let found = find_magic(data, i);
        let at = match found {
            Some(a) => a,
            None => {
                return Ok(out);
            },
        };
        let (header, consumed) = match parse_block_header(data, at) {
            Ok(Some(hc)) => hc,
            Ok(None) => {
                i = at + 1;
                continue;
            },
            Err(e) => {
                return Err(e);
            },
        };
        proof {
            lemma_parse_hdr_got(data@, at as int);
        }
        if header.n_components != 0 {
            return Err(
                ZparsError::InvalidFormat(
                    "modeled blocks are not supported yet; use zpaq -m0 for now",
                ),
            );
        }
        let ghost models_start = models;
        let mut pos: usize = header.segment_offset;
        let mut dec_curr: u32 = 0;
        let mut pp = PassOrProgramPostProcessor::new(header.ph, header.pm);
        let mut first_segment = true;
        let ghost bgoal = read_block_segments(
            data@,
            header.segment_offset as int,
            0,
            0,
            0,
            true,
            block_index as int,
            models_start,
        );
        proof {
            assert(bgoal is None ==> egoal == ExtractDecode::Bad);
            assert(pos as int <= data@.len());
        }
        let mut block_end: usize = 0;
        loop
            invariant_except_break
                pos as int <= data@.len(),
                pp_inv(pp.state as int, pp.program_remaining as int),
                segs_match(out@, models),
                egoal == extract_from(data@, 0, 0, Seq::<SegSpec>::empty()),
                bgoal is None ==> egoal == ExtractDecode::Bad,
                bgoal == read_block_segments(
                    data@,
                    pos as int,
                    dec_curr as int,
                    pp.state as int,
                    pp.program_remaining as int,
                    first_segment,
                    block_index as int,
                    models,
                ),
            ensures
                bgoal == Some((block_end as int, models)),
                pos == block_end,
                block_end as int <= data@.len(),
                segs_match(out@, models),
            decreases data@.len() - pos,
        {
            let ghost marker_pos = pos as int;
            let ghost curr_b = dec_curr as int;
            let ghost st_b = pp.state as int;
            let ghost rem_b = pp.program_remaining as int;
            let ghost first_b = first_segment;
            let marker = match get_required(data, &mut pos, "segment marker") {
                Ok(b) => b,
                Err(e) => {
                    return Err(e);
                },
            };
            if marker == 255 {
                block_end = pos;
                break;
            }
            if marker != 1 {
                return Err(ZparsError::Corrupt("missing segment or end-of-block marker"));
            }
            let (filename, comment, seg_data, sha1) = match read_one_segment(
                data,
                &mut pos,
                &mut dec_curr,
                &mut pp,
                first_segment,
            ) {
                Ok(t) => t,
                Err(e) => {
                    return Err(e);
                },
            };
            let seg = ZpaqExtractedSegment {
                block_index,
                filename,
                comment,
                data: seg_data,
                sha1,
            };
            proof {
                let sgo = seg_one(data@, marker_pos + 1, curr_b, st_b, rem_b, first_b);
                let sgv = sgo->Some_0;
                let m = SegSpec {
                    block_index: block_index as int,
                    filename: sgv.fname,
                    comment: sgv.comment,
                    data: sgv.data,
                    sha1: sgv.sha1,
                };
                assert(seg_matches(seg, m));
                let old_models = models;
                models = models.push(m);
                assert forall|k: int| 0 <= k < models.len() implies seg_matches(
                    #[trigger] out@.push(seg)[k],
                    models[k],
                ) by {
                    if k < old_models.len() {
                        assert(seg_matches(out@[k], old_models[k]));
                    }
                }
            }
            out.push(seg);
            first_segment = false;
        }
        let next = if pos > at + consumed {
            pos
        } else {
            at + consumed
        };
        proof {
            assert(extract_from(data@, i as int, block_index as int, models_start) == egoal);
            assert(at + consumed <= data@.len());
            assert(next as int <= data@.len());
            assert(next > i);
            assert(extract_from(data@, next as int, block_index as int + 1, models) == egoal);
        }
        i = next;
        block_index += 1;
    }
}

// ------------------------------------------------------------------
// Scanner tolerance: appended noise
// ------------------------------------------------------------------

/// No magic occurrence starts in the last 17 bytes of `d` or anywhere in
/// the appended noise `q`: every occurrence in `d + q` lies where the scan
/// of `d` alone can also see it.
pub open spec fn tail_clean(d: Seq<u8>, q: Seq<u8>) -> bool {
    forall|j: int| j + 18 >= d.len() ==> !#[trigger] magic_at(d + q, j)
}

/// A magic occurrence that fits inside `d` is unaffected by appended bytes.
proof fn lemma_magic_prefix(d: Seq<u8>, q: Seq<u8>, m: int)
    requires
        0 <= m,
        m + 16 <= d.len(),
    ensures
        magic_at(d + q, m) <==> magic_at(d, m),
{
    assert((d + q).subrange(m, m + 16) =~= d.subrange(m, m + 16));
}

proof fn lemma_first_magic_stable(d: Seq<u8>, q: Seq<u8>, i: int)
    requires
        0 <= i,
        tail_clean(d, q),
    ensures
        first_magic_from(d + q, i) == first_magic_from(d, i),
    decreases (d + q).len() - i,
{
    let s = d + q;
    if i + 16 > s.len() {
    } else if i + 16 > d.len() {
        assert(!magic_at(s, i));
        lemma_first_magic_stable(d, q, i + 1);
    } else {
        lemma_magic_prefix(d, q, i);
        if i + 18 >= d.len() {
            assert(!magic_at(s, i));
            assert(!magic_at(d, i));
            lemma_first_magic_stable(d, q, i + 1);
        } else if magic_at(d, i) {
        } else {
            lemma_first_magic_stable(d, q, i + 1);
        }
    }
}

proof fn lemma_comp_walk_stable(d: Seq<u8>, q: Seq<u8>, cp: int, end: int, count: int)
    requires
        0 <= cp,
        end <= d.len(),
    ensures
        comp_walk(d + q, cp, end, count) == comp_walk(d, cp, end, count),
    decreases count,
{
    if count <= 0 || cp >= end {
    } else {
        assert((d + q)[cp] == d[cp]);
        let t = d[cp] as int;
        if comp_size(t) != 0 && cp + comp_size(t) <= end {
            lemma_comp_walk_stable(d, q, cp + comp_size(t), end, count - 1);
        }
    }
}

proof fn lemma_parse_hdr_stable(d: Seq<u8>, q: Seq<u8>, at: int)
    requires
        0 <= at,
        at + 18 <= d.len(),
        !(parse_hdr(d, at) is PBad),
    ensures
        parse_hdr(d + q, at) == parse_hdr(d, at),
{
    let s = d + q;
    assert(s.subrange(at, at + 13) =~= d.subrange(at, at + 13));
    assert(s[at + 16] == d[at + 16] && s[at + 17] == d[at + 17]);
    if d.subrange(at, at + 13) == tag13() && (d[at + 16] == 1 || d[at + 16] == 2) && d[at + 17]
        == 1 {
        let p = at + 18;
        assert(!(p + 7 > d.len()));
        assert(s[p] == d[p] && s[p + 1] == d[p + 1]);
        let hsize = d[p] + 256 * (d[p + 1] as int);
        let header_total = hsize + 2;
        assert(!(p + header_total > d.len()));
        assert(s[p + 6] == d[p + 6]);
        lemma_comp_walk_stable(d, q, p + 7, p + header_total, d[p + 6] as int);
        match comp_walk(d, p + 7, p + header_total, d[p + 6] as int) {
            Option::None => {
                assert(parse_hdr(d, at) is PBad);
            },
            Option::Some(cp) => {
                lemma_comp_walk_pos(d, p + 7, p + header_total, d[p + 6] as int);
                if cp < p + header_total {
                    assert(s[cp] == d[cp]);
                }
                assert(s[p + 2] == d[p + 2] && s[p + 3] == d[p + 3] && s[p + 4] == d[p + 4]
                    && s[p + 5] == d[p + 5]);
                assert(s[p + header_total - 1] == d[p + header_total - 1]);
            },
        }
    }
}

/// A successful COMP walk never moves backwards.
proof fn lemma_comp_walk_pos(s: Seq<u8>, cp: int, end: int, count: int)
    requires
        comp_walk(s, cp, end, count) is Some,
    ensures
        cp <= comp_walk(s, cp, end, count)->Some_0,
    decreases count,
{
    if count <= 0 || cp >= end {
    } else {
        let t = s[cp] as int;
        if comp_size(t) != 0 && cp + comp_size(t) <= end {
            lemma_comp_walk_pos(s, cp + comp_size(t), end, count - 1);
        }
    }
}

proof fn lemma_cstr_props(s: Seq<u8>, pos: int)
    requires
        cstr_end(s, pos) is Some,
    ensures
        pos <= cstr_end(s, pos)->Some_0 < s.len(),
        s[cstr_end(s, pos)->Some_0] == 0,
    decreases s.len() - pos,
{
    if pos < 0 || pos >= s.len() {
    } else if s[pos] == 0 {
    } else {
        lemma_cstr_props(s, pos + 1);
    }
}

proof fn lemma_cstr_stable(d: Seq<u8>, q: Seq<u8>, pos: int)
    requires
        0 <= pos,
        cstr_end(d, pos) is Some,
    ensures
        cstr_end(d + q, pos) == cstr_end(d, pos),
    decreases d.len() - pos,
{
    assert(pos < d.len());
    assert((d + q)[pos] == d[pos]);
    if d[pos] != 0 {
        lemma_cstr_stable(d, q, pos + 1);
    }
}

proof fn lemma_read_pl_stable(d: Seq<u8>, q: Seq<u8>, pos: int, curr: int)
    requires
        0 <= pos,
        read_pl_byte(d, pos, curr) is Some,
    ensures
        read_pl_byte(d + q, pos, curr) == read_pl_byte(d, pos, curr),
{
    let s = d + q;
    if curr == 0 {
        assert(pos + 4 <= d.len());
        assert(s[pos] == d[pos] && s[pos + 1] == d[pos + 1] && s[pos + 2] == d[pos + 2] && s[pos
            + 3] == d[pos + 3]);
        assert(be32_at(s, pos) == be32_at(d, pos));
        if be32_at(d, pos) != 0 {
            assert(pos + 4 < d.len());
            assert(s[pos + 4] == d[pos + 4]);
        }
    } else {
        assert(pos < d.len());
        assert(s[pos] == d[pos]);
    }
}

proof fn lemma_prime_stable(d: Seq<u8>, q: Seq<u8>, pos: int, curr: int, st: int, rem: int, out: Seq<u8>)
    requires
        0 <= pos,
        prime_pp(d, pos, curr, st, rem, out) is Some,
    ensures
        prime_pp(d + q, pos, curr, st, rem, out) == prime_pp(d, pos, curr, st, rem, out),
    decreases d.len() - pos,
{
    if st == 1 || st == 5 {
    } else {
        lemma_read_pl_stable(d, q, pos, curr);
        match read_pl_byte(d, pos, curr) {
            Option::None => {},
            Option::Some((c, pos2, curr2)) => {
                match pp_write_spec(st, rem, c) {
                    Option::None => {},
                    Option::Some((st2, rem2, em)) => {
                        lemma_prime_stable(d, q, pos2, curr2, st2, rem2, out + em);
                    },
                }
            },
        }
    }
}

proof fn lemma_payload_stable(
    d: Seq<u8>,
    q: Seq<u8>,
    pos: int,
    curr: int,
    st: int,
    rem: int,
    out: Seq<u8>,
)
    requires
        0 <= pos,
        seg_payload(d, pos, curr, st, rem, out) is Some,
    ensures
        seg_payload(d + q, pos, curr, st, rem, out) == seg_payload(d, pos, curr, st, rem, out),
    decreases d.len() - pos,
{
    lemma_read_pl_stable(d, q, pos, curr);
    match read_pl_byte(d, pos, curr) {
        Option::None => {},
        Option::Some((c, pos2, curr2)) => {
            match pp_write_spec(st, rem, c) {
                Option::None => {},
                Option::Some((st2, rem2, em)) => {
                    if c >= 0 {
                        lemma_payload_stable(d, q, pos2, curr2, st2, rem2, out + em);
                    }
                },
            }
        },
    }
}

proof fn lemma_seg_finish_stable(
    d: Seq<u8>,
    q: Seq<u8>,
    pos0: int,
    fe: int,
    ce: int,
    p2: int,
    c2: int,
    st2: int,
    rem2: int,
    dat: Seq<u8>,
)
    requires
        0 <= p2,
        0 <= pos0 <= fe,
        fe + 1 <= ce <= d.len(),
        seg_finish(d, pos0, fe, ce, p2, c2, st2, rem2, dat) is Some,
    ensures
        seg_finish(d + q, pos0, fe, ce, p2, c2, st2, rem2, dat) == seg_finish(
            d,
            pos0,
            fe,
            ce,
            p2,
            c2,
            st2,
            rem2,
            dat,
        ),
{
    let s = d + q;
    assert(p2 < d.len());
    assert(s[p2] == d[p2]);
    if d[p2] == 254 {
        assert(s.subrange(pos0, fe) =~= d.subrange(pos0, fe)) by {
            assert(forall|x: int| 0 <= x < d.len() ==> s[x] == #[trigger] d[x]);
        }
        assert(s.subrange(fe + 1, ce) =~= d.subrange(fe + 1, ce));
    } else if d[p2] == 253 {
        assert(p2 + 21 <= d.len());
        assert(s.subrange(pos0, fe) =~= d.subrange(pos0, fe));
        assert(s.subrange(fe + 1, ce) =~= d.subrange(fe + 1, ce));
        assert(s.subrange(p2 + 1, p2 + 21) =~= d.subrange(p2 + 1, p2 + 21));
    }
}

proof fn lemma_seg_one_stable(
    d: Seq<u8>,
    q: Seq<u8>,
    pos: int,
    curr: int,
    st: int,
    rem: int,
    first: bool,
)
    requires
        0 <= pos,
        seg_one(d, pos, curr, st, rem, first) is Some,
    ensures
        seg_one(d + q, pos, curr, st, rem, first) == seg_one(d, pos, curr, st, rem, first),
{
    lemma_cstr_stable(d, q, pos);
    match cstr_end(d, pos) {
        Option::None => {},
        Option::Some(fe) => {
            lemma_cstr_props(d, pos);
            lemma_cstr_stable(d, q, fe + 1);
            match cstr_end(d, fe + 1) {
                Option::None => {},
                Option::Some(ce) => {
                    lemma_cstr_props(d, fe + 1);
                    let rp = ce + 1;
                    assert(rp < d.len() ==> (d + q)[rp] == d[rp]);
                    if rp < d.len() && d[rp] == 0 {
                        let p0 = rp + 1;
                        let pr = if first {
                            prime_pp(d, p0, curr, st, rem, Seq::<u8>::empty())
                        } else {
                            Option::Some((p0, curr, st, rem, Seq::<u8>::empty()))
                        };
                        if first {
                            lemma_prime_stable(d, q, p0, curr, st, rem, Seq::<u8>::empty());
                        }
                        match pr {
                            Option::None => {},
                            Option::Some((p1, c1, st1, rem1, em1)) => {
                                assert(0 <= p1) by {
                                    if first {
                                        lemma_prime_pos(d, p0, curr, st, rem, Seq::<u8>::empty());
                                    }
                                }
                                lemma_payload_stable(d, q, p1, c1, st1, rem1, em1);
                                match seg_payload(d, p1, c1, st1, rem1, em1) {
                                    Option::None => {},
                                    Option::Some((p2, c2, st2, rem2, dat)) => {
                                        assert(0 <= p2) by {
                                            lemma_payload_pos(d, p1, c1, st1, rem1, em1);
                                        }
                                        lemma_seg_finish_stable(
                                            d,
                                            q,
                                            pos,
                                            fe,
                                            ce,
                                            p2,
                                            c2,
                                            st2,
                                            rem2,
                                            dat,
                                        );
                                    },
                                }
                            },
                        }
                    }
                },
            }
        },
    }
}

/// A successful priming run never moves the cursor backwards past zero.
proof fn lemma_prime_pos(d: Seq<u8>, pos: int, curr: int, st: int, rem: int, out: Seq<u8>)
    requires
        0 <= pos <= d.len(),
        prime_pp(d, pos, curr, st, rem, out) is Some,
    ensures
        ({
            let r = prime_pp(d, pos, curr, st, rem, out)->Some_0;
            pos <= r.0 <= d.len()
        }),
    decreases d.len() - pos,
{
    if st == 1 || st == 5 {
    } else {
        match read_pl_byte(d, pos, curr) {
            Option::None => {},
            Option::Some((c, pos2, curr2)) => {
                match pp_write_spec(st, rem, c) {
                    Option::None => {},
                    Option::Some((st2, rem2, em)) => {
                        lemma_prime_pos(d, pos2, curr2, st2, rem2, out + em);
                    },
                }
            },
        }
    }
}

/// A successful payload run never moves the cursor backwards past zero.
proof fn lemma_payload_pos(d: Seq<u8>, pos: int, curr: int, st: int, rem: int, out: Seq<u8>)
    requires
        0 <= pos,
        seg_payload(d, pos, curr, st, rem, out) is Some,
    ensures
        ({
            let r = seg_payload(d, pos, curr, st, rem, out)->Some_0;
            pos < r.0 <= d.len()
        }),
    decreases d.len() - pos,
{
    match read_pl_byte(d, pos, curr) {
        Option::None => {},
        Option::Some((c, pos2, curr2)) => {
            match pp_write_spec(st, rem, c) {
                Option::None => {},
                Option::Some((st2, rem2, em)) => {
                    if c >= 0 {
                        lemma_payload_pos(d, pos2, curr2, st2, rem2, out + em);
                    }
                },
            }
        },
    }
}

proof fn lemma_block_segments_stable(
    d: Seq<u8>,
    q: Seq<u8>,
    pos: int,
    curr: int,
    st: int,
    rem: int,
    first: bool,
    bidx: int,
    acc: Seq<SegSpec>,
)
    requires
        0 <= pos,
        read_block_segments(d, pos, curr, st, rem, first, bidx, acc) is Some,
    ensures
        read_block_segments(d + q, pos, curr, st, rem, first, bidx, acc) == read_block_segments(
            d,
            pos,
            curr,
            st,
            rem,
            first,
            bidx,
            acc,
        ),
    decreases d.len() - pos,
{
    assert(pos < d.len());
    assert((d + q)[pos] == d[pos]);
    if d[pos] == 255 {
    } else if d[pos] != 1 {
    } else {
        lemma_seg_one_stable(d, q, pos + 1, curr, st, rem, first);
        match seg_one(d, pos + 1, curr, st, rem, first) {
            Option::None => {},
            Option::Some(sg) => {
                if pos < sg.pos <= d.len() {
                    lemma_block_segments_stable(
                        d,
                        q,
                        sg.pos,
                        sg.curr,
                        sg.st,
                        sg.rem,
                        false,
                        bidx,
                        acc.push(
                            SegSpec {
                                block_index: bidx,
                                filename: sg.fname,
                                comment: sg.comment,
                                data: sg.data,
                                sha1: sg.sha1,
                            },
                        ),
                    );
                }
            },
        }
    }
}

proof fn lemma_extract_append_from(d: Seq<u8>, q: Seq<u8>, i: int, bidx: int, acc: Seq<SegSpec>)
    requires
        0 <= i <= d.len(),
        d.len() <= usize::MAX,
        tail_clean(d, q),
        extract_from(d, i, bidx, acc) is Segs,
    ensures
        extract_from(d + q, i, bidx, acc) == extract_from(d, i, bidx, acc),
    decreases d.len() - i,
{
    let s = d + q;
    lemma_first_magic_stable(d, q, i);
    if !(i + 18 < d.len()) {
        if i + 18 < s.len() {
            lemma_first_magic_props(s, i);
            match first_magic_from(s, i) {
                Option::None => {},
                Option::Some(at) => {
                    assert(magic_at(s, at));
                    assert(at + 18 >= d.len());
                    assert(false);
                },
            }
        }
    } else {
        match first_magic_from(d, i) {
            Option::None => {},
            Option::Some(at) => {
                lemma_first_magic_props(d, i);
                assert(at + 16 <= d.len());
                assert(!(at + 18 >= d.len())) by {
                    if at + 18 >= d.len() {
                        lemma_magic_prefix(d, q, at);
                        assert(magic_at(s, at));
                        assert(false);
                    }
                }
                assert(!(parse_hdr(d, at) is PBad));
                lemma_parse_hdr_stable(d, q, at);
                match parse_hdr(d, at) {
                    HdrParse::PBad => {},
                    HdrParse::PSkip => {
                        lemma_extract_append_from(d, q, at + 1, bidx, acc);
                    },
                    HdrParse::PGot(h, consumed) => {
                        if h.n_components == 0 {
                            lemma_parse_hdr_got(d, at);
                            match read_block_segments(
                                d,
                                h.segment_offset as int,
                                0,
                                0,
                                0,
                                true,
                                bidx,
                                acc,
                            ) {
                                Option::None => {},
                                Option::Some((pos2, acc2)) => {
                                    lemma_block_segments_stable(
                                        d,
                                        q,
                                        h.segment_offset as int,
                                        0,
                                        0,
                                        0,
                                        true,
                                        bidx,
                                        acc,
                                    );
                                    let ni = if pos2 > at + consumed {
                                        pos2
                                    } else {
                                        at + consumed
                                    };
                                    if i < ni <= d.len() {
                                        lemma_extract_append_from(d, q, ni, bidx + 1, acc2);
                                    }
                                },
                            }
                        }
                    },
                }
            },
        }
    }
}

/// Scanner tolerance, appended noise: adding bytes after a cleanly ending
/// archive, none of which start a magic tag (nor complete one across the
/// boundary), leaves the extracted segments unchanged.
pub proof fn lemma_extract_append_tolerant(d: Seq<u8>, q: Seq<u8>)
    requires
        d.len() <= usize::MAX,
        tail_clean(d, q),
        extract_from(d, 0, 0, Seq::empty()) is Segs,
    ensures
        extract_from(d + q, 0, 0, Seq::empty()) == extract_from(d, 0, 0, Seq::empty()),
{
    lemma_extract_append_from(d, q, 0, 0, Seq::empty());
}

// ------------------------------------------------------------------
// Scanner tolerance: prepended noise
// ------------------------------------------------------------------

/// No magic occurrence starts in the last 17 bytes of the archive itself,
/// so its scan ends cleanly.
pub open spec fn end_clean(d: Seq<u8>) -> bool {
    forall|j: int| j + 18 >= d.len() ==> !#[trigger] magic_at(d, j)
}

/// A magic occurrence in the shifted region corresponds across the prefix.
proof fn lemma_magic_shift(p: Seq<u8>, d: Seq<u8>, j: int)
    requires
        0 <= j,
    ensures
        magic_at(p + d, p.len() + j) <==> magic_at(d, j),
{
    let pl = p.len() as int;
    if j + 16 <= d.len() {
        assert((p + d).subrange(pl + j, pl + j + 16) =~= d.subrange(j, j + 16));
    }
}

proof fn lemma_first_magic_shift(p: Seq<u8>, d: Seq<u8>, i: int)
    requires
        0 <= i,
    ensures
        first_magic_from(p + d, p.len() + i) == match first_magic_from(d, i) {
            Option::None => Option::<int>::None,
            Option::Some(at) => Option::Some(p.len() + at),
        },
    decreases d.len() - i,
{
    let pl = p.len() as int;
    if i + 16 > d.len() {
    } else {
        lemma_magic_shift(p, d, i);
        if magic_at(d, i) {
        } else {
            lemma_first_magic_shift(p, d, i + 1);
        }
    }
}

proof fn lemma_comp_walk_shift(p: Seq<u8>, d: Seq<u8>, cp: int, end: int, count: int)
    requires
        0 <= cp,
        end <= d.len(),
    ensures
        comp_walk(p + d, p.len() + cp, p.len() + end, count) == match comp_walk(d, cp, end, count) {
            Option::None => Option::<int>::None,
            Option::Some(x) => Option::Some(p.len() + x),
        },
    decreases count,
{
    let pl = p.len() as int;
    if count <= 0 || cp >= end {
    } else {
        assert((p + d)[pl + cp] == d[cp]);
        let t = d[cp] as int;
        if comp_size(t) != 0 && cp + comp_size(t) <= end {
            lemma_comp_walk_shift(p, d, cp + comp_size(t), end, count - 1);
        }
    }
}

/// A header parsed after the prefix, with its two offset fields moved.
pub open spec fn shift_hdr(h: ZpaqBlockHeader, pl: int) -> ZpaqBlockHeader {
    ZpaqBlockHeader {
        start_offset: (h.start_offset + pl) as usize,
        level: h.level,
        zpaql_type: h.zpaql_type,
        hsize: h.hsize,
        hh: h.hh,
        hm: h.hm,
        ph: h.ph,
        pm: h.pm,
        n_components: h.n_components,
        comp_bytes: h.comp_bytes,
        hcomp_bytes: h.hcomp_bytes,
        segment_offset: (h.segment_offset + pl) as usize,
    }
}

proof fn lemma_parse_hdr_shift(p: Seq<u8>, d: Seq<u8>, at: int)
    requires
        0 <= at,
        p.len() + d.len() <= usize::MAX,
    ensures
        parse_hdr(p + d, p.len() + at) == match parse_hdr(d, at) {
            HdrParse::PSkip => HdrParse::PSkip,
            HdrParse::PBad => HdrParse::PBad,
            HdrParse::PGot(h, c) => HdrParse::PGot(shift_hdr(h, p.len() as int), c),
        },
{
    let pl = p.len() as int;
    let s = p + d;
    if at + 18 > d.len() {
    } else {
        assert(s.subrange(pl + at, pl + at + 13) =~= d.subrange(at, at + 13));
        assert(s[pl + at + 16] == d[at + 16] && s[pl + at + 17] == d[at + 17]);
        if d.subrange(at, at + 13) == tag13() && (d[at + 16] == 1 || d[at + 16] == 2) && d[at + 17]
            == 1 {
            let dp = at + 18;
            if dp + 7 > d.len() {
            } else {
                assert(s[pl + dp] == d[dp] && s[pl + dp + 1] == d[dp + 1]);
                let hsize = d[dp] + 256 * (d[dp + 1] as int);
                let header_total = hsize + 2;
                if dp + header_total > d.len() {
                } else {
                    assert(s[pl + dp + 6] == d[dp + 6]);
                    lemma_comp_walk_shift(p, d, dp + 7, dp + header_total, d[dp + 6] as int);
                    match comp_walk(d, dp + 7, dp + header_total, d[dp + 6] as int) {
                        Option::None => {},
                        Option::Some(cp) => {
                            lemma_comp_walk_pos(d, dp + 7, dp + header_total, d[dp + 6] as int);
                            if cp < dp + header_total {
                                assert(s[pl + cp] == d[cp]);
                            }
                            assert(s[pl + dp + 2] == d[dp + 2] && s[pl + dp + 3] == d[dp + 3] && s[pl
                                + dp + 4] == d[dp + 4] && s[pl + dp + 5] == d[dp + 5]);
                            assert(s[pl + dp + header_total - 1] == d[dp + header_total - 1]);
                        },
                    }
                }
            }
        }
    }
}

proof fn lemma_cstr_shift(p: Seq<u8>, d: Seq<u8>, pos: int)
    requires
        0 <= pos,
    ensures
        cstr_end(p + d, p.len() + pos) == match cstr_end(d, pos) {
            Option::None => Option::<int>::None,
            Option::Some(e) => Option::Some(p.len() + e),
        },
    decreases d.len() - pos,
{
    let pl = p.len() as int;
    if pos >= d.len() {
    } else {
        assert((p + d)[pl + pos] == d[pos]);
        if d[pos] != 0 {
            lemma_cstr_shift(p, d, pos + 1);
        }
    }
}

proof fn lemma_read_pl_shift(p: Seq<u8>, d: Seq<u8>, pos: int, curr: int)
    requires
        0 <= pos,
    ensures
        read_pl_byte(p + d, p.len() + pos, curr) == match read_pl_byte(d, pos, curr) {
            Option::None => Option::<(int, int, int)>::None,
            Option::Some((c, x, u)) => Option::Some((c, p.len() + x, u)),
        },
{
    let pl = p.len() as int;
    let s = p + d;
    if curr == 0 {
        if pos + 4 > d.len() {
        } else {
            assert(s[pl + pos] == d[pos] && s[pl + pos + 1] == d[pos + 1] && s[pl + pos + 2] == d[pos
                + 2] && s[pl + pos + 3] == d[pos + 3]);
            assert(be32_at(s, pl + pos) == be32_at(d, pos));
            if be32_at(d, pos) != 0 && pos + 4 < d.len() {
                assert(s[pl + pos + 4] == d[pos + 4]);
            }
        }
    } else {
        if pos < d.len() {
            assert(s[pl + pos] == d[pos]);
        }
    }
}

proof fn lemma_prime_shift(
    p: Seq<u8>,
    d: Seq<u8>,
    pos: int,
    curr: int,
    st: int,
    rem: int,
    out: Seq<u8>,
)
    requires
        0 <= pos,
    ensures
        prime_pp(p + d, p.len() + pos, curr, st, rem, out) == match prime_pp(
            d,
            pos,
            curr,
            st,
            rem,
            out,
        ) {
            Option::None => Option::<(int, int, int, int, Seq<u8>)>::None,
            Option::Some((x, u, t, m, o)) => Option::Some((p.len() + x, u, t, m, o)),
        },
    decreases d.len() - pos,
{
    if st == 1 || st == 5 {
    } else {
        lemma_read_pl_shift(p, d, pos, curr);
        match read_pl_byte(d, pos, curr) {
            Option::None => {},
            Option::Some((c, pos2, curr2)) => {
                match pp_write_spec(st, rem, c) {
                    Option::None => {},
                    Option::Some((st2, rem2, em)) => {
                        lemma_prime_shift(p, d, pos2, curr2, st2, rem2, out + em);
                    },
                }
            },
        }
    }
}

proof fn lemma_payload_shift(
    p: Seq<u8>,
    d: Seq<u8>,
    pos: int,
    curr: int,
    st: int,
    rem: int,
    out: Seq<u8>,
)
    requires
        0 <= pos,
    ensures
        seg_payload(p + d, p.len() + pos, curr, st, rem, out) == match seg_payload(
            d,
            pos,
            curr,
            st,
            rem,
            out,
        ) {
            Option::None => Option::<(int, int, int, int, Seq<u8>)>::None,
            Option::Some((x, u, t, m, o)) => Option::Some((p.len() + x, u, t, m, o)),
        },
    decreases d.len() - pos,
{
    lemma_read_pl_shift(p, d, pos, curr);
    match read_pl_byte(d, pos, curr) {
        Option::None => {},
        Option::Some((c, pos2, curr2)) => {
            match pp_write_spec(st, rem, c) {
                Option::None => {},
                Option::Some((st2, rem2, em)) => {
                    if c >= 0 {
                        lemma_payload_shift(p, d, pos2, curr2, st2, rem2, out + em);
                    }
                },
            }
        },
    }
}

/// A segment step read after the prefix: only its cursor moves.
pub open spec fn shift_step(sg: SegStep, pl: int) -> SegStep {
    SegStep {
        fname: sg.fname,
        comment: sg.comment,
        data: sg.data,
        sha1: sg.sha1,
        pos: sg.pos + pl,
        curr: sg.curr,
        st: sg.st,
        rem: sg.rem,
    }
}

proof fn lemma_seg_finish_shift(
    p: Seq<u8>,
    d: Seq<u8>,
    pos0: int,
    fe: int,
    ce: int,
    p2: int,
    c2: int,
    st2: int,
    rem2: int,
    dat: Seq<u8>,
)
    requires
        0 <= pos0 <= fe,
        fe + 1 <= ce <= d.len(),
        0 <= p2,
    ensures
        seg_finish(
            p + d,
            p.len() + pos0,
            p.len() + fe,
            p.len() + ce,
            p.len() + p2,
            c2,
            st2,
            rem2,
            dat,
        ) == match seg_finish(d, pos0, fe, ce, p2, c2, st2, rem2, dat) {
            Option::None => Option::<SegStep>::None,
            Option::Some(sg) => Option::Some(shift_step(sg, p.len() as int)),
        },
{
    let pl = p.len() as int;
    let s = p + d;
    if p2 >= d.len() {
    } else {
        assert(s[pl + p2] == d[p2]);
        assert(s.subrange(pl + pos0, pl + fe) =~= d.subrange(pos0, fe));
        assert(s.subrange(pl + fe + 1, pl + ce) =~= d.subrange(fe + 1, ce));
        if d[p2] == 253 && p2 + 21 <= d.len() {
            assert(s.subrange(pl + p2 + 1, pl + p2 + 21) =~= d.subrange(p2 + 1, p2 + 21));
        }
    }
}

proof fn lemma_seg_one_shift(
    p: Seq<u8>,
    d: Seq<u8>,
    pos: int,
    curr: int,
    st: int,
    rem: int,
    first: bool,
)
    requires
        0 <= pos,
    ensures
        seg_one(p + d, p.len() + pos, curr, st, rem, first) == match seg_one(
            d,
            pos,
            curr,
            st,
            rem,
            first,
        ) {
            Option::None => Option::<SegStep>::None,
            Option::Some(sg) => Option::Some(shift_step(sg, p.len() as int)),
        },
{
    let pl = p.len() as int;
    let s = p + d;
    lemma_cstr_shift(p, d, pos);
    match cstr_end(d, pos) {
        Option::None => {},
        Option::Some(fe) => {
            lemma_cstr_props(d, pos);
            lemma_cstr_shift(p, d, fe + 1);
            match cstr_end(d, fe + 1) {
                Option::None => {},
                Option::Some(ce) => {
                    lemma_cstr_props(d, fe + 1);
                    let rp = ce + 1;
                    if rp < d.len() {
                        assert(s[pl + rp] == d[rp]);
                    }
                    if rp < d.len() && d[rp] == 0 {
                        let p0 = rp + 1;
                        if first {
                            lemma_prime_shift(p, d, p0, curr, st, rem, Seq::<u8>::empty());
                        }
                        let pr = if first {
                            prime_pp(d, p0, curr, st, rem, Seq::<u8>::empty())
                        } else {
                            Option::Some((p0, curr, st, rem, Seq::<u8>::empty()))
                        };
                        match pr {
                            Option::None => {},
                            Option::Some((p1, c1, st1, rem1, em1)) => {
                                assert(0 <= p1) by {
                                    if first {
                                        lemma_prime_pos(d, p0, curr, st, rem, Seq::<u8>::empty());
                                    }
                                }
                                lemma_payload_shift(p, d, p1, c1, st1, rem1, em1);
                                match seg_payload(d, p1, c1, st1, rem1, em1) {
                                    Option::None => {},
                                    Option::Some((p2, c2, st2, rem2, dat)) => {
                                        assert(0 <= p2) by {
                                            lemma_payload_pos(d, p1, c1, st1, rem1, em1);
                                        }
                                        lemma_seg_finish_shift(
                                            p,
                                            d,
                                            pos,
                                            fe,
                                            ce,
                                            p2,
                                            c2,
                                            st2,
                                            rem2,
                                            dat,
                                        );
                                    },
                                }
                            },
                        }
                    }
                },
            }
        },
    }
}

proof fn lemma_block_segments_shift(
    p: Seq<u8>,
    d: Seq<u8>,
    pos: int,
    curr: int,
    st: int,
    rem: int,
    first: bool,
    bidx: int,
    acc: Seq<SegSpec>,
)
    requires
        0 <= pos,
    ensures
        read_block_segments(p + d, p.len() + pos, curr, st, rem, first, bidx, acc)
            == match read_block_segments(d, pos, curr, st, rem, first, bidx, acc) {
            Option::None => Option::<(int, Seq<SegSpec>)>::None,
            Option::Some((x, segs)) => Option::Some((p.len() + x, segs)),
        },
    decreases d.len() - pos,
{
    let pl = p.len() as int;
    let s = p + d;
    if pos >= d.len() {
    } else {
        assert(s[pl + pos] == d[pos]);
        if d[pos] == 255 {
        } else if d[pos] != 1 {
        } else {
            lemma_seg_one_shift(p, d, pos + 1, curr, st, rem, first);
            match seg_one(d, pos + 1, curr, st, rem, first) {
                Option::None => {},
                Option::Some(sg) => {
                    if pos < sg.pos <= d.len() {
                        lemma_block_segments_shift(
                            p,
                            d,
                            sg.pos,
                            sg.curr,
                            sg.st,
                            sg.rem,
                            false,
                            bidx,
                            acc.push(
                                SegSpec {
                                    block_index: bidx,
                                    filename: sg.fname,
                                    comment: sg.comment,
                                    data: sg.data,
                                    sha1: sg.sha1,
                                },
                            ),
                        );
                    }
                },
            }
        }
    }
}

#[verifier::rlimit(50)]
proof fn lemma_extract_shift(p: Seq<u8>, d: Seq<u8>, i: int, bidx: int, acc: Seq<SegSpec>)
    requires
        0 <= i,
        p.len() + d.len() <= usize::MAX,
    ensures
        extract_from(p + d, p.len() + i, bidx, acc) == extract_from(d, i, bidx, acc),
    decreases d.len() - i,
{
    let pl = p.len() as int;
    let s = p + d;
    if !(i + 18 < d.len()) {
    } else {
        lemma_first_magic_shift(p, d, i);
        match first_magic_from(d, i) {
            Option::None => {},
            Option::Some(at) => {
                lemma_first_magic_props(d, i);
                assert(at + 16 <= d.len());
                lemma_parse_hdr_shift(p, d, at);
                match parse_hdr(d, at) {
                    HdrParse::PBad => {},
                    HdrParse::PSkip => {
                        lemma_extract_shift(p, d, at + 1, bidx, acc);
                    },
                    HdrParse::PGot(h, consumed) => {
                        if h.n_components == 0 {
                            lemma_parse_hdr_got(d, at);
                            let sh = shift_hdr(h, pl);
                            assert(sh.segment_offset as int == pl + h.segment_offset);
                            lemma_block_segments_shift(
                                p,
                                d,
                                h.segment_offset as int,
                                0,
                                0,
                                0,
                                true,
                                bidx,
                                acc,
                            );
                            match read_block_segments(
                                d,
                                h.segment_offset as int,
                                0,
                                0,
                                0,
                                true,
                                bidx,
                                acc,
                            ) {
                                Option::None => {},
                                Option::Some((pos2, acc2)) => {
                                    let ni = if pos2 > at + consumed {
                                        pos2
                                    } else {
                                        at + consumed
                                    };
                                    if i < ni <= d.len() {
                                        lemma_extract_shift(p, d, ni, bidx + 1, acc2);
                                    }
                                },
                            }
                        }
                    },
                }
            },
        }
    }
}

proof fn lemma_extract_skip_prefix(p: Seq<u8>, d: Seq<u8>, i: int, bidx: int, acc: Seq<SegSpec>)
    requires
        0 <= i <= p.len(),
        forall|j: int| 0 <= j < p.len() ==> !#[trigger] magic_at(p + d, j),
        end_clean(d),
    ensures
        extract_from(p + d, i, bidx, acc) == extract_from(p + d, p.len() as int, bidx, acc),
    decreases p.len() - i,
{
    let pl = p.len() as int;
    let s = p + d;
    if i == pl {
    } else {
        assert(!magic_at(s, i));
        if !(i + 18 < s.len()) {
            assert(!(pl + 18 < s.len()));
        } else {
            assert(first_magic_from(s, i) == first_magic_from(s, i + 1));
            match first_magic_from(s, i) {
                Option::None => {
                    lemma_extract_skip_prefix(p, d, i + 1, bidx, acc);
                },
                Option::Some(at) => {
                    lemma_first_magic_props(s, i);
                    assert(at >= i + 1);
                    assert(at + 16 <= s.len());
                    assert(!(at + 18 >= s.len())) by {
                        if at + 18 >= s.len() {
                            if at < pl {
                                assert(!magic_at(s, at));
                            } else {
                                lemma_magic_shift(p, d, at - pl);
                                assert(magic_at(d, at - pl));
                                assert((at - pl) + 18 >= d.len());
                                assert(!magic_at(d, at - pl));
                            }
                            assert(false);
                        }
                    }
                    lemma_extract_skip_prefix(p, d, i + 1, bidx, acc);
                    assert(extract_from(s, i, bidx, acc) == extract_from(s, i + 1, bidx, acc));
                },
            }
        }
    }
}

/// Scanner tolerance, prepended noise: putting bytes in front of a cleanly
/// ending archive, none of which start a magic tag, leaves the extracted
/// segments unchanged.
pub proof fn lemma_extract_prefix_tolerant(p: Seq<u8>, d: Seq<u8>)
    requires
        p.len() + d.len() <= usize::MAX,
        forall|j: int| 0 <= j < p.len() ==> !#[trigger] magic_at(p + d, j),
        end_clean(d),
    ensures
        extract_from(p + d, 0, 0, Seq::empty()) == extract_from(d, 0, 0, Seq::empty()),
{
    lemma_extract_skip_prefix(p, d, 0, 0, Seq::<SegSpec>::empty());
    lemma_extract_shift(p, d, 0, 0, Seq::<SegSpec>::empty());
}

} // verus!
