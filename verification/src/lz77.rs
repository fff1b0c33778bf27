//! The LZ77 block encoder and decoder.
//!
//! The encoder walks the input with two hash tables (a primary `min_match`
//! byte hash and an optional longer-context secondary hash), probes a bucket
//! of alternate slots for each hash, and emits literal runs and match tokens.
//! Every encoded block is proved to decode back to the raw input through the
//! reference decoder `tokens::decode_rec`; the decoder is proved to implement
//! exactly that reference.

use vstd::prelude::*;

use crate::codec::{opts_valid, CompressionOptions};
use crate::error::ZparsError;
use crate::tokens::{
    be_bytes, be_val, copy_expand, decode_block, decode_fail_reason, decode_rec,
    lemma_copy_expand_len,
    lemma_decode_append, lemma_decode_lit_encoding, lemma_decode_match_encoding,
    lemma_lit_encoding_len, lemma_match_encoding_len, lemma_match_split_bounds, lit_encoding,
    match_encoding, match_split, match_token_bytes, nb_for, pow256,
};

verus! {

// ------------------------------------------------------------------
// Specification of the candidate search
// ------------------------------------------------------------------

/// Longest match length the encoder will measure at position `i`.
pub open spec fn max_match_len(input: Seq<u8>, i: int, mm: int) -> int {
    if input.len() - i <= 255 + mm {
        input.len() - i
    } else {
        255 + mm
    }
}

/// Length of the common prefix of `input[p..]` and `input[i..]`, capped at
/// `max`.
pub open spec fn match_len_rec(input: Seq<u8>, p: int, i: int, max: int) -> int
    decreases max,
{
    if max <= 0 {
        0
    } else if input[p] == input[i] {
        1 + match_len_rec(input, p + 1, i + 1, max - 1)
    } else {
        0
    }
}

/// A best candidate found so far: match length and offset.
pub ghost struct BestMatch {
    pub len: int,
    pub off: int,
}

/// The table slot probed for alternate `k` of `hash`.
pub open spec fn slot_of(table: Seq<u32>, hash: u32, mask: u32, k: int) -> u32 {
    table[((hash ^ (k as u32)) & mask) as int]
}

/// Whether alternate `k` holds a usable candidate: a nonzero slot encoding a
/// position strictly before `i` within the 24-bit offset range.
pub open spec fn cand_valid(table: Seq<u32>, hash: u32, mask: u32, i: int, k: int) -> bool {
    let p1 = slot_of(table, hash, mask, k);
    p1 != 0 && p1 - 1 < i && i - (p1 - 1) <= 16777215
}

/// Position encoded by alternate `k`.
pub open spec fn cand_pos(table: Seq<u32>, hash: u32, mask: u32, k: int) -> int {
    slot_of(table, hash, mask, k) - 1
}

/// Measured match length of alternate `k`.
pub open spec fn cand_len(
    input: Seq<u8>,
    table: Seq<u32>,
    hash: u32,
    mask: u32,
    i: int,
    mm: int,
    k: int,
) -> int {
    match_len_rec(input, cand_pos(table, hash, mask, k), i, max_match_len(input, i, mm))
}

/// Keep the better of the current best and a new candidate: longer length
/// wins; at equal length the smaller offset wins.
pub open spec fn better(best: BestMatch, len: int, off: int) -> BestMatch {
    if len > best.len || (len == best.len && off < best.off) {
        BestMatch { len, off }
    } else {
        best
    }
}

/// The bucket probe from alternate `k` on: fold the candidates into `best`,
/// stopping early once a probed candidate pushes the best length to
/// `mm + 63`.
pub open spec fn search_from(
    input: Seq<u8>,
    table: Seq<u32>,
    hash: u32,
    mask: u32,
    i: int,
    mm: int,
    bucket: int,
    k: int,
    best: BestMatch,
) -> BestMatch
    decreases bucket + 1 - k,
{
    if k > bucket || k < 0 {
        best
    } else if !cand_valid(table, hash, mask, i, k) {
        search_from(input, table, hash, mask, i, mm, bucket, k + 1, best)
    } else {
        let b2 = better(
            best,
            cand_len(input, table, hash, mask, i, mm, k),
            i - cand_pos(table, hash, mask, k),
        );
        if b2.len >= mm + 63 {
            b2
        } else {
            search_from(input, table, hash, mask, i, mm, bucket, k + 1, b2)
        }
    }
}

/// A usable match at position `i`: offset within the 24-bit range, source
/// inside the already-seen prefix, and the matched bytes really repeat.
pub open spec fn good_match(input: Seq<u8>, i: int, mm: int, len: int, off: int) -> bool {
    &&& 1 <= off <= 16777215
    &&& off <= i
    &&& 0 <= len
    &&& i + len <= input.len()
    &&& len <= 255 + mm
    &&& forall|l: int| 0 <= l < len ==> input[i - off + l] == #[trigger] input[i + l]
}

/// The capped common-prefix length is a correct match length.
proof fn lemma_match_len_rec_sound(input: Seq<u8>, p: int, i: int, max: int)
    requires
        0 <= p < i,
        0 <= max,
        i + max <= input.len(),
    ensures
        0 <= match_len_rec(input, p, i, max) <= max,
        forall|l: int|
            0 <= l < match_len_rec(input, p, i, max) ==> input[p + l] == #[trigger] input[i + l],
    decreases max,
{
    if max > 0 && input[p] == input[i] {
        lemma_match_len_rec_sound(input, p + 1, i + 1, max - 1);
        let n = match_len_rec(input, p, i, max);
        assert forall|l: int| 0 <= l < n implies input[p + l] == #[trigger] input[i + l] by {
            if l > 0 {
                assert(input[p + 1 + (l - 1)] == input[i + 1 + (l - 1)]);
            }
        }
    }
}

/// A measured prefix length equals the recursive definition: used to tie the
/// byte-comparison loop to the specification.
proof fn lemma_match_len_rec_char(input: Seq<u8>, p: int, i: int, max: int, len: int)
    requires
        0 <= len <= max,
        forall|l: int| 0 <= l < len ==> input[p + l] == #[trigger] input[i + l],
        len == max || input[p + len] != input[i + len],
    ensures
        match_len_rec(input, p, i, max) == len,
    decreases len,
{
    if len == 0 {
        if max > 0 {
            assert(input[p + 0] != input[i + 0]);
        }
    } else {
        assert(input[p + 0] == input[i + 0]);
        assert forall|l: int| 0 <= l < len - 1 implies input[(p + 1) + l] == #[trigger] input[(i
            + 1) + l] by {
            assert(input[p + (l + 1)] == input[i + (l + 1)]);
        }
        if len < max {
            assert(input[(p + 1) + (len - 1)] != input[(i + 1) + (len - 1)]) by {
                assert(input[p + len] != input[i + len]);
            }
        }
        lemma_match_len_rec_char(input, p + 1, i + 1, max - 1, len - 1);
    }
}

/// Offset legality law: whatever best pair the bucket fold returns is
/// either its starting value or a genuine match, with an offset between 1
/// and `2^24 - 1` that refers to bytes strictly before the cursor, and the
/// matched bytes really repeating earlier text.
pub proof fn lemma_search_from_sound(
    input: Seq<u8>,
    table: Seq<u32>,
    hash: u32,
    mask: u32,
    i: int,
    mm: int,
    bucket: int,
    k: int,
    best: BestMatch,
)
    requires
        0 <= i < input.len(),
        1 <= mm,
    ensures
        ({
            let r = search_from(input, table, hash, mask, i, mm, bucket, k, best);
            r == best || good_match(input, i, mm, r.len, r.off)
        }),
    decreases bucket + 1 - k,
{
    if k > bucket || k < 0 {
    } else if !cand_valid(table, hash, mask, i, k) {
        lemma_search_from_sound(input, table, hash, mask, i, mm, bucket, k + 1, best);
    } else {
        let p = cand_pos(table, hash, mask, k);
        let max = max_match_len(input, i, mm);
        lemma_match_len_rec_sound(input, p, i, max);
        let clen = cand_len(input, table, hash, mask, i, mm, k);
        let b2 = better(best, clen, i - p);
        assert(b2 == best || good_match(input, i, mm, b2.len, b2.off));
        if b2.len < mm + 63 {
            lemma_search_from_sound(input, table, hash, mask, i, mm, bucket, k + 1, b2);
        }
    }
}

/// Tie-break law for the candidate search.  Unless the search stopped early
/// at the `mm + 63` cap, the returned best is at least as long as every
/// candidate in the bucket, and among candidates of equal length it carries
/// the smallest offset.  It also never regresses below its starting value.
pub proof fn lemma_search_prefers_smaller_offset(
    input: Seq<u8>,
    table: Seq<u32>,
    hash: u32,
    mask: u32,
    i: int,
    mm: int,
    bucket: int,
    k: int,
    best: BestMatch,
)
    requires
        0 <= k,
        search_from(input, table, hash, mask, i, mm, bucket, k, best).len < mm + 63,
    ensures
        ({
            let r = search_from(input, table, hash, mask, i, mm, bucket, k, best);
            &&& r.len >= best.len
            &&& r.len == best.len ==> r.off <= best.off
            &&& forall|j: int|
                k <= j <= bucket && cand_valid(table, hash, mask, i, j) ==> {
                    let cl = #[trigger] cand_len(input, table, hash, mask, i, mm, j);
                    cl <= r.len && (cl == r.len ==> r.off <= i - cand_pos(table, hash, mask, j))
                }
        }),
    decreases bucket + 1 - k,
{
    let r = search_from(input, table, hash, mask, i, mm, bucket, k, best);
    if k > bucket || k < 0 {
    } else if !cand_valid(table, hash, mask, i, k) {
        lemma_search_prefers_smaller_offset(input, table, hash, mask, i, mm, bucket, k + 1, best);
    } else {
        let clen = cand_len(input, table, hash, mask, i, mm, k);
        let coff = i - cand_pos(table, hash, mask, k);
        let b2 = better(best, clen, coff);
        if b2.len >= mm + 63 {
            assert(r == b2);
        } else {
            lemma_search_prefers_smaller_offset(input, table, hash, mask, i, mm, bucket, k + 1, b2);
            assert(b2.len >= clen && (b2.len == clen ==> b2.off <= coff));
            assert(r.len >= b2.len && (r.len == b2.len ==> r.off <= b2.off));
            assert forall|j: int|
                k <= j <= bucket && cand_valid(table, hash, mask, i, j) implies {
                let cl = #[trigger] cand_len(input, table, hash, mask, i, mm, j);
                cl <= r.len && (cl == r.len ==> r.off <= i - cand_pos(table, hash, mask, j))
            } by {
                if j == k {
                    assert(clen <= r.len);
                    if clen == r.len {
                        assert(r.off <= coff);
                    }
                } else {
                    assert(k + 1 <= j <= bucket);
                }
            }
        }
    }
}

// ------------------------------------------------------------------
// Reference encoder
// ------------------------------------------------------------------

/// One step of the byte-wise multiply-xor-shift mix.
pub open spec fn hash_mix(x: u32, b: u8) -> u32 {
    let x1 = x ^ (b as u32);
    let x2 = x1.wrapping_mul(0x85eb_ca6b);
    x2 ^ (x2 >> 13u32)
}

/// Hash of `input[start..end]`, seeded with the golden-ratio constant.
pub open spec fn hash_of(input: Seq<u8>, start: int, end: int) -> u32
    decreases end - start,
{
    if end <= start {
        0x9e37_79b9u32
    } else {
        hash_mix(hash_of(input, start, end - 1), input[end - 1])
    }
}

/// The table update at one position: when a full `w`-byte window fits, the
/// slot its hash selects receives `pos + 1`.
pub open spec fn table_upd(t: Seq<u32>, input: Seq<u8>, pos: int, w: int, mask: u32) -> Seq<u32> {
    if w >= 1 && input.len() - pos >= w {
        t.update((hash_of(input, pos, pos + w) & mask) as int, (pos + 1) as u32)
    } else {
        t
    }
}

/// Both tables updated for every position in `[p, stop)`.
pub open spec fn upd_range(
    h1: Seq<u32>,
    h2: Seq<u32>,
    input: Seq<u8>,
    p: int,
    stop: int,
    mm: int,
    sm: int,
    mask: u32,
) -> (Seq<u32>, Seq<u32>)
    decreases stop - p,
{
    if p >= stop {
        (h1, h2)
    } else {
        let h1b = table_upd(h1, input, p, mm, mask);
        let h2b = if sm > 0 {
            table_upd(h2, input, p, sm, mask)
        } else {
            h2
        };
        upd_range(h1b, h2b, input, p + 1, stop, mm, sm, mask)
    }
}

/// The encoder's whole working state between positions.
pub ghost struct EncState {
    pub out: Seq<u8>,
    pub i: int,
    pub lit_start: int,
    pub h1: Seq<u32>,
    pub h2: Seq<u32>,
}

/// One iteration of the encoder at position `st.i`: probe the secondary
/// then the primary bucket, decide emission against the extra offset-byte
/// cost, and either flush pending literals plus the match group and cover
/// every matched position in the tables, or record the single position and
/// step forward.
pub open spec fn enc_step(
    input: Seq<u8>,
    mm: int,
    sm: int,
    mask: u32,
    bucket: int,
    st: EncState,
) -> EncState {
    let zero = BestMatch { len: 0, off: 0 };
    let best1 = if mm <= input.len() - st.i && sm > 0 && sm <= input.len() - st.i {
        search_from(input, st.h2, hash_of(input, st.i, st.i + sm), mask, st.i, mm, bucket, 0, zero)
    } else {
        zero
    };
    let best = if mm <= input.len() - st.i {
        search_from(input, st.h1, hash_of(input, st.i, st.i + mm), mask, st.i, mm, bucket, 0, best1)
    } else {
        best1
    };
    let extra: int = (if best.off >= 65536 {
        1int
    } else {
        0int
    }) + (if best.off >= 16777216 {
        1int
    } else {
        0int
    });
    let emit = best.off != 0 && best.len >= mm + extra;
    if emit {
        let tabs = upd_range(st.h1, st.h2, input, st.i, st.i + best.len, mm, sm, mask);
        EncState {
            out: st.out + lit_encoding(input.subrange(st.lit_start, st.i)) + match_encoding(
                best.len,
                best.off,
                mm,
            ),
            i: st.i + best.len,
            lit_start: st.i + best.len,
            h1: tabs.0,
            h2: tabs.1,
        }
    } else {
        let tabs = upd_range(st.h1, st.h2, input, st.i, st.i + 1, mm, sm, mask);
        EncState { out: st.out, i: st.i + 1, lit_start: st.lit_start, h1: tabs.0, h2: tabs.1 }
    }
}

/// The encoder's main loop, run to the end of the input.  The guard that
/// returns `st` early can never fire on a state the encoder reaches: every
/// step advances by at least one position and an emitted match never runs
/// past the input.
pub open spec fn enc_run(
    input: Seq<u8>,
    mm: int,
    sm: int,
    mask: u32,
    bucket: int,
    st: EncState,
) -> EncState
    decreases input.len() - st.i,
{
    if st.i < 0 || st.i >= input.len() || mm < 1 {
        st
    } else {
        let st2 = enc_step(input, mm, sm, mask, bucket, st);
        if st2.i <= st.i || st2.i > input.len() {
            st
        } else {
            enc_run(input, mm, sm, mask, bucket, st2)
        }
    }
}

/// The exact byte stream the encoder produces for `input` under options
/// `o`: a pure function of its arguments, so repeated calls are equal.
pub open spec fn encoded_block(input: Seq<u8>, o: CompressionOptions) -> Seq<u8> {
    let mask = ((1u32 << (o.table_log as u32)) - 1) as u32;
    let bucket = ((1u32 << (o.search_log as u32)) - 1) as int;
    let zeros = Seq::new(mask as nat + 1, |k: int| 0u32);
    let init = EncState {
        out: Seq::empty(),
        i: 0,
        lit_start: 0,
        h1: zeros,
        h2: if o.secondary_match > 0 {
            zeros
        } else {
            Seq::empty()
        },
    };
    let fin = enc_run(
        input,
        o.min_match as int,
        o.secondary_match as int,
        mask,
        bucket,
        init,
    );
    fin.out + lit_encoding(input.subrange(fin.lit_start, input.len() as int))
}

// ------------------------------------------------------------------
// Executable helpers
// ------------------------------------------------------------------

/// Probe parameters shared by the two hash tables.
pub struct SearchContext {
    /// Shortest usable match; also bounds the per-token length budget.
    pub min_match: usize,
    /// Highest alternate probed: bucket size minus one.
    pub bucket: usize,
    /// Hash-table index mask, `table_size - 1`.
    pub mask: u32,
}

/// Byte-wise multiply-xor-shift mix of `input[start..end]`, seeded with the
/// golden-ratio constant.  The hash steers the candidate search only; the
/// round-trip proof never relies on its value, but the byte-exact encoder
/// specification does.
fn hash_slice(input: &Vec<u8>, start: usize, end: usize) -> (h: u32)
    requires
        start <= end <= input@.len(),
    ensures
        h == hash_of(input@, start as int, end as int),
{
    let mut x: u32 = 0x9e37_79b9;
    let mut i: usize = start;
    while i < end
        invariant
            start <= i <= end <= input@.len(),
            x == hash_of(input@, start as int, i as int),
        decreases end - i,
    {
        x = x ^ (input[i] as u32);
        x = x.wrapping_mul(0x85eb_ca6b);
        x = x ^ (x >> 13u32);
        i += 1;
    }
    x
}

/// A zeroed hash table of `n` slots.
fn make_table(n: usize) -> (t: Vec<u32>)
    ensures
        t@ == Seq::new(n as nat, |k: int| 0u32),
{
    let mut t: Vec<u32> = Vec::new();
    let mut i: usize = 0;
    while i < n
        invariant
            i <= n,
            t@ == Seq::new(i as nat, |k: int| 0u32),
        decreases n - i,
    {
        proof {
            assert(Seq::new(i as nat + 1, |k: int| 0u32) =~= Seq::new(i as nat, |k: int| 0u32).push(
                0u32,
            ));
        }
        t.push(0u32);
        i += 1;
    }
    t
}

/// Record position `pos` (stored as `pos + 1`) in both hash tables: the
/// slot each window hash selects receives it, and nothing else changes.
fn update_tables(
    input: &Vec<u8>,
    pos: usize,
    mm: usize,
    sm: usize,
    mask: u32,
    h1: &mut Vec<u32>,
    h2: &mut Vec<u32>,
)
    requires
        pos < input@.len(),
        input@.len() <= 0xffff_ffff,
        mm >= 1,
        old(h1)@.len() == mask as int + 1,
        sm > 0 ==> old(h2)@.len() == mask as int + 1,
    ensures
        final(h1)@ == table_upd(old(h1)@, input@, pos as int, mm as int, mask),
        final(h2)@ == if sm > 0 {
            table_upd(old(h2)@, input@, pos as int, sm as int, mask)
        } else {
            old(h2)@
        },
        final(h1)@.len() == old(h1)@.len(),
        final(h2)@.len() == old(h2)@.len(),
{
    if input.len() - pos >= mm {
        let h = hash_slice(input, pos, pos + mm);
        proof {
            assert((h & mask) <= mask) by (bit_vector);
        }
        let idx = (h & mask) as usize;
        h1.set(idx, (pos + 1) as u32);
    }
    if sm > 0 && input.len() - pos >= sm {
        let h = hash_slice(input, pos, pos + sm);
        proof {
            assert((h & mask) <= mask) by (bit_vector);
        }
        let idx = (h & mask) as usize;
        h2.set(idx, (pos + 1) as u32);
    }
}

/// Append the pending literals `input[start..end]` as literal tokens of at
/// most 64 bytes each.
fn emit_literals(out: &mut Vec<u8>, input: &Vec<u8>, start: usize, end: usize)
    requires
        start <= end <= input@.len(),
    ensures
        final(out)@ == old(out)@ + lit_encoding(input@.subrange(start as int, end as int)),
{
    let mut i: usize = start;
    while i < end
        invariant
            start <= i <= end <= input@.len(),
            old(out)@ + lit_encoding(input@.subrange(start as int, end as int)) == out@
                + lit_encoding(input@.subrange(i as int, end as int)),
        decreases end - i,
    {
        let rem = end - i;
        let chunk: usize = if rem < 64 {
            rem
        } else {
            64
        };
        let ghost pre = out@;
        let ghost seg = input@.subrange(i as int, end as int);
        out.push((chunk - 1) as u8);
        let mut j: usize = 0;
        while j < chunk
            invariant
                i + chunk <= end <= input@.len(),
                j <= chunk,
                out@ == pre + seq![(chunk - 1) as u8] + input@.subrange(i as int, i + j),
            decreases chunk - j,
        {
            proof {
                assert(input@.subrange(i as int, i + j + 1) =~= input@.subrange(
                    i as int,
                    i + j,
                ).push(input@[i + j]));
            }
            out.push(input[i + j]);
            j += 1;
        }
        proof {
            let c = chunk as int;
            assert(seg.len() == end - i);
            assert(seg.subrange(0, c) =~= input@.subrange(i as int, i + c));
            assert(seg.subrange(c, seg.len() as int) =~= input@.subrange(i + c, end as int));
            assert(lit_encoding(seg) == seq![(c - 1) as u8] + seg.subrange(0, c) + lit_encoding(
                seg.subrange(c, seg.len() as int),
            ));
            assert(out@ =~= pre + (seq![(chunk - 1) as u8] + seg.subrange(0, c)));
            assert(pre + lit_encoding(seg) =~= out@ + lit_encoding(
                input@.subrange(i + c, end as int),
            ));
        }
        i += chunk;
    }
    proof {
        assert(input@.subrange(i as int, end as int) =~= Seq::<u8>::empty());
        assert(out@ + lit_encoding(Seq::<u8>::empty()) =~= out@);
    }
}

/// Append the token group for a match of `len` bytes at offset `off`,
/// splitting greedily so that every token carries `len - mm` in six bits.
fn emit_match_tokens(out: &mut Vec<u8>, len: usize, off: usize, mm: usize)
    requires
        1 <= mm <= 64,
        1 <= off <= 16777215,
        len >= mm,
    ensures
        final(out)@ == old(out)@ + match_encoding(len as int, off as int, mm as int),
{
    let off_m1: usize = off - 1;
    let off_bytes: usize = if off_m1 < 65536 {
        2
    } else if off_m1 < 16777216 {
        3
    } else {
        4
    };
    assert(off_bytes == nb_for(off as int));
    let mut rem: usize = len;
    while rem > 0
        invariant
            1 <= mm <= 64,
            1 <= off <= 16777215,
            off_m1 == off - 1,
            off_bytes == nb_for(off as int),
            off_bytes == 2 || off_bytes == 3,
            rem == 0 || rem >= mm,
            old(out)@ + match_encoding(len as int, off as int, mm as int) == out@ + match_encoding(
                rem as int,
                off as int,
                mm as int,
            ),
        decreases rem,
    {
        let len1: usize = if rem > mm * 2 + 63 {
            mm + 63
        } else if rem > mm + 63 {
            rem - mm
        } else {
            rem
        };
        proof {
            lemma_match_split_bounds(rem as int, mm as int);
            assert(len1 as int == match_split(rem as int, mm as int));
        }
        let code: u8 = (64 * (off_bytes - 1) + (len1 - mm)) as u8;
        let ghost pre = out@;
        out.push(code);
        if off_bytes == 2 {
            out.push((off_m1 / 256) as u8);
            out.push((off_m1 % 256) as u8);
        } else {
            out.push((off_m1 / 65536) as u8);
            out.push(((off_m1 / 256) % 256) as u8);
            out.push((off_m1 % 256) as u8);
        }
        proof {
            let v = off_m1 as int;
            if off_bytes == 2 {
                assert(be_bytes(v, 2) =~= seq![(v / 256 % 256) as u8, (v % 256) as u8]) by {
                    reveal_with_fuel(be_bytes, 3);
                }
                assert(v / 256 % 256 == v / 256);
            } else {
                assert(be_bytes(v, 3) =~= seq![
                    (v / 65536 % 256) as u8,
                    (v / 256 % 256) as u8,
                    (v % 256) as u8,
                ]) by {
                    reveal_with_fuel(be_bytes, 4);
                }
                assert(v / 65536 % 256 == v / 65536);
            }
            assert(out@ =~= pre + match_token_bytes(len1 as int, off as int, mm as int));
            assert(match_encoding(rem as int, off as int, mm as int) == match_token_bytes(
                len1 as int,
                off as int,
                mm as int,
            ) + match_encoding(rem - len1, off as int, mm as int));
            assert(pre + match_encoding(rem as int, off as int, mm as int) =~= out@
                + match_encoding(rem - len1, off as int, mm as int));
        }
        rem -= len1;
    }
    proof {
        assert(match_encoding(0, off as int, mm as int) =~= Seq::<u8>::empty());
        assert(out@ + Seq::<u8>::empty() =~= out@);
    }
}

/// One bucket probe over a hash table, updating the best (length, offset)
/// pair in place.  Implements exactly the `search_from` fold: longer matches
/// win, equal-length matches keep the smaller offset, and the probe stops
/// early once the best length reaches `min_match + 63`.
fn search_candidates(
    input: &Vec<u8>,
    i: usize,
    best_len: &mut usize,
    best_off: &mut usize,
    table: &Vec<u32>,
    hash: u32,
    search: &SearchContext,
)
    requires
        i < input@.len(),
        input@.len() <= 0xffff_ffff,
        1 <= search.min_match <= 64,
        search.bucket <= 1023,
        table@.len() == search.mask as int + 1,
    ensures
        ({
            let r = search_from(
                input@,
                table@,
                hash,
                search.mask,
                i as int,
                search.min_match as int,
                search.bucket as int,
                0,
                (BestMatch { len: *old(best_len) as int, off: *old(best_off) as int }),
            );
            r == (BestMatch { len: *final(best_len) as int, off: *final(best_off) as int })
        }),
{
    let mm = search.min_match;
    let ghost best0 = BestMatch { len: *best_len as int, off: *best_off as int };
    let ghost fold0 = search_from(
        input@,
        table@,
        hash,
        search.mask,
        i as int,
        mm as int,
        search.bucket as int,
        0,
        best0,
    );
    let mut k: usize = 0;
    while k <= search.bucket
        invariant_except_break
            k <= search.bucket + 1,
            i < input@.len(),
            input@.len() <= 0xffff_ffff,
            1 <= mm <= 64,
            mm == search.min_match,
            search.bucket <= 1023,
            table@.len() == search.mask as int + 1,
            search_from(
                input@,
                table@,
                hash,
                search.mask,
                i as int,
                mm as int,
                search.bucket as int,
                k as int,
                (BestMatch { len: *best_len as int, off: *best_off as int }),
            ) == fold0,
        ensures
            fold0 == (BestMatch { len: *best_len as int, off: *best_off as int }),
        decreases search.bucket + 1 - k,
    {
        let kk = k as u32;
        let msk = search.mask;
        proof {
            assert((hash ^ kk) & msk <= msk) by (bit_vector);
        }
        let idx = ((hash ^ kk) & msk) as usize;
        let p1 = table[idx];
        proof {
            assert(slot_of(table@, hash, search.mask, k as int) == p1);
        }
        if p1 == 0 {
            proof {
                assert(!cand_valid(table@, hash, search.mask, i as int, k as int));
            }
            k += 1;
            continue;
        }
        let p = (p1 - 1) as usize;
        if p >= i {
            proof {
                assert(!cand_valid(table@, hash, search.mask, i as int, k as int));
            }
            k += 1;
            continue;
        }
        let off = i - p;
        if off > 16777215 {
            proof {
                assert(!cand_valid(table@, hash, search.mask, i as int, k as int));
            }
            k += 1;
            continue;
        }
        proof {
            assert(cand_valid(table@, hash, search.mask, i as int, k as int));
            assert(cand_pos(table@, hash, search.mask, k as int) == p as int);
        }
        let rem = input.len() - i;
        let cap = 255 + mm;
        let max = if rem < cap {
            rem
        } else {
            cap
        };
        proof {
            assert(max as int == max_match_len(input@, i as int, mm as int));
        }
        let mut len: usize = 0;
        while len < max
            invariant_except_break
                p < i < input@.len(),
                input@.len() <= 0xffff_ffff,
                len <= max,
                i + max <= input@.len(),
                forall|l: int| 0 <= l < len ==> input@[p + l] == #[trigger] input@[i + l],
            ensures
                p < i < input@.len(),
                len <= max,
                forall|l: int| 0 <= l < len ==> input@[p + l] == #[trigger] input@[i + l],
                len == max || input@[p + len] != input@[i + len],
            decreases max - len,
        {
            if input[p + len] != input[i + len] {
                break;
            }
            len += 1;
        }
        proof {
            lemma_match_len_rec_char(input@, p as int, i as int, max as int, len as int);
            assert(cand_len(input@, table@, hash, search.mask, i as int, mm as int, k as int)
                == len as int);
        }
        let ghost before = BestMatch { len: *best_len as int, off: *best_off as int };
        if len > *best_len || (len == *best_len && off < *best_off) {
            *best_len = len;
            *best_off = off;
        }
        proof {
            assert((BestMatch { len: *best_len as int, off: *best_off as int }) == better(
                before,
                len as int,
                off as int,
            ));
        }
        if *best_len >= mm + 63 {
            proof {
                assert(search_from(
                    input@,
                    table@,
                    hash,
                    search.mask,
                    i as int,
                    mm as int,
                    search.bucket as int,
                    k as int,
                    before,
                ) == (BestMatch { len: *best_len as int, off: *best_off as int }));
            }
            break;
        }
        k += 1;
    }
}

/// Encode one raw block as a ZPS1 token stream.  The output is exactly the
/// byte stream of the reference `encoded_block` — a pure function of the
/// input and options, so repeated calls agree — it always decodes back to
/// `input`, and it never expands past four bytes per input byte.
#[verifier::rlimit(100)]
pub fn encode_lz77_block(input: &Vec<u8>, options: &CompressionOptions) -> (out: Vec<u8>)
    requires
        opts_valid(*options),
        input@.len() <= 0xffff_ffff,
    ensures
        out@ == encoded_block(input@, *options),
        decode_block(out@, options.min_match as int) == Some(input@),
        out@.len() <= 4 * input@.len(),
{
    let mm = options.min_match;
    let sm = options.secondary_match;
    let tl: u32 = options.table_log as u32;
    proof {
        assert(tl <= 28 ==> ((1u32 << tl) >= 256 || tl < 8) && (1u32 << tl) <= 0x1000_0000 && (1u32
            << tl) >= 1) by (bit_vector);
    }
    let ts32: u32 = 1u32 << tl;
    let table_size: usize = ts32 as usize;
    let mask: u32 = ts32 - 1;
    let sl: u32 = options.search_log as u32;
    proof {
        assert(sl <= 10 ==> ((1u32 << sl) >= 1 && (1u32 << sl) <= 1024)) by (bit_vector);
    }
    let b32: u32 = 1u32 << sl;
    let bucket: usize = (b32 - 1) as usize;
    let mut h1 = make_table(table_size);
    let mut h2 = if sm > 0 {
        make_table(table_size)
    } else {
        Vec::new()
    };
    let mut out: Vec<u8> = Vec::new();
    let mut i: usize = 0;
    let mut lit_start: usize = 0;
    let ghost init0 = EncState { out: out@, i: 0, lit_start: 0, h1: h1@, h2: h2@ };
    let ghost rgoal = enc_run(input@, mm as int, sm as int, mask, bucket as int, init0);
    proof {
        assert(input@.subrange(0, 0) =~= Seq::<u8>::empty());
        assert(out@ =~= Seq::<u8>::empty());
    }
    while i < input.len()
        invariant
            lit_start <= i <= input@.len(),
            input@.len() <= 0xffff_ffff,
            1 <= mm <= 64,
            sm <= 64,
            mm == options.min_match,
            sm == options.secondary_match,
            bucket <= 1023,
            h1@.len() == mask as int + 1,
            sm > 0 ==> h2@.len() == mask as int + 1,
            decode_rec(out@, mm as int, Seq::<u8>::empty()) == Some(
                input@.subrange(0, lit_start as int),
            ),
            out@.len() <= 4 * lit_start,
            enc_run(
                input@,
                mm as int,
                sm as int,
                mask,
                bucket as int,
                (EncState {
                    out: out@,
                    i: i as int,
                    lit_start: lit_start as int,
                    h1: h1@,
                    h2: h2@,
                }),
            ) == rgoal,
        decreases input@.len() - i,
    {
        let ghost st0 = EncState {
            out: out@,
            i: i as int,
            lit_start: lit_start as int,
            h1: h1@,
            h2: h2@,
        };
        let mut best_len: usize = 0;
        let mut best_off: usize = 0;
        let sctx = SearchContext { min_match: mm, bucket, mask };
        let ghost zero_best = BestMatch { len: 0, off: 0 };
        let ghost mut mid_snap = zero_best;
        if input.len() - i >= mm {
            if sm > 0 && input.len() - i >= sm {
                let hh = hash_slice(input, i, i + sm);
                proof {
                    lemma_search_from_sound(
                        input@,
                        h2@,
                        hh,
                        mask,
                        i as int,
                        mm as int,
                        bucket as int,
                        0,
                        zero_best,
                    );
                }
                search_candidates(input, i, &mut best_len, &mut best_off, &h2, hh, &sctx);
            }
            proof {
                mid_snap = BestMatch { len: best_len as int, off: best_off as int };
            }
            let h = hash_slice(input, i, i + mm);
            let ghost mid_best = BestMatch { len: best_len as int, off: best_off as int };
            proof {
                lemma_search_from_sound(
                    input@,
                    h1@,
                    h,
                    mask,
                    i as int,
                    mm as int,
                    bucket as int,
                    0,
                    mid_best,
                );
            }
            search_candidates(input, i, &mut best_len, &mut best_off, &h1, h, &sctx);
        }
        let ghost bl = best_len as int;
        let ghost bo = best_off as int;
        let ghost stepped = enc_step(input@, mm as int, sm as int, mask, bucket as int, st0);
        proof {
            assert((bl == 0 && bo == 0) || good_match(input@, i as int, mm as int, bl, bo));
            // The step's probe results match the executable searches.
            let spec_best1 = if mm as int <= input@.len() - st0.i && sm > 0 && sm as int
                <= input@.len() - st0.i {
                search_from(
                    input@,
                    st0.h2,
                    hash_of(input@, st0.i, st0.i + sm as int),
                    mask,
                    st0.i,
                    mm as int,
                    bucket as int,
                    0,
                    zero_best,
                )
            } else {
                zero_best
            };
            assert(spec_best1 == mid_snap);
            let spec_best = if mm as int <= input@.len() - st0.i {
                search_from(
                    input@,
                    st0.h1,
                    hash_of(input@, st0.i, st0.i + mm as int),
                    mask,
                    st0.i,
                    mm as int,
                    bucket as int,
                    0,
                    spec_best1,
                )
            } else {
                spec_best1
            };
            assert(spec_best == (BestMatch { len: bl, off: bo }));
        }
        let mut extra: usize = 0;
        if best_off >= 65536 {
            extra += 1;
        }
        if best_off >= 16777216 {
            extra += 1;
        }
        let emit = best_off != 0 && best_len >= mm + extra;
        if emit {
            proof {
                assert(good_match(input@, i as int, mm as int, bl, bo));
            }
            let ghost pre1 = out@;
            let ghost done = input@.subrange(0, lit_start as int);
            let ghost pending = input@.subrange(lit_start as int, i as int);
            emit_literals(&mut out, input, lit_start, i);
            proof {
                lemma_decode_append(
                    pre1,
                    lit_encoding(pending),
                    mm as int,
                    Seq::<u8>::empty(),
                    done,
                );
                lemma_decode_lit_encoding(pending, mm as int, done);
                assert(done + pending =~= input@.subrange(0, i as int));
                lemma_lit_encoding_len(pending);
            }
            let ghost pre2 = out@;
            emit_match_tokens(&mut out, best_len, best_off, mm);
            proof {
                lemma_decode_append(
                    pre2,
                    match_encoding(bl, bo, mm as int),
                    mm as int,
                    Seq::<u8>::empty(),
                    input@.subrange(0, i as int),
                );
                lemma_decode_match_encoding(input@, i as int, bo, bl, mm as int);
                lemma_match_encoding_len(bl, bo, mm as int);
            }
            let stop = i + best_len;
            let mut p = i;
            while p < stop
                invariant
                    i <= p <= stop <= input@.len(),
                    input@.len() <= 0xffff_ffff,
                    1 <= mm,
                    sm <= 64,
                    h1@.len() == mask as int + 1,
                    sm > 0 ==> h2@.len() == mask as int + 1,
                    upd_range(h1@, h2@, input@, p as int, stop as int, mm as int, sm as int, mask)
                        == upd_range(
                        st0.h1,
                        st0.h2,
                        input@,
                        i as int,
                        stop as int,
                        mm as int,
                        sm as int,
                        mask,
                    ),
                decreases stop - p,
            {
                update_tables(input, p, mm, sm, mask, &mut h1, &mut h2);
                p += 1;
            }
            i += best_len;
            lit_start = i;
            proof {
                assert(upd_range(
                    st0.h1,
                    st0.h2,
                    input@,
                    st0.i,
                    st0.i + bl,
                    mm as int,
                    sm as int,
                    mask,
                ) == (h1@, h2@));
                assert(stepped.out == out@);
                assert(stepped == (EncState {
                    out: out@,
                    i: i as int,
                    lit_start: lit_start as int,
                    h1: h1@,
                    h2: h2@,
                }));
                assert(enc_run(input@, mm as int, sm as int, mask, bucket as int, st0) == enc_run(
                    input@,
                    mm as int,
                    sm as int,
                    mask,
                    bucket as int,
                    stepped,
                ));
            }
        } else {
            update_tables(input, i, mm, sm, mask, &mut h1, &mut h2);
            i += 1;
            proof {
                assert(h1@ == table_upd(st0.h1, input@, st0.i, mm as int, mask));
                assert(h2@ == if sm > 0 {
                    table_upd(st0.h2, input@, st0.i, sm as int, mask)
                } else {
                    st0.h2
                });
                assert(upd_range(h1@, h2@, input@, st0.i + 1, st0.i + 1, mm as int, sm as int, mask)
                    == (h1@, h2@));
                assert(upd_range(
                    st0.h1,
                    st0.h2,
                    input@,
                    st0.i,
                    st0.i + 1,
                    mm as int,
                    sm as int,
                    mask,
                ) == (h1@, h2@));
                assert(stepped == (EncState {
                    out: out@,
                    i: i as int,
                    lit_start: lit_start as int,
                    h1: h1@,
                    h2: h2@,
                }));
                assert(enc_run(input@, mm as int, sm as int, mask, bucket as int, st0) == enc_run(
                    input@,
                    mm as int,
                    sm as int,
                    mask,
                    bucket as int,
                    stepped,
                ));
            }
        }
    }
    let ghost fin = EncState {
        out: out@,
        i: i as int,
        lit_start: lit_start as int,
        h1: h1@,
        h2: h2@,
    };
    proof {
        assert(enc_run(input@, mm as int, sm as int, mask, bucket as int, fin) == fin);
        assert(rgoal == fin);
    }
    if lit_start < input.len() {
        let ghost pre3 = out@;
        let ghost done = input@.subrange(0, lit_start as int);
        let ghost pending = input@.subrange(lit_start as int, input@.len() as int);
        let end = input.len();
        emit_literals(&mut out, input, lit_start, end);
        proof {
            lemma_decode_append(pre3, lit_encoding(pending), mm as int, Seq::<u8>::empty(), done);
            lemma_decode_lit_encoding(pending, mm as int, done);
            assert(done + pending =~= input@);
            lemma_lit_encoding_len(pending);
        }
    }
    proof {
        assert(input@.subrange(0, input@.len() as int) =~= input@);
        // The starting state is the one `encoded_block` builds.
        let mask_e = ((1u32 << (options.table_log as u32)) - 1) as u32;
        let bucket_e = ((1u32 << (options.search_log as u32)) - 1) as int;
        let zeros = Seq::new(mask_e as nat + 1, |k: int| 0u32);
        assert(mask_e == mask);
        assert(bucket_e == bucket as int);
        assert(init0.h1 =~= zeros);
        if sm > 0 {
            assert(init0.h2 =~= zeros);
        } else {
            assert(init0.h2 =~= Seq::<u32>::empty());
        }
        assert(encoded_block(input@, *options) == fin.out + lit_encoding(
            input@.subrange(fin.lit_start, input@.len() as int),
        ));
        if lit_start < input.len() {
        } else {
            assert(input@.subrange(fin.lit_start, input@.len() as int) =~= Seq::<u8>::empty());
            assert(out@ =~= fin.out + lit_encoding(Seq::<u8>::empty()));
        }
    }
    out
}

/// Decode one ZPS1 token stream into exactly `expected_len` raw bytes, or
/// report the first structural defect as `Corrupt`.
pub fn decode_lz77_block(
    input: &Vec<u8>,
    expected_len: usize,
    options: &CompressionOptions,
) -> (r: Result<Vec<u8>, ZparsError>)
    requires
        1 <= options.min_match <= 64,
    ensures
        ({
            let d = decode_block(input@, options.min_match as int);
            match r {
                Ok(o) => d == Some(o@) && o@.len() == expected_len,
                Err(e) => {
                    &&& (d is None || (d is Some && d->Some_0.len() != expected_len))
                    &&& e is Corrupt
                    &&& d is None ==> e->Corrupt_0@ == decode_fail_reason(
                        input@,
                        options.min_match as int,
                        Seq::empty(),
                    )
                    &&& d is Some ==> e->Corrupt_0@ == "decoded size mismatch"@
                },
            }
        }),
{
    let mm = options.min_match;
    let n = input.len();
    let mut out: Vec<u8> = Vec::new();
    let mut i: usize = 0;
    let ghost dfull = decode_rec(input@, mm as int, Seq::<u8>::empty());
    proof {
        assert(input@.subrange(0, n as int) =~= input@);
    }
    while i < n
        invariant
            i <= n == input@.len(),
            1 <= mm <= 64,
            mm == options.min_match,
            dfull == decode_block(input@, mm as int),
            decode_rec(input@.subrange(i as int, n as int), mm as int, out@) == dfull,
            decode_fail_reason(input@.subrange(i as int, n as int), mm as int, out@)
                == decode_fail_reason(input@, mm as int, Seq::<u8>::empty()),
        decreases n - i,
    {
        let ghost suffix = input@.subrange(i as int, n as int);
        let ghost acc0 = out@;
        let code = input[i];
        proof {
            assert(suffix[0] == code);
            assert(code == (code >> 6u8) * 64 + (code & 0x3fu8) && (code >> 6u8) <= 3 && (code
                & 0x3fu8) <= 63) by (bit_vector);
            assert(code >> 6u8 == code / 64);
            assert(code & 0x3fu8 == code % 64);
        }
        let kind = code >> 6u8;
        let low = (code & 0x3fu8) as usize;
        if kind == 0 {
            let lit_len = low + 1;
            if n - i < 1 + lit_len {
                proof {
                    assert(suffix.len() < 1 + lit_len);
                    assert(dfull is None);
                }
                return Err(ZparsError::Corrupt("literal run exceeds input"));
            }
            let mut j: usize = 0;
            while j < lit_len
                invariant
                    i + 1 + lit_len <= n == input@.len(),
                    j <= lit_len,
                    out@ == acc0 + input@.subrange(i + 1, i + 1 + j),
                decreases lit_len - j,
            {
                proof {
                    assert(input@.subrange(i + 1, i + 1 + (j + 1)) =~= input@.subrange(
                        i + 1,
                        i + 1 + j,
                    ).push(input@[i + 1 + j]));
                }
                out.push(input[i + 1 + j]);
                j += 1;
            }
            proof {
                assert(suffix.subrange(1, 1 + lit_len as int) =~= input@.subrange(
                    i + 1,
                    i + 1 + lit_len,
                ));
                assert(suffix.subrange(1 + lit_len as int, suffix.len() as int) =~= input@.subrange(
                    i + 1 + lit_len,
                    n as int,
                ));
                assert(out@ == acc0 + suffix.subrange(1, 1 + lit_len as int));
            }
            i += 1 + lit_len;
        } else {
            let nb = kind as usize + 1;
            if n - i < 1 + nb {
                proof {
                    assert(suffix.len() < 1 + nb);
                    assert(dfull is None);
                }
                return Err(ZparsError::Corrupt("offset exceeds input"));
            }
            let mut off_m1: u64 = 0;
            let mut j: usize = 0;
            proof {
                assert(suffix.subrange(1, 1) =~= Seq::<u8>::empty());
            }
            while j < nb
                invariant
                    i + 1 + nb <= n == input@.len(),
                    j <= nb <= 4,
                    off_m1 as int == be_val(suffix.subrange(1, 1 + j as int)),
                    suffix == input@.subrange(i as int, n as int),
                decreases nb - j,
            {
                proof {
                    lemma_be_val_bound(suffix.subrange(1, 1 + j as int));
                    assert(pow256(0) == 1 && pow256(1) == 256 && pow256(2) == 65536 && pow256(3)
                        == 16777216) by {
                        reveal_with_fuel(pow256, 4);
                    }
                    assert(off_m1 < 16777216);
                }
                let b = input[i + 1 + j];
                proof {
                    assert(suffix[1 + j] == input@[i + 1 + j]);
                    assert(suffix.subrange(1, 1 + (j + 1) as int).drop_last() =~= suffix.subrange(
                        1,
                        1 + j as int,
                    ));
                    assert(suffix.subrange(1, 1 + (j + 1) as int).last() == suffix[1 + j]);
                }
                off_m1 = off_m1 * 256 + (b as u64);
                j += 1;
            }
            proof {
                lemma_be_val_bound(suffix.subrange(1, 1 + nb as int));
                assert(pow256(2) == 65536 && pow256(3) == 16777216 && pow256(4) == 0x1_0000_0000)
                    by {
                    reveal_with_fuel(pow256, 5);
                }
                assert(off_m1 < 0x1_0000_0000);
            }
            let off: u64 = off_m1 + 1;
            let len: usize = low + mm;
            if off > out.len() as u64 {
                proof {
                    assert(dfull is None);
                }
                return Err(ZparsError::Corrupt("invalid match offset"));
            }
            let offu: usize = off as usize;
            let mut j2: usize = 0;
            while j2 < len
                invariant
                    out@ == copy_expand(acc0, offu as int, j2 as nat),
                    1 <= offu <= acc0.len(),
                    out@.len() == acc0.len() + j2,
                    j2 <= len,
                decreases len - j2,
            {
                let cur_len = out.len();
                let b = out[cur_len - offu];
                out.push(b);
                j2 += 1;
                proof {
                    lemma_copy_expand_len(acc0, offu as int, j2 as nat);
                }
            }
            proof {
                assert(suffix.subrange(1 + nb as int, suffix.len() as int) =~= input@.subrange(
                    i + 1 + nb,
                    n as int,
                ));
                assert(out@ == copy_expand(acc0, offu as int, (low + mm) as nat));
            }
            i += 1 + nb;
        }
    }
    proof {
        assert(input@.subrange(n as int, n as int) =~= Seq::<u8>::empty());
        assert(dfull == Some(out@));
    }
    if out.len() != expected_len {
        return Err(ZparsError::Corrupt("decoded size mismatch"));
    }
    Ok(out)
}

/// The big-endian value of a byte sequence is below 256 to its length.
proof fn lemma_be_val_bound(s: Seq<u8>)
    ensures
        0 <= be_val(s) < crate::tokens::pow256(s.len()),
    decreases s.len(),
{
    if s.len() == 0 {
    } else {
        lemma_be_val_bound(s.drop_last());
    }
}

} // verus!
