//! Mathematical model of the ZPS1 token grammar.
//!
//! A compressed block is a sequence of tokens.  The two high bits of the lead
//! byte classify a token: `00` introduces a literal run (low six bits hold
//! `len - 1`), while `01`/`10`/`11` introduce a match whose offset is carried
//! in two, three or four big-endian bytes (low six bits hold
//! `len - min_match`).  `decode_rec` is the reference meaning of a token
//! stream; the encoder is proved to produce streams whose `decode_rec` value
//! is exactly the raw input.

use vstd::prelude::*;

verus! {

/// 256 to the power `n`.
pub open spec fn pow256(n: nat) -> int
    decreases n,
{
    if n == 0 {
        1
    } else {
        256 * pow256((n - 1) as nat)
    }
}

/// Big-endian integer value of a byte sequence.
pub open spec fn be_val(s: Seq<u8>) -> int
    decreases s.len(),
{
    if s.len() == 0 {
        0
    } else {
        be_val(s.drop_last()) * 256 + s.last()
    }
}

/// Big-endian encoding of `v` in exactly `n` bytes.
pub open spec fn be_bytes(v: int, n: nat) -> Seq<u8>
    decreases n,
{
    if n == 0 {
        Seq::empty()
    } else {
        be_bytes(v / 256, (n - 1) as nat).push((v % 256) as u8)
    }
}

pub proof fn lemma_be_bytes_len(v: int, n: nat)
    ensures
        be_bytes(v, n).len() == n,
    decreases n,
{
    if n > 0 {
        lemma_be_bytes_len(v / 256, (n - 1) as nat);
    }
}

/// Encoding then decoding a value below `256^n` gives the value back.
pub proof fn lemma_be_roundtrip(v: int, n: nat)
    requires
        0 <= v < pow256(n),
    ensures
        be_bytes(v, n).len() == n,
        be_val(be_bytes(v, n)) == v,
    decreases n,
{
    lemma_be_bytes_len(v, n);
    if n > 0 {
        assert(0 <= v / 256 < pow256((n - 1) as nat)) by {
            assert(pow256(n) == 256 * pow256((n - 1) as nat));
        }
        lemma_be_roundtrip(v / 256, (n - 1) as nat);
        let b = be_bytes(v / 256, (n - 1) as nat);
        assert(be_bytes(v, n) == b.push((v % 256) as u8));
        assert(b.push((v % 256) as u8).drop_last() =~= b);
        assert(be_val(be_bytes(v, n)) == be_val(b) * 256 + v % 256);
    }
}

/// The self-overlapping match copy: append `n` bytes, each read `off` places
/// back from the current end of the buffer.
pub open spec fn copy_expand(acc: Seq<u8>, off: int, n: nat) -> Seq<u8>
    decreases n,
{
    if n == 0 {
        acc
    } else {
        let prev = copy_expand(acc, off, (n - 1) as nat);
        prev.push(prev[prev.len() - off])
    }
}

pub proof fn lemma_copy_expand_len(acc: Seq<u8>, off: int, n: nat)
    ensures
        copy_expand(acc, off, n).len() == acc.len() + n,
    decreases n,
{
    if n > 0 {
        lemma_copy_expand_len(acc, off, (n - 1) as nat);
    }
}

/// When the copied region really repeats the source text, the match copy
/// extends a prefix of `x` to a longer prefix of `x`.
pub proof fn lemma_copy_expand_matches(x: Seq<u8>, i: int, off: int, n: nat)
    requires
        1 <= off <= i,
        i + n <= x.len(),
        forall|l: int| 0 <= l < n ==> x[i - off + l] == #[trigger] x[i + l],
    ensures
        copy_expand(x.subrange(0, i), off, n) == x.subrange(0, i + n),
    decreases n,
{
    if n == 0 {
        assert(copy_expand(x.subrange(0, i), off, n) =~= x.subrange(0, i));
    } else {
        lemma_copy_expand_matches(x, i, off, (n - 1) as nat);
        let prev = copy_expand(x.subrange(0, i), off, (n - 1) as nat);
        assert(prev == x.subrange(0, i + n - 1));
        assert(prev.len() == i + n - 1);
        assert(prev[i + n - 1 - off] == x[i + n - 1 - off]);
        assert(x[i - off + (n - 1)] == x[i + n - 1]);
        assert(prev.push(prev[prev.len() - off]) =~= x.subrange(0, i + n));
    }
}

/// Reference decoder for a token stream: `acc` is the output produced so far.
/// `None` models a `Corrupt` stream.
pub open spec fn decode_rec(s: Seq<u8>, mm: int, acc: Seq<u8>) -> Option<Seq<u8>>
    decreases s.len(),
{
    if s.len() == 0 {
        Some(acc)
    } else {
        let code = s[0] as int;
        let kind = code / 64;
        let low = code % 64;
        if kind == 0 {
            let lit_len = low + 1;
            if s.len() < 1 + lit_len {
                None
            } else {
                decode_rec(
                    s.subrange(1 + lit_len, s.len() as int),
                    mm,
                    acc + s.subrange(1, 1 + lit_len),
                )
            }
        } else {
            let nb = kind + 1;
            if s.len() < 1 + nb {
                None
            } else {
                let off = be_val(s.subrange(1, 1 + nb)) + 1;
                let len = low + mm;
                if off > acc.len() {
                    None
                } else {
                    decode_rec(
                        s.subrange(1 + nb, s.len() as int),
                        mm,
                        copy_expand(acc, off, len as nat),
                    )
                }
            }
        }
    }
}

/// Meaning of a whole compressed block.
pub open spec fn decode_block(s: Seq<u8>, mm: int) -> Option<Seq<u8>> {
    decode_rec(s, mm, Seq::empty())
}

/// The reason the decoder gives for the first defect in a token stream.
/// Meaningful exactly when `decode_rec` of the same arguments is `None`; it
/// follows the same path and names the failing check.
pub open spec fn decode_fail_reason(s: Seq<u8>, mm: int, acc: Seq<u8>) -> Seq<char>
    decreases s.len(),
{
    if s.len() == 0 {
        Seq::empty()
    } else {
        let code = s[0] as int;
        let kind = code / 64;
        let low = code % 64;
        if kind == 0 {
            let lit_len = low + 1;
            if s.len() < 1 + lit_len {
                "literal run exceeds input"@
            } else {
                decode_fail_reason(
                    s.subrange(1 + lit_len, s.len() as int),
                    mm,
                    acc + s.subrange(1, 1 + lit_len),
                )
            }
        } else {
            let nb = kind + 1;
            if s.len() < 1 + nb {
                "offset exceeds input"@
            } else {
                let off = be_val(s.subrange(1, 1 + nb)) + 1;
                let len = low + mm;
                if off > acc.len() {
                    "invalid match offset"@
                } else {
                    decode_fail_reason(
                        s.subrange(1 + nb, s.len() as int),
                        mm,
                        copy_expand(acc, off, len as nat),
                    )
                }
            }
        }
    }
}

/// Decoding distributes over concatenation: a stream that decodes cleanly can
/// be extended, and the extension continues from the accumulated output.
pub proof fn lemma_decode_append(s: Seq<u8>, ext: Seq<u8>, mm: int, acc: Seq<u8>, o: Seq<u8>)
    requires
        decode_rec(s, mm, acc) == Some(o),
    ensures
        decode_rec(s + ext, mm, acc) == decode_rec(ext, mm, o),
    decreases s.len(),
{
    if s.len() == 0 {
        assert(s + ext =~= ext);
    } else {
        let t = s + ext;
        assert(t[0] == s[0]);
        let code = s[0] as int;
        let kind = code / 64;
        let low = code % 64;
        if kind == 0 {
            let lit_len = low + 1;
            assert(s.len() >= 1 + lit_len);
            assert(t.subrange(1, 1 + lit_len) =~= s.subrange(1, 1 + lit_len));
            assert(t.subrange(1 + lit_len, t.len() as int) =~= s.subrange(
                1 + lit_len,
                s.len() as int,
            ) + ext);
            lemma_decode_append(
                s.subrange(1 + lit_len, s.len() as int),
                ext,
                mm,
                acc + s.subrange(1, 1 + lit_len),
                o,
            );
        } else {
            let nb = kind + 1;
            assert(s.len() >= 1 + nb);
            assert(t.subrange(1, 1 + nb) =~= s.subrange(1, 1 + nb));
            let off = be_val(s.subrange(1, 1 + nb)) + 1;
            let len = low + mm;
            assert(off <= acc.len());
            assert(t.subrange(1 + nb, t.len() as int) =~= s.subrange(1 + nb, s.len() as int) + ext);
            lemma_decode_append(
                s.subrange(1 + nb, s.len() as int),
                ext,
                mm,
                copy_expand(acc, off, len as nat),
                o,
            );
        }
    }
}

/// A single literal token appends its raw bytes to the output.
pub proof fn lemma_decode_literal_token(lits: Seq<u8>, mm: int, acc: Seq<u8>)
    requires
        1 <= lits.len() <= 64,
    ensures
        decode_rec(seq![(lits.len() - 1) as u8] + lits, mm, acc) == Some(acc + lits),
{
    let t = seq![(lits.len() - 1) as u8] + lits;
    assert(t[0] == (lits.len() - 1) as u8);
    let code = t[0] as int;
    assert(code == lits.len() - 1);
    assert(code / 64 == 0);
    assert(code % 64 == code);
    let lit_len = code + 1;
    assert(t.len() == 1 + lit_len);
    assert(t.subrange(1, 1 + lit_len) =~= lits);
    assert(t.subrange(1 + lit_len, t.len() as int) =~= Seq::<u8>::empty());
    assert(decode_rec(t, mm, acc) == decode_rec(
        t.subrange(1 + lit_len, t.len() as int),
        mm,
        acc + t.subrange(1, 1 + lit_len),
    ));
    assert(decode_rec(t.subrange(1 + lit_len, t.len() as int), mm, acc + lits) == Some(acc + lits));
}

/// A single match token expands the output by a self-overlapping copy.
pub proof fn lemma_decode_match_token(off: int, len1: int, nb: int, mm: int, acc: Seq<u8>)
    requires
        1 <= off <= acc.len(),
        1 <= mm,
        mm <= len1 <= mm + 63,
        2 <= nb <= 4,
        0 <= off - 1 < pow256(nb as nat),
    ensures
        decode_rec(
            seq![(64 * (nb - 1) + (len1 - mm)) as u8] + be_bytes(off - 1, nb as nat),
            mm,
            acc,
        ) == Some(copy_expand(acc, off, len1 as nat)),
{
    lemma_be_roundtrip(off - 1, nb as nat);
    let t = seq![(64 * (nb - 1) + (len1 - mm)) as u8] + be_bytes(off - 1, nb as nat);
    assert(t.len() == 1 + nb);
    let code = t[0] as int;
    assert(code == 64 * (nb - 1) + (len1 - mm));
    assert(code / 64 == nb - 1);
    assert(code % 64 == len1 - mm);
    assert(t.subrange(1, 1 + nb) =~= be_bytes(off - 1, nb as nat));
    assert(t.subrange(1 + nb, t.len() as int) =~= Seq::<u8>::empty());
    assert(decode_rec(t.subrange(1 + nb, t.len() as int), mm, copy_expand(acc, off, len1 as nat))
        == Some(copy_expand(acc, off, len1 as nat)));
}

/// Byte encoding of a run of literals, greedily chunked 64 at a time.
pub open spec fn lit_encoding(s: Seq<u8>) -> Seq<u8>
    decreases s.len(),
{
    if s.len() == 0 {
        Seq::empty()
    } else {
        let c = if s.len() <= 64 {
            s.len() as int
        } else {
            64
        };
        seq![(c - 1) as u8] + s.subrange(0, c) + lit_encoding(s.subrange(c, s.len() as int))
    }
}

pub proof fn lemma_lit_encoding_len(s: Seq<u8>)
    ensures
        lit_encoding(s).len() <= 2 * s.len(),
    decreases s.len(),
{
    if s.len() > 0 {
        let c = if s.len() <= 64 {
            s.len() as int
        } else {
            64
        };
        lemma_lit_encoding_len(s.subrange(c, s.len() as int));
    }
}

/// Decoding the literal encoding of `s` appends exactly `s`.
pub proof fn lemma_decode_lit_encoding(s: Seq<u8>, mm: int, acc: Seq<u8>)
    ensures
        decode_rec(lit_encoding(s), mm, acc) == Some(acc + s),
    decreases s.len(),
{
    if s.len() == 0 {
        assert(acc + s =~= acc);
    } else {
        let c = if s.len() <= 64 {
            s.len() as int
        } else {
            64
        };
        let chunk = s.subrange(0, c);
        let rest = s.subrange(c, s.len() as int);
        let t1 = seq![(c - 1) as u8] + chunk;
        assert(lit_encoding(s) =~= t1 + lit_encoding(rest));
        lemma_decode_literal_token(chunk, mm, acc);
        lemma_decode_append(t1, lit_encoding(rest), mm, acc, acc + chunk);
        lemma_decode_lit_encoding(rest, mm, acc + chunk);
        assert(acc + chunk + rest =~= acc + s);
    }
}

/// Length of the longest piece cut from a match of length `len`.
pub open spec fn match_split(len: int, mm: int) -> int {
    if len > 2 * mm + 63 {
        mm + 63
    } else if len > mm + 63 {
        len - mm
    } else {
        len
    }
}

/// Offset-byte count chosen by the encoder for offset `off`.
pub open spec fn nb_for(off: int) -> int {
    if off - 1 < 65536 {
        2
    } else if off - 1 < 16777216 {
        3
    } else {
        4
    }
}

/// Bytes of a single match token of length `len1` at offset `off`.
pub open spec fn match_token_bytes(len1: int, off: int, mm: int) -> Seq<u8> {
    seq![(64 * (nb_for(off) - 1) + (len1 - mm)) as u8] + be_bytes(off - 1, nb_for(off) as nat)
}

/// Byte encoding of a match of total length `len` at offset `off`, split
/// greedily into tokens that share the offset.
pub open spec fn match_encoding(len: int, off: int, mm: int) -> Seq<u8>
    decreases len,
{
    if len <= 0 || mm <= 0 {
        Seq::empty()
    } else {
        let l1 = match_split(len, mm);
        match_token_bytes(l1, off, mm) + match_encoding(len - l1, off, mm)
    }
}

/// Bounds on the piece sizes produced by the greedy split.
pub proof fn lemma_match_split_bounds(len: int, mm: int)
    requires
        1 <= mm <= 64,
        len >= mm,
    ensures
        mm <= match_split(len, mm) <= mm + 63,
        match_split(len, mm) <= len,
        len - match_split(len, mm) == 0 || len - match_split(len, mm) >= mm,
{
}

pub proof fn lemma_match_encoding_len(len: int, off: int, mm: int)
    requires
        1 <= mm <= 64,
        1 <= off <= 16777215,
        len >= mm,
    ensures
        match_encoding(len, off, mm).len() <= 4 * len,
    decreases len,
{
    lemma_match_split_bounds(len, mm);
    let l1 = match_split(len, mm);
    let nb = nb_for(off);
    assert(nb == 2 || nb == 3);
    lemma_be_bytes_len(off - 1, nb as nat);
    assert(match_token_bytes(l1, off, mm).len() == 1 + nb);
    assert(match_encoding(len, off, mm) == match_token_bytes(l1, off, mm) + match_encoding(
        len - l1,
        off,
        mm,
    ));
    if len - l1 == 0 {
        assert(match_encoding(0, off, mm) =~= Seq::<u8>::empty());
        assert(match_encoding(len, off, mm).len() == 1 + nb);
    } else {
        lemma_match_encoding_len(len - l1, off, mm);
    }
}

/// Decoding the match encoding extends a prefix of `x` by the matched bytes.
pub proof fn lemma_decode_match_encoding(x: Seq<u8>, i: int, off: int, len: int, mm: int)
    requires
        1 <= mm <= 64,
        1 <= off <= 16777215,
        off <= i,
        i + len <= x.len(),
        len >= mm,
        forall|l: int| 0 <= l < len ==> x[i - off + l] == #[trigger] x[i + l],
    ensures
        decode_rec(match_encoding(len, off, mm), mm, x.subrange(0, i)) == Some(
            x.subrange(0, i + len),
        ),
    decreases len,
{
    lemma_match_split_bounds(len, mm);
    let l1 = match_split(len, mm);
    let nb = nb_for(off);
    assert(pow256(2) == 65536) by {
        reveal_with_fuel(pow256, 3);
    }
    assert(pow256(3) == 16777216) by {
        reveal_with_fuel(pow256, 4);
    }
    assert(2 <= nb <= 3);
    assert(off - 1 < pow256(nb as nat));
    let acc = x.subrange(0, i);
    assert(off <= acc.len());
    lemma_decode_match_token(off, l1, nb, mm, acc);
    let t1 = match_token_bytes(l1, off, mm);
    assert(forall|l: int| 0 <= l < l1 ==> x[i - off + l] == #[trigger] x[i + l]);
    lemma_copy_expand_matches(x, i, off, l1 as nat);
    assert(decode_rec(t1, mm, acc) == Some(x.subrange(0, i + l1)));
    lemma_decode_append(t1, match_encoding(len - l1, off, mm), mm, acc, x.subrange(0, i + l1));
    if len - l1 == 0 {
        assert(match_encoding(len - l1, off, mm) =~= Seq::<u8>::empty());
        assert(t1 + match_encoding(len - l1, off, mm) =~= t1);
    } else {
        assert(len - l1 >= mm);
        assert forall|l: int|
            0 <= l < len - l1 implies x[(i + l1) - off + l] == #[trigger] x[(i + l1) + l] by {
            assert(x[i - off + (l1 + l)] == x[i + (l1 + l)]);
        }
        lemma_decode_match_encoding(x, i + l1, off, len - l1, mm);
    }
}

} // verus!

