//! Bytes and tokens: which bytes lie in strings, which begin a token, and when a scan refuses.

use vstd::prelude::*;

use crate::api::{from_bytes, Error, StructuralIndex};
use crate::index::{
    filled, index_fits, index_tokens, is_space, law_index_tokens_in_order, literal_after,
    next_stop, skip_space,
};
use crate::laws::text::{backslashes, bare_quote};
use crate::lex::{
    kind_of_byte, law_every_token_byte_is_listed, law_tokens_point_at_their_bytes,
    fits_columns, lemma_escaped_in_string, lemma_underflow_mono, lex_at, lex_step, scan,
    token_at_byte, tokens_before, underflow_at, underflows_before, Kind, Token,
};

use crate::stage1::{run, run_scalar, Stage1};

verus! {

/// The byte `b` writes a token of kind `k`.
pub open spec fn writes(b: u8, k: Kind) -> bool {
    ||| b == 0x7b && k == Kind::ObjOpen
    ||| b == 0x7d && k == Kind::ObjClose
    ||| b == 0x5b && k == Kind::ArrOpen
    ||| b == 0x5d && k == Kind::ArrClose
    ||| b == 0x22 && k == Kind::Quote
    ||| b == 0x3a && k == Kind::Colon
    ||| b == 0x2c && k == Kind::Comma
}

/// Byte `p` lies in a string of the tokens in front of it: behind an opening quote, with no
/// bare quote between the two. The closing quote lies in its string.
pub open spec fn inside_string(buf: Seq<u8>, toks: Seq<Token>, p: int) -> bool {
    exists|i: int|
        0 <= i < toks.len() && (#[trigger] toks[i]).kind == Kind::Quote && toks[i].offset < p
            && forall|q: int|
            toks[i].offset < q < p ==> !#[trigger] bare_quote(buf, toks[i].offset + 1, q)
}

// ---------------------------------------------------------------------------
// Strings
// ---------------------------------------------------------------------------

/// From a string's opening quote on, as long as no bare quote comes, bytes lie in the string,
/// and an odd number of backslashes escapes.
proof fn lemma_string_lasts(buf: Seq<u8>, s: int, p: int)
    requires
        0 <= s < p <= buf.len(),
        !lex_at(buf, s).in_string,
        buf[s] == 0x22,
        forall|q: int| s < q < p ==> !#[trigger] bare_quote(buf, s + 1, q),
    ensures
        lex_at(buf, p).in_string,
        lex_at(buf, p).escaped == (backslashes(buf, s + 1, p) % 2 == 1),
    decreases p - s,
{
    lemma_escaped_in_string(buf, s);
    if p > s + 1 {
        lemma_string_lasts(buf, s, p - 1);
        assert(!bare_quote(buf, s + 1, p - 1));
        assert(lex_at(buf, p) == lex_step(lex_at(buf, p - 1), buf[p - 1]));
    }
}

/// A byte in a string has the opening quote of that string in front of it.
proof fn lemma_string_begins(buf: Seq<u8>, p: int) -> (s: int)
    requires
        0 <= p <= buf.len(),
        lex_at(buf, p).in_string,
    ensures
        0 <= s < p,
        !lex_at(buf, s).in_string,
        buf[s] == 0x22,
        forall|q: int| s < q < p ==> !#[trigger] bare_quote(buf, s + 1, q),
    decreases p,
{
    assert(lex_at(buf, p) == lex_step(lex_at(buf, p - 1), buf[p - 1]));
    if lex_at(buf, p - 1).in_string {
        let s = lemma_string_begins(buf, p - 1);
        lemma_string_lasts(buf, s, p - 1);
        s
    } else {
        p - 1
    }
}

proof fn lemma_tokens_grow(buf: Seq<u8>, p: int, n: int)
    requires
        0 <= p <= n <= buf.len(),
    ensures
        tokens_before(buf, p).len() <= tokens_before(buf, n).len(),
        tokens_before(buf, p) == tokens_before(buf, n).take(tokens_before(buf, p).len() as int),
    decreases n - p,
{
    if p < n {
        lemma_tokens_grow(buf, p, n - 1);
    }
    assert(tokens_before(buf, p) =~= tokens_before(buf, n).take(
        tokens_before(buf, p).len() as int,
    ));
}

/// The scan's notion of a string is that of [`inside_string`].
proof fn lemma_inside_string(buf: Seq<u8>, n: int, p: int)
    requires
        0 <= p <= n <= buf.len(),
    ensures
        lex_at(buf, p).in_string <==> inside_string(buf, tokens_before(buf, n), p),
{
    let toks = tokens_before(buf, n);
    if lex_at(buf, p).in_string {
        let s = lemma_string_begins(buf, p);
        assert(token_at_byte(buf, s) is Some);
        law_every_token_byte_is_listed(buf, n, s);
        let i = choose|i: int|
            0 <= i < toks.len() && token_at_byte(buf, s) == Some(#[trigger] toks[i]);
        assert(toks[i].kind == Kind::Quote && toks[i].offset == s);
    }
    if inside_string(buf, toks, p) {
        let i = choose|i: int|
            0 <= i < toks.len() && (#[trigger] toks[i]).kind == Kind::Quote && toks[i].offset < p
                && forall|q: int|
                toks[i].offset < q < p ==> !#[trigger] bare_quote(buf, toks[i].offset + 1, q);
        law_tokens_point_at_their_bytes(buf, n, i);
        lemma_string_lasts(buf, toks[i].offset, p);
    }
}

// ---------------------------------------------------------------------------
// Tokens of a scan
// ---------------------------------------------------------------------------

/// A scan lists every bracket, colon, comma and opening quote outside strings, and nothing
/// else.
pub proof fn law_scan_lists_structural_bytes(buf: Seq<u8>, p: int, k: Kind)
    requires
        0 <= p < buf.len(),
    ensures
        ({
            let toks = tokens_before(buf, buf.len() as int);
            (exists|i: int|
                0 <= i < toks.len() && (#[trigger] toks[i]).offset == p && toks[i].kind == k)
                <==> writes(buf[p], k) && !inside_string(buf, toks, p)
        }),
{
    let n = buf.len() as int;
    let toks = tokens_before(buf, n);
    lemma_inside_string(buf, n, p);
    if exists|i: int| 0 <= i < toks.len() && (#[trigger] toks[i]).offset == p && toks[i].kind == k {
        let i = choose|i: int|
            0 <= i < toks.len() && (#[trigger] toks[i]).offset == p && toks[i].kind == k;
        law_tokens_point_at_their_bytes(buf, n, i);
    }
    if writes(buf[p], k) && !inside_string(buf, toks, p) {
        assert(token_at_byte(buf, p) is Some);
        law_every_token_byte_is_listed(buf, n, p);
        let i = choose|i: int|
            0 <= i < toks.len() && token_at_byte(buf, p) == Some(#[trigger] toks[i]);
        assert(toks[i].offset == p && toks[i].kind == k);
    }
}

/// How many of the first `n` tokens open a container.
pub open spec fn opens_among(toks: Seq<Token>, n: int) -> int
    decreases n,
{
    if n <= 0 {
        0
    } else if toks[n - 1].kind == Kind::ObjOpen || toks[n - 1].kind == Kind::ArrOpen {
        opens_among(toks, n - 1) + 1
    } else {
        opens_among(toks, n - 1)
    }
}

/// How many of the first `n` tokens close a container.
pub open spec fn closes_among(toks: Seq<Token>, n: int) -> int
    decreases n,
{
    if n <= 0 {
        0
    } else if toks[n - 1].kind == Kind::ObjClose || toks[n - 1].kind == Kind::ArrClose {
        closes_among(toks, n - 1) + 1
    } else {
        closes_among(toks, n - 1)
    }
}

proof fn lemma_among_prefix(a: Seq<Token>, b: Seq<Token>, n: int)
    requires
        0 <= n <= a.len(),
        n <= b.len(),
        forall|k: int| 0 <= k < n ==> a[k] == b[k],
    ensures
        opens_among(a, n) == opens_among(b, n),
        closes_among(a, n) == closes_among(b, n),
    decreases n,
{
    if n > 0 {
        lemma_among_prefix(a, b, n - 1);
    }
}

/// The depth in front of a byte is the number of opens less that of closes in front of it.
proof fn lemma_depth_counts(buf: Seq<u8>, p: int)
    requires
        0 <= p <= buf.len(),
    ensures
        ({
            let toks = tokens_before(buf, p);
            lex_at(buf, p).depth == opens_among(toks, toks.len() as int) - closes_among(
                toks,
                toks.len() as int,
            )
        }),
    decreases p,
{
    if p > 0 {
        lemma_depth_counts(buf, p - 1);
        let front = tokens_before(buf, p - 1);
        let toks = tokens_before(buf, p);
        assert(lex_at(buf, p) == lex_step(lex_at(buf, p - 1), buf[p - 1]));
        lemma_among_prefix(front, toks, front.len() as int);
    }
}

/// Some close comes in front of its open.
pub open spec fn closes_too_early(toks: Seq<Token>) -> bool {
    exists|k: int|
        0 <= k <= toks.len() && #[trigger] closes_among(toks, k) > opens_among(toks, k)
}

proof fn lemma_underflow(buf: Seq<u8>)
    ensures
        underflows_before(buf, buf.len() as int) <==> closes_too_early(
            tokens_before(buf, buf.len() as int),
        ),
{
    let n = buf.len() as int;
    let toks = tokens_before(buf, n);
    if underflows_before(buf, n) {
        let p = choose|p: int| 0 <= p < n && #[trigger] underflow_at(buf, p);
        lemma_depth_counts(buf, p + 1);
        lemma_tokens_grow(buf, p + 1, n);
        let front = tokens_before(buf, p + 1);
        lemma_among_prefix(front, toks, front.len() as int);
        assert(lex_at(buf, p + 1) == lex_step(lex_at(buf, p), buf[p]));
        assert(closes_among(toks, front.len() as int) > opens_among(toks, front.len() as int));
    }
    if closes_too_early(toks) {
        let k = choose|k: int|
            0 <= k <= toks.len() && #[trigger] closes_among(toks, k) > opens_among(toks, k);
        lemma_early_close(buf, k);
    }
}

proof fn lemma_early_close(buf: Seq<u8>, k: int)
    requires
        0 <= k <= tokens_before(buf, buf.len() as int).len(),
        closes_among(tokens_before(buf, buf.len() as int), k) > opens_among(
            tokens_before(buf, buf.len() as int),
            k,
        ),
    ensures
        underflows_before(buf, buf.len() as int),
    decreases k,
{
    let n = buf.len() as int;
    let toks = tokens_before(buf, n);
    if closes_among(toks, k - 1) > opens_among(toks, k - 1) {
        lemma_early_close(buf, k - 1);
    } else {
        law_tokens_point_at_their_bytes(buf, n, k - 1);
        let p = toks[k - 1].offset;
        lemma_tokens_up_to(buf, k - 1);
        lemma_depth_counts(buf, p);
        let front = tokens_before(buf, p);
        lemma_among_prefix(front, toks, k - 1);
        assert(underflow_at(buf, p));
    }
}

/// In front of token `k` stand `k` tokens.
proof fn lemma_tokens_up_to(buf: Seq<u8>, k: int)
    requires
        0 <= k < tokens_before(buf, buf.len() as int).len(),
    ensures
        ({
            let toks = tokens_before(buf, buf.len() as int);
            tokens_before(buf, toks[k].offset) == toks.take(k)
        }),
{
    let n = buf.len() as int;
    let toks = tokens_before(buf, n);
    law_tokens_point_at_their_bytes(buf, n, k);
    let p = toks[k].offset;
    lemma_tokens_grow(buf, p, n);
    lemma_tokens_grow(buf, p + 1, n);
    let front = tokens_before(buf, p);
    assert(tokens_before(buf, p + 1) == front.push(token_at_byte(buf, p)->0));
    let j = front.len() as int;
    assert(tokens_before(buf, p + 1)[j].offset == p);
    assert(toks[j].offset == p);
    if j < k {
        assert(toks[j].offset < toks[k].offset);
    } else if k < j {
        law_tokens_point_at_their_bytes(buf, n, j);
        assert(toks[k].offset < toks[j].offset);
    }
}

/// When a scan refuses: for a close without open; else for a string that does not end; else
/// for a container that is not closed. Everything else it accepts, with all its tokens.
pub proof fn law_scan_verdict(buf: Seq<u8>)
    ensures
        ({
            let toks = tokens_before(buf, buf.len() as int);
            let n = toks.len() as int;
            if closes_too_early(toks) {
                scan(buf) == Err::<Seq<Token>, Seq<char>>("underflow"@)
            } else if inside_string(buf, toks, buf.len() as int) {
                scan(buf) == Err::<Seq<Token>, Seq<char>>("unterminated string"@)
            } else if opens_among(toks, n) != closes_among(toks, n) {
                scan(buf) == Err::<Seq<Token>, Seq<char>>("unclosed container"@)
            } else {
                scan(buf) == Ok::<Seq<Token>, Seq<char>>(toks)
            }
        }),
{
    let n = buf.len() as int;
    lemma_underflow(buf);
    lemma_inside_string(buf, n, n);
    lemma_depth_counts(buf, n);
}

/// The depth of a token of a scan is the number of containers that are open in front of it;
/// of a close, behind it.
pub proof fn law_scan_depths(buf: Seq<u8>, i: int)
    requires
        0 <= i < tokens_before(buf, buf.len() as int).len(),
    ensures
        ({
            let toks = tokens_before(buf, buf.len() as int);
            let t = toks[i];
            let open = opens_among(toks, i) - closes_among(toks, i);
            t.depth == (if t.kind == Kind::ObjClose || t.kind == Kind::ArrClose {
                open - 1
            } else {
                open
            })
        }),
{
    let n = buf.len() as int;
    let toks = tokens_before(buf, n);
    law_tokens_point_at_their_bytes(buf, n, i);
    lemma_tokens_up_to(buf, i);
    lemma_depth_counts(buf, toks[i].offset);
    lemma_among_prefix(toks.take(i), toks, i);
}

// ---------------------------------------------------------------------------
// Tokens of an index
// ---------------------------------------------------------------------------

/// Where token `k` of the scan stands among the tokens of the index, and its literal behind
/// it.
proof fn lemma_filled_keeps(buf: Seq<u8>, toks: Seq<Token>, m: int, k: int)
    requires
        0 <= k < m <= toks.len(),
    ensures
        ({
            let f = filled(buf, toks, m);
            let at = filled(buf, toks, k).len() as int;
            &&& 0 <= at < f.len()
            &&& f[at] == toks[k]
            &&& literal_after(buf, toks, k) matches Some(t) ==> at + 1 < f.len() && f[at + 1] == t
        }),
    decreases m,
{
    if k < m - 1 {
        lemma_filled_keeps(buf, toks, m - 1, k);
    }
}

/// Every token of the index is one of the scan or the literal behind one.
proof fn lemma_filled_from(buf: Seq<u8>, toks: Seq<Token>, m: int, i: int) -> (k: int)
    requires
        0 <= m <= toks.len(),
        0 <= i < filled(buf, toks, m).len(),
    ensures
        0 <= k < m,
        ({
            let f = filled(buf, toks, m);
            let at = filled(buf, toks, k).len() as int;
            ||| i == at && f[i] == toks[k]
            ||| i == at + 1 && f[at] == toks[k] && literal_after(buf, toks, k) == Some(f[i])
        }),
    decreases m,
{
    let front = filled(buf, toks, m - 1);
    if i < front.len() {
        let k = lemma_filled_from(buf, toks, m - 1, i);
        k
    } else {
        m - 1
    }
}

/// A scan of the index's bytes and the index itself know the same strings.
proof fn lemma_same_strings(buf: Seq<u8>, p: int)
    ensures
        inside_string(buf, tokens_before(buf, buf.len() as int), p) <==> inside_string(
            buf,
            index_tokens(buf),
            p,
        ),
{
    let toks = tokens_before(buf, buf.len() as int);
    let n = toks.len() as int;
    let f = index_tokens(buf);
    if inside_string(buf, toks, p) {
        let k = choose|k: int|
            0 <= k < toks.len() && (#[trigger] toks[k]).kind == Kind::Quote && toks[k].offset < p
                && forall|q: int|
                toks[k].offset < q < p ==> !#[trigger] bare_quote(buf, toks[k].offset + 1, q);
        lemma_filled_keeps(buf, toks, n, k);
        assert(f[filled(buf, toks, k).len() as int] == toks[k]);
    }
    if inside_string(buf, f, p) {
        let i = choose|i: int|
            0 <= i < f.len() && (#[trigger] f[i]).kind == Kind::Quote && f[i].offset < p
                && forall|q: int|
                f[i].offset < q < p ==> !#[trigger] bare_quote(buf, f[i].offset + 1, q);
        let k = lemma_filled_from(buf, toks, n, i);
        assert(toks[k] == f[i]);
    }
}

/// An index lists every bracket, colon, comma and opening quote outside strings, and besides
/// them literals alone.
pub proof fn law_index_lists_structural_bytes(buf: Seq<u8>, p: int, k: Kind)
    requires
        0 <= p < buf.len(),
        k != Kind::Scalar,
    ensures
        ({
            let toks = index_tokens(buf);
            (exists|i: int|
                0 <= i < toks.len() && (#[trigger] toks[i]).offset == p && toks[i].kind == k)
                <==> writes(buf[p], k) && !inside_string(buf, toks, p)
        }),
{
    let toks = tokens_before(buf, buf.len() as int);
    let n = toks.len() as int;
    let f = index_tokens(buf);
    law_scan_lists_structural_bytes(buf, p, k);
    lemma_same_strings(buf, p);
    if exists|i: int| 0 <= i < f.len() && (#[trigger] f[i]).offset == p && f[i].kind == k {
        let i = choose|i: int|
            0 <= i < f.len() && (#[trigger] f[i]).offset == p && f[i].kind == k;
        let j = lemma_filled_from(buf, toks, n, i);
        assert(toks[j].offset == p && toks[j].kind == k);
    }
    if writes(buf[p], k) && !inside_string(buf, f, p) {
        let j = choose|j: int|
            0 <= j < toks.len() && (#[trigger] toks[j]).offset == p && toks[j].kind == k;
        lemma_filled_keeps(buf, toks, n, j);
        assert(f[filled(buf, toks, j).len() as int].offset == p);
    }
}

/// One of the four bytes of white space: space, tab, line feed, carriage return.
pub open spec fn white(b: u8) -> bool {
    b == 0x20 || b == 0x09 || b == 0x0a || b == 0x0d
}

/// `b` begins a number, `true`, `false` or `null`: a minus sign, a digit, `t`, `f` or `n`.
pub open spec fn begins_literal(b: u8) -> bool {
    b == 0x2d || (0x30 <= b && b <= 0x39) || b == 0x74 || b == 0x66 || b == 0x6e
}

proof fn lemma_skip_to(buf: Seq<u8>, from: int, p: int, end: int)
    requires
        0 <= from <= p < end <= buf.len(),
        forall|k: int| from <= k < p ==> white(#[trigger] buf[k]),
        !white(buf[p]),
    ensures
        skip_space(buf, from, end) == p,
    decreases p - from,
{
    assert(is_space(buf[from]) == white(buf[from]));
    if from < p {
        lemma_skip_to(buf, from + 1, p, end);
    }
}

proof fn lemma_skipped(buf: Seq<u8>, from: int, end: int)
    requires
        0 <= from <= end <= buf.len(),
    ensures
        from <= skip_space(buf, from, end) <= end,
        forall|k: int| from <= k < skip_space(buf, from, end) ==> white(#[trigger] buf[k]),
    decreases end - from,
{
    if from < end && is_space(buf[from]) {
        lemma_skipped(buf, from + 1, end);
    }
}

/// Every literal has its token: where a number, `true`, `false` or `null` begins with nothing
/// but white space between it and a colon, a comma or `[`, the token behind that one is the
/// literal.
pub proof fn law_literals_have_tokens(buf: Seq<u8>, i: int, p: int)
    requires
        0 <= i < index_tokens(buf).len(),
        ({
            let k = index_tokens(buf)[i].kind;
            k == Kind::Colon || k == Kind::Comma || k == Kind::ArrOpen
        }),
        index_tokens(buf)[i].offset < p < buf.len(),
        forall|k: int|
            index_tokens(buf)[i].offset < k < p ==> {
                let b = #[trigger] buf[k];
                b == 0x20 || b == 0x09 || b == 0x0a || b == 0x0d
            },
        ({
            let b = buf[p];
            b == 0x2d || (0x30 <= b && b <= 0x39) || b == 0x74 || b == 0x66 || b == 0x6e
        }),
    ensures
        i + 1 < index_tokens(buf).len(),
        index_tokens(buf)[i + 1].offset == p,
        index_tokens(buf)[i + 1].kind == Kind::Scalar,
{
    let n = buf.len() as int;
    let toks = tokens_before(buf, n);
    let k = lemma_filled_from(buf, toks, toks.len() as int, i);
    let t = toks[k];
    law_tokens_point_at_their_bytes(buf, n, k);
    let stop = next_stop(buf, toks, k);
    if k + 1 < toks.len() {
        law_tokens_point_at_their_bytes(buf, n, k + 1);
        assert(toks[k].offset < toks[k + 1].offset);
        assert(kind_of_byte(buf[stop]) is Some);
        if stop <= p {
            assert(stop == p || white(buf[stop]));
        }
    }
    lemma_skip_to(buf, t.offset + 1, p, stop);
    lemma_filled_keeps(buf, toks, toks.len() as int, k);
}

/// The same over the bytes alone: outside strings every number, `true`, `false` and `null`
/// with nothing but white space between it and a colon, a comma or `[` has a token.
pub proof fn law_literal_bytes_have_tokens(buf: Seq<u8>, c: int, p: int)
    requires
        0 <= c < p < buf.len(),
        buf[c] == 0x3a || buf[c] == 0x2c || buf[c] == 0x5b,
        forall|k: int|
            c < k < p ==> {
                let b = #[trigger] buf[k];
                b == 0x20 || b == 0x09 || b == 0x0a || b == 0x0d
            },
        ({
            let b = buf[p];
            b == 0x2d || (0x30 <= b && b <= 0x39) || b == 0x74 || b == 0x66 || b == 0x6e
        }),
        !inside_string(buf, index_tokens(buf), p),
    ensures
        exists|i: int|
            0 <= i < index_tokens(buf).len() && (#[trigger] index_tokens(buf)[i]).offset == p
                && index_tokens(buf)[i].kind == Kind::Scalar,
{
    let f = index_tokens(buf);
    if inside_string(buf, f, c) {
        let i = choose|i: int|
            0 <= i < f.len() && (#[trigger] f[i]).kind == Kind::Quote && f[i].offset < c
                && forall|q: int|
                f[i].offset < q < c ==> !#[trigger] bare_quote(buf, f[i].offset + 1, q);
        assert forall|q: int| f[i].offset < q < p implies !#[trigger] bare_quote(
            buf,
            f[i].offset + 1,
            q,
        ) by {
            if q > c {
                assert(white(buf[q]));
            }
        }
        assert(inside_string(buf, f, p));
    }
    let k = if buf[c] == 0x3a {
        Kind::Colon
    } else if buf[c] == 0x2c {
        Kind::Comma
    } else {
        Kind::ArrOpen
    };
    law_index_lists_structural_bytes(buf, c, k);
    let i = choose|i: int| 0 <= i < f.len() && (#[trigger] f[i]).offset == c && f[i].kind == k;
    law_literals_have_tokens(buf, i, p);
    assert(f[i + 1].offset == p);
}

/// A literal token stands where a number, `true`, `false` or `null` begins, with nothing but
/// white space between it and the token in front, which is a colon, a comma or `[`.
pub proof fn law_literal_tokens_stand_at_literals(buf: Seq<u8>, i: int)
    requires
        0 <= i < index_tokens(buf).len(),
        index_tokens(buf)[i].kind == Kind::Scalar,
    ensures
        i > 0,
        ({
            let p = index_tokens(buf)[i].offset;
            let t = index_tokens(buf)[i - 1];
            let b = buf[p];
            &&& 0 <= t.offset < p < buf.len()
            &&& t.kind == Kind::Colon || t.kind == Kind::Comma || t.kind == Kind::ArrOpen
            &&& b == 0x2d || (0x30 <= b && b <= 0x39) || b == 0x74 || b == 0x66 || b == 0x6e
            &&& forall|k: int|
                t.offset < k < p ==> {
                    let w = #[trigger] buf[k];
                    w == 0x20 || w == 0x09 || w == 0x0a || w == 0x0d
                }
        }),
{
    let n = buf.len() as int;
    let toks = tokens_before(buf, n);
    let k = lemma_filled_from(buf, toks, toks.len() as int, i);
    let t = toks[k];
    law_tokens_point_at_their_bytes(buf, n, k);
    if k + 1 < toks.len() {
        law_tokens_point_at_their_bytes(buf, n, k + 1);
        assert(toks[k].offset < toks[k + 1].offset);
    }
    let stop = next_stop(buf, toks, k);
    lemma_skipped(buf, t.offset + 1, stop);
    assert forall|k: int| t.offset < k < index_tokens(buf)[i].offset implies {
        let w = #[trigger] buf[k];
        w == 0x20 || w == 0x09 || w == 0x0a || w == 0x0d
    } by {
        assert(white(buf[k]));
    }
}

/// Every token of an index stands where its byte is: brackets, colons, commas and quotes as
/// they are written, literals where one can begin. No token begins in a string.
pub proof fn law_index_tokens_are_written(buf: Seq<u8>, i: int)
    requires
        0 <= i < index_tokens(buf).len(),
    ensures
        ({
            let t = index_tokens(buf)[i];
            &&& 0 <= t.offset < buf.len()
            &&& if t.kind == Kind::Scalar {
                begins_literal(buf[t.offset])
            } else {
                writes(buf[t.offset], t.kind)
            }
            &&& !inside_string(buf, index_tokens(buf), t.offset)
        }),
{
    let f = index_tokens(buf);
    let t = f[i];
    law_index_tokens_in_order(buf);
    assert(0 <= t.offset < buf.len());
    if t.kind == Kind::Scalar {
        law_literal_tokens_stand_at_literals(buf, i);
    } else {
        law_index_lists_structural_bytes(buf, t.offset, t.kind);
    }
    crate::laws::law_tokens_lie_outside_strings(buf, i);
    lemma_inside_string(buf, buf.len() as int, t.offset);
    lemma_same_strings(buf, t.offset);
}

/// In a document that scans well every string ends.
pub proof fn law_no_string_is_open_at_the_end(buf: Seq<u8>)
    requires
        scan(buf) is Ok,
    ensures
        !inside_string(buf, index_tokens(buf), buf.len() as int),
{
    lemma_inside_string(buf, buf.len() as int, buf.len() as int);
    lemma_same_strings(buf, buf.len() as int);
}

/// The columns can describe a buffer of up to `u32::MAX` bytes where, as far as no close comes
/// in front of its open, at most 65535 containers are open at once.
pub proof fn law_columns_fit(buf: Seq<u8>)
    requires
        !closes_too_early(tokens_before(buf, buf.len() as int)),
    ensures
        ({
            let toks = tokens_before(buf, buf.len() as int);
            fits_columns(buf) <==> buf.len() <= 0xffff_ffff && forall|k: int|
                0 <= k <= toks.len() ==> #[trigger] opens_among(toks, k) - closes_among(toks, k)
                    <= 0xffff
        }),
{
    let n = buf.len() as int;
    let toks = tokens_before(buf, n);
    lemma_underflow(buf);
    assert forall|p: int| 0 <= p <= n implies !#[trigger] underflows_before(buf, p) by {
        if underflows_before(buf, p) {
            lemma_underflow_mono(buf, p, n);
        }
    }
    if fits_columns(buf) {
        assert forall|k: int| 0 <= k <= toks.len() implies #[trigger] opens_among(toks, k)
            - closes_among(toks, k) <= 0xffff by {
            let p = if k < toks.len() {
                law_tokens_point_at_their_bytes(buf, n, k);
                lemma_tokens_up_to(buf, k);
                toks[k].offset
            } else {
                n
            };
            lemma_depth_counts(buf, p);
            lemma_among_prefix(tokens_before(buf, p), toks, k);
            assert(lex_at(buf, p).depth <= u16::MAX);
        }
    }
    if buf.len() <= 0xffff_ffff && forall|k: int|
        0 <= k <= toks.len() ==> #[trigger] opens_among(toks, k) - closes_among(toks, k) <= 0xffff {
        assert forall|p: int| 0 <= p <= n && !underflows_before(buf, p) implies #[trigger] lex_at(
            buf,
            p,
        ).depth <= u16::MAX by {
            lemma_depth_counts(buf, p);
            lemma_tokens_grow(buf, p, n);
            let front = tokens_before(buf, p);
            lemma_among_prefix(front, toks, front.len() as int);
            assert(opens_among(toks, front.len() as int) - closes_among(toks, front.len() as int)
                <= 0xffff);
        }
    }
}

/// All scanners give one answer: the same tokens, or the same refusal.
pub proof fn law_scanners_agree(
    buf: &[u8],
    a: Result<Stage1, &'static str>,
    b: Result<Stage1, &'static str>,
)
    requires
        call_ensures(run, (buf,), a),
        call_ensures(run_scalar, (buf,), b),
    ensures
        a is Ok <==> b is Ok,
        a is Ok ==> (a->Ok_0)@ == (b->Ok_0)@,
        a is Err ==> (a->Err_0)@ == (b->Err_0)@,
{
}

/// An index is built over a document that scans well, and lists it: outside strings every
/// bracket, colon, comma and opening quote, every number, `true`, `false` and `null` behind a
/// colon, a comma or `[`, and nothing else, in byte order.
pub proof fn law_from_bytes_lists_the_document(
    bytes: &[u8],
    r: Result<StructuralIndex, Error>,
    p: int,
    k: Kind,
    c: int,
)
    requires
        call_ensures(from_bytes, (bytes,), r),
        0 <= p < bytes@.len(),
    ensures
        r is Ok <==> scan(bytes@) is Ok,
        r matches Ok(idx) ==> {
            let toks = idx.toks();
            let b = bytes@[p];
            &&& k != Kind::Scalar ==> ((exists|i: int|
                0 <= i < toks.len() && (#[trigger] toks[i]).offset == p && toks[i].kind == k)
                <==> writes(b, k) && !inside_string(bytes@, toks, p))
            &&& {
                &&& 0 <= c < p
                &&& bytes@[c] == 0x3a || bytes@[c] == 0x2c || bytes@[c] == 0x5b
                &&& forall|j: int| c < j < p ==> white(#[trigger] bytes@[j])
                &&& begins_literal(b)
                &&& !inside_string(bytes@, toks, p)
            } ==> exists|i: int|
                0 <= i < toks.len() && (#[trigger] toks[i]).offset == p && toks[i].kind
                    == Kind::Scalar
            &&& forall|i: int, j: int|
                0 <= i < j < toks.len() ==> (#[trigger] toks[i]).offset < (
                #[trigger] toks[j]).offset
        },
{
    if let Ok(idx) = r {
        if k != Kind::Scalar {
            law_index_lists_structural_bytes(bytes@, p, k);
        }
        law_index_tokens_in_order(bytes@);
        if {
            &&& 0 <= c < p
            &&& bytes@[c] == 0x3a || bytes@[c] == 0x2c || bytes@[c] == 0x5b
            &&& forall|j: int| c < j < p ==> white(#[trigger] bytes@[j])
            &&& begins_literal(bytes@[p])
            &&& !inside_string(bytes@, idx.toks(), p)
        } {
            assert forall|j: int| c < j < p implies {
                let b = #[trigger] bytes@[j];
                b == 0x20 || b == 0x09 || b == 0x0a || b == 0x0d
            } by {
                assert(white(bytes@[j]));
            }
            law_literal_bytes_have_tokens(bytes@, c, p);
        }
    }
}

/// An index can be built where the buffer has at most `i32::MAX` bytes and the columns can
/// describe it.
pub proof fn law_index_fits_tells_of_nesting(buf: &[u8], r: bool)
    requires
        call_ensures(index_fits, (buf,), r),
        !closes_too_early(tokens_before(buf@, buf@.len() as int)),
    ensures
        ({
            let toks = tokens_before(buf@, buf@.len() as int);
            r <==> buf@.len() <= 0x7fff_ffff && forall|k: int|
                0 <= k <= toks.len() ==> #[trigger] opens_among(toks, k) - closes_among(toks, k)
                    <= 0xffff
        }),
{
    law_columns_fit(buf@);
}

} // verus!
