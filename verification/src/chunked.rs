//! The bit-parallel scanner: 64 bytes at a time, one bit per byte.
//!
//! Each chunk is reduced to bit masks (quotes, backslashes, brackets and separators).
//! Carry arithmetic on the backslash mask tells which quotes are escaped, a prefix XOR over
//! the remaining quotes tells which bytes lie inside strings, and the structural bytes that
//! are left are visited lowest bit first. The rest of the buffer is scanned byte by byte.

use vstd::prelude::*;

use crate::ascii::{ARR_CLOSE, ARR_OPEN, BACKSLASH, COLON, COMMA, OBJ_CLOSE, OBJ_OPEN, QUOTE};
use crate::lex::{
    fits_columns, lemma_depth_nonneg, lemma_escaped_in_string, lemma_underflow_mono,
    lemma_underflow_step, lex_at, lex_step, scan, token_at_byte, tokens_before, underflow_at,
    underflows_before, Kind, Lex, Token,
};
use crate::stage1::Stage1;

verus! {

/// Bit `j` of `m` is set.
pub open spec fn bit(m: u64, j: int) -> bool {
    (m >> (j as u64)) & 1 == 1
}

/// Byte `j` of a chunk with backslash mask `bs` stands right behind an unescaped backslash;
/// `carry` says so of byte 0.
pub open spec fn escapes(bs: u64, carry: bool, j: int) -> bool
    decreases j,
{
    if j <= 0 {
        carry
    } else {
        bit(bs, j - 1) && !escapes(bs, carry, j - 1)
    }
}

/// Whether an odd number of the lowest `n` bits of `m` is set.
pub open spec fn odd_below(m: u64, n: int) -> bool
    decreases n,
{
    if n <= 0 {
        false
    } else {
        odd_below(m, n - 1) != bit(m, n - 1)
    }
}

proof fn lemma_zero(k: int)
    requires
        0 <= k < 64,
    ensures
        !bit(0, k),
{
    let j = k as u64;
    assert((0u64 >> j) & 1 == 0) by (bit_vector);
}

proof fn lemma_set(m: u64, j: u64, k: int)
    requires
        j < 64,
        0 <= k < 64,
    ensures
        bit(m | (1u64 << j), k) == (bit(m, k) || k == j),
{
    let i = k as u64;
    assert((((m | (1u64 << j)) >> i) & 1 == 1) == ((m >> i) & 1 == 1 || i == j)) by (bit_vector)
        requires
            j < 64,
            i < 64,
    ;
}

proof fn lemma_ops(a: u64, b: u64, k: int)
    requires
        0 <= k < 64,
    ensures
        bit(a & b, k) == (bit(a, k) && bit(b, k)),
        bit(a | b, k) == (bit(a, k) || bit(b, k)),
        bit(a ^ b, k) == (bit(a, k) != bit(b, k)),
        bit(a & !b, k) == (bit(a, k) && !bit(b, k)),
{
    let j = k as u64;
    assert({
        &&& (((a & b) >> j) & 1 == 1) == ((a >> j) & 1 == 1 && (b >> j) & 1 == 1)
        &&& (((a | b) >> j) & 1 == 1) == ((a >> j) & 1 == 1 || (b >> j) & 1 == 1)
        &&& (((a ^ b) >> j) & 1 == 1) == (((a >> j) & 1 == 1) != ((b >> j) & 1 == 1))
        &&& (((a & !b) >> j) & 1 == 1) == ((a >> j) & 1 == 1 && !((b >> j) & 1 == 1))
    }) by (bit_vector)
        requires
            j < 64,
    ;
}

proof fn lemma_all_ones(k: int)
    requires
        0 <= k < 64,
    ensures
        bit(u64::MAX, k),
{
    let j = k as u64;
    assert((0xffff_ffff_ffff_ffffu64 >> j) & 1 == 1) by (bit_vector)
        requires
            j < 64,
    ;
}

/// A nonzero mask has a set bit.
proof fn lemma_nonzero(m: u64)
    requires
        forall|k: int| 0 <= k < 64 ==> !#[trigger] bit(m, k),
    ensures
        m == 0,
{
    vstd::std_specs::bits::axiom_u64_trailing_zeros(m);
    if m != 0 {
        let t = vstd::std_specs::bits::u64_trailing_zeros(m);
        assert(bit(m, t as int));
    }
}

/// Clearing the lowest set bit leaves the others alone.
proof fn lemma_clear_lowest(m: u64, t: u64, k: int)
    requires
        m != 0,
        t < 64,
        bit(m, t as int),
        forall|i: int| 0 <= i < t ==> !#[trigger] bit(m, i),
        0 <= k < 64,
    ensures
        bit(m & ((m - 1) as u64), k) == (bit(m, k) && k != t),
{
    let low = m & (((1u64 << t) - 1) as u64);
    assert(low == 0) by {
        assert forall|i: int| 0 <= i < 64 implies !#[trigger] bit(low, i) by {
            let j = i as u64;
            assert((((m & (((1u64 << t) - 1) as u64)) >> j) & 1 == 1) == ((m >> j) & 1 == 1 && j
                < t)) by (bit_vector)
                requires
                    t < 64,
                    j < 64,
            ;
            if j < t {
                assert(!bit(m, i));
            }
        }
        lemma_nonzero(low);
    }
    let j = k as u64;
    assert((((m & ((m - 1) as u64)) >> j) & 1 == 1) == ((m >> j) & 1 == 1 && j != t)) by (bit_vector)
        requires
            m & (((1u64 << t) - 1) as u64) == 0,
            (m >> t) & 1 == 1,
            m != 0,
            t < 64,
            j < 64,
    ;
}

/// The masks of one chunk.
pub struct ChunkBits {
    /// Bytes equal to `"`.
    pub qt: u64,
    /// Bytes equal to `\`.
    pub bs: u64,
    /// Brackets, colons and commas.
    pub structural: u64,
}

/// `b` is a bracket, a colon or a comma.
pub open spec fn is_structural(b: u8) -> bool {
    b == OBJ_OPEN || b == OBJ_CLOSE || b == ARR_OPEN || b == ARR_CLOSE || b == COLON || b == COMMA
}

impl ChunkBits {
    /// The masks describe the 64 bytes of `buf` from `at` on.
    pub open spec fn describes(&self, buf: Seq<u8>, at: int) -> bool {
        forall|j: int|
            #![trigger buf[at + j]]
            0 <= j < 64 ==> {
                &&& bit(self.qt, j) == (buf[at + j] == QUOTE)
                &&& bit(self.bs, j) == (buf[at + j] == BACKSLASH)
                &&& bit(self.structural, j) == is_structural(buf[at + j])
            }
    }
}

/// Classifies the 64 bytes of `buf` from `at` on.
fn chunk_bits(buf: &[u8], at: usize) -> (r: ChunkBits)
    requires
        at + 64 <= buf@.len(),
    ensures
        r.describes(buf@, at as int),
{
    let mut qt: u64 = 0;
    let mut bs: u64 = 0;
    let mut structural: u64 = 0;
    let mut j: u64 = 0;
    let n: usize = buf.len();
    proof {
        assert forall|k: int| 0 <= k < 64 implies !#[trigger] bit(0, k) by {
            lemma_zero(k);
        }
    }
    while j < 64
        invariant
            j <= 64,
            at + 64 <= n == buf@.len(),
            forall|k: int|
                #![trigger buf@[at + k]]
                0 <= k < j ==> {
                    &&& bit(qt, k) == (buf@[at + k] == QUOTE)
                    &&& bit(bs, k) == (buf@[at + k] == BACKSLASH)
                    &&& bit(structural, k) == is_structural(buf@[at + k])
                },
            forall|k: int| j <= k < 64 ==> !#[trigger] bit(qt, k),
            forall|k: int| j <= k < 64 ==> !#[trigger] bit(bs, k),
            forall|k: int| j <= k < 64 ==> !#[trigger] bit(structural, k),
        decreases 64 - j,
    {
        let b = buf[at + j as usize];
        let ghost (qt0, bs0, st0) = (qt, bs, structural);
        if b == QUOTE {
            qt = qt | (1u64 << j);
        } else if b == BACKSLASH {
            bs = bs | (1u64 << j);
        } else if b == OBJ_OPEN || b == OBJ_CLOSE || b == ARR_OPEN || b == ARR_CLOSE || b == COLON
            || b == COMMA {
            structural = structural | (1u64 << j);
        }
        proof {
            assert forall|k: int| 0 <= k < 64 implies {
                &&& #[trigger] bit(qt0 | (1u64 << j), k) == (bit(qt0, k) || k == j)
                &&& bit(bs0 | (1u64 << j), k) == (bit(bs0, k) || k == j)
                &&& bit(st0 | (1u64 << j), k) == (bit(st0, k) || k == j)
            } by {
                lemma_set(qt0, j, k);
                lemma_set(bs0, j, k);
                lemma_set(st0, j, k);
            }
            assert forall|k: int|
                #![trigger bit(qt, k)]
                #![trigger bit(bs, k)]
                #![trigger bit(structural, k)]
                0 <= k < 64 implies {
                &&& bit(qt, k) == (bit(qt0, k) || (k == j && b == QUOTE))
                &&& bit(bs, k) == (bit(bs0, k) || (k == j && b == BACKSLASH))
                &&& bit(structural, k) == (bit(st0, k) || (k == j && is_structural(b)))
            } by {
                assert(bit(qt0 | (1u64 << j), k) == (bit(qt0, k) || k == j));
            }
            assert(b == buf@[at + j]);
        }
        j = j + 1;
    }
    ChunkBits { qt, bs, structural }
}

/// Backslash-run analysis: the bytes, other than backslashes, that an odd run of backslashes
/// escapes. `prev_escaped` carries a run that reaches the end of a chunk into the next one.
fn compute_escaped(bs: u64, prev_escaped: &mut u64) -> (r: u64)
    requires
        *old(prev_escaped) <= 1,
    ensures
        *final(prev_escaped) <= 1,
        forall|j: int|
            0 <= j < 64 ==> #[trigger] bit(r, j) == (escapes(bs, *old(prev_escaped) == 1, j) && !bit(
                bs,
                j,
            )),
        (*final(prev_escaped) == 1) == escapes(bs, *old(prev_escaped) == 1, 64),
{
    let even: u64 = 0x5555_5555_5555_5555;
    let odd: u64 = 0xAAAA_AAAA_AAAA_AAAA;
    let prev: u64 = *prev_escaped;

    let starts: u64 = bs & !(bs << 1);
    let even_mask: u64 = even ^ prev;
    let even_starts: u64 = starts & even_mask;
    let odd_starts: u64 = starts & !even_mask;

    let even_carries: u64 = bs.wrapping_add(even_starts);
    let odd_carries: u64 = bs.wrapping_add(odd_starts);
    *prev_escaped = if odd_carries < bs {
        1
    } else {
        0
    };

    let even_runs: u64 = even_carries & !bs;
    let odd_runs: u64 = (odd_carries | prev) & !bs;
    let r: u64 = (even_runs & odd) | (odd_runs & even);
    proof {
        // The mask of all escaped bytes, backslashes included.
        let pe = bs & !prev;
        let x: u64 = (((pe << 1) | odd) - pe) as u64;
        let e: u64 = (x ^ odd) ^ (bs | prev);
        lemma_escape_mask(bs, prev, even_carries, odd_carries);
        assert forall|j: int| 0 <= j <= 63 implies #[trigger] bit(e, j) == escapes(
            bs,
            prev == 1,
            j,
        ) by {
            lemma_escape_bits(bs, prev, e, j);
        }
        assert forall|j: int| 0 <= j < 64 implies #[trigger] bit(r, j) == (escapes(bs, prev == 1, j)
            && !bit(bs, j)) by {
            lemma_ops(e, bs, j);
            assert(bit(e, j) == escapes(bs, prev == 1, j));
        }
        lemma_ops(bs, e, 63);
        assert(bit(e, 63) == escapes(bs, prev == 1, 63));
        let top = bs & !e;
        assert((top >> 63) & 1 == top >> 63) by (bit_vector);
    }
    r
}

/// The carries isolate exactly the escaped bytes: `e` solves the recurrence "a byte is
/// escaped iff the byte in front is an unescaped backslash".
proof fn lemma_escape_mask(bs: u64, prev: u64, even_carries: u64, odd_carries: u64)
    requires
        prev <= 1,
        even_carries == (bs.wrapping_add((bs & !(bs << 1)) & (0x5555_5555_5555_5555 ^ prev))),
        odd_carries == (bs.wrapping_add((bs & !(bs << 1)) & !(0x5555_5555_5555_5555 ^ prev))),
    ensures
        ({
            let odd: u64 = 0xAAAA_AAAA_AAAA_AAAA;
            let even: u64 = 0x5555_5555_5555_5555;
            let pe = bs & !prev;
            let x: u64 = (((pe << 1) | odd) - pe) as u64;
            let e = (x ^ odd) ^ (bs | prev);
            &&& e == (((bs & !e) << 1) | prev)
            &&& (((even_carries & !bs) & odd) | (((odd_carries | prev) & !bs) & even)) == e & !bs
            &&& (odd_carries < bs) == (((bs & !e) >> 63) == 1)
        }),
{
    let es = (bs & !(bs << 1)) & (0x5555_5555_5555_5555 ^ prev);
    let os = (bs & !(bs << 1)) & !(0x5555_5555_5555_5555 ^ prev);
    assert(even_carries == (bs + es) as u64) by (bit_vector)
        requires
            even_carries == bs + es || even_carries == bs + es - 0x1_0000_0000_0000_0000,
    ;
    assert(odd_carries == (bs + os) as u64) by (bit_vector)
        requires
            odd_carries == bs + os || odd_carries == bs + os - 0x1_0000_0000_0000_0000,
    ;
    assert({
        let odd: u64 = 0xAAAA_AAAA_AAAA_AAAA;
        let even: u64 = 0x5555_5555_5555_5555;
        let pe = bs & !prev;
        let x: u64 = (((pe << 1) | odd) - pe) as u64;
        let e = (x ^ odd) ^ (bs | prev);
        &&& e == (((bs & !e) << 1) | prev)
        &&& (((even_carries & !bs) & odd) | (((odd_carries | prev) & !bs) & even)) == e & !bs
        &&& (odd_carries < bs) == (((bs & !e) >> 63) == 1)
    }) by (bit_vector)
        requires
            prev <= 1,
            even_carries == (bs + ((bs & !(bs << 1)) & (0x5555_5555_5555_5555 ^ prev))) as u64,
            odd_carries == (bs + ((bs & !(bs << 1)) & !(0x5555_5555_5555_5555 ^ prev))) as u64,
    ;
}

/// The solution of the escape recurrence, bit by bit.
proof fn lemma_escape_bits(bs: u64, prev: u64, e: u64, j: int)
    requires
        prev <= 1,
        e == (((bs & !e) << 1) | prev),
        0 <= j < 64,
    ensures
        bit(e, j) == escapes(bs, prev == 1, j),
    decreases j,
{
    if j == 0 {
        assert(((e >> 0) & 1 == 1) == (prev == 1)) by (bit_vector)
            requires
                prev <= 1,
                e == (((bs & !e) << 1) | prev),
        ;
    } else {
        lemma_escape_bits(bs, prev, e, j - 1);
        let k = j as u64;
        let i = (j - 1) as u64;
        assert(((e >> k) & 1 == 1) == ((bs >> i) & 1 == 1 && !((e >> i) & 1 == 1))) by (bit_vector)
            requires
                prev <= 1,
                e == (((bs & !e) << 1) | prev),
                k < 64,
                i + 1 == k,
        ;
    }
}

/// Prefix XOR: bit `j` of the result is the parity of the bits up to and with `j`.
fn prefix_xor(bits: u64) -> (r: u64)
    ensures
        forall|j: int| 0 <= j < 64 ==> #[trigger] bit(r, j) == odd_below(bits, j + 1),
{
    let a: u64 = bits ^ (bits << 1);
    let b: u64 = a ^ (a << 2);
    let c: u64 = b ^ (b << 4);
    let d: u64 = c ^ (c << 8);
    let e: u64 = d ^ (d << 16);
    let r: u64 = e ^ (e << 32);
    proof {
        assert(r == bits ^ (r << 1)) by (bit_vector)
            requires
                a == bits ^ (bits << 1),
                b == a ^ (a << 2),
                c == b ^ (b << 4),
                d == c ^ (c << 8),
                e == d ^ (d << 16),
                r == e ^ (e << 32),
        ;
        assert forall|j: int| 0 <= j < 64 implies #[trigger] bit(r, j) == odd_below(bits, j + 1) by {
            lemma_prefix_bits(bits, r, j);
        }
    }
    r
}

proof fn lemma_prefix_bits(bits: u64, r: u64, j: int)
    requires
        r == bits ^ (r << 1),
        0 <= j < 64,
    ensures
        bit(r, j) == odd_below(bits, j + 1),
    decreases j,
{
    reveal_with_fuel(odd_below, 2);
    if j == 0 {
        assert(((r >> 0) & 1) == ((bits >> 0) & 1)) by (bit_vector)
            requires
                r == bits ^ (r << 1),
        ;
    } else {
        lemma_prefix_bits(bits, r, j - 1);
        let k = j as u64;
        let i = (j - 1) as u64;
        assert(((r >> k) & 1 == 1) == (((r >> i) & 1 == 1) != ((bits >> k) & 1 == 1)))
            by (bit_vector)
            requires
                r == bits ^ (r << 1),
                k < 64,
                i + 1 == k,
        ;
    }
}

/// Bytes without tokens leave the tokens, the depth and the nesting as they were.
proof fn lemma_no_tokens(buf: Seq<u8>, i: int, j: int)
    requires
        0 <= i <= j <= buf.len(),
        forall|k: int| i <= k < j ==> #[trigger] token_at_byte(buf, k) is None,
    ensures
        tokens_before(buf, j) == tokens_before(buf, i),
        lex_at(buf, j).depth == lex_at(buf, i).depth,
        underflows_before(buf, j) == underflows_before(buf, i),
    decreases j - i,
{
    if i < j {
        lemma_no_tokens(buf, i, j - 1);
        lemma_underflow_step(buf, j - 1);
        assert(token_at_byte(buf, j - 1) is None);
    }
}

/// `quotes` holds the quotes of the chunk that no backslash escapes.
spec fn real_quotes_of(bits: ChunkBits, carry: bool, quotes: u64) -> bool {
    forall|j: int|
        0 <= j < 64 ==> #[trigger] bit(quotes, j) == (bit(bits.qt, j) && !escapes(
            bits.bs,
            carry,
            j,
        ))
}

/// The masks of a chunk without a backslash outside strings follow the lexical state.
proof fn lemma_chunk_state(
    buf: Seq<u8>,
    at: int,
    bits: ChunkBits,
    carry: bool,
    inside: bool,
    quotes: u64,
    j: int,
)
    requires
        0 <= at,
        at + 64 <= buf.len(),
        bits.describes(buf, at),
        real_quotes_of(bits, carry, quotes),
        lex_at(buf, at).in_string == inside,
        lex_at(buf, at).escaped == carry,
        forall|k: int|
            0 <= k < 64 && #[trigger] bit(bits.bs, k) ==> odd_below(quotes, k + 1) != inside,
        0 <= j <= 64,
    ensures
        lex_at(buf, at + j).in_string == (odd_below(quotes, j) != inside),
        lex_at(buf, at + j).escaped == escapes(bits.bs, carry, j),
    decreases j,
{
    if j > 0 {
        lemma_chunk_state(buf, at, bits, carry, inside, quotes, j - 1);
        lemma_escaped_in_string(buf, at + j - 1);
        assert(bit(quotes, j - 1) == (bit(bits.qt, j - 1) && !escapes(bits.bs, carry, j - 1)));
        let b = buf[at + (j - 1)];
        assert(bit(bits.qt, j - 1) == (b == QUOTE));
        assert(bit(bits.bs, j - 1) == (b == BACKSLASH));
        assert(lex_at(buf, at + j) == lex_step(lex_at(buf, at + j - 1), b));
    }
}

/// The emitted bits are the bytes of the chunk that begin a token.
proof fn lemma_chunk_emits(
    buf: Seq<u8>,
    at: int,
    bits: ChunkBits,
    carry: bool,
    inside: bool,
    quotes: u64,
    in_string: u64,
    emit: u64,
    j: int,
)
    requires
        0 <= at,
        at + 64 <= buf.len(),
        bits.describes(buf, at),
        real_quotes_of(bits, carry, quotes),
        lex_at(buf, at).in_string == inside,
        lex_at(buf, at).escaped == carry,
        forall|k: int|
            0 <= k < 64 ==> #[trigger] bit(in_string, k) == (odd_below(quotes, k + 1) != inside),
        forall|k: int| 0 <= k < 64 && #[trigger] bit(bits.bs, k) ==> bit(in_string, k),
        emit == (bits.structural & !in_string) | (quotes & in_string),
        0 <= j < 64,
    ensures
        bit(emit, j) == (token_at_byte(buf, at + j) is Some),
{
    assert forall|k: int| 0 <= k < 64 && #[trigger] bit(bits.bs, k) implies odd_below(quotes, k + 1)
        != inside by {
        assert(bit(in_string, k));
    }
    lemma_chunk_state(buf, at, bits, carry, inside, quotes, j);
    lemma_escaped_in_string(buf, at + j);
    lemma_ops(bits.structural & !in_string, quotes & in_string, j);
    lemma_ops(bits.structural, in_string, j);
    lemma_ops(quotes, in_string, j);
    assert(bit(quotes, j) == (bit(bits.qt, j) && !escapes(bits.bs, carry, j)));
    assert(bit(in_string, j) == (odd_below(quotes, j + 1) != inside));
    let b = buf[at + j];
    assert(bit(bits.structural, j) == is_structural(b));
    assert(bit(bits.qt, j) == (b == QUOTE));
}

/// Appends the token at byte `off` and moves `depth` along.
fn emit_token(buf: &[u8], off: usize, s: &mut Stage1, depth: &mut u16) -> (r: Result<
    (),
    &'static str,
>)
    requires
        off < buf@.len(),
        fits_columns(buf@),
        token_at_byte(buf@, off as int) is Some,
        old(s).wf(),
        old(s)@ == tokens_before(buf@, off as int),
        *old(depth) == lex_at(buf@, off as int).depth,
        !underflows_before(buf@, off as int),
    ensures
        match r {
            Ok(_) => {
                &&& final(s).wf()
                &&& final(s)@ == tokens_before(buf@, off + 1)
                &&& *final(depth) == lex_at(buf@, off + 1).depth
                &&& !underflows_before(buf@, off + 1)
            },
            Err(e) => underflows_before(buf@, off + 1) && e@ == "underflow"@,
        },
{
    let b = buf[off];
    proof {
        lemma_underflow_step(buf@, off as int);
        lemma_depth_nonneg(buf@, off as int);
    }
    if b == OBJ_OPEN || b == ARR_OPEN {
        assert(lex_at(buf@, off + 1).depth == *depth + 1);
        s.push(off, if b == OBJ_OPEN { Kind::ObjOpen } else { Kind::ArrOpen }, *depth);
        *depth = *depth + 1;
    } else if b == OBJ_CLOSE || b == ARR_CLOSE {
        if *depth == 0 {
            assert(underflow_at(buf@, off as int));
            return Err("underflow");
        }
        *depth = *depth - 1;
        s.push(off, if b == OBJ_CLOSE { Kind::ObjClose } else { Kind::ArrClose }, *depth);
    } else if b == COLON {
        s.push(off, Kind::Colon, *depth);
    } else if b == COMMA {
        s.push(off, Kind::Comma, *depth);
    } else {
        s.push(off, Kind::Quote, *depth);
    }
    Ok(())
}

/// Visits the set bits of `mask` in ascending order and appends the token at each.
fn emit_chunk(buf: &[u8], at: usize, mask: u64, s: &mut Stage1, depth: &mut u16) -> (r: Result<
    (),
    &'static str,
>)
    requires
        at + 64 <= buf@.len(),
        fits_columns(buf@),
        forall|j: int|
            0 <= j < 64 ==> #[trigger] bit(mask, j) == (token_at_byte(buf@, at + j) is Some),
        old(s).wf(),
        old(s)@ == tokens_before(buf@, at as int),
        *old(depth) == lex_at(buf@, at as int).depth,
        !underflows_before(buf@, at as int),
    ensures
        match r {
            Ok(_) => {
                &&& final(s).wf()
                &&& final(s)@ == tokens_before(buf@, at + 64)
                &&& *final(depth) == lex_at(buf@, at + 64).depth
                &&& !underflows_before(buf@, at + 64)
            },
            Err(e) => underflows_before(buf@, at + 64) && e@ == "underflow"@,
        },
{
    let n: usize = buf.len();
    let mut emit_mask: u64 = mask;
    let ghost mut next: int = 0;
    while emit_mask != 0
        invariant
            at + 64 <= n == buf@.len(),
            fits_columns(buf@),
            forall|j: int|
                0 <= j < 64 ==> #[trigger] bit(mask, j) == (token_at_byte(buf@, at + j) is Some),
            0 <= next <= 64,
            forall|j: int| 0 <= j < 64 ==> #[trigger] bit(emit_mask, j) == (bit(mask, j) && j >= next),
            s.wf(),
            s@ == tokens_before(buf@, at + next),
            *depth == lex_at(buf@, at + next).depth,
            !underflows_before(buf@, at + next),
        decreases 64 - next,
    {
        let t: u32 = emit_mask.trailing_zeros();
        proof {
            vstd::std_specs::bits::axiom_u64_trailing_zeros(emit_mask);
            assert(bit(emit_mask, t as int));
            assert forall|i: int| 0 <= i < t implies !#[trigger] bit(emit_mask, i) by {
                let k = i as u64;
                assert((emit_mask >> k) & 1 == 0);
            }
            assert forall|k: int| at + next <= k < at + t implies #[trigger] token_at_byte(buf@, k) is None by {
                assert(!bit(emit_mask, k - at));
                assert(bit(mask, k - at) == (token_at_byte(buf@, at + (k - at)) is Some));
            }
            lemma_no_tokens(buf@, at + next, at + t);
            assert(bit(mask, t as int));
            assert forall|k: int| 0 <= k < 64 implies #[trigger] bit(
                emit_mask & ((emit_mask - 1) as u64),
                k,
            ) == (bit(mask, k) && k >= t + 1) by {
                lemma_clear_lowest(emit_mask, t as u64, k);
                assert(bit(emit_mask, k) == (bit(mask, k) && k >= next));
            }
        }
        emit_mask = emit_mask & (emit_mask - 1);
        let off: usize = at + t as usize;
        match emit_token(buf, off, s, depth) {
            Ok(_) => {},
            Err(e) => {
                proof {
                    lemma_underflow_mono(buf@, off + 1, at + 64);
                }
                return Err(e);
            },
        }
        proof {
            next = t + 1;
        }
    }
    proof {
        assert forall|k: int| at + next <= k < at + 64 implies #[trigger] token_at_byte(buf@, k) is None by {
            lemma_zero(k - at);
            assert(!bit(emit_mask, k - at));
            assert(bit(mask, k - at) == (token_at_byte(buf@, at + (k - at)) is Some));
        }
        lemma_no_tokens(buf@, at + next, at + 64);
    }
    Ok(())
}

/// Scans the rest of the buffer from `from` on byte by byte, in the given string state, and
/// says whether it ends inside a string.
fn run_tail(
    buf: &[u8],
    from: usize,
    s: &mut Stage1,
    depth: &mut u16,
    in_string: bool,
    escaped: bool,
) -> (r: Result<bool, &'static str>)
    requires
        from <= buf@.len(),
        fits_columns(buf@),
        old(s).wf(),
        old(s)@ == tokens_before(buf@, from as int),
        lex_at(buf@, from as int) == (Lex { depth: *old(depth) as int, in_string, escaped }),
        !underflows_before(buf@, from as int),
    ensures
        match r {
            Ok(inside) => {
                &&& final(s).wf()
                &&& final(s)@ == tokens_before(buf@, buf@.len() as int)
                &&& *final(depth) == lex_at(buf@, buf@.len() as int).depth
                &&& inside == lex_at(buf@, buf@.len() as int).in_string
                &&& !underflows_before(buf@, buf@.len() as int)
            },
            Err(e) => underflows_before(buf@, buf@.len() as int) && e@ == "underflow"@,
        },
{
    let n: usize = buf.len();
    let mut i: usize = from;
    let mut inside: bool = in_string;
    let mut pending: bool = escaped;
    while i < n
        invariant
            i <= n == buf@.len(),
            fits_columns(buf@),
            s.wf(),
            s@ == tokens_before(buf@, i as int),
            lex_at(buf@, i as int) == (Lex {
                depth: *depth as int,
                in_string: inside,
                escaped: pending,
            }),
            !underflows_before(buf@, i as int),
        decreases n - i,
    {
        let b = buf[i];
        proof {
            lemma_escaped_in_string(buf@, i as int);
            lemma_underflow_step(buf@, i as int);
        }
        if inside {
            if pending {
                pending = false;
            } else if b == BACKSLASH {
                pending = true;
            } else if b == QUOTE {
                inside = false;
            }
        } else if b == QUOTE || b == COLON || b == COMMA || b == OBJ_OPEN || b == OBJ_CLOSE || b
            == ARR_OPEN || b == ARR_CLOSE {
            match emit_token(buf, i, s, depth) {
                Ok(_) => {},
                Err(e) => {
                    proof {
                        lemma_underflow_mono(buf@, i + 1, n as int);
                    }
                    return Err(e);
                },
            }
            inside = b == QUOTE;
        }
        i = i + 1;
    }
    Ok(inside)
}

/// Scans `buf` in 64-byte chunks. A chunk with a backslash outside strings, which the mask
/// arithmetic does not describe, is left to the byte-wise rest with all that follows it.
pub fn run_chunked(buf: &[u8]) -> (r: Result<Stage1, &'static str>)
    requires
        fits_columns(buf@),
    ensures
        match r {
            Ok(s) => s.wf() && scan(buf@) == Ok::<Seq<Token>, Seq<char>>(s@),
            Err(e) => scan(buf@) == Err::<Seq<Token>, Seq<char>>(e@),
        },
{
    let mut s = Stage1::with_capacity(buf.len());
    let mut depth: u16 = 0;
    let mut prev_in_string: u64 = 0;
    let mut prev_escaped: u64 = 0;
    let n: usize = buf.len();
    let mut i: usize = 0;

    while n - i >= 64
        invariant
            i <= n == buf@.len(),
            fits_columns(buf@),
            s.wf(),
            s@ == tokens_before(buf@, i as int),
            prev_in_string == 0 || prev_in_string == u64::MAX,
            prev_escaped <= 1,
            lex_at(buf@, i as int) == (Lex {
                depth: depth as int,
                in_string: prev_in_string != 0,
                escaped: prev_escaped == 1,
            }),
            !underflows_before(buf@, i as int),
        decreases n - i,
    {
        let bits = chunk_bits(buf, i);
        let mut carry: u64 = prev_escaped;
        let escaped: u64 = compute_escaped(bits.bs, &mut carry);
        let real_quotes: u64 = bits.qt & !escaped;
        let ghost inside = prev_in_string != 0;
        let ghost pending = prev_escaped == 1;
        proof {
            assert forall|j: int| 0 <= j < 64 implies #[trigger] bit(real_quotes, j) == (bit(
                bits.qt,
                j,
            ) && !escapes(bits.bs, pending, j)) by {
                lemma_ops(bits.qt, escaped, j);
                assert(bit(escaped, j) == (escapes(bits.bs, pending, j) && !bit(bits.bs, j)));
                assert(bit(bits.qt, j) == (buf@[i + j] == QUOTE));
                assert(bit(bits.bs, j) == (buf@[i + j] == BACKSLASH));
            }
        }
        let parity: u64 = prefix_xor(real_quotes);
        let in_string: u64 = parity ^ prev_in_string;
        proof {
            assert forall|j: int| 0 <= j < 64 implies #[trigger] bit(in_string, j) == (odd_below(
                real_quotes,
                j + 1,
            ) != inside) by {
                lemma_ops(parity, prev_in_string, j);
                lemma_zero(j);
                lemma_all_ones(j);
                assert(bit(parity, j) == odd_below(real_quotes, j + 1));
            }
        }
        let stray: u64 = bits.bs & !in_string;
        if stray != 0 {
            break ;
        }
        let opening_quotes: u64 = real_quotes & in_string;
        let struct_outside: u64 = bits.structural & !in_string;
        let mask: u64 = struct_outside | opening_quotes;
        proof {
            assert forall|k: int| 0 <= k < 64 && #[trigger] bit(bits.bs, k) implies bit(in_string, k)
                && odd_below(real_quotes, k + 1) != inside by {
                lemma_ops(bits.bs, in_string, k);
                lemma_zero(k);
            }
            assert forall|j: int| 0 <= j < 64 implies #[trigger] bit(mask, j) == (token_at_byte(
                buf@,
                i + j,
            ) is Some) by {
                lemma_chunk_emits(
                    buf@, i as int, bits, pending, inside, real_quotes, in_string, mask, j,
                );
            }
            lemma_chunk_state(buf@, i as int, bits, pending, inside, real_quotes, 64);
            assert(bit(in_string, 63) == (odd_below(real_quotes, 64) != inside));
            assert((in_string >> 63) & 1 == in_string >> 63) by (bit_vector);
        }
        match emit_chunk(buf, i, mask, &mut s, &mut depth) {
            Ok(_) => {},
            Err(e) => {
                proof {
                    lemma_underflow_mono(buf@, i + 64, n as int);
                }
                return Err(e);
            },
        }
        prev_in_string = if in_string >> 63 == 1 {
            u64::MAX
        } else {
            0
        };
        prev_escaped = carry;
        i = i + 64;
    }
    match run_tail(buf, i, &mut s, &mut depth, prev_in_string != 0, prev_escaped == 1) {
        Ok(inside) => {
            if inside {
                return Err("unterminated string");
            }
        },
        Err(e) => {
            return Err(e);
        },
    }
    if depth != 0 {
        return Err("unclosed container");
    }
    Ok(s)
}

} // verus!
