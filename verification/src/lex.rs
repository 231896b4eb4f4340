//! The lexical model of a JSON document: which bytes lie inside strings, how deeply each
//! byte is nested, and which bytes begin a structural token.
//!
//! Everything here is specification. The scanners in [`crate::stage1`] and
//! [`crate::chunked`] are proved against it.

use vstd::prelude::*;

use crate::ascii::{ARR_CLOSE, ARR_OPEN, BACKSLASH, COLON, COMMA, OBJ_CLOSE, OBJ_OPEN, QUOTE};

verus! {

/// Structural role of a token.
#[derive(Copy, Clone, Debug, PartialEq, Eq, Structural)]
pub enum Kind {
    /// `{`
    ObjOpen,
    /// `}`
    ObjClose,
    /// `[`
    ArrOpen,
    /// `]`
    ArrClose,
    /// Opening `"`; the string body is skipped and the closing quote is implicit.
    Quote,
    /// `:`
    Colon,
    /// `,`
    Comma,
    /// First byte of a number, `true`, `false` or `null`.
    Scalar,
}

/// One row of the token columns.
pub struct Token {
    pub offset: int,
    pub kind: Kind,
    pub depth: int,
}

/// Lexical state in front of a byte.
pub struct Lex {
    /// Open containers minus closed ones.
    pub depth: int,
    /// Inside a string body (the opening quote has been passed, the closing one has not).
    pub in_string: bool,
    /// Inside a string body, right behind an unescaped backslash.
    pub escaped: bool,
}

pub open spec fn is_open_byte(b: u8) -> bool {
    b == OBJ_OPEN || b == ARR_OPEN
}

pub open spec fn is_close_byte(b: u8) -> bool {
    b == OBJ_CLOSE || b == ARR_CLOSE
}

/// The token kind that a byte stands for outside strings.
pub open spec fn kind_of_byte(b: u8) -> Option<Kind> {
    if b == OBJ_OPEN {
        Some(Kind::ObjOpen)
    } else if b == OBJ_CLOSE {
        Some(Kind::ObjClose)
    } else if b == ARR_OPEN {
        Some(Kind::ArrOpen)
    } else if b == ARR_CLOSE {
        Some(Kind::ArrClose)
    } else if b == QUOTE {
        Some(Kind::Quote)
    } else if b == COLON {
        Some(Kind::Colon)
    } else if b == COMMA {
        Some(Kind::Comma)
    } else {
        None
    }
}

/// The state behind byte `b`, given the state in front of it.
pub open spec fn lex_step(s: Lex, b: u8) -> Lex {
    if s.in_string {
        if s.escaped {
            Lex { escaped: false, ..s }
        } else if b == BACKSLASH {
            Lex { escaped: true, ..s }
        } else if b == QUOTE {
            Lex { in_string: false, ..s }
        } else {
            s
        }
    } else if b == QUOTE {
        Lex { in_string: true, ..s }
    } else if is_open_byte(b) {
        Lex { depth: s.depth + 1, ..s }
    } else if is_close_byte(b) {
        Lex { depth: s.depth - 1, ..s }
    } else {
        s
    }
}

/// The lexical state in front of byte `i` of `buf`.
pub open spec fn lex_at(buf: Seq<u8>, i: int) -> Lex
    decreases i,
{
    if i <= 0 {
        Lex { depth: 0, in_string: false, escaped: false }
    } else {
        lex_step(lex_at(buf, i - 1), buf[i - 1])
    }
}

/// The token that begins at byte `i`, if one does: outside strings every bracket, colon,
/// comma and opening quote is one. Brackets carry the depth of the container they delimit.
pub open spec fn token_at_byte(buf: Seq<u8>, i: int) -> Option<Token> {
    let s = lex_at(buf, i);
    match kind_of_byte(buf[i]) {
        Some(kind) if !s.in_string => Some(
            Token {
                offset: i,
                kind,
                depth: if is_close_byte(buf[i]) {
                    s.depth - 1
                } else {
                    s.depth
                },
            },
        ),
        _ => None,
    }
}

/// The tokens that begin in front of byte `i`, in order.
pub open spec fn tokens_before(buf: Seq<u8>, i: int) -> Seq<Token>
    decreases i,
{
    if i <= 0 {
        Seq::empty()
    } else {
        match token_at_byte(buf, i - 1) {
            Some(t) => tokens_before(buf, i - 1).push(t),
            None => tokens_before(buf, i - 1),
        }
    }
}

/// Byte `i` closes a container although none is open.
pub open spec fn underflow_at(buf: Seq<u8>, i: int) -> bool {
    !lex_at(buf, i).in_string && is_close_byte(buf[i]) && lex_at(buf, i).depth <= 0
}

/// Some byte in front of `n` closes a container although none is open.
pub open spec fn underflows_before(buf: Seq<u8>, n: int) -> bool {
    exists|i: int| 0 <= i < n && #[trigger] underflow_at(buf, i)
}

/// What a scan of `buf` yields: its tokens, or the reason why it is not well nested.
pub open spec fn scan(buf: Seq<u8>) -> Result<Seq<Token>, Seq<char>> {
    let n = buf.len() as int;
    if underflows_before(buf, n) {
        Err("underflow"@)
    } else if lex_at(buf, n).in_string {
        Err("unterminated string"@)
    } else if lex_at(buf, n).depth != 0 {
        Err("unclosed container"@)
    } else {
        Ok(tokens_before(buf, n))
    }
}

/// The nesting of `buf` stays within the depth column up to byte `n`. Bytes behind an
/// unmatched close do not count: a scan stops there.
pub open spec fn nesting_fits(buf: Seq<u8>, n: int) -> bool {
    forall|i: int|
        0 <= i <= n && !underflows_before(buf, i) ==> #[trigger] lex_at(buf, i).depth <= u16::MAX
}

/// The buffers that the columns can describe: every position fits the offset column and
/// every nesting depth fits the depth column.
pub open spec fn fits_columns(buf: Seq<u8>) -> bool {
    buf.len() <= u32::MAX && nesting_fits(buf, buf.len() as int)
}

/// An escape is only ever pending inside a string.
pub proof fn lemma_escaped_in_string(buf: Seq<u8>, i: int)
    ensures
        lex_at(buf, i).escaped ==> lex_at(buf, i).in_string,
    decreases i,
{
    if i > 0 {
        lemma_escaped_in_string(buf, i - 1);
    }
}

/// Without an unmatched close the depth never turns negative.
pub proof fn lemma_depth_nonneg(buf: Seq<u8>, i: int)
    requires
        i <= buf.len(),
        !underflows_before(buf, i),
    ensures
        lex_at(buf, i).depth >= 0,
    decreases i,
{
    if i > 0 {
        assert(!underflows_before(buf, i - 1));
        lemma_depth_nonneg(buf, i - 1);
        assert(!underflow_at(buf, i - 1));
    }
}

/// A stretch of a string body without quote or backslash changes nothing.
pub proof fn lemma_plain_body(buf: Seq<u8>, i: int, j: int)
    requires
        0 <= i <= j <= buf.len(),
        lex_at(buf, i).in_string,
        !lex_at(buf, i).escaped,
        forall|k: int| i <= k < j ==> #[trigger] buf[k] != QUOTE && buf[k] != BACKSLASH,
    ensures
        lex_at(buf, j) == lex_at(buf, i),
        tokens_before(buf, j) == tokens_before(buf, i),
        underflows_before(buf, j) == underflows_before(buf, i),
    decreases j - i,
{
    if i < j {
        lemma_plain_body(buf, i, j - 1);
        lemma_underflow_step(buf, j - 1);
    }
}

/// One more byte adds at most its own underflow.
pub proof fn lemma_underflow_step(buf: Seq<u8>, i: int)
    requires
        0 <= i < buf.len(),
    ensures
        underflows_before(buf, i + 1) == (underflows_before(buf, i) || underflow_at(buf, i)),
{
    if underflows_before(buf, i + 1) {
        let k = choose|k: int| 0 <= k < i + 1 && #[trigger] underflow_at(buf, k);
        if k < i {
            assert(underflows_before(buf, i));
        }
    }
    if underflows_before(buf, i) {
        let k = choose|k: int| 0 <= k < i && #[trigger] underflow_at(buf, k);
        assert(0 <= k < i + 1 && underflow_at(buf, k));
    }
}

/// An unmatched close stays one in every longer prefix.
pub proof fn lemma_underflow_mono(buf: Seq<u8>, i: int, j: int)
    requires
        i <= j,
        underflows_before(buf, i),
    ensures
        underflows_before(buf, j),
{
    let k = choose|k: int| 0 <= k < i && #[trigger] underflow_at(buf, k);
    assert(0 <= k < j && underflow_at(buf, k));
}

/// Every token of a scan stands where its byte is: outside strings, in front of byte `n`,
/// with the kind that the byte spells; and tokens come in ascending byte order.
pub proof fn law_tokens_point_at_their_bytes(buf: Seq<u8>, n: int, i: int)
    requires
        n <= buf.len(),
        0 <= i < tokens_before(buf, n).len(),
    ensures
        ({
            let t = tokens_before(buf, n)[i];
            &&& 0 <= t.offset < n
            &&& token_at_byte(buf, t.offset) == Some(t)
            &&& kind_of_byte(buf[t.offset]) == Some(t.kind)
            &&& !lex_at(buf, t.offset).in_string
        }),
        forall|j: int|
            0 <= j < i ==> (#[trigger] tokens_before(buf, n)[j]).offset < tokens_before(
                buf,
                n,
            )[i].offset,
    decreases n,
{
    if n > 0 {
        let front = tokens_before(buf, n - 1);
        if i < front.len() {
            law_tokens_point_at_their_bytes(buf, n - 1, i);
            assert forall|j: int| 0 <= j < i implies (#[trigger] tokens_before(buf, n)[j]).offset
                < tokens_before(buf, n)[i].offset by {
                assert(tokens_before(buf, n)[j] == front[j]);
            }
        } else {
            assert forall|j: int| 0 <= j < i implies (#[trigger] tokens_before(buf, n)[j]).offset
                < tokens_before(buf, n)[i].offset by {
                law_tokens_point_at_their_bytes(buf, n - 1, j);
                assert(tokens_before(buf, n)[j] == front[j]);
            }
        }
    }
}

/// A scan misses nothing: every byte in front of `n` that begins a token has its row.
pub proof fn law_every_token_byte_is_listed(buf: Seq<u8>, n: int, p: int)
    requires
        0 <= p < n <= buf.len(),
        token_at_byte(buf, p) is Some,
    ensures
        exists|i: int|
            0 <= i < tokens_before(buf, n).len() && token_at_byte(buf, p) == Some(
                #[trigger] tokens_before(buf, n)[i],
            ),
    decreases n,
{
    if p < n - 1 {
        law_every_token_byte_is_listed(buf, n - 1, p);
        let i = choose|i: int|
            0 <= i < tokens_before(buf, n - 1).len() && token_at_byte(buf, p) == Some(
                #[trigger] tokens_before(buf, n - 1)[i],
            );
        assert(tokens_before(buf, n)[i] == tokens_before(buf, n - 1)[i]);
    } else {
        assert(tokens_before(buf, n).last() == token_at_byte(buf, p)->0);
    }
}

} // verus!
