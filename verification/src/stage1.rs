//! Stage 1: one pass over the bytes into token columns.
//!
//! Three columns describe every structural character in document order: its byte offset,
//! its kind and its nesting depth. Strings are tracked end to end, so nothing between
//! unescaped quotes shows up; of each string only the opening quote does.

use vstd::prelude::*;

pub use crate::lex::Kind;
use crate::ascii::{ARR_CLOSE, ARR_OPEN, BACKSLASH, COLON, COMMA, OBJ_CLOSE, OBJ_OPEN, QUOTE};
use crate::chunked::run_chunked;
use crate::lex::{
    fits_columns, lemma_depth_nonneg, lemma_plain_body, lemma_underflow_mono, lemma_underflow_step,
    lex_at, scan, tokens_before, underflow_at, underflows_before, Lex, Token,
};

verus! {

/// `memchr::memchr2` finds the first byte of `haystack` that equals either needle.
pub assume_specification[ memchr::memchr2 ](needle1: u8, needle2: u8, haystack: &[u8]) -> (r:
    Option<usize>)
    ensures
        match r {
            Some(p) => {
                &&& p < haystack@.len()
                &&& haystack@[p as int] == needle1 || haystack@[p as int] == needle2
                &&& forall|k: int|
                    0 <= k < p ==> #[trigger] haystack@[k] != needle1 && haystack@[k] != needle2
            },
            None => forall|k: int|
                0 <= k < haystack@.len() ==> #[trigger] haystack@[k] != needle1 && haystack@[k]
                    != needle2,
        },
;

/// The token columns, all of one length.
#[derive(Default, Debug, Clone)]
pub struct Stage1 {
    pub offset: Vec<u32>,
    pub kind: Vec<Kind>,
    pub depth: Vec<u16>,
}

impl View for Stage1 {
    type V = Seq<Token>;

    open spec fn view(&self) -> Seq<Token> {
        Seq::new(
            self.offset@.len(),
            |i: int|
                Token {
                    offset: self.offset@[i] as int,
                    kind: self.kind@[i],
                    depth: self.depth@[i] as int,
                },
        )
    }
}

impl Stage1 {
    /// The columns have one length.
    pub open spec fn wf(&self) -> bool {
        &&& self.kind@.len() == self.offset@.len()
        &&& self.depth@.len() == self.offset@.len()
    }

    /// Empty columns with room for the tokens of an `n`-byte document.
    pub fn with_capacity(n: usize) -> (r: Self)
        ensures
            r.wf(),
            r@ == Seq::<Token>::empty(),
    {
        Stage1 {
            offset: Vec::with_capacity(n / 8),
            kind: Vec::with_capacity(n / 8),
            depth: Vec::with_capacity(n / 8),
        }
    }

    /// Number of tokens.
    pub fn len(&self) -> (r: usize)
        ensures
            r == self@.len(),
    {
        self.offset.len()
    }

    /// Whether there is no token.
    pub fn is_empty(&self) -> (r: bool)
        ensures
            r == (self@.len() == 0),
    {
        self.offset.len() == 0
    }

    /// Appends one row.
    pub(crate) fn push(&mut self, off: usize, k: Kind, d: u16)
        requires
            old(self).wf(),
            off <= u32::MAX,
        ensures
            final(self).wf(),
            final(self)@ == old(self)@.push(Token { offset: off as int, kind: k, depth: d as int }),
            final(self).kind@ == old(self).kind@.push(k),
    {
        self.offset.push(off as u32);
        self.kind.push(k);
        self.depth.push(d);
        assert(self@ =~= old(self)@.push(Token { offset: off as int, kind: k, depth: d as int }));
    }
}

/// Scans `buf` into token columns, 64 bytes at a time.
///
/// [`run_scalar`] gives the same answer byte by byte.
pub fn run(buf: &[u8]) -> (r: Result<Stage1, &'static str>)
    requires
        fits_columns(buf@),
    ensures
        match r {
            Ok(s) => s.wf() && scan(buf@) == Ok::<Seq<Token>, Seq<char>>(s@),
            Err(e) => scan(buf@) == Err::<Seq<Token>, Seq<char>>(e@),
        },
{
    run_chunked(buf)
}

/// Whether the columns can describe `buf`: at most `u32::MAX` bytes, nested at most
/// `u16::MAX` deep.
pub fn columns_fit(buf: &[u8]) -> (r: bool)
    ensures
        r == fits_columns(buf@),
{
    let n: usize = buf.len();
    if n > u32::MAX as usize {
        return false;
    }
    let mut depth: u16 = 0;
    let mut in_string: bool = false;
    let mut escaped: bool = false;
    let mut i: usize = 0;
    while i < n
        invariant
            i <= n == buf@.len() <= u32::MAX,
            lex_at(buf@, i as int) == (Lex { depth: depth as int, in_string, escaped }),
            !underflows_before(buf@, i as int),
            forall|k: int| 0 <= k <= i ==> #[trigger] lex_at(buf@, k).depth <= u16::MAX,
        decreases n - i,
    {
        let b = buf[i];
        proof {
            lemma_underflow_step(buf@, i as int);
        }
        if in_string {
            if escaped {
                escaped = false;
            } else if b == BACKSLASH {
                escaped = true;
            } else if b == QUOTE {
                in_string = false;
            }
        } else if b == QUOTE {
            in_string = true;
        } else if b == OBJ_OPEN || b == ARR_OPEN {
            assert(lex_at(buf@, i + 1).depth == depth + 1);
            if depth == u16::MAX {
                assert(!underflows_before(buf@, i + 1));
                return false;
            }
            depth = depth + 1;
        } else if b == OBJ_CLOSE || b == ARR_CLOSE {
            if depth == 0 {
                proof {
                    assert(underflow_at(buf@, i as int));
                    assert forall|k: int| 0 <= k <= n && !underflows_before(buf@, k) implies
                        #[trigger] lex_at(buf@, k).depth <= u16::MAX by {
                        if k > i {
                            lemma_underflow_mono(buf@, i + 1, k);
                        }
                    }
                }
                return true;
            }
            depth = depth - 1;
        }
        i = i + 1;
        assert(lex_at(buf@, i as int).depth <= u16::MAX);
    }
    true
}

/// Scans `buf` byte by byte; string bodies are crossed with `memchr2`.
///
/// A string that the buffer does not close is an error, one that stops behind a backslash
/// included.
pub fn run_scalar(buf: &[u8]) -> (r: Result<Stage1, &'static str>)
    requires
        fits_columns(buf@),
    ensures
        match r {
            Ok(s) => s.wf() && scan(buf@) == Ok::<Seq<Token>, Seq<char>>(s@),
            Err(e) => scan(buf@) == Err::<Seq<Token>, Seq<char>>(e@),
        },
{
    let mut s = Stage1::with_capacity(buf.len());
    let mut depth: u16 = 0;
    let mut i: usize = 0;
    let n: usize = buf.len();

    while i < n
        invariant
            i <= n,
            n == buf@.len(),
            fits_columns(buf@),
            s.wf(),
            s@ == tokens_before(buf@, i as int),
            lex_at(buf@, i as int) == (Lex { depth: depth as int, in_string: false, escaped: false }),
            !underflows_before(buf@, i as int),
        decreases n - i,
    {
        let b = buf[i];
        proof {
            lemma_underflow_step(buf@, i as int);
            lemma_depth_nonneg(buf@, i as int);
        }
        if b == OBJ_OPEN || b == ARR_OPEN {
            assert(lex_at(buf@, i + 1).depth == depth + 1);
            assert(depth + 1 <= u16::MAX);
            s.push(i, if b == OBJ_OPEN { Kind::ObjOpen } else { Kind::ArrOpen }, depth);
            depth = depth + 1;
            i = i + 1;
        } else if b == OBJ_CLOSE || b == ARR_CLOSE {
            if depth == 0 {
                proof {
                    assert(underflow_at(buf@, i as int));
                    lemma_underflow_mono(buf@, i + 1, n as int);
                }
                return Err("underflow");
            }
            depth = depth - 1;
            s.push(i, if b == OBJ_CLOSE { Kind::ObjClose } else { Kind::ArrClose }, depth);
            i = i + 1;
        } else if b == COLON {
            s.push(i, Kind::Colon, depth);
            i = i + 1;
        } else if b == COMMA {
            s.push(i, Kind::Comma, depth);
            i = i + 1;
        } else if b == QUOTE {
            s.push(i, Kind::Quote, depth);
            let ghost quote = i;
            i = i + 1;
            loop
                invariant_except_break
                    lex_at(buf@, i as int) == (Lex {
                        depth: depth as int,
                        in_string: true,
                        escaped: false,
                    }),
                invariant
                    quote < i <= n,
                    n == buf@.len(),
                    s.wf(),
                    s@ == tokens_before(buf@, i as int),
                    !underflows_before(buf@, i as int),
                ensures
                    lex_at(buf@, i as int) == (Lex {
                        depth: depth as int,
                        in_string: false,
                        escaped: false,
                    }),
                decreases n - i,
            {
                let rest = &buf[i..n];
                match memchr::memchr2(QUOTE, BACKSLASH, rest) {
                    Some(p) => {
                        proof {
                            assert forall|k: int| i <= k < i + p implies #[trigger] buf@[k] != QUOTE
                                && buf@[k] != BACKSLASH by {
                                assert(rest@[k - i] == buf@[k]);
                            }
                            assert(rest@[p as int] == buf@[i + p]);
                            lemma_plain_body(buf@, i as int, i + p);
                            lemma_underflow_step(buf@, i + p);
                        }
                        i = i + p;
                        if buf[i] == BACKSLASH {
                            if i + 1 == n {
                                return Err("unterminated string");
                            }
                            proof {
                                lemma_underflow_step(buf@, i + 1);
                                assert(lex_at(buf@, i + 1).escaped);
                                assert(tokens_before(buf@, i + 2) == tokens_before(buf@, i + 1));
                            }
                            i = i + 2;
                        } else {
                            i = i + 1;
                            break ;
                        }
                    },
                    None => {
                        proof {
                            assert forall|k: int| i <= k < n implies #[trigger] buf@[k] != QUOTE
                                && buf@[k] != BACKSLASH by {
                                assert(rest@[k - i] == buf@[k]);
                            }
                            lemma_plain_body(buf@, i as int, n as int);
                        }
                        return Err("unterminated string");
                    },
                }
            }
        } else {
            i = i + 1;
        }
    }
    if depth != 0 {
        return Err("unclosed container");
    }
    Ok(s)
}

} // verus!
