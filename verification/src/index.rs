//! Structural index over token columns.
//!
//! Three more columns stand beside the tokens:
//! - `parent[i]`: the open of the container that token `i` belongs to, `-1` at the root;
//! - `close_of[i]`: for an open, its close; `-1` for every other token;
//! - `tape_of[i]`: the running number of a value-bearing token (open, close, quote or
//!   scalar), `u32::MAX` for a colon or a comma.

use vstd::prelude::*;

use crate::ascii::{CR, DIGIT_0, DIGIT_9, LF, LOWER_F, LOWER_N, LOWER_T, MINUS, SPACE, TAB};
use crate::lex::{
    fits_columns, law_tokens_point_at_their_bytes, lemma_underflow_mono, lemma_underflow_step,
    lex_at, scan, token_at_byte, tokens_before, underflow_at, underflows_before, Kind, Token,
};
use crate::stage1::{columns_fit, run, Stage1};
use crate::tree::{
    balanced, closes, closes_matched, columns_match, is_close, is_open, lemma_close_after_open,
    lemma_close_exists, lemma_close_unique, lemma_open_between, lemma_parent, lemma_push_kind,
    lemma_stack, lemma_stack_prefix, overclosed_at, parent_at, stack_at, top, TreeBuilder,
};

verus! {

// ---------------------------------------------------------------------------
// Literals
// ---------------------------------------------------------------------------

pub open spec fn is_space(b: u8) -> bool {
    b == SPACE || b == TAB || b == LF || b == CR
}

/// `b` can begin a number, `true`, `false` or `null`.
pub open spec fn starts_literal(b: u8) -> bool {
    b == MINUS || DIGIT_0 <= b <= DIGIT_9 || b == LOWER_T || b == LOWER_F || b == LOWER_N
}

/// The first position from `p` on, in front of `end`, that holds no white space; `end` if
/// there is none.
pub open spec fn skip_space(buf: Seq<u8>, p: int, end: int) -> int
    decreases end - p,
{
    if p < end && is_space(buf[p]) {
        skip_space(buf, p + 1, end)
    } else {
        p
    }
}

/// Where the token behind `i` begins; the end of the buffer behind the last token.
pub open spec fn next_stop(buf: Seq<u8>, toks: Seq<Token>, i: int) -> int {
    if i + 1 < toks.len() {
        toks[i + 1].offset
    } else {
        buf.len() as int
    }
}

/// The literal between token `i` and the token behind it: only a colon, a comma or `[` can
/// have one. Inside `[` it lives one level deeper than the bracket itself.
pub open spec fn literal_after(buf: Seq<u8>, toks: Seq<Token>, i: int) -> Option<Token> {
    let t = toks[i];
    let stop = next_stop(buf, toks, i);
    let p = skip_space(buf, t.offset + 1, stop);
    if (t.kind == Kind::Colon || t.kind == Kind::Comma || t.kind == Kind::ArrOpen) && p < stop
        && starts_literal(buf[p]) {
        Some(
            Token {
                offset: p,
                kind: Kind::Scalar,
                depth: if t.kind == Kind::ArrOpen {
                    t.depth + 1
                } else {
                    t.depth
                },
            },
        )
    } else {
        None
    }
}

/// The first `m` tokens, each followed by its literal.
pub open spec fn filled(buf: Seq<u8>, toks: Seq<Token>, m: int) -> Seq<Token>
    decreases m,
{
    if m <= 0 {
        Seq::empty()
    } else {
        let front = filled(buf, toks, m - 1).push(toks[m - 1]);
        match literal_after(buf, toks, m - 1) {
            Some(t) => front.push(t),
            None => front,
        }
    }
}

/// The tokens of the index over `buf`: those of the scan and the literals.
pub open spec fn index_tokens(buf: Seq<u8>) -> Seq<Token> {
    let toks = tokens_before(buf, buf.len() as int);
    filled(buf, toks, toks.len() as int)
}

/// The buffers that an index can be built over: the token columns can describe them, and
/// the tokens can be numbered by `i32`.
pub open spec fn fits_index(buf: Seq<u8>) -> bool {
    fits_columns(buf) && (scan(buf) is Ok ==> index_tokens(buf).len() <= i32::MAX)
}

pub open spec fn kinds_of(toks: Seq<Token>) -> Seq<Kind> {
    Seq::new(toks.len(), |i: int| toks[i].kind)
}

/// Strictly ascending byte offsets in front of `end`.
pub open spec fn in_byte_order(toks: Seq<Token>, end: int) -> bool {
    &&& forall|i: int| 0 <= i < toks.len() ==> 0 <= (#[trigger] toks[i]).offset < end
    &&& forall|i: int, j: int|
        0 <= i < j < toks.len() ==> (#[trigger] toks[i]).offset < (#[trigger] toks[j]).offset
}

proof fn lemma_skip_space(buf: Seq<u8>, p: int, end: int)
    requires
        0 <= p,
    ensures
        p <= skip_space(buf, p, end),
        p <= end ==> skip_space(buf, p, end) <= end,
    decreases end - p,
{
    if p < end && is_space(buf[p]) {
        lemma_skip_space(buf, p + 1, end);
    }
}

/// Filling in the literals keeps the byte order.
proof fn lemma_filled_in_order(buf: Seq<u8>, toks: Seq<Token>, m: int)
    requires
        in_byte_order(toks, buf.len() as int),
        0 <= m <= toks.len(),
    ensures
        in_byte_order(
            filled(buf, toks, m),
            if m < toks.len() {
                toks[m].offset
            } else {
                buf.len() as int
            },
        ),
    decreases m,
{
    if m > 0 {
        lemma_filled_in_order(buf, toks, m - 1);
        let t = toks[m - 1];
        let stop = next_stop(buf, toks, m - 1);
        lemma_skip_space(buf, t.offset + 1, stop);
        let f0 = filled(buf, toks, m - 1);
        let f1 = f0.push(t);
        let f = filled(buf, toks, m);
        assert(in_byte_order(f1, t.offset + 1));
        assert forall|i: int| 0 <= i < f.len() implies 0 <= (#[trigger] f[i]).offset < stop by {
            if i < f1.len() {
                assert(f[i] == f1[i]);
            }
        }
        assert forall|i: int, j: int| 0 <= i < j < f.len() implies (#[trigger] f[i]).offset
            < (#[trigger] f[j]).offset by {
            assert(f[i] == f1[i]);
            if j < f1.len() {
                assert(f[j] == f1[j]);
            }
        }
    }
}

/// The tokens of a scan come in byte order.
proof fn lemma_tokens_in_order(buf: Seq<u8>, n: int)
    requires
        0 <= n <= buf.len(),
    ensures
        in_byte_order(tokens_before(buf, n), n),
{
    let toks = tokens_before(buf, n);
    assert forall|i: int| 0 <= i < toks.len() implies 0 <= (#[trigger] toks[i]).offset < n by {
        law_tokens_point_at_their_bytes(buf, n, i);
    }
    assert forall|i: int, j: int| 0 <= i < j < toks.len() implies (#[trigger] toks[i]).offset < (
    #[trigger] toks[j]).offset by {
        law_tokens_point_at_their_bytes(buf, n, j);
    }
}

/// Distinct offsets in front of `end` are at most `end` many.
proof fn lemma_at_most_one_per_byte(toks: Seq<Token>, end: int, i: int)
    requires
        in_byte_order(toks, end),
        0 <= i < toks.len(),
    ensures
        i <= toks[i].offset,
    decreases i,
{
    if i > 0 {
        lemma_at_most_one_per_byte(toks, end, i - 1);
        assert(toks[i - 1].offset < toks[i].offset);
    }
}

/// The tokens of an index are in byte order, at most one per byte.
pub proof fn law_index_tokens_in_order(buf: Seq<u8>)
    ensures
        in_byte_order(index_tokens(buf), buf.len() as int),
        index_tokens(buf).len() <= buf.len(),
{
    let n = buf.len() as int;
    let toks = tokens_before(buf, n);
    lemma_tokens_in_order(buf, n);
    lemma_filled_in_order(buf, toks, toks.len() as int);
    let f = index_tokens(buf);
    if f.len() > 0 {
        lemma_at_most_one_per_byte(f, n, f.len() - 1);
        assert(f[f.len() - 1].offset < n);
    }
}

/// Up to byte `i` the scan's tokens nest as the bytes do.
pub proof fn lemma_tokens_nest(buf: Seq<u8>, i: int)
    requires
        0 <= i <= buf.len(),
        !underflows_before(buf, i),
    ensures
        closes_matched(kinds_of(tokens_before(buf, i))),
        stack_at(
            kinds_of(tokens_before(buf, i)),
            tokens_before(buf, i).len() as int,
        ).len() == lex_at(buf, i).depth,
    decreases i,
{
    if i > 0 {
        lemma_underflow_step(buf, i - 1);
        lemma_tokens_nest(buf, i - 1);
        let front = tokens_before(buf, i - 1);
        match token_at_byte(buf, i - 1) {
            Some(t) => {
                assert(!underflow_at(buf, i - 1));
                lemma_push_kind(kinds_of(front), t.kind);
                assert(kinds_of(front.push(t)) =~= kinds_of(front).push(t.kind));
            },
            None => {},
        }
    }
}

/// Literals do not change the nesting.
pub proof fn lemma_filled_nests(buf: Seq<u8>, toks: Seq<Token>, m: int)
    requires
        closes_matched(kinds_of(toks)),
        0 <= m <= toks.len(),
    ensures
        closes_matched(kinds_of(filled(buf, toks, m))),
        stack_at(
            kinds_of(filled(buf, toks, m)),
            filled(buf, toks, m).len() as int,
        ).len() == stack_at(kinds_of(toks), m).len(),
    decreases m,
{
    if m > 0 {
        lemma_filled_nests(buf, toks, m - 1);
        let f0 = filled(buf, toks, m - 1);
        let t = toks[m - 1];
        assert(!overclosed_at(kinds_of(toks), m - 1));
        lemma_push_kind(kinds_of(f0), t.kind);
        assert(kinds_of(f0.push(t)) =~= kinds_of(f0).push(t.kind));
        match literal_after(buf, toks, m - 1) {
            Some(lit) => {
                lemma_push_kind(kinds_of(f0.push(t)), lit.kind);
                assert(kinds_of(f0.push(t).push(lit)) =~= kinds_of(f0.push(t)).push(lit.kind));
            },
            None => {},
        }
    }
}

/// An index over a buffer that scans well is balanced.
pub proof fn law_index_tokens_balanced(buf: Seq<u8>)
    requires
        scan(buf) is Ok,
    ensures
        balanced(kinds_of(index_tokens(buf))),
{
    let n = buf.len() as int;
    let toks = tokens_before(buf, n);
    lemma_tokens_nest(buf, n);
    lemma_filled_nests(buf, toks, toks.len() as int);
}

/// Adds a [`Kind::Scalar`] token at the first byte of every number, `true`, `false` and
/// `null` that follows a colon, a comma or `[`, at the depth that it lives at.
pub fn fill_scalars(s: &mut Stage1, buf: &[u8])
    requires
        old(s).wf(),
        buf@.len() <= u32::MAX,
        forall|i: int| 0 <= i < old(s)@.len() ==> (#[trigger] old(s)@[i]).offset <= buf@.len(),
        forall|i: int|
            0 <= i < old(s)@.len() && literal_after(buf@, old(s)@, i) is Some ==> (
            #[trigger] literal_after(buf@, old(s)@, i)->0).depth <= u16::MAX,
    ensures
        final(s).wf(),
        final(s)@ == filled(buf@, old(s)@, old(s)@.len() as int),
{
    let n: usize = s.len();
    let end: usize = buf.len();
    let ghost toks = s@;
    let mut out = Stage1 {
        offset: Vec::with_capacity(n),
        kind: Vec::with_capacity(n),
        depth: Vec::with_capacity(n),
    };
    let mut i: usize = 0;
    assert(out@ =~= filled(buf@, toks, 0));
    while i < n
        invariant
            i <= n == toks.len(),
            end == buf@.len() <= u32::MAX,
            s.wf(),
            s@ == toks,
            out.wf(),
            out@ == filled(buf@, toks, i as int),
            forall|k: int| 0 <= k < toks.len() ==> (#[trigger] toks[k]).offset <= buf@.len(),
            forall|k: int|
                0 <= k < toks.len() && literal_after(buf@, toks, k) is Some ==> (
                #[trigger] literal_after(buf@, toks, k)->0).depth <= u16::MAX,
        decreases n - i,
    {
        let off: usize = s.offset[i] as usize;
        let kind = s.kind[i];
        let depth: u16 = s.depth[i];
        assert(toks[i as int].offset == off && toks[i as int].kind == kind && toks[i as int].depth
            == depth);
        out.push(off, kind, depth);
        if kind == Kind::Colon || kind == Kind::Comma || kind == Kind::ArrOpen {
            let stop: usize = if i + 1 < n {
                s.offset[i + 1] as usize
            } else {
                end
            };
            assert(i + 1 < n ==> toks[i + 1].offset == stop);
            assert(stop == next_stop(buf@, toks, i as int));
            if off < stop {
                let mut p: usize = off + 1;
                while p < stop && (buf[p] == SPACE || buf[p] == TAB || buf[p] == LF || buf[p] == CR)
                    invariant
                        p <= stop <= end == buf@.len(),
                        skip_space(buf@, p as int, stop as int) == skip_space(
                            buf@,
                            off + 1,
                            stop as int,
                        ),
                    decreases stop - p,
                {
                    p = p + 1;
                }
                assert(p == skip_space(buf@, off + 1, stop as int));
                if p < stop {
                    let b = buf[p];
                    if b == MINUS || (DIGIT_0 <= b && b <= DIGIT_9) || b == LOWER_T || b == LOWER_F
                        || b == LOWER_N {
                        assert(literal_after(buf@, toks, i as int) is Some);
                        let d: u16 = if kind == Kind::ArrOpen {
                            depth + 1
                        } else {
                            depth
                        };
                        out.push(p, Kind::Scalar, d);
                    }
                }
            }
        }
        i = i + 1;
    }
    *s = out;
}

// ---------------------------------------------------------------------------
// Columns
// ---------------------------------------------------------------------------

/// Walks the tokens with a stack of open containers.
fn build_parent_close(s: &Stage1) -> (r: Result<(Vec<i32>, Vec<i32>), &'static str>)
    requires
        s.wf(),
        s.kind@.len() <= i32::MAX,
    ensures
        match r {
            Ok((parent, close_of)) => balanced(s.kind@) && columns_match(
                s.kind@,
                parent@,
                close_of@,
            ),
            Err(e) => !balanced(s.kind@) && e@ == (if closes_matched(s.kind@) {
                "unclosed container"@
            } else {
                "unbalanced close"@
            }),
        },
{
    let n: usize = s.len();
    let ghost kinds = s.kind@;
    let mut tree = TreeBuilder::new();
    let mut i: usize = 0;
    assert(kinds.take(0) =~= Seq::<Kind>::empty());
    while i < n
        invariant
            i <= n == kinds.len() <= i32::MAX,
            kinds == s.kind@,
            tree.wf(),
            tree.kinds() == kinds.take(i as int),
            forall|k: int| 0 <= k < i ==> !#[trigger] overclosed_at(kinds, k),
        decreases n - i,
    {
        let k = s.kind[i];
        proof {
            lemma_stack_prefix(kinds.take(i as int), kinds, i as int);
            tree.lemma_depth();
        }
        if (k == Kind::ObjClose || k == Kind::ArrClose) && tree.depth() == 0 {
            assert(overclosed_at(kinds, i as int));
            return Err("unbalanced close");
        }
        tree.push(k);
        i = i + 1;
        assert(kinds.take(i as int) =~= kinds.take(i - 1).push(k));
    }
    assert(kinds.take(i as int) =~= kinds);
    proof {
        tree.lemma_depth();
    }
    if tree.depth() != 0 {
        return Err("unclosed container");
    }
    Ok(tree.finish())
}

/// Whether a token of kind `k` is numbered on the tape. Closes are where the tape has
/// entries for them.
pub open spec fn bears_value(k: Kind, with_closes: bool) -> bool {
    is_open(k) || k == Kind::Quote || k == Kind::Scalar || (with_closes && is_close(k))
}

/// How many tokens in front of `i` are numbered.
pub open spec fn numbered_before(kinds: Seq<Kind>, i: int, with_closes: bool) -> int
    decreases i,
{
    if i <= 0 {
        0
    } else {
        numbered_before(kinds, i - 1, with_closes) + (if bears_value(kinds[i - 1], with_closes) {
            1int
        } else {
            0int
        })
    }
}

/// The running number of token `i`, `u32::MAX` for a token without one.
pub open spec fn tape_number(kinds: Seq<Kind>, i: int, with_closes: bool) -> int {
    if bears_value(kinds[i], with_closes) {
        numbered_before(kinds, i, with_closes)
    } else {
        u32::MAX as int
    }
}

/// Counts of numbered tokens grow, by at most one per token.
pub proof fn lemma_numbered(kinds: Seq<Kind>, i: int, j: int, with_closes: bool)
    requires
        0 <= i <= j,
    ensures
        0 <= numbered_before(kinds, i, with_closes) <= numbered_before(kinds, j, with_closes),
        numbered_before(kinds, j, with_closes) - numbered_before(kinds, i, with_closes) <= j - i,
    decreases j,
{
    if i < j {
        lemma_numbered(kinds, i, j - 1, with_closes);
    } else if i > 0 {
        lemma_numbered(kinds, i - 1, i - 1, with_closes);
    }
}

/// Numbers rise in document order.
pub proof fn law_tape_numbers_rise(kinds: Seq<Kind>, i: int, j: int, with_closes: bool)
    requires
        0 <= i < j < kinds.len(),
        bears_value(kinds[i], with_closes),
        bears_value(kinds[j], with_closes),
    ensures
        tape_number(kinds, i, with_closes) < tape_number(kinds, j, with_closes),
{
    lemma_numbered(kinds, i + 1, j, with_closes);
}

/// Numbers the value-bearing tokens.
fn number_tokens(kind: &Vec<Kind>, with_closes: bool) -> (r: Vec<u32>)
    requires
        kind@.len() <= u32::MAX,
    ensures
        r@.len() == kind@.len(),
        forall|i: int|
            0 <= i < kind@.len() ==> #[trigger] r@[i] == tape_number(kind@, i, with_closes),
{
    let n: usize = kind.len();
    let mut tape_of: Vec<u32> = vec![u32::MAX;n];
    let mut t: u32 = 0;
    let mut i: usize = 0;
    while i < n
        invariant
            i <= n == kind@.len() <= u32::MAX,
            tape_of@.len() == n,
            t == numbered_before(kind@, i as int, with_closes) <= i,
            forall|k: int|
                0 <= k < i ==> #[trigger] tape_of@[k] == tape_number(kind@, k, with_closes),
            forall|k: int| i <= k < n ==> #[trigger] tape_of@[k] == u32::MAX,
        decreases n - i,
    {
        let k = kind[i];
        let close = k == Kind::ObjClose || k == Kind::ArrClose;
        if k == Kind::ObjOpen || k == Kind::ArrOpen || k == Kind::Quote || k == Kind::Scalar || (
        with_closes && close) {
            tape_of.set(i, t);
            t = t + 1;
        }
        i = i + 1;
    }
    tape_of
}

// ---------------------------------------------------------------------------
// The index
// ---------------------------------------------------------------------------

/// Token columns with the tree columns beside them.
#[derive(Debug, Clone)]
pub struct StructIndex {
    pub stage1: Stage1,
    pub parent: Vec<i32>,
    pub close_of: Vec<i32>,
    pub tape_of: Vec<u32>,
}

/// Container `c` covers byte `pos`: from its open to its close, both included.
pub open spec fn covers(toks: Seq<Token>, c: int, pos: int) -> bool {
    &&& 0 <= c < toks.len()
    &&& is_open(toks[c].kind)
    &&& toks[c].offset <= pos
    &&& exists|j: int| #[trigger] closes(kinds_of(toks), c, j) && pos <= toks[j].offset
}

impl StructIndex {
    /// All columns have one length, and the tree columns are those of the token kinds.
    pub open spec fn tree_ok(&self) -> bool {
        &&& self.stage1.wf()
        &&& self.stage1.kind@.len() <= i32::MAX
        &&& self.tape_of@.len() == self.stage1.kind@.len()
        &&& balanced(self.stage1.kind@)
        &&& columns_match(self.stage1.kind@, self.parent@, self.close_of@)
    }

    /// The tokens come in strictly ascending byte order.
    pub open spec fn sorted(&self) -> bool {
        forall|i: int, j: int|
            0 <= i < j < self.stage1.offset@.len() ==> self.stage1.offset@[i]
                < self.stage1.offset@[j]
    }

    /// Number of tokens.
    pub open spec fn spec_len(&self) -> nat {
        self.stage1.kind@.len()
    }

    /// Builds the index over `buf`: scans it, adds the literals, walks the tree and numbers
    /// the tokens.
    pub fn build(buf: &[u8]) -> (r: Result<Self, &'static str>)
        requires
            fits_index(buf@),
        ensures
            match r {
                Ok(idx) => {
                    &&& scan(buf@) is Ok
                    &&& idx.stage1@ == index_tokens(buf@)
                    &&& idx.tree_ok()
                    &&& idx.sorted()
                    &&& forall|i: int|
                        0 <= i < idx.spec_len() ==> #[trigger] idx.stage1.offset@[i] < buf@.len()
                    &&& forall|i: int|
                        0 <= i < idx.spec_len() ==> #[trigger] idx.tape_of@[i] == tape_number(
                            idx.stage1.kind@,
                            i,
                            true,
                        )
                },
                Err(e) => scan(buf@) == Err::<Seq<Token>, Seq<char>>(e@),
            },
    {
        let mut stage1 = match run(buf) {
            Ok(s) => s,
            Err(e) => return Err(e),
        };
        let ghost n = buf@.len() as int;
        let ghost toks = tokens_before(buf@, n);
        proof {
            assert(stage1@ == toks);
            lemma_tokens_in_order(buf@, n);
            assert forall|i: int|
                0 <= i < toks.len() && literal_after(buf@, toks, i) is Some implies (
            #[trigger] literal_after(buf@, toks, i)->0).depth <= u16::MAX by {
                law_tokens_point_at_their_bytes(buf@, n, i);
                let t = toks[i];
                assert(stage1@[i] == t);
                if t.kind == Kind::ArrOpen {
                    assert(lex_at(buf@, t.offset + 1).depth == t.depth + 1);
                    if underflows_before(buf@, t.offset + 1) {
                        lemma_underflow_mono(buf@, t.offset + 1, n);
                    }
                }
            }
        }
        fill_scalars(&mut stage1, buf);
        proof {
            law_index_tokens_in_order(buf@);
            law_index_tokens_balanced(buf@);
            assert(stage1.kind@ =~= kinds_of(stage1@));
            let f = index_tokens(buf@);
            assert forall|i: int, j: int| 0 <= i < j < stage1.offset@.len() implies stage1.offset@[i]
                < stage1.offset@[j] by {
                assert(f[i].offset < f[j].offset);
            }
            assert forall|i: int| 0 <= i < stage1.offset@.len() implies #[trigger] stage1.offset@[i]
                < buf@.len() by {
                assert(f[i].offset < buf@.len());
            }
        }
        let (parent, close_of) = match build_parent_close(&stage1) {
            Ok(columns) => columns,
            Err(e) => return Err(e),
        };
        let tape_of = number_tokens(&stage1.kind, true);
        Ok(StructIndex { stage1, parent, close_of, tape_of })
    }

    /// Whether the tokens come in strictly ascending byte order.
    pub fn in_byte_order(&self) -> (r: bool)
        ensures
            r == self.sorted(),
    {
        let offset = &self.stage1.offset;
        let mut i: usize = 1;
        while i < offset.len()
            invariant
                1 <= i,
                offset@ == self.stage1.offset@,
                i <= offset@.len() || offset@.len() == 0,
                forall|a: int, b: int|
                    0 <= a < b < i && b < offset@.len() ==> offset@[a] < offset@[b],
            decreases offset@.len() - i,
        {
            if offset[i - 1] >= offset[i] {
                assert(!self.sorted());
                return false;
            }
            assert forall|a: int, b: int| 0 <= a < b < i + 1 && b < offset@.len() implies offset@[a]
                < offset@[b] by {
                if b == i && a < i - 1 {
                    assert(offset@[a] < offset@[i - 1]);
                }
            }
            i = i + 1;
        }
        true
    }

    /// The innermost container that covers byte `pos`, from its open to its close.
    pub fn container_at(&self, pos: u32) -> (r: Option<u32>)
        requires
            self.tree_ok(),
            self.sorted(),
        ensures
            match r {
                Some(c) => covers(self.stage1@, c as int, pos as int) && forall|d: int| #[trigger]
                    covers(self.stage1@, d, pos as int) ==> d <= c,
                None => forall|d: int| !#[trigger] covers(self.stage1@, d, pos as int),
            },
    {
        let ghost kinds = self.stage1.kind@;
        let ghost toks = self.stage1@;
        assert(kinds_of(toks) =~= kinds);
        let t: usize = match token_at(&self.stage1, pos) {
            Some(t) => t as usize,
            None => {
                return None;
            },
        };
        let kind = self.stage1.kind[t];
        let open = kind == Kind::ObjOpen || kind == Kind::ArrOpen;
        let on_close = (kind == Kind::ObjClose || kind == Kind::ArrClose) && self.stage1.offset[t]
            == pos;
        // The stack of containers that cover `pos` is the one in front of a close that `pos`
        // stands on, and the one behind the token in every other case.
        let ghost at = if on_close {
            t as int
        } else {
            t + 1
        };
        let ghost st = stack_at(kinds, at);
        proof {
            lemma_stack(kinds, at);
            assert forall|d: int| #[trigger] covers(toks, d, pos as int) <==> st.contains(d) by {
                self.lemma_covers(pos as int, t as int, at, d);
            }
        }
        let cur: i32 = if open {
            t as i32
        } else if on_close {
            assert(!overclosed_at(kinds, t as int));
            let k = self.stage1.kind[t - 1];
            if k == Kind::ObjOpen || k == Kind::ArrOpen {
                (t - 1) as i32
            } else {
                self.parent[t - 1]
            }
        } else {
            self.parent[t]
        };
        assert(cur == top(st));
        if cur < 0 {
            assert forall|d: int| !#[trigger] covers(toks, d, pos as int) by {
                assert(covers(toks, d, pos as int) <==> st.contains(d));
            }
            None
        } else {
            proof {
                assert(st[st.len() - 1] == cur);
                assert(st.contains(cur as int));
                assert forall|d: int| #[trigger] covers(toks, d, pos as int) implies d <= cur by {
                    let k = st.index_of(d);
                    assert(st[k] == d);
                }
            }
            Some(cur as u32)
        }
    }

    /// The containers that cover `pos` are those that are open there.
    proof fn lemma_covers(&self, pos: int, t: int, at: int, d: int)
        requires
            self.tree_ok(),
            self.sorted(),
            0 <= t < self.spec_len(),
            self.stage1.offset@[t] <= pos,
            t + 1 < self.spec_len() ==> self.stage1.offset@[t + 1] > pos,
            at == (if is_close(self.stage1.kind@[t]) && self.stage1.offset@[t] == pos {
                t
            } else {
                t + 1
            }),
        ensures
            covers(self.stage1@, d, pos) <==> stack_at(self.stage1.kind@, at).contains(d),
    {
        let kinds = self.stage1.kind@;
        let toks = self.stage1@;
        let st = stack_at(kinds, at);
        assert(kinds_of(toks) =~= kinds);
        lemma_stack(kinds, at);
        if covers(toks, d, pos) {
            let j = choose|j: int| #[trigger] closes(kinds, d, j) && pos <= toks[j].offset;
            assert(d <= t) by {
                if d > t {
                    assert(self.stage1.offset@[t + 1] <= self.stage1.offset@[d]);
                }
            }
            lemma_close_after_open(kinds, d, j);
            assert(j >= at) by {
                if j < t {
                    assert(self.stage1.offset@[j] < self.stage1.offset@[t]);
                }
            }
            lemma_open_between(kinds, d, at);
            assert forall|i: int| i < at implies !#[trigger] closes(kinds, d, i) by {
                if closes(kinds, d, i) {
                    lemma_close_unique(kinds, d, i, j);
                }
            }
        }
        if st.contains(d) {
            let k = st.index_of(d);
            assert(st[k] == d);
            lemma_open_between(kinds, d, at);
            lemma_close_exists(kinds, d);
            let j = choose|j: int| #[trigger] closes(kinds, d, j);
            assert(closes(kinds, d, j));
            assert(j >= at);
            assert(pos <= toks[j].offset) by {
                if j > t {
                    assert(self.stage1.offset@[t + 1] <= self.stage1.offset@[j]);
                }
            }
            assert(toks[d].offset <= pos) by {
                if d < t {
                    assert(self.stage1.offset@[d] < self.stage1.offset@[t]);
                }
            }
        }
    }

    /// Tape number of a token, `u32::MAX` for one without.
    pub fn tape(&self, tok: u32) -> (r: u32)
        requires
            tok < self.tape_of@.len(),
        ensures
            r == self.tape_of@[tok as int],
    {
        self.tape_of[tok as usize]
    }

    /// Tape numbers of a token's containers, innermost first.
    pub fn parents_as_tape(&self, tok: u32) -> (r: Vec<u32>)
        requires
            self.tree_ok(),
            tok < self.spec_len(),
        ensures
            r@ == links(self.parent@, self.parent@[tok as int] as int).map_values(
                |t: u32| self.tape_of@[t as int],
            ),
    {
        proof {
            self.lemma_links_descend();
        }
        let chain = self.parent_chain_tokens(tok).collect();
        let mut out: Vec<u32> = Vec::with_capacity(chain.len());
        let mut i: usize = 0;
        while i < chain.len()
            invariant
                i <= chain@.len(),
                self.tree_ok(),
                tok < self.spec_len(),
                links_descend(self.parent@),
                chain@ == links(self.parent@, self.parent@[tok as int] as int),
                out@ == chain@.take(i as int).map_values(|t: u32| self.tape_of@[t as int]),
            decreases chain@.len() - i,
        {
            proof {
                lemma_links(self.parent@, self.parent@[tok as int] as int, i as int);
            }
            let t: u32 = chain[i];
            out.push(self.tape_of[t as usize]);
            i = i + 1;
            assert(out@ =~= chain@.take(i as int).map_values(|t: u32| self.tape_of@[t as int]));
        }
        assert(chain@.take(i as int) =~= chain@);
        out
    }

    /// The containers of a token, innermost first.
    pub fn parent_chain_tokens<'a>(&'a self, tok: u32) -> (r: ParentChain<'a>)
        requires
            tok < self.parent@.len(),
        ensures
            r.column() == self.parent@,
            r.position() == self.parent@[tok as int],
            self.tree_ok() ==> links_descend(r.column()) && r.position() < r.column().len(),
    {
        proof {
            if self.tree_ok() {
                self.lemma_links_descend();
            }
        }
        parent_chain(self.parent.as_slice(), tok)
    }

    /// In a tree every container stands in front of what it holds.
    pub proof fn lemma_links_descend(&self)
        requires
            self.tree_ok(),
        ensures
            links_descend(self.parent@),
    {
        assert forall|i: int| 0 <= i < self.parent@.len() implies #[trigger] self.parent@[i] < i by {
            lemma_parent(self.stage1.kind@, i);
        }
    }

    /// The string or literal at byte `pos`: on its first byte or anywhere between it and the
    /// next token. On a bracket, a colon or a comma, or behind one, there is none.
    pub fn value_token_at(&self, pos: u32) -> (r: Option<u32>)
        requires
            self.stage1.wf(),
            self.sorted(),
            self.spec_len() <= u32::MAX,
        ensures
            match r {
                Some(t) => is_token_at(self.stage1.offset@, t as int, pos as int) && (
                self.stage1.kind@[t as int] == Kind::Quote || self.stage1.kind@[t as int]
                    == Kind::Scalar),
                None => forall|t: int| #[trigger]
                    is_token_at(self.stage1.offset@, t, pos as int) ==> self.stage1.kind@[t]
                        != Kind::Quote && self.stage1.kind@[t] != Kind::Scalar,
            },
    {
        match token_at(&self.stage1, pos) {
            Some(t) => {
                let k = self.stage1.kind[t as usize];
                if k == Kind::Quote || k == Kind::Scalar {
                    Some(t)
                } else {
                    assert forall|u: int| #[trigger]
                        is_token_at(self.stage1.offset@, u, pos as int) implies u == t by {
                        if u < t {
                            assert(self.stage1.offset@[u + 1] <= self.stage1.offset@[t as int]);
                        } else if u > t {
                            assert(self.stage1.offset@[t + 1] <= self.stage1.offset@[u]);
                        }
                    }
                    None
                }
            },
            None => None,
        }
    }
}

// ---------------------------------------------------------------------------
// Parent chains
// ---------------------------------------------------------------------------

/// Following a parent column from `at` up to the root, `at` first.
pub open spec fn links(parent: Seq<i32>, at: int) -> Seq<u32>
    decreases (if at < 0 { 0 } else { at + 1 }),
{
    if at < 0 {
        Seq::empty()
    } else if parent[at] < at {
        seq![at as u32].add(links(parent, parent[at] as int))
    } else {
        seq![at as u32]
    }
}

/// Every entry points in front of itself, so that following the column ends.
pub open spec fn links_descend(parent: Seq<i32>) -> bool {
    forall|i: int| 0 <= i < parent.len() ==> #[trigger] parent[i] < i
}

/// What lies on a chain is in range, and each step leads outwards.
pub proof fn lemma_links(parent: Seq<i32>, at: int, k: int)
    requires
        links_descend(parent),
        at < parent.len(),
        at <= i32::MAX,
        0 <= k < links(parent, at).len(),
    ensures
        links(parent, at)[k] <= at,
        links(parent, at)[k] < parent.len(),
        k == 0 ==> links(parent, at)[k] == at,
        k > 0 ==> links(parent, at)[k] == parent[links(parent, at)[k - 1] as int],
        k + 1 == links(parent, at).len() ==> parent[links(parent, at)[k] as int] < 0,
    decreases (if at < 0 { 0 } else { at + 1 }),
{
    if at >= 0 {
        let rest = links(parent, parent[at] as int);
        if k > 0 {
            lemma_links(parent, parent[at] as int, k - 1);
            assert(links(parent, at)[k] == rest[k - 1]);
            if k > 1 {
                assert(links(parent, at)[k - 1] == rest[k - 2]);
            }
        } else if rest.len() == 0 {
            assert(parent[at] < 0);
        }
    }
}

/// The chain of a tree's column lists opens, each holding the one in front of it, and ends
/// at the root.
pub proof fn law_chain_walks_to_root(idx: &StructIndex, tok: int, k: int)
    requires
        idx.tree_ok(),
        0 <= tok < idx.spec_len(),
        0 <= k < links(idx.parent@, idx.parent@[tok] as int).len(),
    ensures
        ({
            let chain = links(idx.parent@, idx.parent@[tok] as int);
            &&& chain[k] < tok
            &&& is_open(idx.stage1.kind@[chain[k] as int])
            &&& chain[k] == parent_at(
                idx.stage1.kind@,
                if k == 0 {
                    tok
                } else {
                    chain[k - 1] as int
                },
            )
            &&& k + 1 == chain.len() ==> idx.parent@[chain[k] as int] == -1
        }),
{
    idx.lemma_links_descend();
    let at = idx.parent@[tok] as int;
    let chain = links(idx.parent@, at);
    lemma_links(idx.parent@, at, k);
    lemma_parent(idx.stage1.kind@, tok);
    lemma_parent(idx.stage1.kind@, chain[k] as int);
    if k > 0 {
        lemma_links(idx.parent@, at, k - 1);
        lemma_parent(idx.stage1.kind@, chain[k - 1] as int);
    }
}

/// Containers are numbered before what they hold.
pub proof fn law_parents_numbered_first(idx: &StructIndex, tok: int, k: int)
    requires
        idx.tree_ok(),
        0 <= tok < idx.spec_len(),
        bears_value(idx.stage1.kind@[tok], true),
        0 <= k < links(idx.parent@, idx.parent@[tok] as int).len(),
    ensures
        tape_number(
            idx.stage1.kind@,
            links(idx.parent@, idx.parent@[tok] as int)[k] as int,
            true,
        ) < tape_number(idx.stage1.kind@, tok, true),
{
    law_chain_walks_to_root(idx, tok, k);
    law_tape_numbers_rise(
        idx.stage1.kind@,
        links(idx.parent@, idx.parent@[tok] as int)[k] as int,
        tok,
        true,
    );
}

/// A walk along a parent column, innermost first.
pub struct ParentChain<'a> {
    parent: &'a [i32],
    cur: i32,
}

impl<'a> ParentChain<'a> {
    /// The column that the walk follows.
    pub closed spec fn column(&self) -> Seq<i32> {
        self.parent@
    }

    /// The token that comes next; negative at the end.
    pub closed spec fn position(&self) -> int {
        self.cur as int
    }

    /// The next container outwards.
    pub fn next(&mut self) -> (r: Option<u32>)
        requires
            old(self).position() < old(self).column().len(),
        ensures
            final(self).column() == old(self).column(),
            match r {
                Some(t) => t == old(self).position() && final(self).position() == old(
                    self,
                ).column()[t as int],
                None => old(self).position() < 0 && final(self).position() == old(self).position(),
            },
    {
        if self.cur < 0 {
            return None;
        }
        let out: u32 = self.cur as u32;
        self.cur = self.parent[out as usize];
        Some(out)
    }

    /// All that is left of the walk.
    pub fn collect(self) -> (r: Vec<u32>)
        requires
            links_descend(self.column()),
            self.position() < self.column().len(),
        ensures
            r@ == links(self.column(), self.position()),
            forall|k: int| 0 <= k < r@.len() ==> #[trigger] r@[k] < self.column().len(),
    {
        let mut chain = self;
        let mut out: Vec<u32> = Vec::new();
        assert(out@.add(links(chain.column(), chain.position())) =~= links(
            self.column(),
            self.position(),
        ));
        loop
            invariant_except_break
                chain.position() < chain.column().len(),
                out@.add(links(chain.column(), chain.position())) == links(
                    self.column(),
                    self.position(),
                ),
            invariant
                links_descend(chain.column()),
            ensures
                out@ == links(self.column(), self.position()),
            decreases (if chain.position() < 0 {
                0
            } else {
                chain.position() + 1
            }),
        {
            let ghost before = chain;
            let ghost front = out@;
            match chain.next() {
                Some(t) => {
                    out.push(t);
                    proof {
                        let rest = links(chain.column(), chain.position());
                        assert(out@.add(rest) =~= front.add(seq![t].add(rest)));
                    }
                },
                None => {
                    assert(out@.add(links(chain.column(), chain.position())) =~= out@);
                    break ;
                },
            }
        }
        assert forall|k: int| 0 <= k < out@.len() implies #[trigger] out@[k]
            < self.column().len() by {
            lemma_links(self.column(), self.position(), k);
        }
        out
    }
}

/// Follows `parent` from the container of `start` outwards.
pub fn parent_chain<'a>(parent: &'a [i32], start: u32) -> (r: ParentChain<'a>)
    requires
        start < parent@.len(),
    ensures
        r.column() == parent@,
        r.position() == parent@[start as int],
{
    ParentChain { parent, cur: parent[start as usize] }
}

/// Token `t` is the last one that begins at or in front of `pos`.
pub open spec fn is_token_at(offset: Seq<u32>, t: int, pos: int) -> bool {
    &&& 0 <= t < offset.len()
    &&& offset[t] <= pos
    &&& t + 1 < offset.len() ==> offset[t + 1] > pos
}

/// The last token that begins at or in front of `pos`, by binary search.
pub fn token_at(s: &Stage1, pos: u32) -> (r: Option<u32>)
    requires
        s.offset@.len() <= u32::MAX,
        forall|i: int, j: int| 0 <= i < j < s.offset@.len() ==> s.offset@[i] <= s.offset@[j],
    ensures
        match r {
            Some(t) => is_token_at(s.offset@, t as int, pos as int),
            None => forall|i: int| 0 <= i < s.offset@.len() ==> #[trigger] s.offset@[i] > pos,
        },
{
    let mut lo: usize = 0;
    let mut hi: usize = s.offset.len();
    while lo < hi
        invariant
            lo <= hi <= s.offset@.len(),
            forall|i: int, j: int| 0 <= i < j < s.offset@.len() ==> s.offset@[i] <= s.offset@[j],
            forall|i: int| 0 <= i < lo ==> #[trigger] s.offset@[i] <= pos,
            forall|i: int| hi <= i < s.offset@.len() ==> #[trigger] s.offset@[i] > pos,
        decreases hi - lo,
    {
        let mid: usize = lo + (hi - lo) / 2;
        if s.offset[mid] <= pos {
            assert forall|i: int| 0 <= i < mid + 1 implies #[trigger] s.offset@[i] <= pos by {
                if i < mid {
                    assert(s.offset@[i] <= s.offset@[mid as int]);
                }
            }
            lo = mid + 1;
        } else {
            hi = mid;
        }
    }
    if lo == 0 {
        None
    } else {
        Some((lo - 1) as u32)
    }
}

/// Numbers the tokens of an index for a tape without entries for closes.
pub fn build_tape_of_jetro_compat(idx: &StructIndex) -> (r: Vec<u32>)
    requires
        idx.spec_len() <= u32::MAX,
    ensures
        r@.len() == idx.spec_len(),
        forall|i: int|
            0 <= i < idx.spec_len() ==> #[trigger] r@[i] == tape_number(
                idx.stage1.kind@,
                i,
                false,
            ),
{
    number_tokens(&idx.stage1.kind, false)
}

/// Whether an index can be built over `buf`, tested for buffers of up to `i32::MAX` bytes.
pub fn index_fits(buf: &[u8]) -> (r: bool)
    ensures
        r == (buf@.len() <= i32::MAX && fits_columns(buf@)),
        r ==> fits_index(buf@),
{
    proof {
        law_index_tokens_in_order(buf@);
    }
    buf.len() <= i32::MAX as usize && columns_fit(buf)
}

} // verus!
