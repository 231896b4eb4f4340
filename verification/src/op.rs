//! An algebra of operators over token sets.
//!
//! A plan threads a set of tokens through a row of operators. Loaders name a set of their own
//! and narrow the running one to it; combinators merge what two operators yield; transformers
//! map every token to others; filters drop tokens; reducers keep one token or a count.

use croaring::Bitmap;
use vstd::prelude::*;

use crate::api::{lemma_value_in_range, StructuralIndex, TokenId};
use crate::hits::ids;
use crate::keys::value_of;
use crate::roaring::{
    add_closed_range, lemma_finite_listing, lemma_listing, lemma_lists, listing, lists, members,
    values,
};
use crate::text::{json_string_eq, value_eq};
use crate::tree::{closes, is_open, parent_at};

verus! {

/// One step of a plan.
#[derive(Debug)]
pub enum Op {
    /// Every key token with the name.
    LoadKey(String),
    /// Every token at the depth.
    LoadDepth(u16),
    /// Every token in the subtree of the token.
    LoadSubtree(TokenId),
    /// Every token.
    LoadAll,
    /// The token alone.
    LoadOne(TokenId),
    /// What both operators yield.
    And(Box<Op>, Box<Op>),
    /// What either operator yields.
    Or(Box<Op>, Box<Op>),
    /// What the first operator yields and the second does not.
    Sub(Box<Op>, Box<Op>),
    /// For every token the value of its field with the name.
    FieldOf(String),
    /// For every token its subtree: a container with all that it holds, any other token alone.
    Descendants,
    /// For every token the tokens directly inside it.
    AllChildren,
    /// The tokens whose bytes stand for the literal.
    ValueEqLit(Vec<u8>),
    /// The least token.
    First,
    /// The greatest token.
    Last,
    /// The token with so many smaller ones in the set.
    Nth(u32),
    /// The number of tokens, as the one element of a set.
    Count,
}

/// How the size of an operator's output relates to that of its input.
#[derive(Copy, Clone, Debug, PartialEq, Eq, Structural)]
pub enum CardClass {
    /// One token.
    Single,
    /// No more than the input.
    Subset,
    /// Possibly more than the input.
    Expand,
    /// Independent of the input.
    Constant,
    /// So many tokens.
    Reduce(u32),
}

/// The class of an operator.
pub open spec fn class_of(op: Op) -> CardClass {
    match op {
        Op::LoadKey(_)
        | Op::LoadDepth(_)
        | Op::LoadSubtree(_)
        | Op::LoadAll
        | Op::LoadOne(_) => CardClass::Constant,
        Op::And(_, _) | Op::Sub(_, _) | Op::FieldOf(_) | Op::ValueEqLit(_) => CardClass::Subset,
        Op::Or(_, _) | Op::Descendants | Op::AllChildren => CardClass::Expand,
        Op::First | Op::Last | Op::Nth(_) | Op::Count => CardClass::Reduce(1),
    }
}

/// Every token of the document.
pub open spec fn all_tokens(idx: &StructuralIndex) -> Set<u32> {
    Set::new(|t: u32| t < idx.spec_len())
}

/// The value of the first key `name` directly inside token `p`.
pub open spec fn field_value(idx: &StructuralIndex, p: int, name: Seq<char>) -> Option<int> {
    let inside = listing(idx.keys_inside(p, name));
    if inside.len() > 0 {
        value_of(idx.kinds(), inside[0] as int)
    } else {
        None
    }
}

/// What an operator yields of a set of tokens.
pub open spec fn eval(op: Op, state: Set<u32>, idx: &StructuralIndex, bytes: Seq<u8>) -> Set<u32>
    decreases op,
{
    match op {
        Op::LoadKey(name) => idx.key_tokens(name@, None),
        Op::LoadDepth(d) => Set::new(
            |t: u32| t < idx.spec_len() && idx.toks()[t as int].depth == d,
        ),
        Op::LoadSubtree(root) => idx.subtree(root.0 as int),
        Op::LoadAll => all_tokens(idx),
        Op::LoadOne(tok) => set![tok.0],
        Op::And(a, b) => eval(*a, state, idx, bytes).intersect(eval(*b, state, idx, bytes)),
        Op::Or(a, b) => eval(*a, state, idx, bytes).union(eval(*b, state, idx, bytes)),
        Op::Sub(a, b) => eval(*a, state, idx, bytes).difference(eval(*b, state, idx, bytes)),
        Op::FieldOf(name) => Set::new(
            |v: u32|
                exists|t: u32| #[trigger]
                    state.contains(t) && field_value(idx, t as int, name@) == Some(v as int),
        ),
        Op::Descendants => Set::new(
            |v: u32|
                exists|t: u32| #[trigger] state.contains(t) && idx.subtree(t as int).contains(v),
        ),
        Op::AllChildren => Set::new(
            |c: u32|
                c < idx.spec_len() && exists|p: u32| #[trigger]
                    state.contains(p) && parent_at(idx.kinds(), c as int) == p,
        ),
        Op::ValueEqLit(lit) => Set::new(
            |t: u32| state.contains(t) && value_eq(idx.token_bytes(bytes, t as int), lit@),
        ),
        Op::First => if state == Set::<u32>::empty() {
            state
        } else {
            set![listing(state)[0]]
        },
        Op::Last => if state == Set::<u32>::empty() {
            state
        } else {
            set![listing(state).last()]
        },
        Op::Nth(k) => if k < listing(state).len() {
            set![listing(state)[k as int]]
        } else {
            Set::empty()
        },
        Op::Count => if state.len() <= u32::MAX {
            set![state.len() as u32]
        } else {
            Set::empty()
        },
    }
}

/// The operator can be applied: the tokens that it looks at are tokens of the document, and
/// where it compares bytes the tokens have theirs in `bytes`.
pub open spec fn applies(op: Op, state: Set<u32>, idx: &StructuralIndex, bytes: Seq<u8>) -> bool
    decreases op,
{
    match op {
        Op::LoadSubtree(root) => root.0 < idx.spec_len(),
        Op::And(a, b) | Op::Or(a, b) | Op::Sub(a, b) => applies(*a, state, idx, bytes) && applies(
            *b,
            state,
            idx,
            bytes,
        ),
        Op::FieldOf(name) => idx.key_names().contains(Some(name@)) ==> state.subset_of(
            all_tokens(idx),
        ),
        Op::Descendants | Op::AllChildren => state.subset_of(all_tokens(idx)),
        Op::ValueEqLit(_) => state == Set::<u32>::empty() || (idx.fits(bytes) && state.subset_of(
            all_tokens(idx),
        )),
        _ => true,
    }
}

/// One step of a plan: a loader narrows the running set, any other operator replaces it.
pub open spec fn step(op: Op, state: Set<u32>, idx: &StructuralIndex, bytes: Seq<u8>) -> Set<u32> {
    if class_of(op) == CardClass::Constant {
        state.intersect(eval(op, state, idx, bytes))
    } else {
        eval(op, state, idx, bytes)
    }
}

/// The set that a row of operators leaves of `state`.
pub open spec fn outcome(
    ops: Seq<Op>,
    state: Set<u32>,
    idx: &StructuralIndex,
    bytes: Seq<u8>,
) -> Set<u32>
    decreases ops.len(),
{
    if ops.len() == 0 {
        state
    } else {
        outcome(ops.skip(1), step(ops[0], state, idx, bytes), idx, bytes)
    }
}

/// Every operator of the row can be applied when its turn comes.
pub open spec fn all_apply(
    ops: Seq<Op>,
    state: Set<u32>,
    idx: &StructuralIndex,
    bytes: Seq<u8>,
) -> bool
    decreases ops.len(),
{
    ops.len() == 0 || (applies(ops[0], state, idx, bytes) && all_apply(
        ops.skip(1),
        step(ops[0], state, idx, bytes),
        idx,
        bytes,
    ))
}

/// Of tokens of the document the operator makes tokens of the document.
pub open spec fn stays_inside(op: Op, idx: &StructuralIndex) -> bool
    decreases op,
{
    match op {
        Op::LoadSubtree(tok) | Op::LoadOne(tok) => tok.0 < idx.spec_len(),
        Op::And(a, b) | Op::Or(a, b) | Op::Sub(a, b) => stays_inside(*a, idx) && stays_inside(
            *b,
            idx,
        ),
        Op::Count => false,
        _ => true,
    }
}

/// The row of operators stays inside the document, but for a count at its end.
pub open spec fn runs_inside(ops: Seq<Op>, idx: &StructuralIndex) -> bool {
    forall|i: int|
        0 <= i < ops.len() ==> stays_inside(#[trigger] ops[i], idx) || ops[i] is LoadOne || (
        ops[i] is Count && i + 1 == ops.len())
}

/// The row of operators can be applied to the tokens of the document.
pub open spec fn runs(ops: Seq<Op>, idx: &StructuralIndex, bytes: Seq<u8>) -> bool {
    ||| idx.fits(bytes) && runs_inside(ops, idx)
    ||| all_apply(ops, all_tokens(idx), idx, bytes)
}

/// The operators are the same, names and literals compared by what they hold.
pub open spec fn alike(a: Op, b: Op) -> bool
    decreases a,
{
    match (a, b) {
        (Op::LoadKey(x), Op::LoadKey(y)) => x@ == y@,
        (Op::FieldOf(x), Op::FieldOf(y)) => x@ == y@,
        (Op::ValueEqLit(x), Op::ValueEqLit(y)) => x@ == y@,
        (Op::And(x, y), Op::And(v, w)) => alike(*x, *v) && alike(*y, *w),
        (Op::Or(x, y), Op::Or(v, w)) => alike(*x, *v) && alike(*y, *w),
        (Op::Sub(x, y), Op::Sub(v, w)) => alike(*x, *v) && alike(*y, *w),
        _ => a == b,
    }
}

/// Operators that are alike yield the same set and can be applied to the same sets.
pub proof fn law_alike_operators_agree(
    a: Op,
    b: Op,
    state: Set<u32>,
    idx: &StructuralIndex,
    bytes: Seq<u8>,
)
    requires
        alike(a, b),
    ensures
        eval(a, state, idx, bytes) == eval(b, state, idx, bytes),
        applies(a, state, idx, bytes) == applies(b, state, idx, bytes),
        class_of(a) == class_of(b),
    decreases a,
{
    match (a, b) {
        (Op::And(x, y), Op::And(v, w))
        | (Op::Or(x, y), Op::Or(v, w))
        | (Op::Sub(x, y), Op::Sub(v, w)) => {
            law_alike_operators_agree(*x, *v, state, idx, bytes);
            law_alike_operators_agree(*y, *w, state, idx, bytes);
        },
        _ => {},
    }
    assert(eval(a, state, idx, bytes) =~= eval(b, state, idx, bytes));
}

/// Rows of operators that are alike leave the same set.
pub proof fn law_alike_plans_agree(
    a: Seq<Op>,
    b: Seq<Op>,
    state: Set<u32>,
    idx: &StructuralIndex,
    bytes: Seq<u8>,
)
    requires
        a.len() == b.len(),
        forall|i: int| 0 <= i < a.len() ==> alike(#[trigger] a[i], b[i]),
    ensures
        outcome(a, state, idx, bytes) == outcome(b, state, idx, bytes),
        all_apply(a, state, idx, bytes) == all_apply(b, state, idx, bytes),
    decreases a.len(),
{
    if a.len() > 0 {
        law_alike_operators_agree(a[0], b[0], state, idx, bytes);
        assert forall|i: int| 0 <= i < a.skip(1).len() implies alike(
            #[trigger] a.skip(1)[i],
            b.skip(1)[i],
        ) by {
            assert(alike(a[i + 1], b[i + 1]));
        }
        law_alike_plans_agree(a.skip(1), b.skip(1), step(a[0], state, idx, bytes), idx, bytes);
    }
}

impl Clone for Op {
    fn clone(&self) -> (r: Self)
        ensures
            alike(*self, r),
        decreases self,
    {
        match self {
            Op::LoadKey(name) => Op::LoadKey(name.clone()),
            Op::LoadDepth(d) => Op::LoadDepth(*d),
            Op::LoadSubtree(root) => Op::LoadSubtree(*root),
            Op::LoadAll => Op::LoadAll,
            Op::LoadOne(tok) => Op::LoadOne(*tok),
            Op::And(a, b) => Op::And(Box::new((&**a).clone()), Box::new((&**b).clone())),
            Op::Or(a, b) => Op::Or(Box::new((&**a).clone()), Box::new((&**b).clone())),
            Op::Sub(a, b) => Op::Sub(Box::new((&**a).clone()), Box::new((&**b).clone())),
            Op::FieldOf(name) => Op::FieldOf(name.clone()),
            Op::Descendants => Op::Descendants,
            Op::AllChildren => Op::AllChildren,
            Op::ValueEqLit(lit) => Op::ValueEqLit(lit.clone()),
            Op::First => Op::First,
            Op::Last => Op::Last,
            Op::Nth(k) => Op::Nth(*k),
            Op::Count => Op::Count,
        }
    }
}

impl Op {
    /// How the output of this operator relates to its input.
    pub fn card_class(&self) -> (r: CardClass)
        ensures
            r == class_of(*self),
    {
        match self {
            Op::LoadKey(_)
            | Op::LoadDepth(_)
            | Op::LoadSubtree(_)
            | Op::LoadAll
            | Op::LoadOne(_) => CardClass::Constant,
            Op::And(_, _) | Op::Sub(_, _) | Op::FieldOf(_) | Op::ValueEqLit(_) => CardClass::Subset,
            Op::Or(_, _) | Op::Descendants | Op::AllChildren => CardClass::Expand,
            Op::First | Op::Last | Op::Nth(_) | Op::Count => CardClass::Reduce(1),
        }
    }

    /// Whether the operator needs only so many tokens of its input.
    pub fn supports_demand(&self) -> (r: bool)
        ensures
            r == (*self is First || *self is Last || *self is Nth || *self is Count),
    {
        match self {
            Op::First | Op::Last | Op::Nth(_) | Op::Count => true,
            _ => false,
        }
    }
}

/// What operators read: the index and the bytes that it describes.
pub struct Ctx<'a> {
    pub idx: &'a StructuralIndex,
    pub bytes: &'a [u8],
}

/// The set of all tokens.
fn load_all(idx: &StructuralIndex) -> (r: Bitmap)
    ensures
        members(r) == all_tokens(idx),
{
    let mut bm = Bitmap::new();
    let n: u32 = idx.token_count();
    if n > 0 {
        add_closed_range(&mut bm, 0, n - 1);
    }
    assert(members(bm) =~= all_tokens(idx));
    bm
}

/// The tokens at a depth.
fn load_depth(idx: &StructuralIndex, d: u16) -> (r: Bitmap)
    ensures
        members(r) == Set::new(|t: u32| t < idx.spec_len() && idx.toks()[t as int].depth == d),
{
    let mut bm = Bitmap::new();
    let mut tokens = idx.tokens();
    loop
        invariant
            0 <= tokens.position() <= tokens.end() == idx.spec_len(),
            forall|t: u32| #[trigger]
                members(bm).contains(t) <==> t < tokens.position() && idx.toks()[t as int].depth == d,
        ensures
            tokens.position() == tokens.end(),
        decreases tokens.end() - tokens.position(),
    {
        match tokens.next() {
            Some(t) => {
                if idx.depth(t) == d {
                    bm.add(t.0);
                }
            },
            None => {
                break ;
            },
        }
    }
    assert(members(bm) =~= Set::new(
        |t: u32| t < idx.spec_len() && idx.toks()[t as int].depth == d,
    ));
    bm
}

/// A set of one token.
fn singleton(t: u32) -> (r: Bitmap)
    ensures
        members(r) == set![t],
{
    let mut bm = Bitmap::new();
    bm.add(t);
    assert(members(bm) =~= set![t]);
    bm
}

/// The field values of a set of tokens.
fn fields_of(state: &Bitmap, name: &String, ctx: &Ctx) -> (r: Bitmap)
    requires
        ctx.idx.key_names().contains(Some(name@)) ==> members(*state).subset_of(
            all_tokens(ctx.idx),
        ),
    ensures
        members(r) == eval(Op::FieldOf(*name), members(*state), ctx.idx, ctx.bytes@),
{
    let from = values(state);
    let mut out = Bitmap::new();
    let mut i: usize = 0;
    while i < from.len()
        invariant
            i <= from@.len(),
            lists(from@, members(*state)),
            ctx.idx.key_names().contains(Some(name@)) ==> members(*state).subset_of(
                all_tokens(ctx.idx),
            ),
            forall|v: u32| #[trigger]
                members(out).contains(v) <==> exists|k: int|
                    0 <= k < i && field_value(ctx.idx, #[trigger] from@[k] as int, name@) == Some(
                        v as int,
                    ),
        decreases from@.len() - i,
    {
        let t: u32 = from[i];
        assert(from@.contains(t));
        let ghost before = members(out);
        let found = ctx.idx.field_of(TokenId(t), name.as_str());
        if let Some(v) = found {
            out.add(v.0);
        }
        proof {
            let value = field_value(ctx.idx, t as int, name@);
            assert forall|v: u32| #[trigger] members(out).contains(v) implies exists|k: int|
                0 <= k < i + 1 && field_value(ctx.idx, #[trigger] from@[k] as int, name@) == Some(
                    v as int,
                ) by {
                if before.contains(v) {
                    let k = choose|k: int|
                        0 <= k < i && field_value(ctx.idx, #[trigger] from@[k] as int, name@)
                            == Some(v as int);
                    assert(field_value(ctx.idx, from@[k] as int, name@) == Some(v as int));
                } else {
                    assert(field_value(ctx.idx, from@[i as int] as int, name@) == Some(v as int));
                }
            }
        }
        i = i + 1;
    }
    proof {
        let want = eval(Op::FieldOf(*name), members(*state), ctx.idx, ctx.bytes@);
        assert forall|v: u32| #[trigger] members(out).contains(v) <==> want.contains(v) by {
            if members(out).contains(v) {
                let k = choose|k: int|
                    0 <= k < i && field_value(ctx.idx, #[trigger] from@[k] as int, name@) == Some(
                        v as int,
                    );
                assert(from@.contains(from@[k]));
                assert(members(*state).contains(from@[k]));
            }
            if want.contains(v) {
                let t = choose|t: u32| #[trigger]
                    members(*state).contains(t) && field_value(ctx.idx, t as int, name@) == Some(
                        v as int,
                    );
                assert(from@.contains(t));
                let k = from@.index_of(t);
                assert(field_value(ctx.idx, from@[k] as int, name@) == Some(v as int));
            }
        }
        assert(members(out) =~= want);
    }
    out
}

/// The subtrees of a set of tokens.
fn descendants(state: &Bitmap, ctx: &Ctx) -> (r: Bitmap)
    requires
        members(*state).subset_of(all_tokens(ctx.idx)),
    ensures
        members(r) == eval(Op::Descendants, members(*state), ctx.idx, ctx.bytes@),
{
    let from = values(state);
    let mut out = Bitmap::new();
    let mut i: usize = 0;
    while i < from.len()
        invariant
            i <= from@.len(),
            lists(from@, members(*state)),
            members(*state).subset_of(all_tokens(ctx.idx)),
            forall|v: u32| #[trigger]
                members(out).contains(v) <==> exists|k: int|
                    0 <= k < i && ctx.idx.subtree(#[trigger] from@[k] as int).contains(v),
        decreases from@.len() - i,
    {
        let t: u32 = from[i];
        assert(from@.contains(t));
        let ghost before = members(out);
        let sub = ctx.idx.subtree_bitmap(TokenId(t));
        out.or_inplace(&sub);
        proof {
            assert forall|v: u32| #[trigger] members(out).contains(v) implies exists|k: int|
                0 <= k < i + 1 && ctx.idx.subtree(#[trigger] from@[k] as int).contains(v) by {
                if before.contains(v) {
                    let k = choose|k: int|
                        0 <= k < i && ctx.idx.subtree(#[trigger] from@[k] as int).contains(v);
                    assert(ctx.idx.subtree(from@[k] as int).contains(v));
                } else {
                    assert(ctx.idx.subtree(from@[i as int] as int).contains(v));
                }
            }
        }
        i = i + 1;
    }
    proof {
        let want = eval(Op::Descendants, members(*state), ctx.idx, ctx.bytes@);
        assert forall|v: u32| #[trigger] members(out).contains(v) <==> want.contains(v) by {
            if members(out).contains(v) {
                let k = choose|k: int|
                    0 <= k < i && ctx.idx.subtree(#[trigger] from@[k] as int).contains(v);
                assert(from@.contains(from@[k]));
                assert(members(*state).contains(from@[k]));
            }
            if want.contains(v) {
                let t = choose|t: u32| #[trigger]
                    members(*state).contains(t) && ctx.idx.subtree(t as int).contains(v);
                assert(from@.contains(t));
                let k = from@.index_of(t);
                assert(ctx.idx.subtree(from@[k] as int).contains(v));
            }
        }
        assert(members(out) =~= want);
    }
    out
}

/// The tokens directly inside one token.
fn add_children(out: &mut Bitmap, p: TokenId, ctx: &Ctx)
    requires
        p.0 < ctx.idx.spec_len(),
    ensures
        forall|c: u32| #[trigger]
            members(*final(out)).contains(c) <==> members(*old(out)).contains(c) || (c
                < ctx.idx.spec_len() && parent_at(ctx.idx.kinds(), c as int) == p.0),
{
    let sub = ctx.idx.subtree_bitmap(p);
    let among = values(&sub);
    let ghost before = members(*out);
    proof {
        use_type_invariant(ctx.idx);
        lemma_subtree_in_document(ctx.idx, p.0 as int);
    }
    let mut i: usize = 0;
    while i < among.len()
        invariant
            i <= among@.len(),
            p.0 < ctx.idx.spec_len(),
            lists(among@, ctx.idx.subtree(p.0 as int)),
            ctx.idx.subtree(p.0 as int).subset_of(all_tokens(ctx.idx)),
            forall|c: u32| #[trigger]
                members(*out).contains(c) <==> before.contains(c) || exists|k: int|
                    0 <= k < i && #[trigger] among@[k] == c && parent_at(ctx.idx.kinds(), c as int)
                        == p.0,
        decreases among@.len() - i,
    {
        let c: u32 = among[i];
        assert(among@.contains(c));
        assert(ctx.idx.subtree(p.0 as int).contains(c));
        let ghost prior = members(*out);
        if let Some(q) = ctx.idx.parent(TokenId(c)) {
            if q.0 == p.0 {
                out.add(c);
            }
        }
        proof {
            assert forall|d: u32| #[trigger] members(*out).contains(d) <==> before.contains(d)
                || exists|k: int|
                0 <= k < i + 1 && #[trigger] among@[k] == d && parent_at(ctx.idx.kinds(), d as int)
                    == p.0 by {
                if prior.contains(d) && !before.contains(d) {
                    let k = choose|k: int|
                        0 <= k < i && #[trigger] among@[k] == d && parent_at(
                            ctx.idx.kinds(),
                            d as int,
                        ) == p.0;
                    assert(among@[k] == d);
                } else if members(*out).contains(d) && !before.contains(d) {
                    assert(among@[i as int] == d);
                }
            }
        }
        i = i + 1;
    }
    proof {
        assert forall|c: u32| #[trigger] members(*out).contains(c) <==> before.contains(c) || (c
            < ctx.idx.spec_len() && parent_at(ctx.idx.kinds(), c as int) == p.0) by {
            if c < ctx.idx.spec_len() && parent_at(ctx.idx.kinds(), c as int) == p.0 {
                ctx.idx.lemma_child_in_subtree(p.0 as int, c as int);
                assert(among@.contains(c));
                let k = among@.index_of(c);
                assert(among@[k] == c);
            }
            if members(*out).contains(c) && !before.contains(c) {
                let k = choose|k: int|
                    0 <= k < i && #[trigger] among@[k] == c && parent_at(
                        ctx.idx.kinds(),
                        c as int,
                    ) == p.0;
                assert(among@.contains(c));
                assert(ctx.idx.subtree(p.0 as int).contains(c));
            }
        }
    }
}

/// A subtree lies in the document.
proof fn lemma_subtree_in_document(idx: &StructuralIndex, i: int)
    requires
        idx.wf(),
        0 <= i < idx.spec_len(),
    ensures
        idx.subtree(i).subset_of(all_tokens(idx)),
{
    if is_open(idx.kinds()[i]) {
        assert(closes(idx.kinds(), i, idx.index().close_of@[i] as int));
    }
}

/// The tokens directly inside a set of tokens.
fn children(state: &Bitmap, ctx: &Ctx) -> (r: Bitmap)
    requires
        members(*state).subset_of(all_tokens(ctx.idx)),
    ensures
        members(r) == eval(Op::AllChildren, members(*state), ctx.idx, ctx.bytes@),
{
    let from = values(state);
    let mut out = Bitmap::new();
    let mut i: usize = 0;
    while i < from.len()
        invariant
            i <= from@.len(),
            lists(from@, members(*state)),
            members(*state).subset_of(all_tokens(ctx.idx)),
            forall|c: u32| #[trigger]
                members(out).contains(c) <==> c < ctx.idx.spec_len() && exists|k: int|
                    0 <= k < i && parent_at(ctx.idx.kinds(), c as int) == #[trigger] from@[k],
        decreases from@.len() - i,
    {
        let p: u32 = from[i];
        assert(from@.contains(p));
        let ghost before = members(out);
        add_children(&mut out, TokenId(p), ctx);
        proof {
            assert forall|c: u32| #[trigger] members(out).contains(c) implies exists|k: int|
                0 <= k < i + 1 && parent_at(ctx.idx.kinds(), c as int) == #[trigger] from@[k] by {
                if before.contains(c) {
                    let k = choose|k: int|
                        0 <= k < i && parent_at(ctx.idx.kinds(), c as int) == #[trigger] from@[k];
                    assert(parent_at(ctx.idx.kinds(), c as int) == from@[k]);
                } else {
                    assert(parent_at(ctx.idx.kinds(), c as int) == from@[i as int]);
                }
            }
        }
        i = i + 1;
    }
    proof {
        let want = eval(Op::AllChildren, members(*state), ctx.idx, ctx.bytes@);
        assert forall|c: u32| #[trigger] members(out).contains(c) <==> want.contains(c) by {
            if members(out).contains(c) {
                let k = choose|k: int|
                    0 <= k < i && parent_at(ctx.idx.kinds(), c as int) == #[trigger] from@[k];
                assert(from@.contains(from@[k]));
                assert(members(*state).contains(from@[k]));
            }
            if want.contains(c) {
                let p = choose|p: u32| #[trigger]
                    members(*state).contains(p) && parent_at(ctx.idx.kinds(), c as int) == p;
                assert(from@.contains(p));
                let k = from@.index_of(p);
                assert(parent_at(ctx.idx.kinds(), c as int) == from@[k]);
            }
        }
        assert(members(out) =~= want);
    }
    out
}

/// The tokens of a set whose bytes stand for a literal.
fn matching(state: &Bitmap, lit: &Vec<u8>, ctx: &Ctx) -> (r: Bitmap)
    requires
        members(*state) == Set::<u32>::empty() || (ctx.idx.fits(ctx.bytes@) && members(
            *state,
        ).subset_of(all_tokens(ctx.idx))),
    ensures
        members(r) == eval(Op::ValueEqLit(*lit), members(*state), ctx.idx, ctx.bytes@),
{
    let from = values(state);
    let mut out = Bitmap::new();
    let mut i: usize = 0;
    while i < from.len()
        invariant
            i <= from@.len(),
            lists(from@, members(*state)),
            members(*state) == Set::<u32>::empty() || (ctx.idx.fits(ctx.bytes@) && members(
                *state,
            ).subset_of(all_tokens(ctx.idx))),
            forall|t: u32| #[trigger]
                members(out).contains(t) <==> value_eq(
                    ctx.idx.token_bytes(ctx.bytes@, t as int),
                    lit@,
                ) && exists|k: int| 0 <= k < i && #[trigger] from@[k] == t,
        decreases from@.len() - i,
    {
        let t: u32 = from[i];
        assert(from@.contains(t));
        let ghost before = members(out);
        proof {
            use_type_invariant(ctx.idx);
            assert(ctx.idx.toks()[t as int].offset <= ctx.idx.exact_end(ctx.bytes@, t as int));
        }
        let span = ctx.idx.byte_span_in(TokenId(t), ctx.bytes);
        if json_string_eq(span.slice(ctx.bytes), lit.as_slice()) {
            out.add(t);
        }
        proof {
            assert forall|u: u32| #[trigger] members(out).contains(u) implies exists|k: int|
                0 <= k < i + 1 && #[trigger] from@[k] == u by {
                if before.contains(u) {
                    let k = choose|k: int| 0 <= k < i && #[trigger] from@[k] == u;
                    assert(from@[k] == u);
                } else {
                    assert(from@[i as int] == u);
                }
            }
        }
        i = i + 1;
    }
    proof {
        let want = eval(Op::ValueEqLit(*lit), members(*state), ctx.idx, ctx.bytes@);
        assert forall|t: u32| #[trigger] members(out).contains(t) <==> want.contains(t) by {
            if members(out).contains(t) {
                let k = choose|k: int| 0 <= k < i && #[trigger] from@[k] == t;
                assert(from@.contains(t));
            }
            if want.contains(t) {
                assert(from@.contains(t));
                let k = from@.index_of(t);
                assert(from@[k] == t);
            }
        }
        assert(members(out) =~= want);
    }
    out
}

impl Op {
    /// Applies the operator to a set of tokens.
    pub fn apply(&self, state: &Bitmap, ctx: &Ctx) -> (r: Bitmap)
        requires
            applies(*self, members(*state), ctx.idx, ctx.bytes@),
        ensures
            members(r) == eval(*self, members(*state), ctx.idx, ctx.bytes@),
        decreases self,
    {
        let ghost s = members(*state);
        proof {
            lemma_finite_listing(s);
            lemma_lists(listing(s), s);
        }
        match self {
            Op::LoadKey(name) => {
                let mut bm = Bitmap::new();
                let found = ctx.idx.keys_named(name.as_str(), None).collect();
                let ghost set = ctx.idx.key_tokens(name@, None);
                let mut i: usize = 0;
                while i < found.len()
                    invariant
                        i <= found@.len(),
                        lists(ids(found@), set),
                        forall|t: u32| #[trigger]
                            members(bm).contains(t) <==> ids(found@).take(i as int).contains(t),
                    decreases found@.len() - i,
                {
                    bm.add(found[i].raw());
                    proof {
                        let prior = ids(found@).take(i as int);
                        let now = ids(found@).take(i + 1);
                        assert(now =~= prior.push(found@[i as int].0));
                        assert forall|t: u32| #[trigger] now.contains(t) <==> prior.contains(t) || t
                            == found@[i as int].0 by {
                            lemma_push_contains(prior, found@[i as int].0, t);
                        }
                    }
                    i = i + 1;
                }
                assert(ids(found@).take(i as int) =~= ids(found@));
                assert(members(bm) =~= set);
                bm
            },
            Op::LoadDepth(d) => load_depth(ctx.idx, *d),
            Op::LoadSubtree(root) => ctx.idx.subtree_bitmap(*root),
            Op::LoadAll => load_all(ctx.idx),
            Op::LoadOne(tok) => singleton(tok.raw()),
            Op::And(a, b) => {
                let mut x = a.apply(state, ctx);
                let y = b.apply(state, ctx);
                x.and_inplace(&y);
                x
            },
            Op::Or(a, b) => {
                let mut x = a.apply(state, ctx);
                let y = b.apply(state, ctx);
                x.or_inplace(&y);
                x
            },
            Op::Sub(a, b) => {
                let mut x = a.apply(state, ctx);
                let y = b.apply(state, ctx);
                x.andnot_inplace(&y);
                x
            },
            Op::FieldOf(name) => fields_of(state, name, ctx),
            Op::Descendants => descendants(state, ctx),
            Op::AllChildren => children(state, ctx),
            Op::ValueEqLit(lit) => matching(state, lit, ctx),
            Op::First => match state.minimum() {
                Some(min) => {
                    proof {
                        let l = listing(s);
                        assert(l.contains(min));
                        let k = l.index_of(min);
                        assert(l[k] == min);
                        assert(l.contains(l[0]));
                        if 0 < k {
                            assert(l[0] < l[k]);
                        }
                    }
                    singleton(min)
                },
                None => Bitmap::new(),
            },
            Op::Last => match state.maximum() {
                Some(max) => {
                    proof {
                        let l = listing(s);
                        assert(l.contains(max));
                        let k = l.index_of(max);
                        assert(l[k] == max);
                        assert(l.contains(l.last()));
                        if k < l.len() - 1 {
                            assert(l[k] < l[l.len() - 1]);
                        }
                    }
                    singleton(max)
                },
                None => Bitmap::new(),
            },
            Op::Nth(k) => {
                let v = values(state);
                proof {
                    lemma_listing(v@, s);
                }
                if (*k as usize) < v.len() {
                    singleton(v[*k as usize])
                } else {
                    Bitmap::new()
                }
            },
            Op::Count => {
                let n: u64 = state.cardinality();
                if n <= u32::MAX as u64 {
                    singleton(n as u32)
                } else {
                    Bitmap::new()
                }
            },
        }
    }
}

proof fn lemma_push_contains(s: Seq<u32>, x: u32, t: u32)
    ensures
        s.push(x).contains(t) <==> s.contains(t) || t == x,
{
    if s.push(x).contains(t) {
        let k = s.push(x).index_of(t);
        if k < s.len() {
            assert(s[k] == t);
        }
    }
    if s.contains(t) {
        let k = s.index_of(t);
        assert(s.push(x)[k] == t);
    }
    assert(s.push(x)[s.len() as int] == x);
}

// ---------------------------------------------------------------------------
// Plans
// ---------------------------------------------------------------------------

/// A row of operators. It starts with all tokens.
#[derive(Debug)]
pub struct OpPlan {
    /// The operators in the order in which they are applied.
    pub ops: Vec<Op>,
}

impl Clone for OpPlan {
    fn clone(&self) -> (r: Self)
        ensures
            r.ops@.len() == self.ops@.len(),
            forall|i: int|
                0 <= i < self.ops@.len() ==> alike(self.ops@[i], #[trigger] r.ops@[i]),
    {
        let n: usize = self.ops.len();
        let mut ops: Vec<Op> = Vec::with_capacity(n);
        let mut i: usize = 0;
        while i < n
            invariant
                i <= n == self.ops@.len(),
                ops@.len() == i,
                forall|k: int| 0 <= k < i ==> alike(self.ops@[k], #[trigger] ops@[k]),
            decreases n - i,
        {
            ops.push(self.ops[i].clone());
            i = i + 1;
        }
        OpPlan { ops }
    }
}

impl Default for OpPlan {
    /// The empty plan.
    fn default() -> (r: Self)
        ensures
            r.ops@ == Seq::<Op>::empty(),
    {
        OpPlan::new()
    }
}

impl OpPlan {
    /// The empty plan.
    pub fn new() -> (r: Self)
        ensures
            r.ops@ == Seq::<Op>::empty(),
    {
        OpPlan { ops: Vec::new() }
    }

    /// Appends an operator.
    pub fn push(self, op: Op) -> (r: Self)
        ensures
            r.ops@ == self.ops@.push(op),
    {
        let mut ops = self.ops;
        ops.push(op);
        OpPlan { ops }
    }

    /// Narrows to one token.
    pub fn anchor(self, root: TokenId) -> (r: Self)
        ensures
            r.ops@ == self.ops@.push(Op::LoadOne(root)),
    {
        self.push(Op::LoadOne(root))
    }

    /// Narrows to the tokens of the document.
    pub fn all(self) -> (r: Self)
        ensures
            r.ops@ == self.ops@.push(Op::LoadAll),
    {
        self.push(Op::LoadAll)
    }

    /// Narrows to the keys with the name.
    pub fn by_key(self, name: &str) -> (r: Self)
        ensures
            exists|s: String| s@ == name@ && r.ops@ == #[trigger] self.ops@.push(Op::LoadKey(s)),
    {
        let owned: String = name.to_owned();
        let ghost s = owned;
        let r = self.push(Op::LoadKey(owned));
        assert(s@ == name@ && r.ops@ == self.ops@.push(Op::LoadKey(s)));
        r
    }

    /// Narrows to the tokens at the depth.
    pub fn at_depth(self, d: u16) -> (r: Self)
        ensures
            r.ops@ == self.ops@.push(Op::LoadDepth(d)),
    {
        self.push(Op::LoadDepth(d))
    }

    /// Narrows to the subtree of a token.
    pub fn within(self, root: TokenId) -> (r: Self)
        ensures
            r.ops@ == self.ops@.push(Op::LoadSubtree(root)),
    {
        self.push(Op::LoadSubtree(root))
    }

    /// Replaces every token by its subtree.
    pub fn descend(self) -> (r: Self)
        ensures
            r.ops@ == self.ops@.push(Op::Descendants),
    {
        self.push(Op::Descendants)
    }

    /// Replaces every token by the tokens directly inside it.
    pub fn children(self) -> (r: Self)
        ensures
            r.ops@ == self.ops@.push(Op::AllChildren),
    {
        self.push(Op::AllChildren)
    }

    /// Replaces every token by the value of its field with the name.
    pub fn field(self, name: &str) -> (r: Self)
        ensures
            exists|s: String| s@ == name@ && r.ops@ == #[trigger] self.ops@.push(Op::FieldOf(s)),
    {
        let owned: String = name.to_owned();
        let ghost s = owned;
        let r = self.push(Op::FieldOf(owned));
        assert(s@ == name@ && r.ops@ == self.ops@.push(Op::FieldOf(s)));
        r
    }

    /// Keeps the tokens whose bytes stand for the literal.
    pub fn value_eq(self, lit: &[u8]) -> (r: Self)
        ensures
            exists|v: Vec<u8>| v@ == lit@ && r.ops@ == #[trigger] self.ops@.push(Op::ValueEqLit(v)),
    {
        let owned: Vec<u8> = vstd::slice::slice_to_vec(lit);
        let ghost v = owned;
        let r = self.push(Op::ValueEqLit(owned));
        assert(v@ == lit@ && r.ops@ == self.ops@.push(Op::ValueEqLit(v)));
        r
    }

    /// Keeps the least token.
    pub fn first(self) -> (r: Self)
        ensures
            r.ops@ == self.ops@.push(Op::First),
    {
        self.push(Op::First)
    }

    /// Keeps the greatest token.
    pub fn last(self) -> (r: Self)
        ensures
            r.ops@ == self.ops@.push(Op::Last),
    {
        self.push(Op::Last)
    }

    /// Keeps the token with `k` smaller ones.
    pub fn nth(self, k: u32) -> (r: Self)
        ensures
            r.ops@ == self.ops@.push(Op::Nth(k)),
    {
        self.push(Op::Nth(k))
    }

    /// Replaces the tokens by their number.
    pub fn count(self) -> (r: Self)
        ensures
            r.ops@ == self.ops@.push(Op::Count),
    {
        self.push(Op::Count)
    }

    /// Rewrites the plan until no rewriting shortens it.
    pub fn optimize(self) -> (r: Self)
        ensures
            r.ops@ == optimized(self.ops@),
    {
        let ghost whole = optimized(self.ops@);
        let mut ops = self.ops;
        loop
            invariant_except_break
                optimized(ops@) == whole,
            ensures
                ops@ == whole,
            decreases ops@.len(),
        {
            let n: usize = ops.len();
            proof {
                lemma_pass_len(ops@, true);
            }
            ops = optimize_pass(ops);
            if ops.len() == n {
                break ;
            }
        }
        OpPlan { ops }
    }

    /// Runs the plan: starts with all tokens and applies one operator after the other. What
    /// a loader yields narrows the set; what any other operator yields replaces it.
    pub fn run(&self, idx: &StructuralIndex, bytes: &[u8]) -> (r: Bitmap)
        requires
            runs(self.ops@, idx, bytes@),
        ensures
            members(r) == outcome(self.ops@, all_tokens(idx), idx, bytes@),
    {
        proof {
            use_type_invariant(idx);
            if idx.fits(bytes@) && runs_inside(self.ops@, idx) {
                lemma_runs_inside(self.ops@, all_tokens(idx), idx, bytes@);
            }
        }
        let ctx = Ctx { idx, bytes };
        let mut state = load_all(idx);
        let mut i: usize = 0;
        assert(self.ops@.skip(0) =~= self.ops@);
        while i < self.ops.len()
            invariant
                i <= self.ops@.len(),
                ctx.idx == idx,
                ctx.bytes == bytes,
                all_apply(self.ops@.skip(i as int), members(state), idx, bytes@),
                outcome(self.ops@.skip(i as int), members(state), idx, bytes@) == outcome(
                    self.ops@,
                    all_tokens(idx),
                    idx,
                    bytes@,
                ),
            decreases self.ops@.len() - i,
        {
            let op = &self.ops[i];
            assert(self.ops@.skip(i as int).skip(1) =~= self.ops@.skip(i + 1));
            match op.card_class() {
                CardClass::Constant => {
                    let loaded = op.apply(&state, &ctx);
                    state.and_inplace(&loaded);
                },
                _ => {
                    state = op.apply(&state, &ctx);
                },
            }
            i = i + 1;
        }
        state
    }
}

/// The least token that a plan leaves.
pub fn run_first(plan: &OpPlan, idx: &StructuralIndex, bytes: &[u8]) -> (r: Option<TokenId>)
    requires
        runs(plan.ops@, idx, bytes@),
    ensures
        ({
            let left = outcome(plan.ops@, all_tokens(idx), idx, bytes@);
            match r {
                Some(t) => left.contains(t.0) && forall|u: u32| #[trigger]
                    left.contains(u) ==> t.0 <= u,
                None => left == Set::<u32>::empty(),
            }
        }),
        r matches Some(t) ==> idx.fits(bytes@) && runs_inside(plan.ops@, idx) && !(plan.ops@.len()
            > 0 && plan.ops@.last() is Count) ==> t.0 < idx.spec_len(),
{
    proof {
        use_type_invariant(idx);
        if idx.fits(bytes@) && runs_inside(plan.ops@, idx) {
            lemma_runs_inside(plan.ops@, all_tokens(idx), idx, bytes@);
        }
    }
    match plan.run(idx, bytes).minimum() {
        Some(t) => Some(TokenId(t)),
        None => None,
    }
}

/// How many tokens a plan leaves.
pub fn run_count(plan: &OpPlan, idx: &StructuralIndex, bytes: &[u8]) -> (r: u64)
    requires
        runs(plan.ops@, idx, bytes@),
    ensures
        r == outcome(plan.ops@, all_tokens(idx), idx, bytes@).len(),
{
    plan.run(idx, bytes).cardinality()
}

/// An operator that stays inside the document can be applied to tokens of the document.
proof fn lemma_stays_inside(op: Op, state: Set<u32>, idx: &StructuralIndex, bytes: Seq<u8>)
    requires
        idx.wf(),
        stays_inside(op, idx),
        state.subset_of(all_tokens(idx)),
    ensures
        idx.fits(bytes) ==> applies(op, state, idx, bytes),
        eval(op, state, idx, bytes).subset_of(all_tokens(idx)),
    decreases op,
{
    let all = all_tokens(idx);
    match op {
        Op::LoadSubtree(root) => lemma_subtree_in_document(idx, root.0 as int),
        Op::And(a, b) | Op::Or(a, b) | Op::Sub(a, b) => {
            lemma_stays_inside(*a, state, idx, bytes);
            lemma_stays_inside(*b, state, idx, bytes);
        },
        Op::FieldOf(name) => {
            assert forall|v: u32| #[trigger] eval(op, state, idx, bytes).contains(v) implies all.contains(
                v,
            ) by {
                let t = choose|t: u32| #[trigger]
                    state.contains(t) && field_value(idx, t as int, name@) == Some(v as int);
                let inside = listing(idx.keys_inside(t as int, name@));
                lemma_value_in_range(idx.kinds(), inside[0] as int, inside[0] + 1);
            }
        },
        Op::Descendants => {
            assert forall|v: u32| #[trigger] eval(op, state, idx, bytes).contains(v) implies all.contains(
                v,
            ) by {
                let t = choose|t: u32| #[trigger]
                    state.contains(t) && idx.subtree(t as int).contains(v);
                assert(all.contains(t));
                lemma_subtree_in_document(idx, t as int);
            }
        },
        Op::First | Op::Last | Op::Nth(_) => {
            lemma_finite_listing(state);
            let s = listing(state);
            if s.len() == 0 {
                assert forall|x: u32| !#[trigger] state.contains(x) by {
                    assert(s.contains(x) <==> state.contains(x));
                }
                assert(state =~= Set::<u32>::empty());
            }
            assert forall|v: u32| #[trigger] eval(op, state, idx, bytes).contains(v) implies all.contains(
                v,
            ) by {
                if s.len() > 0 {
                    assert(s.contains(v));
                }
            }
        },
        _ => {},
    }
}

/// A row of operators that stays inside the document can be applied one by one, and leaves
/// tokens of the document unless it ends with a count.
proof fn lemma_runs_inside(ops: Seq<Op>, state: Set<u32>, idx: &StructuralIndex, bytes: Seq<u8>)
    requires
        idx.wf(),
        idx.fits(bytes),
        runs_inside(ops, idx),
        state.subset_of(all_tokens(idx)),
    ensures
        all_apply(ops, state, idx, bytes),
        !(ops.len() > 0 && ops.last() is Count) ==> outcome(ops, state, idx, bytes).subset_of(
            all_tokens(idx),
        ),
    decreases ops.len(),
{
    if ops.len() > 0 {
        let op = ops[0];
        let next = step(op, state, idx, bytes);
        let rest = ops.skip(1);
        if stays_inside(op, idx) {
            lemma_stays_inside(op, state, idx, bytes);
        }
        lemma_step_inside(ops, state, idx, bytes);
        if op is Count {
            assert(all_apply(rest, next, idx, bytes));
        } else {
            lemma_runs_inside(rest, next, idx, bytes);
        }
    }
}

/// A plan that stays inside the document leaves tokens of the document.
pub proof fn law_plans_stay_inside(ops: Seq<Op>, idx: &StructuralIndex, bytes: Seq<u8>)
    requires
        idx.wf(),
        idx.fits(bytes),
        runs_inside(ops, idx),
        ops.len() == 0 || !(ops.last() is Count),
    ensures
        outcome(ops, all_tokens(idx), idx, bytes).subset_of(all_tokens(idx)),
{
    lemma_runs_inside(ops, all_tokens(idx), idx, bytes);
}

// ---------------------------------------------------------------------------
// Rewriting
// ---------------------------------------------------------------------------

/// `LoadAll` in front of an operator that narrows can go.
pub open spec fn drops_all(ops: Seq<Op>) -> bool {
    &&& ops.len() > 1
    &&& ops[0] is LoadAll
    &&& class_of(ops[1]) == CardClass::Constant || class_of(ops[1]) == CardClass::Subset
}

/// Two key loads in a row become one.
pub open spec fn joins_keys(ops: Seq<Op>) -> bool {
    ops.len() > 1 && ops[0] is LoadKey && ops[1] is LoadKey
}

/// Two key loads as one: their intersection. An intersection replaces the running set, which
/// is the same as narrowing it where that is the set of all tokens, and where the names
/// differ, as nothing is left then. Elsewhere a key that is loaded twice is loaded once.
pub open spec fn joined(a: Op, b: Op, first: bool) -> Op {
    if !first && alike(a, b) {
        a
    } else {
        Op::And(Box::new(a), Box::new(b))
    }
}

/// An expansion and the key load behind it stay together.
pub open spec fn keeps_pair(ops: Seq<Op>) -> bool {
    ops.len() > 1 && ops[0] is Descendants && ops[1] is LoadKey
}

/// One pass of rewriting, from the front. `first` says that no operator stands in front.
pub open spec fn pass(ops: Seq<Op>, first: bool) -> Seq<Op>
    decreases ops.len(),
{
    if ops.len() == 0 {
        ops
    } else if drops_all(ops) {
        pass(ops.skip(1), first)
    } else if keeps_pair(ops) {
        seq![ops[0], ops[1]].add(pass(ops.skip(2), false))
    } else if joins_keys(ops) {
        seq![joined(ops[0], ops[1], first)].add(pass(ops.skip(2), false))
    } else {
        seq![ops[0]].add(pass(ops.skip(1), false))
    }
}

/// Passes until the length stays.
pub open spec fn optimized(ops: Seq<Op>) -> Seq<Op>
    decreases ops.len(),
    via optimized_decreases
{
    if pass(ops, true).len() == ops.len() {
        pass(ops, true)
    } else {
        optimized(pass(ops, true))
    }
}

#[via_fn]
proof fn optimized_decreases(ops: Seq<Op>) {
    lemma_pass_len(ops, true);
}

/// A pass never lengthens a plan, and one that keeps the length keeps the plan.
pub proof fn lemma_pass_len(ops: Seq<Op>, first: bool)
    ensures
        pass(ops, first).len() <= ops.len(),
        pass(ops, first).len() == ops.len() ==> pass(ops, first) == ops,
    decreases ops.len(),
{
    if ops.len() > 0 {
        if drops_all(ops) {
            lemma_pass_len(ops.skip(1), first);
        } else if keeps_pair(ops) {
            lemma_pass_len(ops.skip(2), false);
            assert(seq![ops[0], ops[1]].add(ops.skip(2)) =~= ops);
        } else if joins_keys(ops) {
            lemma_pass_len(ops.skip(2), false);
        } else {
            lemma_pass_len(ops.skip(1), false);
            assert(seq![ops[0]].add(ops.skip(1)) =~= ops);
        }
    }
}

/// Rewriting has nothing to do on a rewritten plan.
pub proof fn law_optimized_is_stable(ops: Seq<Op>)
    ensures
        optimized(optimized(ops)) == optimized(ops),
        optimized(ops).len() <= ops.len(),
    decreases ops.len(),
{
    lemma_pass_len(ops, true);
    if pass(ops, true).len() != ops.len() {
        law_optimized_is_stable(pass(ops, true));
    }
}

/// One pass of rewriting.
fn optimize_pass(ops: Vec<Op>) -> (r: Vec<Op>)
    ensures
        r@ == pass(ops@, true),
{
    let ghost whole = ops@;
    let mut out: Vec<Op> = Vec::with_capacity(ops.len());
    // The rest of the plan, its front at the end.
    let mut rest: Vec<Op> = reversed(ops);
    assert(rest@.reverse() =~= whole);
    assert(out@.add(pass(rest@.reverse(), true)) =~= pass(whole, true));
    loop
        invariant_except_break
            out@.add(pass(rest@.reverse(), out@.len() == 0)) == pass(whole, true),
        ensures
            out@ == pass(whole, true),
        decreases rest@.len(),
    {
        let ghost front = out@;
        let ghost left = rest@.reverse();
        match rest.pop() {
            None => {
                assert(out@.add(pass(left, out@.len() == 0)) =~= out@);
                break ;
            },
            Some(op) => {
                let n: usize = rest.len();
                proof {
                    assert(left[0] == op);
                    assert(rest@.reverse() =~= left.skip(1));
                    if n > 0 {
                        assert(left[1] == rest@[n - 1]);
                        assert(rest@.drop_last().reverse() =~= left.skip(2));
                    }
                }
                let next_class: Option<CardClass> = if n > 0 {
                    Some(rest[n - 1].card_class())
                } else {
                    None
                };
                let next_is_key: bool = n > 0 && is_load_key(&rest[n - 1]);
                let narrowed: bool = match next_class {
                    Some(c) => c == CardClass::Constant || c == CardClass::Subset,
                    None => false,
                };
                match op {
                    Op::LoadAll => {
                        if !narrowed {
                            out.push(Op::LoadAll);
                            assert(out@.add(pass(left.skip(1), false)) =~= front.add(
                                seq![left[0]].add(pass(left.skip(1), false)),
                            ));
                        }
                    },
                    Op::Descendants => {
                        out.push(Op::Descendants);
                        if next_is_key {
                            if let Some(key) = rest.pop() {
                                out.push(key);
                                assert(out@.add(pass(left.skip(2), false)) =~= front.add(
                                    seq![left[0], left[1]].add(pass(left.skip(2), false)),
                                ));
                            }
                        } else {
                            assert(out@.add(pass(left.skip(1), false)) =~= front.add(
                                seq![left[0]].add(pass(left.skip(1), false)),
                            ));
                        }
                    },
                    Op::LoadKey(a) => {
                        if next_is_key {
                            if let Some(key) = rest.pop() {
                                let again = out.len() > 0 && loads_key(&key, &a);
                                if again {
                                    out.push(Op::LoadKey(a));
                                } else {
                                    out.push(Op::And(Box::new(Op::LoadKey(a)), Box::new(key)));
                                }
                                assert(out@.add(pass(left.skip(2), false)) =~= front.add(
                                    seq![joined(left[0], left[1], front.len() == 0)].add(
                                        pass(left.skip(2), false),
                                    ),
                                ));
                            }
                        } else {
                            out.push(Op::LoadKey(a));
                            assert(out@.add(pass(left.skip(1), false)) =~= front.add(
                                seq![left[0]].add(pass(left.skip(1), false)),
                            ));
                        }
                    },
                    other => {
                        out.push(other);
                        assert(out@.add(pass(left.skip(1), false)) =~= front.add(
                            seq![left[0]].add(pass(left.skip(1), false)),
                        ));
                    },
                }
            },
        }
    }
    out
}

/// Whether an operator loads the key `name`.
fn loads_key(op: &Op, name: &String) -> (r: bool)
    ensures
        r == (*op matches Op::LoadKey(k) && k@ == name@),
{
    match op {
        Op::LoadKey(k) => *k == *name,
        _ => false,
    }
}

/// Whether an operator loads a key.
fn is_load_key(op: &Op) -> (r: bool)
    ensures
        r == (*op is LoadKey),
{
    match op {
        Op::LoadKey(_) => true,
        _ => false,
    }
}

/// The operators back to front.
fn reversed(ops: Vec<Op>) -> (r: Vec<Op>)
    ensures
        r@ == ops@.reverse(),
{
    let ghost whole = ops@;
    let mut from = ops;
    let mut out: Vec<Op> = Vec::with_capacity(from.len());
    assert(out@.add(from@.reverse()) =~= whole.reverse());
    loop
        invariant_except_break
            out@.add(from@.reverse()) == whole.reverse(),
        ensures
            out@ == whole.reverse(),
        decreases from@.len(),
    {
        let ghost front = out@;
        let ghost before = from@;
        match from.pop() {
            Some(op) => {
                out.push(op);
                assert(out@.add(from@.reverse()) =~= front.add(before.reverse()));
            },
            None => {
                assert(out@.add(from@.reverse()) =~= out@);
                break ;
            },
        }
    }
    out
}

/// A pass keeps what a row of operators leaves of tokens of the document.
proof fn lemma_pass_keeps_outcome(
    ops: Seq<Op>,
    first: bool,
    state: Set<u32>,
    idx: &StructuralIndex,
    bytes: Seq<u8>,
)
    requires
        idx.wf(),
        runs_inside(ops, idx),
        state.subset_of(all_tokens(idx)),
        first ==> state == all_tokens(idx),
    ensures
        outcome(pass(ops, first), state, idx, bytes) == outcome(ops, state, idx, bytes),
        runs_inside(pass(ops, first), idx),
        pass(ops, first).len() == 0 <==> ops.len() == 0,
    decreases ops.len(),
{
    if ops.len() > 0 {
        let rest = ops.skip(1);
        let after = step(ops[0], state, idx, bytes);
        lemma_step_inside(ops, state, idx, bytes);
        if drops_all(ops) {
            law_load_all_is_neutral(state, idx, bytes);
            lemma_pass_keeps_outcome(rest, first, state, idx, bytes);
        } else if keeps_pair(ops) {
            let tail = ops.skip(2);
            let last = step(ops[1], after, idx, bytes);
            assert(rest =~= seq![ops[1]].add(tail));
            assert(rest.skip(1) =~= tail);
            lemma_step_inside(rest, after, idx, bytes);
            lemma_pass_keeps_outcome(tail, false, last, idx, bytes);
            lemma_cons(ops[1], tail, after, idx, bytes);
            assert(pass(ops, first) =~= seq![ops[0]].add(
                seq![ops[1]].add(pass(tail, false)),
            ));
            lemma_cons(ops[0], seq![ops[1]].add(pass(tail, false)), state, idx, bytes);
            lemma_cons(ops[1], pass(tail, false), after, idx, bytes);
            lemma_inside_cons(ops[1], pass(tail, false), idx);
            lemma_inside_cons(ops[0], seq![ops[1]].add(pass(tail, false)), idx);
        } else if joins_keys(ops) {
            let tail = ops.skip(2);
            let one = joined(ops[0], ops[1], first);
            let last = step(ops[1], after, idx, bytes);
            assert(rest =~= seq![ops[1]].add(tail));
            assert(rest.skip(1) =~= tail);
            lemma_step_inside(rest, after, idx, bytes);
            lemma_pass_keeps_outcome(tail, false, last, idx, bytes);
            lemma_cons(ops[1], tail, after, idx, bytes);
            lemma_joined(ops[0], ops[1], first, state, idx, bytes);
            lemma_cons(one, pass(tail, false), state, idx, bytes);
            lemma_inside_cons(one, pass(tail, false), idx);
        } else {
            if ops[0] is Count {
                assert(pass(rest, false) == rest);
                assert(pass(ops, first) =~= ops);
            } else {
                lemma_pass_keeps_outcome(rest, false, after, idx, bytes);
                lemma_cons(ops[0], pass(rest, false), state, idx, bytes);
                lemma_inside_cons(ops[0], pass(rest, false), idx);
            }
        }
    }
}

/// The first operator of a row that stays inside the document does, unless it is a count and
/// the only one, and so does the rest of the row.
proof fn lemma_step_inside(ops: Seq<Op>, state: Set<u32>, idx: &StructuralIndex, bytes: Seq<u8>)
    requires
        idx.wf(),
        runs_inside(ops, idx),
        ops.len() > 0,
        state.subset_of(all_tokens(idx)),
    ensures
        runs_inside(ops.skip(1), idx),
        !(ops[0] is Count) ==> step(ops[0], state, idx, bytes).subset_of(all_tokens(idx)),
        ops[0] is Count ==> ops.len() == 1,
{
    let rest = ops.skip(1);
    assert forall|i: int| 0 <= i < rest.len() implies stays_inside(#[trigger] rest[i], idx)
        || rest[i] is LoadOne || (rest[i] is Count && i + 1 == rest.len()) by {
        assert(rest[i] == ops[i + 1]);
    }
    if stays_inside(ops[0], idx) {
        lemma_stays_inside(ops[0], state, idx, bytes);
    }
}

proof fn lemma_inside_cons(op: Op, rest: Seq<Op>, idx: &StructuralIndex)
    requires
        stays_inside(op, idx) || op is LoadOne,
        runs_inside(rest, idx),
    ensures
        runs_inside(seq![op].add(rest), idx),
{
    let ops = seq![op].add(rest);
    assert forall|i: int| 0 <= i < ops.len() implies stays_inside(#[trigger] ops[i], idx)
        || ops[i] is LoadOne || (ops[i] is Count && i + 1 == ops.len()) by {
        if i > 0 {
            assert(ops[i] == rest[i - 1]);
        }
    }
}

/// A row of operators acts as its first one and then the others.
proof fn lemma_cons(
    op: Op,
    rest: Seq<Op>,
    state: Set<u32>,
    idx: &StructuralIndex,
    bytes: Seq<u8>,
)
    ensures
        outcome(seq![op].add(rest), state, idx, bytes) == outcome(
            rest,
            step(op, state, idx, bytes),
            idx,
            bytes,
        ),
        all_apply(seq![op].add(rest), state, idx, bytes) == (applies(op, state, idx, bytes)
            && all_apply(rest, step(op, state, idx, bytes), idx, bytes)),
{
    let ops = seq![op].add(rest);
    assert(ops[0] == op);
    assert(ops.skip(1) =~= rest);
}

/// Two key loads as one leave what they leave one after the other.
proof fn lemma_joined(
    a: Op,
    b: Op,
    first: bool,
    state: Set<u32>,
    idx: &StructuralIndex,
    bytes: Seq<u8>,
)
    requires
        a is LoadKey,
        b is LoadKey,
        first ==> state == all_tokens(idx),
    ensures
        step(joined(a, b, first), state, idx, bytes) == step(
            b,
            step(a, state, idx, bytes),
            idx,
            bytes,
        ),
        stays_inside(joined(a, b, first), idx),
{
    reveal_with_fuel(eval, 2);
    reveal_with_fuel(stays_inside, 2);
    let one = joined(a, b, first);
    let left = step(one, state, idx, bytes);
    let right = step(b, step(a, state, idx, bytes), idx, bytes);
    match (a, b) {
        (Op::LoadKey(x), Op::LoadKey(y)) => {
            if x@ != y@ {
                law_names_do_not_meet(idx, x@, y@);
            }
            assert forall|t: u32| #[trigger] left.contains(t) <==> right.contains(t) by {
                if idx.key_tokens(x@, None).contains(t) && idx.key_tokens(y@, None).contains(t) {
                    assert(idx.key_tokens(x@, None).intersect(
                        idx.key_tokens(y@, None),
                    ).contains(t));
                }
            }
            assert(left =~= right);
        },
        _ => {},
    }
}

/// Rewriting keeps what a plan leaves, and keeps it inside the document.
pub proof fn law_optimize_keeps_outcome(ops: Seq<Op>, idx: &StructuralIndex, bytes: Seq<u8>)
    requires
        idx.wf(),
        runs_inside(ops, idx),
    ensures
        outcome(optimized(ops), all_tokens(idx), idx, bytes) == outcome(
            ops,
            all_tokens(idx),
            idx,
            bytes,
        ),
        runs_inside(optimized(ops), idx),
    decreases ops.len(),
{
    lemma_pass_keeps_outcome(ops, true, all_tokens(idx), idx, bytes);
    lemma_pass_len(ops, true);
    if pass(ops, true).len() != ops.len() {
        law_optimize_keeps_outcome(pass(ops, true), idx, bytes);
    }
}

/// Loads of two different names have no token in common, so joining them changes nothing on
/// any set.
pub proof fn law_names_do_not_meet(idx: &StructuralIndex, a: Seq<char>, b: Seq<char>)
    requires
        a != b,
    ensures
        idx.key_tokens(a, None).intersect(idx.key_tokens(b, None)) == Set::<u32>::empty(),
{
    assert(idx.key_tokens(a, None).intersect(idx.key_tokens(b, None)) =~= Set::<u32>::empty());
}

/// On a set of tokens of the document `LoadAll` changes nothing.
pub proof fn law_load_all_is_neutral(state: Set<u32>, idx: &StructuralIndex, bytes: Seq<u8>)
    requires
        state.subset_of(all_tokens(idx)),
    ensures
        step(Op::LoadAll, state, idx, bytes) == state,
{
    assert(step(Op::LoadAll, state, idx, bytes) =~= state);
}

/// What an operator that filters, reduces to a token or narrows leaves of a set was in it.
pub proof fn law_narrowing(op: Op, state: Set<u32>, idx: &StructuralIndex, bytes: Seq<u8>)
    requires
        class_of(op) == CardClass::Constant || op is ValueEqLit || op is First || op is Last
            || op is Nth,
    ensures
        step(op, state, idx, bytes).subset_of(state),
{
    lemma_finite_listing(state);
    lemma_lists(listing(state), state);
    let l = listing(state);
    if state != Set::<u32>::empty() {
        if l.len() == 0 {
            assert(state =~= Set::<u32>::empty());
        }
        assert(l.contains(l[0]));
        assert(l.contains(l.last()));
    }
    if let Op::Nth(k) = op {
        if k < l.len() {
            assert(l.contains(l[k as int]));
        }
    }
}

} // verus!
