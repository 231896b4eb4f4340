//! Plans: what each operator makes of a set of tokens, and what a row of them makes of it.

use croaring::Bitmap;
use vstd::prelude::*;

use crate::api::{StructuralIndex, TokenId};
use crate::keys::value_of;
use crate::laws::keys::{is_first_key, law_fields_are_values_of_first_keys};
use crate::op::{
    all_tokens, class_of, eval, field_value, law_optimize_keeps_outcome, lemma_pass_len, optimized,
    outcome, pass, run_count, run_first, runs_inside, step, CardClass, Ctx, Op, OpPlan,
};
use crate::roaring::{lemma_finite, lemma_finite_listing, lemma_lists, listing, lists, members};
use crate::text::value_eq;
use crate::tree::parent_at;

verus! {

// ---------------------------------------------------------------------------
// Operators that map or filter
// ---------------------------------------------------------------------------

/// The operator looks at every token of the set by itself.
pub open spec fn by_token(op: Op) -> bool {
    op is FieldOf || op is Descendants || op is AllChildren || op is ValueEqLit
}

/// What such an operator yields of a set is what it yields of each of its tokens, all of it
/// together.
pub proof fn law_steps_work_token_by_token(
    op: Op,
    state: Set<u32>,
    idx: &StructuralIndex,
    bytes: Seq<u8>,
    v: u32,
)
    requires
        by_token(op),
    ensures
        eval(op, state, idx, bytes).contains(v) <==> exists|t: u32| #[trigger]
            state.contains(t) && eval(op, set![t], idx, bytes).contains(v),
{
    assert forall|t: u32| #[trigger] state.contains(t) implies set![t].contains(t) by {}
    if eval(op, state, idx, bytes).contains(v) {
        match op {
            Op::FieldOf(name) => {
                let t = choose|t: u32| #[trigger]
                    state.contains(t) && field_value(idx, t as int, name@) == Some(
                        v as int,
                    );
                assert(set![t].contains(t));
                assert(eval(op, set![t], idx, bytes).contains(v));
            },
            Op::Descendants => {
                let t = choose|t: u32| #[trigger]
                    state.contains(t) && idx.subtree(t as int).contains(v);
                assert(set![t].contains(t));
                assert(eval(op, set![t], idx, bytes).contains(v));
            },
            Op::AllChildren => {
                let t = choose|t: u32| #[trigger]
                    state.contains(t) && parent_at(idx.kinds(), v as int) == t;
                assert(set![t].contains(t));
                assert(eval(op, set![t], idx, bytes).contains(v));
            },
            _ => {
                assert(set![v].contains(v));
                assert(eval(op, set![v], idx, bytes).contains(v));
            },
        }
    }
    if exists|t: u32| #[trigger] state.contains(t) && eval(op, set![t], idx, bytes).contains(v) {
        let t = choose|t: u32| #[trigger]
            state.contains(t) && eval(op, set![t], idx, bytes).contains(v);
        assert forall|u: u32| #[trigger] set![t].contains(u) implies u == t by {}
        assert(state.contains(t));
    }
}

/// Such an operator distributes over the union of two sets.
pub proof fn law_steps_distribute_over_union(
    op: Op,
    a: Set<u32>,
    b: Set<u32>,
    idx: &StructuralIndex,
    bytes: Seq<u8>,
)
    requires
        by_token(op),
    ensures
        eval(op, a.union(b), idx, bytes) == eval(op, a, idx, bytes).union(eval(op, b, idx, bytes)),
        eval(op, Set::<u32>::empty(), idx, bytes) == Set::<u32>::empty(),
{
    assert forall|v: u32| #[trigger]
        eval(op, a.union(b), idx, bytes).contains(v) <==> eval(op, a, idx, bytes).union(
            eval(op, b, idx, bytes),
        ).contains(v) by {
        law_steps_work_token_by_token(op, a.union(b), idx, bytes, v);
        law_steps_work_token_by_token(op, a, idx, bytes, v);
        law_steps_work_token_by_token(op, b, idx, bytes, v);
        if eval(op, a.union(b), idx, bytes).contains(v) {
            let t = choose|t: u32| #[trigger]
                a.union(b).contains(t) && eval(op, set![t], idx, bytes).contains(v);
            assert(a.contains(t) || b.contains(t));
        }
        if eval(op, a, idx, bytes).contains(v) {
            let t = choose|t: u32| #[trigger]
                a.contains(t) && eval(op, set![t], idx, bytes).contains(v);
            assert(a.union(b).contains(t));
        }
        if eval(op, b, idx, bytes).contains(v) {
            let t = choose|t: u32| #[trigger]
                b.contains(t) && eval(op, set![t], idx, bytes).contains(v);
            assert(a.union(b).contains(t));
        }
    }
    assert(eval(op, a.union(b), idx, bytes) =~= eval(op, a, idx, bytes).union(
        eval(op, b, idx, bytes),
    ));
    assert forall|v: u32| !#[trigger] eval(op, Set::<u32>::empty(), idx, bytes).contains(v) by {
        law_steps_work_token_by_token(op, Set::<u32>::empty(), idx, bytes, v);
    }
    assert(eval(op, Set::<u32>::empty(), idx, bytes) =~= Set::<u32>::empty());
}

/// The field of one token is the value of the first key with the name directly inside it.
pub proof fn law_field_of_one_token(
    name: String,
    t: u32,
    idx: &StructuralIndex,
    bytes: Seq<u8>,
    v: u32,
)
    requires
        idx.wf(),
    ensures
        eval(Op::FieldOf(name), set![t], idx, bytes).contains(v) <==> exists|k: int| #[trigger]
            is_first_key(*idx, t as int, name@, k) && value_of(idx.kinds(), k) == Some(v as int),
{
    law_fields_are_values_of_first_keys(idx, t as int, name@);
    let s = set![t];
    assert(s.contains(t));
    if eval(Op::FieldOf(name), s, idx, bytes).contains(v) {
        let u = choose|u: u32| #[trigger]
            s.contains(u) && field_value(idx, u as int, name@) == Some(v as int);
        assert(u == t);
        let k = choose|k: int| #[trigger] is_first_key(*idx, t as int, name@, k);
        assert(is_first_key(*idx, t as int, name@, k));
    }
}

/// One token with all that it holds is its subtree.
pub proof fn law_descendants_of_one_token(t: u32, idx: &StructuralIndex, bytes: Seq<u8>)
    ensures
        eval(Op::Descendants, set![t], idx, bytes) == idx.subtree(t as int),
{
    let s = set![t];
    assert(s.contains(t));
    assert(eval(Op::Descendants, s, idx, bytes) =~= idx.subtree(t as int));
}

/// The children of one token are the tokens whose container it is.
pub proof fn law_children_of_one_token(t: u32, idx: &StructuralIndex, bytes: Seq<u8>, c: u32)
    requires
        idx.wf(),
    ensures
        eval(Op::AllChildren, set![t], idx, bytes).contains(c) <==> c < idx.spec_len()
            && idx.index().parent@[c as int] == t,
{
    let s = set![t];
    assert(s.contains(t));
    if c < idx.spec_len() {
        assert(idx.index().parent@[c as int] == parent_at(idx.kinds(), c as int));
    }
}

/// Of one token a comparison leaves the token or nothing, as its bytes stand for the literal
/// or not.
pub proof fn law_comparison_of_one_token(
    lit: Vec<u8>,
    t: u32,
    idx: &StructuralIndex,
    bytes: Seq<u8>,
)
    ensures
        eval(Op::ValueEqLit(lit), set![t], idx, bytes) == (if value_eq(
            bytes.subrange(idx.toks()[t as int].offset, idx.exact_end(bytes, t as int)),
            lit@,
        ) {
            set![t]
        } else {
            Set::empty()
        }),
{
    let s = eval(Op::ValueEqLit(lit), set![t], idx, bytes);
    if value_eq(bytes.subrange(idx.toks()[t as int].offset, idx.exact_end(bytes, t as int)), lit@) {
        assert(s =~= set![t]);
    } else {
        assert(s =~= Set::empty());
    }
}

// ---------------------------------------------------------------------------
// Loaders and combinators
// ---------------------------------------------------------------------------

/// The operator names a set of its own.
pub open spec fn is_loader(op: Op) -> bool {
    op is LoadKey || op is LoadDepth || op is LoadSubtree || op is LoadAll || op is LoadOne
}

/// What loaders load does not depend on the running set, and is told by the columns: the keys
/// with a name, the tokens at a depth, a subtree, all tokens, one token.
pub proof fn law_loaders_load_what_they_name(
    op: Op,
    state: Set<u32>,
    idx: &StructuralIndex,
    bytes: Seq<u8>,
    t: u32,
)
    requires
        is_loader(op),
    ensures
        eval(op, state, idx, bytes).contains(t) <==> match op {
            Op::LoadKey(name) => t < idx.spec_len() && idx.key_names()[t as int] == Some(name@),
            Op::LoadDepth(d) => t < idx.spec_len() && idx.toks()[t as int].depth == d,
            Op::LoadSubtree(root) => idx.subtree(root.0 as int).contains(t),
            Op::LoadAll => t < idx.spec_len(),
            Op::LoadOne(tok) => t == tok.0,
            _ => false,
        },
{
}

/// Combinators keep what both sides yield, what either does, and what the first does without
/// the second.
pub proof fn law_combinators_combine(
    a: Op,
    b: Op,
    state: Set<u32>,
    idx: &StructuralIndex,
    bytes: Seq<u8>,
    t: u32,
)
    ensures
        eval(Op::And(Box::new(a), Box::new(b)), state, idx, bytes).contains(t) <==> eval(
            a,
            state,
            idx,
            bytes,
        ).contains(t) && eval(b, state, idx, bytes).contains(t),
        eval(Op::Or(Box::new(a), Box::new(b)), state, idx, bytes).contains(t) <==> eval(
            a,
            state,
            idx,
            bytes,
        ).contains(t) || eval(b, state, idx, bytes).contains(t),
        eval(Op::Sub(Box::new(a), Box::new(b)), state, idx, bytes).contains(t) <==> eval(
            a,
            state,
            idx,
            bytes,
        ).contains(t) && !eval(b, state, idx, bytes).contains(t),
{
}

// ---------------------------------------------------------------------------
// Reducers
// ---------------------------------------------------------------------------

/// The elements of a set that are less than `t`.
pub open spec fn below(state: Set<u32>, t: u32) -> Set<u32> {
    Set::new(|u: u32| state.contains(u) && u < t)
}

proof fn lemma_place(state: Set<u32>, t: u32)
    requires
        state.contains(t),
    ensures
        ({
            let l = listing(state);
            let k = below(state, t).len() as int;
            lists(l, state) && l.len() == state.len() && 0 <= k < l.len() && l[k] == t
        }),
{
    lemma_finite_listing(state);
    let l = listing(state);
    lemma_lists(l, state);
    assert(l.contains(t));
    let k = l.index_of(t);
    let front = l.take(k);
    assert forall|u: u32| #[trigger] front.contains(u) <==> below(state, t).contains(u) by {
        if front.contains(u) {
            let j = front.index_of(u);
            assert(l[j] == u);
            assert(l.contains(u));
            assert(l[j] < l[k]);
        }
        if below(state, t).contains(u) {
            assert(l.contains(u));
            let j = l.index_of(u);
            assert(l[j] == u);
            assert(j < k) by {
                if k < j {
                    assert(l[k] < l[j]);
                }
            }
            assert(front[j] == u);
        }
    }
    assert(lists(front, below(state, t)));
    lemma_lists(front, below(state, t));
}

/// The first, the last and the `k`th token of a set: the one with none in front of it, with
/// none behind it, with `k` in front of it. A set that is too small for it leaves nothing.
pub proof fn law_reducers_pick_by_order(
    state: Set<u32>,
    idx: &StructuralIndex,
    bytes: Seq<u8>,
    k: u32,
    t: u32,
)
    ensures
        eval(Op::First, state, idx, bytes).contains(t) <==> state.contains(t) && forall|u: u32|
            #[trigger] state.contains(u) ==> t <= u,
        eval(Op::Last, state, idx, bytes).contains(t) <==> state.contains(t) && forall|u: u32|
            #[trigger] state.contains(u) ==> u <= t,
        eval(Op::Nth(k), state, idx, bytes).contains(t) <==> state.contains(t) && below(
            state,
            t,
        ).len() == k,
{
    lemma_finite_listing(state);
    let l = listing(state);
    lemma_lists(l, state);
    if state.contains(t) {
        lemma_place(state, t);
        assert forall|u: u32| #[trigger] state.contains(u) implies l[0] <= u <= l.last() by {
            lemma_place(state, u);
        }
        assert(l.contains(l[0]));
        assert(l.contains(l.last()));
    } else {
        if l.len() > 0 {
            assert(l.contains(l[0]));
            assert(l.contains(l.last()));
        } else {
            assert(state =~= Set::<u32>::empty()) by {
                assert forall|u: u32| !#[trigger] state.contains(u) by {
                    assert(l.contains(u) <==> state.contains(u));
                }
            }
        }
        if k < l.len() {
            assert(l.contains(l[k as int]));
        }
    }
}

/// A count leaves the number of tokens as its one element.
pub proof fn law_count_counts(state: Set<u32>, idx: &StructuralIndex, bytes: Seq<u8>, n: u32)
    ensures
        eval(Op::Count, state, idx, bytes).contains(n) <==> state.len() == n,
{
}

// ---------------------------------------------------------------------------
// Classes
// ---------------------------------------------------------------------------

/// What the class of an operator promises: a constant one does not look at the running set, a
/// reducing one leaves at most one element, and a field step or a comparison leaves no more
/// tokens than it was given.
pub proof fn law_classes_hold(
    op: Op,
    a: Set<u32>,
    b: Set<u32>,
    idx: &StructuralIndex,
    bytes: Seq<u8>,
)
    ensures
        class_of(op) == CardClass::Constant <==> is_loader(op),
        class_of(op) == CardClass::Constant ==> eval(op, a, idx, bytes) == eval(op, b, idx, bytes),
        class_of(op) == CardClass::Reduce(1) ==> eval(op, a, idx, bytes).len() <= 1,
        (op is FieldOf || op is ValueEqLit) ==> class_of(op) == CardClass::Subset && eval(
            op,
            a,
            idx,
            bytes,
        ).len() <= a.len(),
{
    if is_loader(op) {
        assert forall|t: u32| #[trigger] eval(op, a, idx, bytes).contains(t) <==> eval(
            op,
            b,
            idx,
            bytes,
        ).contains(t) by {
            law_loaders_load_what_they_name(op, a, idx, bytes, t);
            law_loaders_load_what_they_name(op, b, idx, bytes, t);
        }
        assert(eval(op, a, idx, bytes) =~= eval(op, b, idx, bytes));
    }
    if op is FieldOf || op is ValueEqLit {
        lemma_no_more(op, a, idx, bytes);
    }
}

/// Every operator has the class of its group: loaders are constant, differences,
/// intersections, field steps and comparisons do not widen, unions and descents may, and what
/// reduces leaves one element. The reducing ones alone can do with a part of their input.
pub proof fn law_classes_of_operators(op: &Op, class: CardClass, demand: bool)
    requires
        call_ensures(Op::card_class, (op,), class),
        call_ensures(Op::supports_demand, (op,), demand),
    ensures
        class == CardClass::Constant <==> is_loader(*op),
        class == CardClass::Subset <==> op is And || op is Sub || op is FieldOf || op is ValueEqLit,
        class == CardClass::Expand <==> op is Or || op is Descendants || op is AllChildren,
        class == CardClass::Reduce(1) <==> op is First || op is Last || op is Nth || op is Count,
        demand <==> class == CardClass::Reduce(1),
{
}

proof fn lemma_no_more(op: Op, state: Set<u32>, idx: &StructuralIndex, bytes: Seq<u8>)
    requires
        op is FieldOf || op is ValueEqLit,
    ensures
        eval(op, state, idx, bytes).len() <= state.len(),
    decreases state.len(),
{
    lemma_finite(state);
    if state.len() == 0 {
        assert(state =~= Set::<u32>::empty());
        law_steps_distribute_over_union(op, state, state, idx, bytes);
    } else {
        let t = state.choose();
        let rest = state.remove(t);
        lemma_no_more(op, rest, idx, bytes);
        law_steps_distribute_over_union(op, rest, set![t], idx, bytes);
        assert(rest.union(set![t]) =~= state);
        let one = eval(op, set![t], idx, bytes);
        let more = eval(op, rest, idx, bytes);
        lemma_finite(one);
        lemma_finite(more);
        assert(set![t].contains(t));
        assert forall|x: u32, y: u32| #[trigger] one.contains(x) && #[trigger] one.contains(y)
            implies x == y by {}
        if one.len() > 0 {
            let x = one.choose();
            assert(one =~= set![x]);
        }
        vstd::set_lib::lemma_set_disjoint_lens(more, one.difference(more));
        assert(more.union(one) =~= more + one.difference(more));
        lemma_finite(one.difference(more));
        vstd::set_lib::lemma_len_subset(one.difference(more), one);
    }
}

// ---------------------------------------------------------------------------
// Rows of operators
// ---------------------------------------------------------------------------

/// A row of operators runs one after the other: the empty row leaves the set as it is, and a
/// row of two parts leaves what the second part leaves of what the first does.
pub proof fn law_plans_run_in_order(
    a: Seq<Op>,
    b: Seq<Op>,
    state: Set<u32>,
    idx: &StructuralIndex,
    bytes: Seq<u8>,
)
    ensures
        outcome(Seq::<Op>::empty(), state, idx, bytes) == state,
        outcome(a + b, state, idx, bytes) == outcome(
            b,
            outcome(a, state, idx, bytes),
            idx,
            bytes,
        ),
    decreases a.len(),
{
    if a.len() == 0 {
        assert(a + b =~= b);
    } else {
        law_plans_run_in_order(a.skip(1), b, step(a[0], state, idx, bytes), idx, bytes);
        assert((a + b).skip(1) =~= a.skip(1) + b);
        assert((a + b)[0] == a[0]);
    }
}

/// One operator narrows the running set where it is a loader, and replaces it otherwise.
pub proof fn law_loaders_narrow_and_others_replace(
    op: Op,
    state: Set<u32>,
    idx: &StructuralIndex,
    bytes: Seq<u8>,
    t: u32,
)
    ensures
        outcome(seq![op], state, idx, bytes).contains(t) <==> eval(op, state, idx, bytes).contains(
            t,
        ) && (is_loader(op) ==> state.contains(t)),
{
    reveal_with_fuel(outcome, 2);
    let ops = seq![op];
    assert(ops.skip(1) =~= Seq::<Op>::empty());
    assert(outcome(ops, state, idx, bytes) == step(op, state, idx, bytes));
}

/// Running a plan starts with every token of the document and leaves what its operators leave;
/// counting counts that, and the first of it is its least.
pub proof fn law_plans_start_with_all_tokens(
    plan: &OpPlan,
    idx: &StructuralIndex,
    bytes: &[u8],
    set: Bitmap,
    count: u64,
    first: Option<TokenId>,
    all: Set<u32>,
)
    requires
        forall|t: u32| #[trigger] all.contains(t) <==> t < idx.spec_len(),
        call_ensures(OpPlan::run, (plan, idx, bytes), set),
        call_ensures(run_count, (plan, idx, bytes), count),
        call_ensures(run_first, (plan, idx, bytes), first),
    ensures
        members(set) == outcome(plan.ops@, all, idx, bytes@),
        count == members(set).len(),
        match first {
            Some(t) => members(set).contains(t.0) && forall|u: u32| #[trigger]
                members(set).contains(u) ==> t.0 <= u,
            None => members(set) == Set::<u32>::empty(),
        },
{
    assert(all =~= all_tokens(idx));
}

/// A rewritten plan leaves what the plan leaves.
pub proof fn law_rewritten_plans_leave_the_same(
    plan: OpPlan,
    better: OpPlan,
    idx: &StructuralIndex,
    bytes: &[u8],
    before: Bitmap,
    after: Bitmap,
)
    requires
        idx.wf(),
        runs_inside(plan.ops@, idx),
        call_ensures(OpPlan::optimize, (plan,), better),
        call_ensures(OpPlan::run, (&plan, idx, bytes), before),
        call_ensures(OpPlan::run, (&better, idx, bytes), after),
    ensures
        members(before) == members(after),
{
    law_optimize_keeps_outcome(plan.ops@, idx, bytes@);
}

/// The operator narrows, filters, or maps every token to at most one.
pub open spec fn never_widens(op: Op) -> bool {
    is_loader(op) || op is And || op is Sub || op is FieldOf || op is ValueEqLit
}

/// The row has no load of all tokens in front of an operator that does not widen, and no two
/// key loads in a row but behind a descent.
pub open spec fn is_tidy(ops: Seq<Op>) -> bool {
    forall|i: int, j: int|
        0 <= i < j < ops.len() && j == i + 1 ==> {
            &&& !(#[trigger] ops[i] is LoadAll && never_widens(#[trigger] ops[j]))
            &&& ops[i] is LoadKey && ops[j] is LoadKey ==> i > 0 && ops[i - 1] is Descendants
        }
}

proof fn lemma_fixed_is_tidy(ops: Seq<Op>, first: bool)
    requires
        pass(ops, first).len() == ops.len(),
    ensures
        is_tidy(ops),
    decreases ops.len(),
{
    if ops.len() > 1 {
        lemma_pass_len(ops.skip(1), first);
        lemma_pass_len(ops.skip(1), false);
        lemma_pass_len(ops.skip(2), false);
        let cut: int = if ops[0] is Descendants && ops[1] is LoadKey {
            2
        } else {
            1
        };
        let rest = ops.skip(cut);
        lemma_fixed_is_tidy(rest, false);
        assert forall|i: int, j: int| 0 <= i < j < ops.len() && j == i + 1 implies {
            &&& !(#[trigger] ops[i] is LoadAll && never_widens(#[trigger] ops[j]))
            &&& ops[i] is LoadKey && ops[j] is LoadKey ==> i > 0 && ops[i - 1] is Descendants
        } by {
            if i >= cut {
                assert(rest[i - cut] == ops[i]);
                assert(rest[j - cut] == ops[j]);
                if i > cut {
                    assert(rest[i - cut - 1] == ops[i - 1]);
                }
            }
        }
    }
}

/// Rewriting leaves nothing that it could drop or join, and never lengthens a plan.
pub proof fn law_rewritten_plans_are_tidy(plan: OpPlan, better: OpPlan)
    requires
        call_ensures(OpPlan::optimize, (plan,), better),
    ensures
        is_tidy(better.ops@),
        better.ops@.len() <= plan.ops@.len(),
{
    lemma_optimized_is_tidy(plan.ops@);
}

proof fn lemma_optimized_is_tidy(ops: Seq<Op>)
    ensures
        is_tidy(optimized(ops)),
        optimized(ops).len() <= ops.len(),
    decreases ops.len(),
{
    lemma_pass_len(ops, true);
    if pass(ops, true).len() == ops.len() {
        lemma_fixed_is_tidy(ops, true);
    } else {
        lemma_optimized_is_tidy(pass(ops, true));
    }
}

/// Applying an operator to a bitmap yields what the operator yields of its tokens.
pub proof fn law_apply_evaluates(op: &Op, state: &Bitmap, ctx: &Ctx<'_>, r: Bitmap)
    requires
        call_ensures(Op::apply, (op, state, ctx), r),
    ensures
        members(r) == eval(*op, members(*state), ctx.idx, ctx.bytes@),
{
}

// ---------------------------------------------------------------------------
// Building plans
// ---------------------------------------------------------------------------

proof fn lemma_last_step(
    ops: Seq<Op>,
    op: Op,
    state: Set<u32>,
    idx: &StructuralIndex,
    bytes: Seq<u8>,
    t: u32,
)
    ensures
        outcome(ops.push(op), state, idx, bytes).contains(t) <==> eval(
            op,
            outcome(ops, state, idx, bytes),
            idx,
            bytes,
        ).contains(t) && (is_loader(op) ==> outcome(ops, state, idx, bytes).contains(t)),
{
    law_plans_run_in_order(ops, seq![op], state, idx, bytes);
    assert(ops.push(op) =~= ops + seq![op]);
    law_loaders_narrow_and_others_replace(op, outcome(ops, state, idx, bytes), idx, bytes, t);
}

/// Steps that narrow keep of what a plan leaves one token, the tokens of the document, the keys
/// with a name, the tokens at a depth, and the tokens of a subtree.
pub proof fn law_narrowing_steps(
    plan: OpPlan,
    tok: TokenId,
    name: &str,
    d: u16,
    one: OpPlan,
    all: OpPlan,
    key: OpPlan,
    depth: OpPlan,
    within: OpPlan,
    state: Set<u32>,
    idx: &StructuralIndex,
    bytes: Seq<u8>,
    t: u32,
)
    requires
        call_ensures(OpPlan::anchor, (plan, tok), one),
        call_ensures(OpPlan::all, (plan,), all),
        call_ensures(OpPlan::by_key, (plan, name), key),
        call_ensures(OpPlan::at_depth, (plan, d), depth),
        call_ensures(OpPlan::within, (plan, tok), within),
    ensures
        ({
            let left = outcome(plan.ops@, state, idx, bytes);
            &&& outcome(one.ops@, state, idx, bytes).contains(t) <==> left.contains(t) && t
                == tok.0
            &&& outcome(all.ops@, state, idx, bytes).contains(t) <==> left.contains(t) && t
                < idx.spec_len()
            &&& outcome(key.ops@, state, idx, bytes).contains(t) <==> left.contains(t) && t
                < idx.spec_len() && idx.key_names()[t as int] == Some(name@)
            &&& outcome(depth.ops@, state, idx, bytes).contains(t) <==> left.contains(t) && t
                < idx.spec_len() && idx.toks()[t as int].depth == d
            &&& outcome(within.ops@, state, idx, bytes).contains(t) <==> left.contains(t)
                && idx.subtree(tok.0 as int).contains(t)
        }),
{
    let ops = plan.ops@;
    let left = outcome(ops, state, idx, bytes);
    let s = choose|s: String| s@ == name@ && key.ops@ == #[trigger] ops.push(Op::LoadKey(s));
    lemma_last_step(ops, Op::LoadOne(tok), state, idx, bytes, t);
    lemma_last_step(ops, Op::LoadAll, state, idx, bytes, t);
    lemma_last_step(ops, Op::LoadKey(s), state, idx, bytes, t);
    lemma_last_step(ops, Op::LoadDepth(d), state, idx, bytes, t);
    lemma_last_step(ops, Op::LoadSubtree(tok), state, idx, bytes, t);
    law_loaders_load_what_they_name(Op::LoadOne(tok), left, idx, bytes, t);
    law_loaders_load_what_they_name(Op::LoadAll, left, idx, bytes, t);
    law_loaders_load_what_they_name(Op::LoadKey(s), left, idx, bytes, t);
    law_loaders_load_what_they_name(Op::LoadDepth(d), left, idx, bytes, t);
    law_loaders_load_what_they_name(Op::LoadSubtree(tok), left, idx, bytes, t);
}

/// Steps that map or filter put in place of every token that a plan leaves its subtree, the
/// tokens directly inside it, the value of its first key with a name, and the token itself
/// where its bytes stand for a literal.
pub proof fn law_mapping_steps(
    plan: OpPlan,
    name: &str,
    lit: &[u8],
    descend: OpPlan,
    children: OpPlan,
    field: OpPlan,
    equal: OpPlan,
    state: Set<u32>,
    idx: &StructuralIndex,
    bytes: Seq<u8>,
    v: u32,
)
    requires
        idx.wf(),
        call_ensures(OpPlan::descend, (plan,), descend),
        call_ensures(OpPlan::children, (plan,), children),
        call_ensures(OpPlan::field, (plan, name), field),
        call_ensures(OpPlan::value_eq, (plan, lit), equal),
    ensures
        ({
            let left = outcome(plan.ops@, state, idx, bytes);
            &&& outcome(descend.ops@, state, idx, bytes).contains(v) <==> exists|t: u32| #[trigger]
                left.contains(t) && idx.subtree(t as int).contains(v)
            &&& outcome(children.ops@, state, idx, bytes).contains(v) <==> exists|t: u32|
                #[trigger] left.contains(t) && v < idx.spec_len() && idx.index().parent@[v as int]
                    == t
            &&& outcome(field.ops@, state, idx, bytes).contains(v) <==> exists|t: u32| #[trigger]
                left.contains(t) && exists|k: int| #[trigger]
                    is_first_key(*idx, t as int, name@, k) && value_of(idx.kinds(), k) == Some(
                        v as int,
                    )
            &&& outcome(equal.ops@, state, idx, bytes).contains(v) <==> left.contains(v)
                && value_eq(
                bytes.subrange(idx.toks()[v as int].offset, idx.exact_end(bytes, v as int)),
                lit@,
            )
        }),
{
    let ops = plan.ops@;
    let left = outcome(ops, state, idx, bytes);
    let s = choose|s: String| s@ == name@ && field.ops@ == #[trigger] ops.push(Op::FieldOf(s));
    let l = choose|l: Vec<u8>| l@ == lit@ && equal.ops@ == #[trigger] ops.push(Op::ValueEqLit(l));
    lemma_last_step(ops, Op::Descendants, state, idx, bytes, v);
    lemma_last_step(ops, Op::AllChildren, state, idx, bytes, v);
    lemma_last_step(ops, Op::FieldOf(s), state, idx, bytes, v);
    lemma_last_step(ops, Op::ValueEqLit(l), state, idx, bytes, v);
    law_steps_work_token_by_token(Op::Descendants, left, idx, bytes, v);
    law_steps_work_token_by_token(Op::AllChildren, left, idx, bytes, v);
    law_steps_work_token_by_token(Op::FieldOf(s), left, idx, bytes, v);
    law_steps_work_token_by_token(Op::ValueEqLit(l), left, idx, bytes, v);
    assert forall|t: u32| #[trigger] left.contains(t) implies {
        &&& eval(Op::Descendants, set![t], idx, bytes).contains(v) <==> idx.subtree(
            t as int,
        ).contains(v)
        &&& eval(Op::AllChildren, set![t], idx, bytes).contains(v) <==> v < idx.spec_len()
            && idx.index().parent@[v as int] == t
        &&& eval(Op::FieldOf(s), set![t], idx, bytes).contains(v) <==> exists|k: int| #[trigger]
            is_first_key(*idx, t as int, name@, k) && value_of(idx.kinds(), k) == Some(v as int)
        &&& eval(Op::ValueEqLit(l), set![t], idx, bytes).contains(v) <==> t == v && value_eq(
            bytes.subrange(idx.toks()[t as int].offset, idx.exact_end(bytes, t as int)),
            lit@,
        )
    } by {
        law_descendants_of_one_token(t, idx, bytes);
        law_children_of_one_token(t, idx, bytes, v);
        law_field_of_one_token(s, t, idx, bytes, v);
        law_comparison_of_one_token(l, t, idx, bytes);
    }
}

/// Steps that reduce keep of what a plan leaves the least token, the greatest, the one with
/// `k` smaller ones, or the number of tokens.
pub proof fn law_reducing_steps(
    plan: OpPlan,
    k: u32,
    first: OpPlan,
    last: OpPlan,
    nth: OpPlan,
    count: OpPlan,
    state: Set<u32>,
    idx: &StructuralIndex,
    bytes: Seq<u8>,
    t: u32,
)
    requires
        call_ensures(OpPlan::first, (plan,), first),
        call_ensures(OpPlan::last, (plan,), last),
        call_ensures(OpPlan::nth, (plan, k), nth),
        call_ensures(OpPlan::count, (plan,), count),
    ensures
        ({
            let left = outcome(plan.ops@, state, idx, bytes);
            &&& outcome(first.ops@, state, idx, bytes).contains(t) <==> left.contains(t)
                && forall|u: u32| #[trigger] left.contains(u) ==> t <= u
            &&& outcome(last.ops@, state, idx, bytes).contains(t) <==> left.contains(t)
                && forall|u: u32| #[trigger] left.contains(u) ==> u <= t
            &&& outcome(nth.ops@, state, idx, bytes).contains(t) <==> left.contains(t) && below(
                left,
                t,
            ).len() == k
            &&& outcome(count.ops@, state, idx, bytes).contains(t) <==> left.len() == t
        }),
{
    let ops = plan.ops@;
    let left = outcome(ops, state, idx, bytes);
    lemma_last_step(ops, Op::First, state, idx, bytes, t);
    lemma_last_step(ops, Op::Last, state, idx, bytes, t);
    lemma_last_step(ops, Op::Nth(k), state, idx, bytes, t);
    lemma_last_step(ops, Op::Count, state, idx, bytes, t);
    law_reducers_pick_by_order(left, idx, bytes, k, t);
    law_count_counts(left, idx, bytes, t);
}

} // verus!
