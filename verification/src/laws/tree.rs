//! Containers: which close ends which open, what holds a token, and how deep it lies.

use croaring::Bitmap;
use vstd::prelude::*;

use crate::api::{indexes, Ancestors, StructuralIndex, TokenId};
use crate::from_tape::indexes_walk;
use crate::index::{index_tokens, kinds_of, law_chain_walks_to_root, links, StructIndex};
use crate::laws::law_depth_is_nesting;
use crate::lex::{scan, Kind};
use crate::roaring::members;
use crate::tree::{
    closes, is_close, is_open, lemma_close_after_open, lemma_close_unique, lemma_open_between,
    lemma_parent, lemma_stack, lemma_stack_below, nesting_at, overclosed_at, parent_at, stack_at,
    top,
};
use crate::walk::{consistent, row_ok, Walk};

verus! {

/// Token `d` begins a container.
pub open spec fn begins(idx: StructIndex, d: int) -> bool {
    0 <= d < idx.stage1.kind@.len() && (idx.stage1.kind@[d] == Kind::ObjOpen
        || idx.stage1.kind@[d] == Kind::ArrOpen)
}

/// Token `c` ends a container.
pub open spec fn ends(idx: StructIndex, c: int) -> bool {
    0 <= c < idx.stage1.kind@.len() && (idx.stage1.kind@[c] == Kind::ObjClose
        || idx.stage1.kind@[c] == Kind::ArrClose)
}

/// Token `i` lies between the open `d` and its close.
pub open spec fn surrounds(idx: StructIndex, d: int, i: int) -> bool {
    begins(idx, d) && d < i < idx.close_of@[d]
}

/// An open has a close behind it; any other token has none.
pub proof fn law_opens_have_closes(idx: StructIndex, d: int)
    requires
        idx.tree_ok(),
        0 <= d < idx.spec_len(),
    ensures
        if begins(idx, d) {
            d < idx.close_of@[d] && ends(idx, idx.close_of@[d] as int)
        } else {
            idx.close_of@[d] == -1
        },
{
    if begins(idx, d) {
        let c = idx.close_of@[d] as int;
        assert(closes(idx.stage1.kind@, d, c));
        lemma_close_after_open(idx.stage1.kind@, d, c);
    }
}

/// Every close ends one open.
pub proof fn law_closes_have_opens(idx: StructIndex, c: int)
    requires
        idx.tree_ok(),
        ends(idx, c),
    ensures
        exists|d: int| begins(idx, d) && #[trigger] idx.close_of@[d] == c,
        forall|d: int, e: int|
            begins(idx, d) && begins(idx, e) && #[trigger] idx.close_of@[d] == c
                && #[trigger] idx.close_of@[e] == c ==> d == e,
{
    let kinds = idx.stage1.kind@;
    assert(!overclosed_at(kinds, c));
    let d = stack_at(kinds, c).last();
    assert(closes(kinds, d, c));
    lemma_close_after_open(kinds, d, c);
    assert(closes(kinds, d, idx.close_of@[d] as int));
    lemma_close_unique(kinds, d, c, idx.close_of@[d] as int);
    assert(begins(idx, d) && idx.close_of@[d] == c);
    assert forall|d: int, e: int|
        begins(idx, d) && begins(idx, e) && #[trigger] idx.close_of@[d] == c
            && #[trigger] idx.close_of@[e] == c implies d == e by {
        assert(closes(kinds, d, c));
        assert(closes(kinds, e, c));
    }
}

/// A container is open between its open and its close.
proof fn lemma_on_stack(idx: StructIndex, d: int, i: int)
    requires
        idx.tree_ok(),
        begins(idx, d),
        0 <= i <= idx.spec_len(),
    ensures
        stack_at(idx.stage1.kind@, i).contains(d) <==> d < i <= idx.close_of@[d],
{
    let kinds = idx.stage1.kind@;
    let c = idx.close_of@[d] as int;
    assert(closes(kinds, d, c));
    lemma_open_between(kinds, d, i);
    if d < i <= c {
        assert forall|j: int| j < i implies !#[trigger] closes(kinds, d, j) by {
            if closes(kinds, d, j) {
                lemma_close_unique(kinds, d, j, c);
            }
        }
    }
}

/// Containers nest: of two, the second ends inside the first or begins behind it.
pub proof fn law_containers_nest(idx: StructIndex, d: int, e: int)
    requires
        idx.tree_ok(),
        begins(idx, d),
        begins(idx, e),
        d < e,
    ensures
        idx.close_of@[d] < e || idx.close_of@[e] < idx.close_of@[d],
{
    let kinds = idx.stage1.kind@;
    let c = idx.close_of@[d] as int;
    law_opens_have_closes(idx, d);
    law_opens_have_closes(idx, e);
    if c > e && idx.close_of@[e] >= c {
        lemma_on_stack(idx, e, c);
        lemma_stack(kinds, c);
        let s = stack_at(kinds, c);
        assert(closes(kinds, d, c));
        assert(s[s.len() - 1] == d);
        let k = s.index_of(e);
        assert(s[k] == e);
    }
}

/// The container of a token is the innermost one that surrounds it. A close belongs where its
/// open does.
pub proof fn law_parents_surround(idx: StructIndex, i: int)
    requires
        idx.tree_ok(),
        0 <= i < idx.spec_len(),
    ensures
        !ends(idx, i) && idx.parent@[i] >= 0 ==> surrounds(idx, idx.parent@[i] as int, i),
        !ends(idx, i) ==> forall|d: int| #[trigger] surrounds(idx, d, i) ==> d <= idx.parent@[i],
        forall|d: int|
            begins(idx, d) && #[trigger] idx.close_of@[d] == i ==> idx.parent@[i] == idx.parent@[d],
        idx.parent@[i] >= -1,
{
    let kinds = idx.stage1.kind@;
    let s = stack_at(kinds, i);
    assert(idx.parent@[i] == parent_at(kinds, i));
    lemma_parent(kinds, i);
    lemma_stack(kinds, i);
    if !ends(idx, i) {
        if s.len() > 0 {
            let p = s.last();
            assert(s[s.len() - 1] == p);
            assert(s.contains(p));
            lemma_on_stack(idx, p, i);
            law_opens_have_closes(idx, p);
        }
        assert forall|d: int| #[trigger] surrounds(idx, d, i) implies d <= idx.parent@[i] by {
            lemma_on_stack(idx, d, i);
            let k = s.index_of(d);
            assert(s[k] == d);
        }
    }
    assert forall|d: int| begins(idx, d) && #[trigger] idx.close_of@[d] == i implies idx.parent@[i]
        == idx.parent@[d] by {
        assert(closes(kinds, d, i));
        lemma_close_after_open(kinds, d, i);
        lemma_stack_below(kinds, i, s.len() - 1);
        assert(s.take(s.len() - 1) =~= s.drop_last());
        assert(idx.parent@[d] == parent_at(kinds, d));
    }
}

/// A token lies one level deeper than the container that holds it.
proof fn lemma_nesting_step(kinds: Seq<Kind>, i: int)
    requires
        0 <= i < kinds.len(),
        !overclosed_at(kinds, i),
    ensures
        nesting_at(kinds, i) == (if parent_at(kinds, i) < 0 {
            0
        } else {
            nesting_at(kinds, parent_at(kinds, i)) + 1
        }),
{
    let at = if is_close(kinds[i]) {
        i + 1
    } else {
        i
    };
    let s = stack_at(kinds, at);
    lemma_stack(kinds, at);
    lemma_parent(kinds, i);
    if s.len() > 0 {
        assert(s[s.len() - 1] == top(s));
        lemma_stack_below(kinds, at, s.len() - 1);
    }
}

/// In an index over bytes a token lies one level deeper than the container that holds it, and
/// at depth zero at the root.
pub proof fn law_depths_follow_parents(idx: StructuralIndex, bytes: Seq<u8>, keys: bool, i: int)
    requires
        scan(bytes) is Ok,
        indexes(idx, bytes, keys),
        0 <= i < idx.spec_len(),
    ensures
        ({
            let p = idx.index().parent@[i] as int;
            idx.toks()[i].depth == (if p < 0 {
                0
            } else {
                idx.toks()[p].depth + 1
            })
        }),
{
    let kinds = idx.kinds();
    assert(kinds =~= kinds_of(index_tokens(bytes)));
    assert(!overclosed_at(kinds, i));
    assert(idx.index().parent@[i] == parent_at(kinds, i));
    lemma_nesting_step(kinds, i);
    lemma_parent(kinds, i);
    law_depth_is_nesting(bytes, i);
    if parent_at(kinds, i) >= 0 {
        law_depth_is_nesting(bytes, parent_at(kinds, i));
    }
}

/// In an index along a tape a token lies one level deeper than the container that holds it,
/// and at depth zero at the root.
pub proof fn law_tape_depths_follow_parents(
    idx: StructuralIndex,
    w: Walk,
    placed: int,
    keys: bool,
    i: int,
)
    requires
        consistent(w, placed),
        indexes_walk(idx, w, keys),
        0 <= i < idx.spec_len(),
    ensures
        ({
            let p = idx.index().parent@[i] as int;
            idx.toks()[i].depth == (if p < 0 {
                0
            } else {
                idx.toks()[p].depth + 1
            })
        }),
{
    let kinds = idx.kinds();
    assert(kinds =~= kinds_of(w.toks));
    assert(!overclosed_at(kinds, i));
    assert(idx.index().parent@[i] == parent_at(kinds, i));
    lemma_nesting_step(kinds, i);
    lemma_parent(kinds, i);
    assert(row_ok(w, i));
    if parent_at(kinds, i) >= 0 {
        assert(row_ok(w, parent_at(kinds, i)));
    }
}

/// Following the containers of a token outwards takes as many steps as the token lies deep.
pub proof fn law_chains_are_as_long_as_tokens_lie_deep(
    idx: StructuralIndex,
    bytes: Seq<u8>,
    keys: bool,
    i: int,
)
    requires
        scan(bytes) is Ok,
        indexes(idx, bytes, keys),
        0 <= i < idx.spec_len(),
    ensures
        links(idx.index().parent@, idx.index().parent@[i] as int).len() == idx.toks()[i].depth,
    decreases i,
{
    law_depths_follow_parents(idx, bytes, keys, i);
    lemma_parent(idx.kinds(), i);
    let p = idx.index().parent@[i] as int;
    assert(p == parent_at(idx.kinds(), i));
    if p >= 0 {
        law_chains_are_as_long_as_tokens_lie_deep(idx, bytes, keys, p);
        lemma_parent(idx.kinds(), p);
        assert(idx.index().parent@[p] == parent_at(idx.kinds(), p));
    }
}

/// A subtree grows from its root: beside the root it holds the root's own close and every
/// token whose container it holds, and nothing else.
pub proof fn law_subtrees_grow_from_their_root(idx: StructuralIndex, i: int, t: u32)
    requires
        idx.wf(),
        0 <= i < idx.spec_len(),
        t < idx.spec_len(),
    ensures
        idx.subtree(i).contains(t) <==> {
            ||| t == i
            ||| begins(idx.index(), i) && idx.index().close_of@[i] == t
            ||| idx.index().parent@[t as int] >= 0 && idx.subtree(i).contains(
                idx.index().parent@[t as int] as u32,
            )
        },
{
    let x = idx.index();
    law_opens_have_closes(x, i);
    law_parents_surround(x, t as int);
    let p = x.parent@[t as int] as int;
    assert(p == parent_at(idx.kinds(), t as int));
    lemma_parent(idx.kinds(), t as int);
    // The open of a close, and any other token itself, stands where the container is read off.
    let at = if ends(x, t as int) {
        law_closes_have_opens(x, t as int);
        choose|d: int| begins(x, d) && #[trigger] x.close_of@[d] == t
    } else {
        t as int
    };
    law_opens_have_closes(x, at);
    law_parents_surround(x, at);
    assert(x.parent@[at] == p);
    if p >= 0 {
        assert(surrounds(x, p, at));
        law_opens_have_closes(x, p);
        if begins(x, at) {
            law_containers_nest(x, p, at);
        }
    }
    if begins(x, i) {
        let c = x.close_of@[i] as int;
        if i < t < c {
            if at < i {
                law_containers_nest(x, at, i);
            }
            assert(at != i);
            assert(surrounds(x, i, at));
        }
        if i < p {
            law_containers_nest(x, i, p);
        }
    }
}

/// The bitmap of a subtree holds the root, the root's own close and every token whose
/// container it holds.
pub proof fn law_subtree_bitmaps_grow_from_their_root(
    idx: &StructuralIndex,
    root: TokenId,
    r: Bitmap,
    t: u32,
)
    requires
        idx.wf(),
        root.0 < idx.spec_len(),
        t < idx.spec_len(),
        call_ensures(StructuralIndex::subtree_bitmap, (idx, root), r),
    ensures
        members(r).contains(t) <==> {
            ||| t == root.0
            ||| begins(idx.index(), root.0 as int) && idx.index().close_of@[root.0 as int] == t
            ||| idx.index().parent@[t as int] >= 0 && members(r).contains(
                idx.index().parent@[t as int] as u32,
            )
        },
{
    law_subtrees_grow_from_their_root(*idx, root.0 as int, t);
}

/// The ancestors of a token are its container, the container of that, and so on up to the
/// root: as many as the token lies deep.
pub proof fn law_ancestors_lead_to_the_root<'a>(
    idx: &'a StructuralIndex,
    bytes: Seq<u8>,
    keys: bool,
    tok: TokenId,
    walk: Ancestors<'a>,
    r: Vec<TokenId>,
    k: int,
)
    requires
        scan(bytes) is Ok,
        indexes(*idx, bytes, keys),
        tok.0 < idx.spec_len(),
        call_ensures(StructuralIndex::ancestors, (idx, tok), walk),
        call_ensures(Ancestors::collect, (walk,), r),
        0 <= k < r@.len(),
    ensures
        r@.len() == idx.toks()[tok.0 as int].depth,
        r@[k].0 == idx.index().parent@[if k == 0 {
            tok.0 as int
        } else {
            r@[k - 1].0 as int
        }],
        k + 1 == r@.len() ==> idx.index().parent@[r@[k].0 as int] == -1,
{
    let x = idx.index();
    let i = tok.0 as int;
    let chain = links(x.parent@, x.parent@[i] as int);
    law_chains_are_as_long_as_tokens_lie_deep(*idx, bytes, keys, i);
    assert(r@ == chain.map_values(|t: u32| TokenId(t)));
    law_chain_walks_to_root(&x, i, k);
    assert(x.parent@[i] == parent_at(x.stage1.kind@, i));
    if k > 0 {
        law_chain_walks_to_root(&x, i, k - 1);
        assert(x.parent@[chain[k - 1] as int] == parent_at(x.stage1.kind@, chain[k - 1] as int));
    }
}

/// The containers of a token by their tape numbers are its ancestors, innermost first.
pub proof fn law_parents_as_tape_are_numbers_of_ancestors(
    idx: &StructIndex,
    tok: u32,
    r: Vec<u32>,
    k: int,
)
    requires
        idx.tree_ok(),
        tok < idx.spec_len(),
        call_ensures(StructIndex::parents_as_tape, (idx, tok), r),
    ensures
        r@.len() == links(idx.parent@, idx.parent@[tok as int] as int).len(),
        0 <= k < r@.len() ==> r@[k] == idx.tape_of@[links(
            idx.parent@,
            idx.parent@[tok as int] as int,
        )[k] as int],
{
}

} // verus!
