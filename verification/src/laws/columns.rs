//! Columns: tape numbers, tokens by byte, and sets of hits.

use vstd::prelude::*;

use crate::api::{
    from_bytes, from_bytes_with, indexes, BuildOptions, ByteSpan, Error, StructuralIndex, TokenId,
};
use crate::hits::{ids, KeyHits};
use crate::index::{
    bears_value, build_tape_of_jetro_compat, is_token_at, kinds_of, lemma_numbered, links,
    numbered_before, tape_number, StructIndex,
};
use crate::keys::key_name;
use crate::lex::Kind;
use crate::roaring::lemma_lists;
use crate::tree::{closes, is_open, lemma_close_after_open, lemma_close_unique, parent_at};

verus! {

// ---------------------------------------------------------------------------
// Tape numbers
// ---------------------------------------------------------------------------

/// A token of kind `k` has an entry on the tape: opens, strings and literals, and closes where
/// the tape has entries for them. Colons and commas never have one.
pub open spec fn on_tape(k: Kind, with_closes: bool) -> bool {
    match k {
        Kind::ObjOpen | Kind::ArrOpen | Kind::Quote | Kind::Scalar => true,
        Kind::ObjClose | Kind::ArrClose => with_closes,
        Kind::Colon | Kind::Comma => false,
    }
}

proof fn lemma_none_between(kinds: Seq<Kind>, i: int, j: int, with_closes: bool)
    requires
        0 <= i <= j <= kinds.len(),
        forall|k: int| i <= k < j ==> !on_tape(#[trigger] kinds[k], with_closes),
    ensures
        numbered_before(kinds, j, with_closes) == numbered_before(kinds, i, with_closes),
    decreases j - i,
{
    if i < j {
        lemma_none_between(kinds, i, j - 1, with_closes);
        assert(!on_tape(kinds[j - 1], with_closes));
        assert(!bears_value(kinds[j - 1], with_closes));
    }
}

/// Tape numbers count: the first token on the tape has number zero, the next one on it the
/// next number, and what is not on it has none.
pub proof fn law_tape_numbers_count(kinds: Seq<Kind>, with_closes: bool, i: int, j: int)
    requires
        0 <= i < kinds.len(),
        i < j <= kinds.len(),
        forall|k: int| i < k < j ==> !on_tape(#[trigger] kinds[k], with_closes),
    ensures
        !on_tape(kinds[i], with_closes) <==> !bears_value(kinds[i], with_closes),
        !on_tape(kinds[i], with_closes) ==> tape_number(kinds, i, with_closes) == u32::MAX,
        on_tape(kinds[i], with_closes) && (forall|k: int|
            0 <= k < i ==> !on_tape(#[trigger] kinds[k], with_closes)) ==> tape_number(
            kinds,
            i,
            with_closes,
        ) == 0,
        on_tape(kinds[i], with_closes) && j < kinds.len() && on_tape(kinds[j], with_closes)
            ==> tape_number(kinds, j, with_closes) == tape_number(kinds, i, with_closes) + 1,
{
    if forall|k: int| 0 <= k < i ==> !on_tape(#[trigger] kinds[k], with_closes) {
        lemma_none_between(kinds, 0, i, with_closes);
    }
    lemma_none_between(kinds, i + 1, j, with_closes);
}

/// In an index over bytes, closes are on the tape: from one token on it to the next the tape
/// index goes up by one, and colons and commas have none.
pub proof fn law_tape_indexes_count(
    idx: &StructuralIndex,
    bytes: Seq<u8>,
    keys: bool,
    a: TokenId,
    b: TokenId,
    x: Option<u32>,
    y: Option<u32>,
)
    requires
        indexes(*idx, bytes, keys),
        a.0 < b.0 < idx.spec_len(),
        forall|k: int| a.0 < k < b.0 ==> !on_tape(#[trigger] idx.kinds()[k], true),
        call_ensures(StructuralIndex::tape_index, (idx, a), x),
        call_ensures(StructuralIndex::tape_index, (idx, b), y),
    ensures
        x is Some <==> on_tape(idx.kinds()[a.0 as int], true),
        y is Some <==> on_tape(idx.kinds()[b.0 as int], true),
        x is Some && y is Some ==> y->0 == x->0 + 1,
        (forall|k: int| 0 <= k < a.0 ==> !on_tape(#[trigger] idx.kinds()[k], true)) ==> (x is Some
            ==> x->0 == 0),
{
    let kinds = idx.kinds();
    law_tape_numbers_count(kinds, true, a.0 as int, b.0 as int);
    law_tape_numbers_count(kinds, true, b.0 as int, b.0 + 1);
    lemma_numbered(kinds, 0, a.0 as int, true);
    lemma_numbered(kinds, 0, b.0 as int, true);
    assert(idx.index().tape_of@[a.0 as int] == tape_number(kinds, a.0 as int, true));
    assert(idx.index().tape_of@[b.0 as int] == tape_number(kinds, b.0 as int, true));
}

/// The numbering without closes counts opens, strings and literals.
pub proof fn law_compat_numbers_count(idx: &StructIndex, r: Vec<u32>, i: int, j: int)
    requires
        call_ensures(build_tape_of_jetro_compat, (idx,), r),
        0 <= i < j < idx.spec_len(),
        forall|k: int| i < k < j ==> !on_tape(#[trigger] idx.stage1.kind@[k], false),
    ensures
        !on_tape(idx.stage1.kind@[i], false) ==> r@[i] == u32::MAX,
        on_tape(idx.stage1.kind@[i], false) && (forall|k: int|
            0 <= k < i ==> !on_tape(#[trigger] idx.stage1.kind@[k], false)) ==> r@[i] == 0,
        on_tape(idx.stage1.kind@[i], false) && on_tape(idx.stage1.kind@[j], false) ==> r@[j]
            == r@[i] + 1,
{
    law_tape_numbers_count(idx.stage1.kind@, false, i, j);
    assert(r@[i] == tape_number(idx.stage1.kind@, i, false));
    assert(r@[j] == tape_number(idx.stage1.kind@, j, false));
}

// ---------------------------------------------------------------------------
// Tokens by byte
// ---------------------------------------------------------------------------

/// In tokens in byte order, the one at a byte has those that begin at or in front of the byte
/// up to itself, and no others.
pub proof fn law_tokens_at_bytes_part_the_offsets(offset: Seq<u32>, t: int, pos: int)
    requires
        forall|i: int, j: int| 0 <= i < j < offset.len() ==> offset[i] < offset[j],
        0 <= t < offset.len(),
    ensures
        is_token_at(offset, t, pos) <==> forall|i: int|
            0 <= i < offset.len() ==> (#[trigger] offset[i] <= pos <==> i <= t),
{
    if is_token_at(offset, t, pos) {
        assert forall|i: int| 0 <= i < offset.len() implies (#[trigger] offset[i] <= pos <==> i
            <= t) by {
            if i < t {
                assert(offset[i] < offset[t]);
            } else if i > t + 1 {
                assert(offset[t + 1] < offset[i]);
            }
        }
    }
}

/// A span holds as many bytes as it is long, in the order of the source.
pub proof fn law_spans_hold_their_bytes<'a>(
    span: ByteSpan,
    bytes: &'a [u8],
    n: u32,
    empty: bool,
    r: &'a [u8],
)
    requires
        span.start <= span.end <= bytes@.len(),
        call_ensures(ByteSpan::len, (span,), n),
        call_ensures(ByteSpan::is_empty, (span,), empty),
        call_ensures(ByteSpan::slice, (span, bytes), r),
    ensures
        r@.len() == n,
        empty <==> r@.len() == 0,
        n == span.end - span.start,
        forall|k: int| 0 <= k < n ==> #[trigger] r@[k] == bytes@[span.start + k],
{
}

// ---------------------------------------------------------------------------
// Sets of hits
// ---------------------------------------------------------------------------

/// Two sets of hits are combined token by token.
pub proof fn law_hits_combine<'a>(
    a: KeyHits<'a>,
    b: KeyHits<'a>,
    both: KeyHits<'a>,
    either: KeyHits<'a>,
    t: u32,
)
    requires
        call_ensures(KeyHits::and, (a, b), both),
        call_ensures(KeyHits::or, (a, b), either),
    ensures
        both.set().contains(t) <==> a.set().contains(t) && b.set().contains(t),
        either.set().contains(t) <==> a.set().contains(t) || b.set().contains(t),
        both.remaining() == both.set(),
        either.remaining() == either.set(),
{
}

/// Collected hits are what is left of the walk, each once and in document order; as many as
/// are counted where nothing was walked over yet, from the first to the last.
pub proof fn law_hits_are_listed_in_order<'a>(
    hits: KeyHits<'a>,
    list: Vec<TokenId>,
    n: u64,
    first: Option<TokenId>,
    last: Option<TokenId>,
)
    requires
        hits.remaining() == hits.set(),
        call_ensures(KeyHits::collect, (hits,), list),
        call_ensures(KeyHits::count, (hits,), n),
        call_ensures(KeyHits::first, (hits,), first),
        call_ensures(KeyHits::last, (hits,), last),
    ensures
        list@.len() == n,
        forall|i: int, j: int|
            0 <= i < j < list@.len() ==> (#[trigger] list@[i]).0 < (#[trigger] list@[j]).0,
        forall|t: u32| hits.set().contains(t) <==> #[trigger] list@.contains(TokenId(t)),
        first == (if list@.len() > 0 {
            Some(list@[0])
        } else {
            None
        }),
        last == (if list@.len() > 0 {
            Some(list@[list@.len() - 1])
        } else {
            None
        }),
{
    let l = ids(list@);
    lemma_lists(l, hits.set());
    assert forall|i: int, j: int| 0 <= i < j < list@.len() implies (#[trigger] list@[i]).0 < (
    #[trigger] list@[j]).0 by {
        assert(l[i] < l[j]);
    }
    assert forall|t: u32| hits.set().contains(t) <==> #[trigger] list@.contains(TokenId(t)) by {
        if l.contains(t) {
            let k = l.index_of(t);
            assert(list@[k] == TokenId(t));
        }
        if list@.contains(TokenId(t)) {
            let k = list@.index_of(TokenId(t));
            assert(l[k] == t);
        }
        assert(l.contains(t) <==> hits.set().contains(t));
    }
    if list@.len() > 0 {
        let z = list@.len() - 1;
        assert(l.contains(l[0]) && l.contains(l[z]));
        assert(hits.set().contains(l[0]) && hits.set().contains(l[z]));
        if let Some(t) = first {
            assert(l.contains(t.0));
            let k = l.index_of(t.0);
            if 0 < k {
                assert(l[0] < l[k]);
            }
        }
        if let Some(t) = last {
            assert(l.contains(t.0));
            let k = l.index_of(t.0);
            if k < z {
                assert(l[k] < l[z]);
            }
        }
    } else {
        if let Some(t) = first {
            assert(l.contains(t.0));
        }
        if let Some(t) = last {
            assert(l.contains(t.0));
        }
    }
}

// ---------------------------------------------------------------------------
// The columns of an index
// ---------------------------------------------------------------------------

/// What an index tells of a token is what stands in its columns.
pub proof fn law_tokens_are_told_by_the_columns(
    idx: &StructuralIndex,
    tok: TokenId,
    offset: u32,
    depth: u16,
    parent: Option<TokenId>,
    close: Option<TokenId>,
    count: u32,
)
    requires
        idx.wf(),
        tok.0 < idx.spec_len(),
        call_ensures(StructuralIndex::byte_offset, (idx, tok), offset),
        call_ensures(StructuralIndex::depth, (idx, tok), depth),
        call_ensures(StructuralIndex::parent, (idx, tok), parent),
        call_ensures(StructuralIndex::close_of, (idx, tok), close),
        call_ensures(StructuralIndex::token_count, (idx,), count),
    ensures
        offset == idx.index().stage1.offset@[tok.0 as int],
        depth == idx.index().stage1.depth@[tok.0 as int],
        parent == (if idx.index().parent@[tok.0 as int] < 0 {
            None
        } else {
            Some(TokenId(idx.index().parent@[tok.0 as int] as u32))
        }),
        close == (if idx.index().close_of@[tok.0 as int] < 0 {
            None
        } else {
            Some(TokenId(idx.index().close_of@[tok.0 as int] as u32))
        }),
        count == idx.index().stage1.kind@.len(),
{
    let i = tok.0 as int;
    assert(idx.index().parent@[i] == parent_at(idx.kinds(), i));
    if is_open(idx.kinds()[i]) {
        assert(closes(idx.kinds(), i, idx.index().close_of@[i] as int));
        if let Some(c) = close {
            lemma_close_unique(idx.kinds(), i, c.0 as int, idx.index().close_of@[i] as int);
        }
    } else if let Some(c) = close {
        lemma_close_after_open(idx.kinds(), i, c.0 as int);
    }
}

/// The greatest depth of an index is that of some token, and no token lies deeper.
pub proof fn law_max_depth_is_the_greatest(idx: &StructuralIndex, r: u16, i: int)
    requires
        idx.wf(),
        call_ensures(StructuralIndex::max_depth, (idx,), r),
        0 <= i < idx.spec_len(),
    ensures
        idx.toks()[i].depth <= r,
        exists|j: int| 0 <= j < idx.spec_len() && (#[trigger] idx.toks()[j]).depth == r,
{
}

/// An index describes bytes where every token begins in them and no container closes in front
/// of its open.
pub proof fn law_describing_is_fitting(idx: &StructuralIndex, bytes: &[u8], r: bool)
    requires
        idx.wf(),
        call_ensures(StructuralIndex::describes, (idx, bytes), r),
    ensures
        r <==> {
            &&& bytes@.len() <= 0xffff_ffff
            &&& forall|i: int|
                0 <= i < idx.spec_len() ==> (#[trigger] idx.toks()[i]).offset < bytes@.len()
            &&& forall|i: int|
                0 <= i < idx.spec_len() && (idx.kinds()[i] == Kind::ObjOpen || idx.kinds()[i]
                    == Kind::ArrOpen) ==> idx.toks()[i].offset
                    <= idx.toks()[#[trigger] idx.index().close_of@[i] as int].offset
        },
{
    if idx.offsets_fit(bytes@) {
        idx.lemma_fits(bytes@);
    }
}

/// An index is built where the bytes scan well, with a key layer where it was asked for.
pub proof fn law_options_decide_on_the_key_layer(
    bytes: &[u8],
    opts: BuildOptions,
    r: Result<StructuralIndex, Error>,
    s: Result<StructuralIndex, Error>,
)
    requires
        call_ensures(from_bytes_with, (bytes, opts), r),
        call_ensures(from_bytes, (bytes,), s),
    ensures
        r is Ok <==> s is Ok,
        r is Ok ==> (r->Ok_0).toks() == (s->Ok_0).toks(),
        r is Ok ==> ((r->Ok_0).key_layer() is Some <==> opts.keys),
        s is Ok ==> (s->Ok_0).key_layer() is Some,
        r is Ok && opts.keys ==> (r->Ok_0).key_names() =~= (s->Ok_0).key_names(),
        r is Ok && !opts.keys ==> forall|i: int|
            0 <= i < (r->Ok_0).spec_len() ==> (#[trigger] (r->Ok_0).key_names()[i]) is None,
        r matches Err(e) ==> e matches Error::Parse(a) && (s->Err_0) matches Error::Parse(b) && a@
            == b@,
{
    if r is Ok && opts.keys {
        let a = r->Ok_0;
        let b = s->Ok_0;
        assert(a.kinds() =~= kinds_of(a.toks()));
        assert(b.kinds() =~= kinds_of(b.toks()));
        assert forall|i: int| 0 <= i < a.spec_len() implies a.key_names()[i] == b.key_names()[i] by {
            assert(a.key_names()[i] == key_name(bytes@, a.toks(), a.kinds(), i));
            assert(b.key_names()[i] == key_name(bytes@, b.toks(), b.kinds(), i));
        }
    }
}

/// A chain along a parent column begins where it is asked to, and each further element is the
/// parent of the one in front.
pub proof fn law_chains_follow_the_column(parent: Seq<i32>, at: int)
    requires
        forall|i: int| 0 <= i < parent.len() ==> #[trigger] parent[i] < i,
        at < parent.len() <= i32::MAX,
    ensures
        at < 0 ==> links(parent, at).len() == 0,
        at >= 0 ==> links(parent, at) == seq![at as u32] + links(parent, parent[at] as int),
{
}

/// The presets of what to build: the columns alone, keys and roles, and everything.
pub proof fn law_presets(minimal: BuildOptions, keys: BuildOptions, tape: BuildOptions)
    requires
        call_ensures(BuildOptions::minimal, (), minimal),
        call_ensures(BuildOptions::keys_only, (), keys),
        call_ensures(BuildOptions::for_jetro_tape, (), tape),
    ensures
        !minimal.keys && !minimal.roles && !minimal.close_of && !minimal.tape_alignment,
        keys.keys && keys.roles && !keys.close_of && !keys.tape_alignment,
        tape.keys && tape.roles && tape.close_of && tape.tape_alignment,
{
}

/// The texts of the errors.
pub proof fn law_errors_in_words(e: &Error, r: String)
    requires
        call_ensures(Error::message, (e,), r),
    ensures
        match e {
            Error::Parse(s) => r@ == "parse error: "@ + s@,
            Error::UnbalancedClose => r@ == "unbalanced container close"@,
            Error::Truncated => r@ == "truncated input"@,
            Error::InvalidUtf8 => r@ == "invalid UTF-8"@,
        },
{
}

} // verus!
