//! What holds of an index, or of a scan, as a whole.

use vstd::prelude::*;

use crate::api::{indexes, StructuralIndex};
use crate::ascii::{BACKSLASH, QUOTE};
use crate::index::{
    filled, index_tokens, is_space, kinds_of, law_index_tokens_in_order, lemma_filled_nests,
    lemma_tokens_nest, literal_after, next_stop, skip_space,
};
use crate::keys::{dict_of, lemma_dict, value_from, value_of, KeyBitmaps};
use crate::lex::{
    kind_of_byte, law_tokens_point_at_their_bytes, lemma_escaped_in_string, lemma_underflow_step, lex_at,
    lex_step, scan, token_at_byte, tokens_before, underflow_at, underflows_before, Kind, Token,
};
use crate::multi_key::{matches_as_seen, search_start, seen_first, stands_at};
use crate::roaring::members;
use crate::text::{is_delimiter, scalar_end, string_end};
use crate::tree::{
    balanced, closes, is_close, is_open, lemma_close_after_open, lemma_close_unique,
    lemma_open_between, lemma_push_kind, lemma_stack, lemma_stack_prefix, nesting_at,
    overclosed_at, parent_at, stack_at,
};

pub mod columns;
pub mod keys;
pub mod lines;
pub mod numbers;
pub mod plans;
pub mod search;
pub mod spans;
pub mod tape;
pub mod text;
pub mod tokens;
pub mod tree;

verus! {

// ---------------------------------------------------------------------------
// Depths
// ---------------------------------------------------------------------------

/// One more token: depths that are nestings stay so.
proof fn lemma_nesting_push(toks: Seq<Token>, t: Token)
    requires
        forall|j: int|
            0 <= j < toks.len() ==> (#[trigger] toks[j]).depth == nesting_at(kinds_of(toks), j),
        t.depth == nesting_at(kinds_of(toks).push(t.kind), toks.len() as int),
    ensures
        forall|j: int|
            0 <= j < toks.len() + 1 ==> (#[trigger] toks.push(t)[j]).depth == nesting_at(
                kinds_of(toks.push(t)),
                j,
            ),
{
    let kinds = kinds_of(toks);
    let more = kinds_of(toks.push(t));
    assert(more =~= kinds.push(t.kind));
    assert forall|j: int| 0 <= j < toks.len() + 1 implies (#[trigger] toks.push(t)[j]).depth
        == nesting_at(more, j) by {
        if j < toks.len() {
            assert(toks.push(t)[j] == toks[j]);
            lemma_stack_prefix(kinds, more, j);
            lemma_stack_prefix(kinds, more, j + 1);
        }
    }
}

/// The depths of a scan's tokens are their nestings.
proof fn lemma_scan_depths(buf: Seq<u8>, i: int)
    requires
        0 <= i <= buf.len(),
        !underflows_before(buf, i),
    ensures
        ({
            let toks = tokens_before(buf, i);
            forall|j: int|
                0 <= j < toks.len() ==> (#[trigger] toks[j]).depth == nesting_at(kinds_of(toks), j)
        }),
    decreases i,
{
    if i > 0 {
        lemma_underflow_step(buf, i - 1);
        lemma_scan_depths(buf, i - 1);
        lemma_tokens_nest(buf, i - 1);
        let front = tokens_before(buf, i - 1);
        match token_at_byte(buf, i - 1) {
            Some(t) => {
                assert(!underflow_at(buf, i - 1));
                let kinds = kinds_of(front);
                lemma_push_kind(kinds, t.kind);
                lemma_stack_prefix(kinds, kinds.push(t.kind), front.len() as int);
                lemma_nesting_push(front, t);
            },
            None => {},
        }
    }
}

/// Literals live where they are nested.
proof fn lemma_filled_depths(buf: Seq<u8>, toks: Seq<Token>, m: int)
    requires
        0 <= m <= toks.len(),
        forall|i: int| 0 <= i < toks.len() ==> !#[trigger] overclosed_at(kinds_of(toks), i),
        forall|j: int|
            0 <= j < toks.len() ==> (#[trigger] toks[j]).depth == nesting_at(kinds_of(toks), j),
    ensures
        ({
            let f = filled(buf, toks, m);
            forall|j: int| 0 <= j < f.len() ==> (#[trigger] f[j]).depth == nesting_at(kinds_of(f), j)
        }),
    decreases m,
{
    if m > 0 {
        lemma_filled_depths(buf, toks, m - 1);
        lemma_filled_nests(buf, toks, m - 1);
        lemma_filled_nests(buf, toks, m);
        let f = filled(buf, toks, m - 1);
        let t = toks[m - 1];
        let kinds = kinds_of(f);
        assert(!overclosed_at(kinds_of(toks), m - 1));
        lemma_push_kind(kinds, t.kind);
        lemma_stack_prefix(kinds, kinds.push(t.kind), f.len() as int);
        lemma_nesting_push(f, t);
        match literal_after(buf, toks, m - 1) {
            Some(lit) => {
                let g = f.push(t);
                assert(kinds_of(g) =~= kinds.push(t.kind));
                lemma_stack_prefix(kinds_of(g), kinds_of(g).push(lit.kind), g.len() as int);
                lemma_nesting_push(g, lit);
            },
            None => {},
        }
    }
}

/// The depth of a token is the number of containers that hold it.
pub proof fn law_depth_is_nesting(buf: Seq<u8>, i: int)
    requires
        scan(buf) is Ok,
        0 <= i < index_tokens(buf).len(),
    ensures
        index_tokens(buf)[i].depth == nesting_at(kinds_of(index_tokens(buf)), i),
{
    let n = buf.len() as int;
    lemma_scan_depths(buf, n);
    lemma_tokens_nest(buf, n);
    lemma_filled_depths(buf, tokens_before(buf, n), tokens_before(buf, n).len() as int);
}

/// The subtree of a token is the token itself and every token in front of which it is open:
/// all that a container holds, up to its close, and nothing more for any other token.
pub proof fn law_subtree_is_what_a_token_holds(idx: StructuralIndex, i: int, t: u32)
    requires
        idx.wf(),
        0 <= i < idx.spec_len(),
        t < idx.spec_len(),
    ensures
        idx.subtree(i).contains(t) <==> t == i || stack_at(idx.kinds(), t as int).contains(i),
{
    let kinds = idx.kinds();
    let s = stack_at(kinds, t as int);
    lemma_stack(kinds, t as int);
    if is_open(kinds[i]) {
        let c = idx.index().close_of@[i] as int;
        assert(closes(kinds, i, c));
        lemma_close_after_open(kinds, i, c);
        lemma_open_between(kinds, i, t as int);
        assert forall|j: int| #[trigger] closes(kinds, i, j) implies j == c by {
            lemma_close_unique(kinds, i, j, c);
        }
    } else if s.contains(i) {
        let k = s.index_of(i);
        assert(s[k] == i);
    }
}

// ---------------------------------------------------------------------------
// Strings
// ---------------------------------------------------------------------------

/// White space outside strings leaves a position outside strings.
proof fn lemma_space_outside(buf: Seq<u8>, p: int, end: int)
    requires
        0 <= p,
        !lex_at(buf, p).in_string,
    ensures
        !lex_at(buf, skip_space(buf, p, end)).in_string,
    decreases end - p,
{
    if p < end && is_space(buf[p]) {
        lemma_space_outside(buf, p + 1, end);
    }
}

proof fn lemma_filled_outside(buf: Seq<u8>, m: int, i: int)
    requires
        0 <= m <= tokens_before(buf, buf.len() as int).len(),
        0 <= i < filled(buf, tokens_before(buf, buf.len() as int), m).len(),
    ensures
        !lex_at(
            buf,
            filled(buf, tokens_before(buf, buf.len() as int), m)[i].offset,
        ).in_string,
    decreases m,
{
    if m > 0 {
        let n = buf.len() as int;
        let toks = tokens_before(buf, n);
        let f = filled(buf, toks, m - 1);
        let t = toks[m - 1];
        law_tokens_point_at_their_bytes(buf, n, m - 1);
        if i < f.len() {
            lemma_filled_outside(buf, m - 1, i);
            assert(filled(buf, toks, m)[i] == f[i]);
        } else if i > f.len() {
            lemma_space_outside(buf, t.offset + 1, next_stop(buf, toks, m - 1));
        }
    }
}

/// No token begins inside a string.
pub proof fn law_tokens_lie_outside_strings(buf: Seq<u8>, i: int)
    requires
        0 <= i < index_tokens(buf).len(),
    ensures
        !lex_at(buf, index_tokens(buf)[i].offset).in_string,
{
    lemma_filled_outside(buf, tokens_before(buf, buf.len() as int).len() as int, i);
}

/// A string that ends, ends where its quote is looked for: up to there every byte lies in it.
proof fn lemma_string_body(buf: Seq<u8>, i: int)
    requires
        0 <= i <= buf.len(),
        lex_at(buf, i).in_string,
        !lex_at(buf, i).escaped,
        !lex_at(buf, buf.len() as int).in_string,
    ensures
        i < string_end(buf, i) <= buf.len(),
        buf[string_end(buf, i) - 1] == QUOTE,
        forall|k: int| i <= k < string_end(buf, i) ==> (#[trigger] lex_at(buf, k)).in_string,
    decreases buf.len() - i,
{
    if buf[i] == BACKSLASH {
        assert(lex_at(buf, i + 1).escaped);
        assert(lex_at(buf, i + 1).in_string);
        assert(i + 1 < buf.len());
        assert(lex_at(buf, i + 2) == lex_step(lex_at(buf, i + 1), buf[i + 1]));
        lemma_string_body(buf, i + 2);
    } else if buf[i] != QUOTE {
        assert(lex_at(buf, i + 1) == lex_at(buf, i));
        lemma_string_body(buf, i + 1);
    }
}

/// A string token spans a quoted string, and the next token begins behind it.
pub proof fn law_strings_end_in_front_of_the_next_token(buf: Seq<u8>, i: int, j: int)
    requires
        scan(buf) is Ok,
        0 <= i < index_tokens(buf).len(),
        index_tokens(buf)[i].kind == Kind::Quote,
    ensures
        ({
            let start = index_tokens(buf)[i].offset;
            let end = string_end(buf, start + 1);
            &&& 0 <= start
            &&& start + 2 <= end <= buf.len()
            &&& buf[start] == QUOTE
            &&& buf[end - 1] == QUOTE
            &&& i < j < index_tokens(buf).len() ==> end <= index_tokens(buf)[j].offset
        }),
{
    let n = buf.len() as int;
    let t = index_tokens(buf)[i];
    lemma_scanned(buf, tokens_before(buf, n).len() as int, i);
    lemma_escaped_in_string(buf, t.offset);
    lemma_string_body(buf, t.offset + 1);
    if i < j < index_tokens(buf).len() {
        law_index_tokens_in_order(buf);
        law_tokens_lie_outside_strings(buf, j);
        assert(index_tokens(buf)[i].offset < index_tokens(buf)[j].offset);
    }
}

/// A literal ends at the latest where a delimiter stands.
proof fn lemma_scalar_ends_at(bytes: Seq<u8>, i: int, j: int)
    requires
        0 <= i <= j < bytes.len(),
        is_delimiter(bytes[j]),
    ensures
        scalar_end(bytes, i) <= j,
    decreases j - i,
{
    if i < j && !is_delimiter(bytes[i]) {
        lemma_scalar_ends_at(bytes, i + 1, j);
    }
}

/// The span that the columns tell covers the exact one, for a token with another one behind
/// it. Behind a literal that has to be a comma or a close, as in every valid document.
pub proof fn law_coarse_spans_are_upper_bounds(
    idx: StructuralIndex,
    bytes: Seq<u8>,
    keys: bool,
    i: int,
)
    requires
        scan(bytes) is Ok,
        indexes(idx, bytes, keys),
        0 <= i < idx.spec_len() - 1,
        idx.kinds()[i] == Kind::Scalar ==> idx.kinds()[i + 1] == Kind::Comma || is_close(
            idx.kinds()[i + 1],
        ),
    ensures
        idx.exact_end(bytes, i) <= idx.coarse_end(i),
{
    let toks = index_tokens(bytes);
    assert(idx.toks()[i].kind == idx.kinds()[i]);
    assert(idx.toks()[i + 1].kind == idx.kinds()[i + 1]);
    law_index_tokens_in_order(bytes);
    assert(toks[i].offset < toks[i + 1].offset);
    if idx.kinds()[i] == Kind::Quote {
        law_strings_end_in_front_of_the_next_token(bytes, i, i + 1);
    } else if idx.kinds()[i] == Kind::Scalar {
        let n = tokens_before(bytes, bytes.len() as int).len() as int;
        lemma_scanned(bytes, n, i + 1);
        lemma_scalar_ends_at(bytes, toks[i].offset, toks[i + 1].offset);
    }
}

/// A token that is no literal stands where its byte is.
proof fn lemma_scanned(buf: Seq<u8>, m: int, i: int)
    requires
        0 <= m <= tokens_before(buf, buf.len() as int).len(),
        0 <= i < filled(buf, tokens_before(buf, buf.len() as int), m).len(),
        filled(buf, tokens_before(buf, buf.len() as int), m)[i].kind != Kind::Scalar,
    ensures
        ({
            let t = filled(buf, tokens_before(buf, buf.len() as int), m)[i];
            &&& 0 <= t.offset < buf.len()
            &&& kind_of_byte(buf[t.offset]) == Some(t.kind)
            &&& !lex_at(buf, t.offset).in_string
        }),
    decreases m,
{
    if m > 0 {
        let n = buf.len() as int;
        let toks = tokens_before(buf, n);
        let f = filled(buf, toks, m - 1);
        if i < f.len() {
            assert(filled(buf, toks, m)[i] == f[i]);
            lemma_scanned(buf, m - 1, i);
        } else {
            law_tokens_point_at_their_bytes(buf, n, m - 1);
        }
    }
}

/// Every token of an index that is no literal stands where its byte is.
pub proof fn law_index_tokens_point_at_their_bytes(buf: Seq<u8>, i: int)
    requires
        0 <= i < index_tokens(buf).len(),
        index_tokens(buf)[i].kind != Kind::Scalar,
    ensures
        0 <= index_tokens(buf)[i].offset < buf.len(),
        kind_of_byte(buf[index_tokens(buf)[i].offset]) == Some(index_tokens(buf)[i].kind),
{
    lemma_scanned(buf, tokens_before(buf, buf.len() as int).len() as int, i);
}

// ---------------------------------------------------------------------------
// Keys and values
// ---------------------------------------------------------------------------

proof fn lemma_value_from(kinds: Seq<Kind>, i: int, j: int)
    requires
        balanced(kinds),
        0 <= i < j <= kinds.len(),
        !is_open(kinds[i]),
        !is_close(kinds[i]),
        stack_at(kinds, j) == stack_at(kinds, i),
    ensures
        value_from(kinds, i, j) matches Some(v) ==> {
            &&& j <= v < kinds.len()
            &&& parent_at(kinds, v) == parent_at(kinds, i)
            &&& kinds[v] != Kind::Colon && kinds[v] != Kind::Comma && !is_close(kinds[v])
            &&& forall|k: int|
                j <= k < v ==> #[trigger] kinds[k] == Kind::Colon || kinds[k] == Kind::Comma
        },
    decreases kinds.len() - j,
{
    if j < kinds.len() {
        let s = stack_at(kinds, i);
        if is_close(kinds[j]) {
            assert(!overclosed_at(kinds, j));
            assert(stack_at(kinds, j + 1) == s.drop_last());
            lemma_stack(kinds, i);
            assert(s[s.len() - 1] == parent_at(kinds, i));
            if s.len() > 1 {
                assert(s[s.len() - 2] < s[s.len() - 1]);
                assert(s.drop_last().last() == s[s.len() - 2]);
            }
            assert(parent_at(kinds, j) != parent_at(kinds, i));
        } else if kinds[j] == Kind::Colon || kinds[j] == Kind::Comma {
            lemma_value_from(kinds, i, j + 1);
        }
    }
}

/// The value of a key lies beside it: in the same container, with nothing but separators
/// between the two, and neither a separator nor a close itself.
pub proof fn law_value_lies_beside_its_key(kinds: Seq<Kind>, key: int)
    requires
        balanced(kinds),
        0 <= key < kinds.len(),
        kinds[key] == Kind::Quote,
    ensures
        value_of(kinds, key) matches Some(v) ==> {
            &&& key < v < kinds.len()
            &&& parent_at(kinds, v) == parent_at(kinds, key)
            &&& kinds[v] != Kind::Colon && kinds[v] != Kind::Comma && !is_close(kinds[v])
            &&& forall|k: int|
                key < k < v ==> #[trigger] kinds[k] == Kind::Colon || kinds[k] == Kind::Comma
        },
{
    assert(stack_at(kinds, key + 1) == stack_at(kinds, key));
    lemma_value_from(kinds, key, key + 1);
}

/// The bitmap of a name lists the tokens that carry its number.
pub proof fn law_bitmaps_agree_with_key_numbers(kb: KeyBitmaps, id: int, t: u32)
    requires
        kb.wf(),
        0 <= id < kb.dict@.len(),
    ensures
        members(kb.bitmaps@[id]).contains(t) <==> t < kb.n_tokens && kb.key_id_of@[t as int] == id,
{
    let names = kb.names();
    let d = dict_of(names, names.len() as int);
    lemma_dict(names, names.len() as int);
    assert(members(kb.bitmaps@[id]).contains(t) <==> t < names.len() && names[t as int] == Some(
        d[id],
    ));
    if t < names.len() {
        let k = kb.key_id_of@[t as int];
        match names[t as int] {
            Some(name) => {
                assert(k < d.len() && d[k as int] == name);
            },
            None => {
                assert(k == u32::MAX);
            },
        }
    }
}

/// The dictionary holds every key once.
pub proof fn law_dictionary_lists_each_key_once(kb: KeyBitmaps)
    requires
        kb.wf(),
    ensures
        forall|i: int, j: int|
            0 <= i < j < kb.dict@.len() ==> (#[trigger] kb.dict@[i])@ != (#[trigger] kb.dict@[j])@,
        forall|t: int|
            0 <= t < kb.names().len() ==> ((#[trigger] kb.names()[t]) matches Some(name)
                ==> exists|i: int| 0 <= i < kb.dict@.len() && (#[trigger] kb.dict@[i])@ == name),
{
    let names = kb.names();
    let d = dict_of(names, names.len() as int);
    lemma_dict(names, names.len() as int);
    assert forall|t: int| 0 <= t < names.len() implies ((#[trigger] names[t]) matches Some(name)
        ==> exists|i: int| 0 <= i < kb.dict@.len() && (#[trigger] kb.dict@[i])@ == name) by {
        match names[t] {
            Some(name) => {
                assert(d.contains(name));
                let i = d.index_of(name);
                assert(kb.dict@[i]@ == d[i]);
            },
            None => {},
        }
    }
}

/// What a search sees first is one match.
proof fn lemma_seen_first_is_one(
    patterns: Seq<Seq<char>>,
    bytes: Seq<u8>,
    start: int,
    p: int,
    at: int,
    q: int,
    b: int,
)
    requires
        seen_first(patterns, bytes, start, p, at),
        seen_first(patterns, bytes, start, q, b),
    ensures
        p == q,
        at == b,
{
}

/// The first `k` matches of two lists of what a search sees agree.
proof fn lemma_matches_agree(
    patterns: Seq<Seq<char>>,
    bytes: Seq<u8>,
    m: Seq<(usize, usize)>,
    n: Seq<(usize, usize)>,
    k: int,
)
    requires
        matches_as_seen(patterns, bytes, m),
        matches_as_seen(patterns, bytes, n),
        0 <= k <= m.len(),
        k <= n.len(),
    ensures
        m.take(k) == n.take(k),
    decreases k,
{
    if k > 0 {
        let j = k - 1;
        lemma_matches_agree(patterns, bytes, m, n, j);
        if j > 0 {
            assert(m[j - 1] == m.take(j)[j - 1]);
            assert(n[j - 1] == n.take(j)[j - 1]);
        }
        let start = search_start(patterns, m, j);
        assert(start == search_start(patterns, n, j));
        let (p, at) = m[j];
        let (q, b) = n[j];
        lemma_seen_first_is_one(patterns, bytes, start, p as int, at as int, q as int, b as int);
        assert(m.take(k) =~= m.take(j).push(m[j]));
        assert(n.take(k) =~= n.take(j).push(n[j]));
    }
}

/// A scan for several keys is fixed by its patterns and its bytes: two lists of what a search
/// sees are the same list, also where patterns are equal or end at the same byte.
pub proof fn law_matches_are_fixed(
    patterns: Seq<Seq<char>>,
    bytes: Seq<u8>,
    m: Seq<(usize, usize)>,
    n: Seq<(usize, usize)>,
)
    requires
        matches_as_seen(patterns, bytes, m),
        matches_as_seen(patterns, bytes, n),
    ensures
        m == n,
{
    let k: int = if m.len() <= n.len() { m.len() as int } else { n.len() as int };
    lemma_matches_agree(patterns, bytes, m, n, k);
    if k > 0 {
        assert(m[k - 1] == m.take(k)[k - 1]);
        assert(n[k - 1] == n.take(k)[k - 1]);
    }
    let start = search_start(patterns, m, k);
    if k < m.len() {
        assert(seen_first(patterns, bytes, start, m[k].0 as int, m[k].1 as int));
        assert(stands_at(patterns, bytes, m[k].0 as int, m[k].1 as int));
    }
    if k < n.len() {
        assert(seen_first(patterns, bytes, start, n[k].0 as int, n[k].1 as int));
        assert(stands_at(patterns, bytes, n[k].0 as int, n[k].1 as int));
    }
    assert(m.take(k) =~= m);
    assert(n.take(k) =~= n);
}

} // verus!
