//! Spans: the bytes of a token, and the container around a byte.

use vstd::prelude::*;

use crate::api::{indexes, ByteSpan, StructuralIndex, TokenId};
use crate::index::{covers, index_tokens, kinds_of, law_index_tokens_in_order};
use crate::laws::law_strings_end_in_front_of_the_next_token;
use crate::laws::text::{
    bare_quote, law_literals_reach_their_delimiter, law_strings_reach_their_quote, string_ends_at,
};
use crate::laws::tokens::{
    inside_string, law_index_tokens_are_written, law_no_string_is_open_at_the_end,
};
use crate::laws::tree::{begins, ends, law_opens_have_closes};
use crate::lex::{scan, Kind};
use crate::tree::{closes, is_open, lemma_close_unique};

verus! {

/// The bytes from `start` to `end` are those of token `i`, read off the document: a container
/// from its open to its close, a string from its opening quote to the first bare quote behind
/// it, a literal up to the next comma, close or white space, any other token its one byte.
pub open spec fn spans_token(
    idx: StructuralIndex,
    bytes: Seq<u8>,
    i: int,
    start: int,
    end: int,
) -> bool {
    &&& start == idx.toks()[i].offset
    &&& 0 <= start < end <= bytes.len()
    &&& match idx.kinds()[i] {
        Kind::ObjOpen | Kind::ArrOpen => {
            let c = idx.index().close_of@[i] as int;
            &&& ends(idx.index(), c)
            &&& end == idx.toks()[c].offset + 1
            &&& bytes[start] == 0x7b || bytes[start] == 0x5b
            &&& bytes[end - 1] == 0x7d || bytes[end - 1] == 0x5d
        },
        Kind::Quote => {
            &&& bytes[start] == 0x22
            &&& start + 1 < end
            &&& bare_quote(bytes, start + 1, end - 1)
            &&& forall|q: int| start < q < end - 1 ==> !#[trigger] bare_quote(bytes, start + 1, q)
        },
        Kind::Scalar => {
            &&& forall|k: int|
                start <= k < end ==> {
                    let b = #[trigger] bytes[k];
                    b != 0x2c && b != 0x7d && b != 0x5d && b != 0x20 && b != 0x09 && b != 0x0a && b
                        != 0x0d
                }
            &&& end < bytes.len() ==> {
                let b = bytes[end];
                b == 0x2c || b == 0x7d || b == 0x5d || b == 0x20 || b == 0x09 || b == 0x0a || b
                    == 0x0d
            }
        },
        _ => end == start + 1,
    }
}

/// The exact end of a token is where its bytes end.
pub proof fn law_exact_ends_are_exact(idx: StructuralIndex, bytes: Seq<u8>, keys: bool, i: int)
    requires
        scan(bytes) is Ok,
        indexes(idx, bytes, keys),
        0 <= i < idx.spec_len(),
    ensures
        spans_token(idx, bytes, i, idx.toks()[i].offset, idx.exact_end(bytes, i)),
{
    let t = idx.toks()[i];
    let p = t.offset;
    assert(t.kind == idx.kinds()[i]);
    law_index_tokens_are_written(bytes, i);
    law_index_tokens_in_order(bytes);
    if is_open(t.kind) {
        law_opens_have_closes(idx.index(), i);
        let c = idx.index().close_of@[i] as int;
        assert(idx.toks()[c].kind == idx.kinds()[c]);
        law_index_tokens_are_written(bytes, c);
        assert(idx.toks()[i].offset < idx.toks()[c].offset);
    } else if t.kind == Kind::Quote {
        law_strings_end_in_front_of_the_next_token(bytes, i, i);
        law_strings_reach_their_quote(bytes, p + 1);
        let e = idx.exact_end(bytes, i);
        assert(string_ends_at(bytes, p + 1, e));
        lemma_closed_string(bytes, i, e);
    } else if t.kind == Kind::Scalar {
        law_literals_reach_their_delimiter(bytes, p);
    }
}

/// A string of a document that scans well ends at a bare quote.
proof fn lemma_closed_string(bytes: Seq<u8>, i: int, e: int)
    requires
        scan(bytes) is Ok,
        0 <= i < index_tokens(bytes).len(),
        index_tokens(bytes)[i].kind == Kind::Quote,
        string_ends_at(bytes, index_tokens(bytes)[i].offset + 1, e),
    ensures
        bare_quote(bytes, index_tokens(bytes)[i].offset + 1, e - 1),
{
    let p = index_tokens(bytes)[i].offset;
    law_index_tokens_are_written(bytes, i);
    law_no_string_is_open_at_the_end(bytes);
    if !bare_quote(bytes, p + 1, e - 1) {
        assert forall|q: int| p < q < bytes.len() implies !#[trigger] bare_quote(bytes, p + 1, q) by {
            assert(q <= e - 1);
        }
        assert(inside_string(bytes, index_tokens(bytes), bytes.len() as int));
    }
}

/// A span that was read off the bytes of an index is that of its token.
pub proof fn law_byte_span_in_is_exact(
    idx: &StructuralIndex,
    tok: TokenId,
    bytes: &[u8],
    keys: bool,
    r: ByteSpan,
)
    requires
        scan(bytes@) is Ok,
        indexes(*idx, bytes@, keys),
        tok.0 < idx.spec_len(),
        call_ensures(StructuralIndex::byte_span_in, (idx, tok, bytes), r),
    ensures
        spans_token(*idx, bytes@, tok.0 as int, r.start as int, r.end as int),
{
    law_exact_ends_are_exact(*idx, bytes@, keys, tok.0 as int);
}

/// The slice of a token is the bytes of its span.
pub proof fn law_slices_are_exact<'a>(
    idx: &StructuralIndex,
    tok: TokenId,
    bytes: &'a [u8],
    keys: bool,
    r: &'a [u8],
)
    requires
        scan(bytes@) is Ok,
        indexes(*idx, bytes@, keys),
        tok.0 < idx.spec_len(),
        call_ensures(StructuralIndex::slice, (idx, bytes, tok), r),
    ensures
        exists|start: int, end: int| #[trigger]
            spans_token(*idx, bytes@, tok.0 as int, start, end) && r@ == bytes@.subrange(
                start,
                end,
            ),
{
    let i = tok.0 as int;
    law_exact_ends_are_exact(*idx, bytes@, keys, i);
    assert(r@ == bytes@.subrange(idx.toks()[i].offset, idx.exact_end(bytes@, i)));
}

/// The columns alone tell the exact span of a container and of every token of one byte, and
/// of a string or literal that another token follows, where that token begins.
pub proof fn law_coarse_spans(
    idx: &StructuralIndex,
    tok: TokenId,
    bytes: Seq<u8>,
    keys: bool,
    r: ByteSpan,
)
    requires
        scan(bytes) is Ok,
        indexes(*idx, bytes, keys),
        tok.0 < idx.spec_len(),
        call_ensures(StructuralIndex::byte_span, (idx, tok), r),
    ensures
        ({
            let i = tok.0 as int;
            let k = idx.kinds()[i];
            if k == Kind::Quote || k == Kind::Scalar {
                &&& r.start == idx.toks()[i].offset
                &&& i + 1 < idx.spec_len() ==> r.end == idx.toks()[i + 1].offset
                &&& i + 1 == idx.spec_len() ==> r.end == r.start + 1
            } else {
                spans_token(*idx, bytes, i, r.start as int, r.end as int)
            }
        }),
{
    law_exact_ends_are_exact(*idx, bytes, keys, tok.0 as int);
}

/// The container at a byte is the innermost one whose span holds the byte.
pub proof fn law_container_at_byte_is_innermost(
    idx: &StructuralIndex,
    pos: u32,
    bytes: Seq<u8>,
    keys: bool,
    r: Option<TokenId>,
)
    requires
        scan(bytes) is Ok,
        indexes(*idx, bytes, keys),
        call_ensures(StructuralIndex::container_at_byte, (idx, pos), r),
    ensures
        r matches Some(c) ==> begins(idx.index(), c.0 as int) && idx.toks()[c.0 as int].offset
            <= pos < idx.exact_end(bytes, c.0 as int),
        forall|d: int|
            begins(idx.index(), d) && (#[trigger] idx.toks()[d]).offset <= pos < idx.exact_end(
                bytes,
                d,
            ) ==> r is Some && d <= (r->0).0,
{
    let kinds = idx.kinds();
    assert(kinds =~= kinds_of(idx.toks()));
    if let Some(c) = r {
        let i = c.0 as int;
        let j = choose|j: int| #[trigger] closes(kinds, i, j) && pos <= idx.toks()[j].offset;
        assert(is_open(kinds[i]));
        assert(closes(kinds, i, idx.index().close_of@[i] as int));
        lemma_close_unique(kinds, i, j, idx.index().close_of@[i] as int);
    }
    assert forall|d: int|
        begins(idx.index(), d) && (#[trigger] idx.toks()[d]).offset <= pos < idx.exact_end(
            bytes,
            d,
        ) implies r is Some && d <= (r->0).0 by {
        assert(closes(kinds, d, idx.index().close_of@[d] as int));
        assert(covers(idx.toks(), d, pos as int));
    }
}

} // verus!
