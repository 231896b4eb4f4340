//! Lines and chunks: which lines are read, which are skipped, where chunks are cut.

use vstd::prelude::*;

use crate::api::{eq_hits, law_find_eq_finds_every_object, StructuralIndex, TokenId};
use crate::from_tape::parses;
use crate::ndjson::{
    chunk_end, chunks_from, holds_pair, joined, last_newline, law_chunks_rejoin,
    law_selection_by_parts, lemma_chunk_end, lemma_line_end, line_end, line_hit, line_matches,
    process_chunk, selected, split_chunks,
};
use crate::streaming::{is_blank, next_document, next_pos, trimmed};
use crate::tree::{lemma_parent, parent_at};

verus! {

// ---------------------------------------------------------------------------
// Lines that are read
// ---------------------------------------------------------------------------

/// A line loses the line feeds and carriage returns at its end, all of them and nothing else.
pub proof fn law_trimming_cuts_line_ends(line: Seq<u8>)
    ensures
        ({
            let n = trimmed(line).len() as int;
            &&& n <= line.len()
            &&& trimmed(line) == line.subrange(0, n)
            &&& n > 0 ==> line[n - 1] != 0x0a && line[n - 1] != 0x0d
            &&& forall|i: int|
                n <= i < line.len() ==> #[trigger] line[i] == 0x0a || line[i] == 0x0d
        }),
    decreases line.len(),
{
    if line.len() > 0 && (line.last() == 0x0a || line.last() == 0x0d) {
        let front = line.drop_last();
        law_trimming_cuts_line_ends(front);
        let n = trimmed(front).len() as int;
        assert(trimmed(line) =~= line.subrange(0, n));
        assert forall|i: int| n <= i < line.len() implies #[trigger] line[i] == 0x0a || line[i]
            == 0x0d by {
            if i < front.len() {
                assert(front[i] == line[i]);
            }
        }
    } else {
        assert(line.subrange(0, line.len() as int) =~= line);
    }
}

/// The first `n` bytes of the line are spaces and tabs, and the others line feeds and carriage
/// returns.
pub open spec fn blank_up_to(line: Seq<u8>, n: int) -> bool {
    &&& 0 <= n <= line.len()
    &&& forall|i: int| 0 <= i < n ==> #[trigger] line[i] == 0x20 || line[i] == 0x09
    &&& forall|i: int| n <= i < line.len() ==> #[trigger] line[i] == 0x0a || line[i] == 0x0d
}

/// A line is skipped where it is spaces and tabs and then line ends, and not otherwise. So
/// each byte of a skipped line is a space, a tab, a line feed or a carriage return.
pub proof fn law_only_blank_lines_are_skipped(line: Seq<u8>)
    ensures
        is_blank(trimmed(line)) <==> exists|n: int| #[trigger] blank_up_to(line, n),
        is_blank(trimmed(line)) ==> forall|i: int|
            0 <= i < line.len() ==> {
                let b = #[trigger] line[i];
                b == 0x20 || b == 0x09 || b == 0x0a || b == 0x0d
            },
{
    law_trimming_cuts_line_ends(line);
    let t = trimmed(line);
    let m = t.len() as int;
    assert forall|i: int| 0 <= i < m implies #[trigger] line[i] == t[i] by {}
    if is_blank(t) {
        assert forall|i: int| 0 <= i < m implies #[trigger] line[i] == 0x20 || line[i] == 0x09 by {
            assert(t[i] == 0x20 || t[i] == 0x09);
        }
        assert(blank_up_to(line, m));
    }
    if exists|n: int| #[trigger] blank_up_to(line, n) {
        let n = choose|n: int| #[trigger] blank_up_to(line, n);
        if m > n {
            assert(line[m - 1] == 0x0a || line[m - 1] == 0x0d);
        }
        assert forall|i: int| 0 <= i < m implies #[trigger] t[i] == 0x20 || t[i] == 0x09 by {
            assert(line[i] == t[i]);
        }
    }
}

/// A line ends at the first line feed, or at the end of the buffer.
pub proof fn law_lines_end_at_line_feeds(src: Seq<u8>, i: int)
    requires
        0 <= i <= src.len(),
    ensures
        i <= line_end(src, i) <= src.len(),
        line_end(src, i) < src.len() ==> src[line_end(src, i)] == 0x0a,
        forall|k: int| i <= k < line_end(src, i) ==> #[trigger] src[k] != 0x0a,
    decreases src.len() - i,
{
    if i < src.len() && src[i] != 0x0a {
        law_lines_end_at_line_feeds(src, i + 1);
    }
}

/// `doc` is what is left of the line from `a` on, without its line end, and the next line begins
/// at `next`.
pub open spec fn line_at(src: Seq<u8>, a: int, doc: Seq<u8>, next: int) -> bool {
    &&& 0 <= a < next <= src.len()
    &&& next == src.len() || src[next - 1] == 0x0a
    &&& forall|k: int| a <= k < next - 1 ==> #[trigger] src[k] != 0x0a
    &&& a + doc.len() <= next
    &&& doc == src.subrange(a, a + doc.len())
    &&& forall|k: int| a + doc.len() <= k < next ==> #[trigger] src[k] == 0x0a || src[k] == 0x0d
    &&& doc.len() > 0 ==> doc.last() != 0x0a && doc.last() != 0x0d
}

/// The bytes from `a` to `b` are spaces, tabs, line feeds and carriage returns.
pub open spec fn blank_between(src: Seq<u8>, a: int, b: int) -> bool {
    forall|k: int|
        a <= k < b ==> {
            let x = #[trigger] src[k];
            x == 0x20 || x == 0x09 || x == 0x0a || x == 0x0d
        }
}

/// `doc` is the first line from `pos` on with a byte that is no space and no tab, and all in
/// front of it is blank. The next line begins at `next`.
pub open spec fn first_line_from(src: Seq<u8>, pos: int, doc: Seq<u8>, next: int) -> bool {
    &&& exists|a: int|
        {
            &&& a == pos || (pos < a && src[a - 1] == 0x0a)
            &&& #[trigger] line_at(src, a, doc, next)
            &&& blank_between(src, pos, a)
        }
    &&& exists|i: int| 0 <= i < doc.len() && #[trigger] doc[i] != 0x20 && doc[i] != 0x09
}

/// The next document is the next line with a byte that is no space and no tab; all in front of
/// it is blank. Where there is none, all that is left is blank.
pub proof fn law_next_document_is_the_next_line(src: Seq<u8>, pos: int)
    requires
        0 <= pos <= src.len(),
    ensures
        match next_document(src, pos) {
            None => blank_between(src, pos, src.len() as int),
            Some((doc, next)) => first_line_from(src, pos, doc, next),
        },
    decreases src.len() - pos,
{
    if pos < src.len() {
        lemma_line_end(src, pos);
        law_lines_end_at_line_feeds(src, pos);
        let end = next_pos(src, pos);
        let line = src.subrange(pos, end);
        let doc = trimmed(line);
        law_trimming_cuts_line_ends(line);
        law_only_blank_lines_are_skipped(line);
        assert forall|k: int| pos <= k < end implies #[trigger] src[k] == line[k - pos] by {}
        if is_blank(doc) {
            law_next_document_is_the_next_line(src, end);
            assert forall|k: int| pos <= k < end implies {
                let x = #[trigger] src[k];
                x == 0x20 || x == 0x09 || x == 0x0a || x == 0x0d
            } by {
                assert(src[k] == line[k - pos]);
            }
            assert(next_document(src, pos) == next_document(src, end));
            match next_document(src, end) {
                None => {
                    assert(blank_between(src, pos, src.len() as int));
                },
                Some((d, next)) => {
                    let a = choose|a: int|
                        {
                            &&& a == end || (end < a && src[a - 1] == 0x0a)
                            &&& #[trigger] line_at(src, a, d, next)
                            &&& blank_between(src, end, a)
                        };
                    assert(end < src.len() ==> src[end - 1] == 0x0a);
                    assert(blank_between(src, pos, a));
                    assert(line_at(src, a, d, next));
                    assert(first_line_from(src, pos, d, next));
                },
            }
        } else {
            assert(doc =~= src.subrange(pos, pos + doc.len()));
            assert forall|k: int| pos + doc.len() <= k < end implies #[trigger] src[k] == 0x0a
                || src[k] == 0x0d by {
                assert(src[k] == line[k - pos]);
            }
            if doc.len() > 0 {
                assert(doc.last() == line[doc.len() - 1]);
            }
            assert(line_at(src, pos, doc, end));
            assert(next_document(src, pos) == Some((doc, end)));
            assert(blank_between(src, pos, pos));
            let i = choose|i: int|
                0 <= i < doc.len() && !(#[trigger] doc[i] == 0x20 || doc[i] == 0x09);
            assert(doc[i] != 0x20 && doc[i] != 0x09);
            assert(first_line_from(src, pos, doc, end));
        }
    }
}

/// No document is lost: a byte that is no blank lies in the next document or behind it.
pub proof fn law_no_document_is_lost(src: Seq<u8>, pos: int, k: int)
    requires
        0 <= pos <= k < src.len(),
        src[k] != 0x20 && src[k] != 0x09 && src[k] != 0x0a && src[k] != 0x0d,
    ensures
        match next_document(src, pos) {
            None => false,
            Some((doc, next)) => next <= k || exists|a: int|
                pos <= a <= k < a + doc.len() && #[trigger] line_at(src, a, doc, next),
        },
{
    law_next_document_is_the_next_line(src, pos);
    match next_document(src, pos) {
        None => {},
        Some((doc, next)) => {
            let a = choose|a: int|
                pos <= a && #[trigger] line_at(src, a, doc, next) && blank_between(src, pos, a);
            assert(line_at(src, a, doc, next));
        },
    }
}

// ---------------------------------------------------------------------------
// Lines that are selected
// ---------------------------------------------------------------------------

/// A line is selected where a search of its document for the key and the literal finds an
/// object.
pub proof fn law_selected_lines_hold_a_hit(line: Seq<u8>, name: Seq<char>, literal: Seq<u8>)
    ensures
        line_hit(line, name, literal) <==> exists|bytes: Seq<u8>, idx: StructuralIndex| #[trigger]
            parses(line, bytes, idx, true) && idx.fits(bytes) && eq_hits(
                &idx,
                bytes,
                name,
                literal,
            ).len() > 0,
{
    assert forall|bytes: Seq<u8>, idx: StructuralIndex| #[trigger]
        parses(line, bytes, idx, true) implies (holds_pair(idx, bytes, name, literal)
        <==> idx.fits(bytes) && eq_hits(&idx, bytes, name, literal).len() > 0) by {
        let hits = eq_hits(&idx, bytes, name, literal);
        if holds_pair(idx, bytes, name, literal) {
            let t = choose|t: u32| #[trigger]
                idx.key_tokens(name, None).contains(t) && idx.key_eq(bytes, t as int, literal);
            let p = parent_at(idx.kinds(), t as int);
            lemma_parent(idx.kinds(), t as int);
            assert(idx.key_names()[t as int] is Some);
            assert(idx.keys_inside(p, name).contains(t));
            law_find_eq_finds_every_object(&idx, bytes, name, literal, TokenId(p as u32));
            assert(hits.contains(TokenId(p as u32)));
            assert(hits.len() > 0);
        }
        if idx.fits(bytes) && hits.len() > 0 {
            let p = hits[0];
            assert(hits.contains(p));
            law_find_eq_finds_every_object(&idx, bytes, name, literal, p);
            let t = choose|t: u32| #[trigger]
                idx.keys_inside(p.0 as int, name).contains(t) && idx.key_eq(
                    bytes,
                    t as int,
                    literal,
                );
            assert(idx.key_tokens(name, None).contains(t));
        }
    }
    if line_hit(line, name, literal) {
        let (bytes, idx) = choose|bytes: Seq<u8>, idx: StructuralIndex| #[trigger]
            parses(line, bytes, idx, true) && holds_pair(idx, bytes, name, literal);
        assert(parses(line, bytes, idx, true) && idx.fits(bytes));
    }
    if exists|bytes: Seq<u8>, idx: StructuralIndex| #[trigger]
        parses(line, bytes, idx, true) && idx.fits(bytes) && eq_hits(
            &idx,
            bytes,
            name,
            literal,
        ).len() > 0 {
        let (bytes, idx) = choose|bytes: Seq<u8>, idx: StructuralIndex| #[trigger]
            parses(line, bytes, idx, true) && idx.fits(bytes) && eq_hits(
                &idx,
                bytes,
                name,
                literal,
            ).len() > 0;
        assert(parses(line, bytes, idx, true) && holds_pair(idx, bytes, name, literal));
    }
}

/// One line is kept whole, with a line feed behind it, or dropped whole, whether or not a line
/// feed ends it; of nothing nothing is kept.
pub proof fn law_lines_are_selected_whole(
    line: Seq<u8>,
    name: Seq<char>,
    literal: Seq<u8>,
)
    requires
        forall|k: int| 0 <= k < line.len() ==> #[trigger] line[k] != 0x0a,
    ensures
        ({
            let kept = if line_hit(line, name, literal) {
                line.push(0x0a)
            } else {
                Seq::empty()
            };
            &&& selected(line.push(0x0a), 0, name, literal) == kept
            &&& line.len() > 0 ==> selected(line, 0, name, literal) == kept
        }),
        selected(Seq::<u8>::empty(), 0, name, literal) == Seq::<u8>::empty(),
{
    let ended = line.push(0x0a);
    law_lines_end_at_line_feeds(line, 0);
    law_lines_end_at_line_feeds(ended, 0);
    let n = line.len() as int;
    assert(ended[line_end(ended, 0)] == 0x0a || line_end(ended, 0) == ended.len());
    assert(line_end(ended, 0) == n) by {
        let e = line_end(ended, 0);
        if e < n {
            assert(ended[e] == line[e]);
        }
        if e > n {
            assert(ended[n] == 0x0a);
        }
    }
    assert(line_end(line, 0) == n);
    assert(ended.subrange(0, n) =~= line);
    assert(line.subrange(0, n) =~= line);
    assert(selected(ended, n + 1, name, literal) == Seq::<u8>::empty());
    assert(selected(line, n + 1, name, literal) == Seq::<u8>::empty());
    assert(line.push(0x0a).add(Seq::<u8>::empty()) =~= line.push(0x0a));
}

/// Testing a line says whether a search of its document finds an object.
pub proof fn law_line_matches_searches(
    line: &[u8],
    key: &str,
    literal: &[u8],
    r: bool,
)
    requires
        call_ensures(line_matches, (line, key, literal), r),
    ensures
        r <==> exists|bytes: Seq<u8>, idx: StructuralIndex| #[trigger]
            parses(line@, bytes, idx, true) && idx.fits(bytes) && eq_hits(
                &idx,
                bytes,
                key@,
                literal@,
            ).len() > 0,
{
    law_selected_lines_hold_a_hit(line@, key@, literal@);
}

// ---------------------------------------------------------------------------
// Chunks
// ---------------------------------------------------------------------------

/// `end` is where a chunk of at most `target` bytes from `start` on has to be cut: at the end
/// of the buffer where that is near enough; else behind the last line feed in reach; else, in
/// a line that is longer, as far as it reaches.
pub open spec fn cuts_at(buf: Seq<u8>, start: int, target: int, end: int) -> bool {
    if buf.len() <= start + target {
        end == buf.len()
    } else {
        &&& start < end <= start + target
        &&& forall|k: int| end <= k < start + target ==> #[trigger] buf[k] != 0x0a
        &&& buf[end - 1] == 0x0a || (end == start + target && forall|k: int|
            start <= k < end ==> #[trigger] buf[k] != 0x0a)
    }
}

proof fn lemma_last_line_feed(buf: Seq<u8>, start: int, end: int)
    requires
        start <= end,
    ensures
        ({
            let cut = last_newline(buf, start, end);
            &&& start <= cut <= end
            &&& cut > start ==> buf[cut - 1] == 0x0a
            &&& forall|k: int| cut <= k < end ==> #[trigger] buf[k] != 0x0a
        }),
    decreases end - start,
{
    if start < end && buf[end - 1] != 0x0a {
        lemma_last_line_feed(buf, start, end - 1);
    }
}

/// Chunks are cut behind the last line feed in reach, one after the other until the buffer
/// ends.
pub proof fn law_chunks_are_cut_at_line_feeds(buf: Seq<u8>, start: int, target: int)
    requires
        0 <= start <= buf.len(),
        0 < target,
    ensures
        start == buf.len() ==> chunks_from(buf, start, target).len() == 0,
        start < buf.len() ==> exists|end: int|
            {
                &&& start < end <= buf.len()
                &&& #[trigger] cuts_at(buf, start, target, end)
                &&& chunks_from(buf, start, target) == seq![buf.subrange(start, end)]
                    + chunks_from(buf, end, target)
            },
{
    if start < buf.len() {
        lemma_chunk_end(buf, start, target);
        lemma_last_line_feed(buf, start, start + target);
        let end = chunk_end(buf, start, target);
        assert(cuts_at(buf, start, target, end));
    }
}

/// Working on a chunk keeps its matching lines: a part of it that ends with a line feed and
/// the rest of it are worked on as by themselves, and a single line is kept whole or dropped
/// whole.
pub proof fn law_chunks_are_worked_on_line_by_line(
    chunk: &[u8],
    first: &[u8],
    rest: &[u8],
    key: &str,
    literal: &[u8],
    whole: Vec<u8>,
    a: Vec<u8>,
    b: Vec<u8>,
)
    requires
        call_ensures(process_chunk, (chunk, key, literal), whole),
        call_ensures(process_chunk, (first, key, literal), a),
        call_ensures(process_chunk, (rest, key, literal), b),
        chunk@ == first@ + rest@,
        first@.len() > 0,
        first@[first@.len() - 1] == 0x0a,
        forall|k: int| 0 <= k < first@.len() - 1 ==> #[trigger] first@[k] != 0x0a,
    ensures
        whole@ == a@ + b@,
        a@ == (if line_hit(first@.drop_last(), key@, literal@) {
            first@
        } else {
            Seq::empty()
        }),
        rest@.len() == 0 ==> b@.len() == 0,
        rest@.len() > 0 && (forall|k: int| 0 <= k < rest@.len() ==> #[trigger] rest@[k] != 0x0a)
            ==> b@ == (if line_hit(rest@, key@, literal@) {
            rest@.push(0x0a)
        } else {
            Seq::empty()
        }),
{
    law_selection_by_parts(first@, rest@, 0, key@, literal@);
    let line = first@.drop_last();
    assert forall|k: int| 0 <= k < line.len() implies #[trigger] line[k] != 0x0a by {
        assert(line[k] == first@[k]);
    }
    law_lines_are_selected_whole(line, key@, literal@);
    assert(line.push(0x0a) =~= first@);
    if forall|k: int| 0 <= k < rest@.len() ==> #[trigger] rest@[k] != 0x0a {
        law_lines_are_selected_whole(rest@, key@, literal@);
    }
    if rest@.len() == 0 {
        assert(rest@ =~= Seq::<u8>::empty());
    }
}

/// Splitting a buffer gives its chunks one after the other: joined, they are the buffer.
pub proof fn law_split_chunks_rejoin<'a>(
    buf: &'a [u8],
    target: usize,
    r: Vec<&'a [u8]>,
)
    requires
        target > 0,
        call_ensures(split_chunks, (buf, target), r),
    ensures
        joined(r@.map_values(|c: &'a [u8]| c@)) == buf@,
        r@.map_values(|c: &'a [u8]| c@) == chunks_from(buf@, 0, target as int),
{
    law_chunks_rejoin(buf@, 0, target as int);
    assert(buf@.skip(0) =~= buf@);
    let parts = r@.map_values(|c: &'a [u8]| c@);
    assert forall|i: int| 0 <= i < parts.len() implies parts[i] == chunks_from(
        buf@,
        0,
        target as int,
    )[i] by {
        assert(r@[i]@ == chunks_from(buf@, 0, target as int)[i]);
    }
    assert(parts =~= chunks_from(buf@, 0, target as int));
}

} // verus!
