//! Selecting lines of newline-delimited JSON by the value of a key.

use vstd::prelude::*;

use crate::api::{lemma_value_in_range, StructuralIndex};
use crate::ascii::LF;
use crate::from_tape::{parse, parses, Parsed};
use crate::hits::ids;
use crate::index::kinds_of;
use crate::keys::value_of;
use crate::roaring::lists;
use crate::tree::{closes, is_open, lemma_close_unique};

verus! {

// ---------------------------------------------------------------------------
// Chunks
// ---------------------------------------------------------------------------

/// Where the chunk from `start` on ends: the end of the buffer if it is within `target`
/// bytes; else behind the last newline within `target` bytes; else, in a line that is longer,
/// after `target` bytes.
pub open spec fn chunk_end(buf: Seq<u8>, start: int, target: int) -> int {
    if buf.len() - start <= target {
        buf.len() as int
    } else {
        let cut = last_newline(buf, start, start + target);
        if cut == start {
            start + target
        } else {
            cut
        }
    }
}

/// One past the last newline between `start` and `end`; `start` if there is none.
pub open spec fn last_newline(buf: Seq<u8>, start: int, end: int) -> int
    decreases end - start,
{
    if end <= start {
        start
    } else if buf[end - 1] == LF {
        end
    } else {
        last_newline(buf, start, end - 1)
    }
}

proof fn lemma_last_newline(buf: Seq<u8>, start: int, end: int)
    requires
        start <= end,
    ensures
        start <= last_newline(buf, start, end) <= end,
        last_newline(buf, start, end) > start ==> buf[last_newline(buf, start, end) - 1] == LF,
        forall|k: int|
            last_newline(buf, start, end) <= k < end ==> #[trigger] buf[k] != LF,
    decreases end - start,
{
    if start < end && buf[end - 1] != LF {
        lemma_last_newline(buf, start, end - 1);
    }
}

/// The chunks of the buffer from `start` on.
pub open spec fn chunks_from(buf: Seq<u8>, start: int, target: int) -> Seq<Seq<u8>>
    decreases buf.len() - start,
    via chunks_decrease
{
    if start >= buf.len() || target <= 0 {
        Seq::empty()
    } else {
        seq![buf.subrange(start, chunk_end(buf, start, target))].add(
            chunks_from(buf, chunk_end(buf, start, target), target),
        )
    }
}

#[via_fn]
proof fn chunks_decrease(buf: Seq<u8>, start: int, target: int) {
    lemma_chunk_end(buf, start, target);
}

/// A chunk is not empty, holds at most `target` bytes, and ends with a newline or at the end
/// of the buffer, unless `target` bytes hold no newline.
pub proof fn lemma_chunk_end(buf: Seq<u8>, start: int, target: int)
    ensures
        0 <= start < buf.len() && 0 < target ==> {
            let end = chunk_end(buf, start, target);
            &&& start < end <= buf.len()
            &&& end - start <= target
            &&& end == buf.len() || buf[end - 1] == LF || (end == start + target && forall|k: int|
                start <= k < end ==> #[trigger] buf[k] != LF)
        },
        start < 0 < target && start < buf.len() ==> start < chunk_end(buf, start, target)
            <= buf.len(),
{
    if start < buf.len() && 0 < target {
        lemma_last_newline(buf, start, start + target);
    }
}

/// Splits a buffer into chunks of at most `target` bytes that end with a newline.
///
/// A line that is longer than `target` is cut.
pub fn split_chunks<'a>(buf: &'a [u8], target: usize) -> (r: Vec<&'a [u8]>)
    requires
        target > 0,
    ensures
        r@.len() == chunks_from(buf@, 0, target as int).len(),
        forall|i: int|
            0 <= i < r@.len() ==> (#[trigger] r@[i])@ == chunks_from(buf@, 0, target as int)[i],
{
    let mut chunks: Vec<&'a [u8]> = Vec::new();
    let mut start: usize = 0;
    let n: usize = buf.len();
    let ghost whole = chunks_from(buf@, 0, target as int);
    while start < n
        invariant
            start <= n == buf@.len(),
            target > 0,
            whole.len() == chunks@.len() + chunks_from(buf@, start as int, target as int).len(),
            forall|i: int| 0 <= i < chunks@.len() ==> (#[trigger] chunks@[i])@ == whole[i],
            forall|i: int|
                0 <= i < chunks_from(buf@, start as int, target as int).len() ==> #[trigger] chunks_from(
                    buf@,
                    start as int,
                    target as int,
                )[i] == whole[chunks@.len() + i],
        decreases n - start,
    {
        let ghost rest = chunks_from(buf@, start as int, target as int);
        let ghost done = chunks@.len() as int;
        proof {
            lemma_chunk_end(buf@, start as int, target as int);
        }
        let end: usize = if n - start <= target {
            n
        } else {
            let limit: usize = start + target;
            let mut split: usize = limit;
            while split > start && buf[split - 1] != LF
                invariant
                    start <= split <= limit <= n == buf@.len(),
                    last_newline(buf@, start as int, split as int) == last_newline(
                        buf@,
                        start as int,
                        limit as int,
                    ),
                decreases split - start,
            {
                split = split - 1;
            }
            if split == start {
                limit
            } else {
                split
            }
        };
        assert(end == chunk_end(buf@, start as int, target as int));
        let chunk = &buf[start..end];
        chunks.push(chunk);
        proof {
            let after = chunks_from(buf@, end as int, target as int);
            assert(rest[0] == chunk@);
            assert(rest[0] == whole[done]);
            assert forall|i: int| 0 <= i < after.len() implies #[trigger] after[i] == whole[done + 1
                + i] by {
                assert(rest[i + 1] == after[i]);
            }
        }
        start = end;
    }
    chunks
}

/// The bytes of a row of chunks, one after the other.
pub open spec fn joined(chunks: Seq<Seq<u8>>) -> Seq<u8>
    decreases chunks.len(),
{
    if chunks.len() == 0 {
        Seq::empty()
    } else {
        chunks[0].add(joined(chunks.skip(1)))
    }
}

/// No byte is lost, added or moved by splitting.
pub proof fn law_chunks_rejoin(buf: Seq<u8>, start: int, target: int)
    requires
        0 <= start <= buf.len(),
        0 < target,
    ensures
        joined(chunks_from(buf, start, target)) == buf.skip(start),
    decreases buf.len() - start,
{
    if start < buf.len() {
        lemma_chunk_end(buf, start, target);
        let end = chunk_end(buf, start, target);
        law_chunks_rejoin(buf, end, target);
        let chunks = chunks_from(buf, start, target);
        assert(chunks.skip(1) =~= chunks_from(buf, end, target));
        assert(buf.subrange(start, end).add(buf.skip(end)) =~= buf.skip(start));
    } else {
        assert(buf.skip(start) =~= Seq::empty());
    }
}

// ---------------------------------------------------------------------------
// Lines
// ---------------------------------------------------------------------------

/// Every token of `idx` has its bytes in `bytes`, and some key `name` has a value that stands
/// for `literal`.
pub open spec fn holds_pair(
    idx: StructuralIndex,
    bytes: Seq<u8>,
    name: Seq<char>,
    literal: Seq<u8>,
) -> bool {
    idx.fits(bytes) && exists|t: u32| #[trigger]
        idx.key_tokens(name, None).contains(t) && idx.key_eq(bytes, t as int, literal)
}

/// The line is a document in which some key `name` has a value that stands for `literal`.
pub open spec fn line_hit(line: Seq<u8>, name: Seq<char>, literal: Seq<u8>) -> bool {
    exists|bytes: Seq<u8>, idx: StructuralIndex| #[trigger]
        parses(line, bytes, idx, true) && holds_pair(idx, bytes, name, literal)
}

/// Two indexes over the same tokens and names hold the same pairs.
proof fn lemma_same_pairs(
    a: StructuralIndex,
    b: StructuralIndex,
    bytes: Seq<u8>,
    name: Seq<char>,
    literal: Seq<u8>,
)
    requires
        a.wf(),
        b.wf(),
        a.toks() == b.toks(),
        a.key_names() == b.key_names(),
        holds_pair(a, bytes, name, literal),
    ensures
        holds_pair(b, bytes, name, literal),
{
    assert(a.kinds() =~= kinds_of(a.toks()));
    assert(b.kinds() =~= kinds_of(b.toks()));
    let kinds = a.kinds();
    assert forall|i: int| 0 <= i < kinds.len() && is_open(kinds[i]) implies a.index().close_of@[i]
        == #[trigger] b.index().close_of@[i] by {
        let x = a.index().close_of@[i] as int;
        let y = b.index().close_of@[i] as int;
        assert(closes(kinds, i, x));
        assert(closes(kinds, i, y));
        lemma_close_unique(kinds, i, x, y);
    }
    assert(b.fits(bytes)) by {
        assert forall|i: int| 0 <= i < b.spec_len() && is_open(b.kinds()[i]) implies b.toks()[i].offset
            <= b.toks()[#[trigger] b.index().close_of@[i] as int].offset by {
            assert(a.index().close_of@[i] == b.index().close_of@[i]);
        }
        b.lemma_fits(bytes);
    }
    let t = choose|t: u32| #[trigger]
        a.key_tokens(name, None).contains(t) && a.key_eq(bytes, t as int, literal);
    assert(b.key_tokens(name, None).contains(t));
    match value_of(kinds, t as int) {
        Some(v) => {
            lemma_value_in_range(kinds, t as int, t + 1);
            assert(a.exact_end(bytes, v) == b.exact_end(bytes, v)) by {
                if is_open(kinds[v]) {
                    assert(a.index().close_of@[v] == b.index().close_of@[v]);
                }
            }
            assert(a.token_bytes(bytes, v) == b.token_bytes(bytes, v));
        },
        None => {},
    }
    assert(b.key_eq(bytes, t as int, literal));
}

/// Whether some key `name` of a parsed document has a value that stands for `literal`.
pub fn parsed_matches(parsed: &Parsed, key: &str, literal: &[u8]) -> (r: bool)
    ensures
        r == holds_pair(parsed.index, parsed.bytes@, key@, literal@),
{
    let index = &parsed.index;
    let bytes = parsed.bytes.as_slice();
    if !index.describes(bytes) {
        return false;
    }
    let hits = index.keys_named(key, None).collect();
    let mut i: usize = 0;
    while i < hits.len()
        invariant
            i <= hits@.len(),
            index == parsed.index,
            bytes@ == parsed.bytes@,
            index.fits(bytes@),
            lists(ids(hits@), index.key_tokens(key@, None)),
            forall|k: int|
                0 <= k < i ==> !index.key_eq(bytes@, (#[trigger] hits@[k]).0 as int, literal@),
        decreases hits@.len() - i,
    {
        let t = hits[i];
        assert(ids(hits@)[i as int] == t.0);
        assert(ids(hits@).contains(t.0));
        if index.key_matches(bytes, t, literal) {
            return true;
        }
        i = i + 1;
    }
    proof {
        assert forall|t: u32| #[trigger] index.key_tokens(key@, None).contains(t) implies !index.key_eq(
            bytes@,
            t as int,
            literal@,
        ) by {
            assert(ids(hits@).contains(t));
            let k = ids(hits@).index_of(t);
            assert(hits@[k].0 == t);
        }
    }
    false
}

/// Whether a line is a document in which some key has a value that stands for `literal`.
pub fn line_matches(line: &[u8], key: &str, literal: &[u8]) -> (r: bool)
    ensures
        r == line_hit(line@, key@, literal@),
{
    let owned = vstd::slice::slice_to_vec(line);
    match parse(owned) {
        Ok(p) => {
            let r = parsed_matches(&p, key, literal);
            proof {
                if line_hit(line@, key@, literal@) {
                    let (bytes, idx) = choose|bytes: Seq<u8>, idx: StructuralIndex| #[trigger]
                        parses(line@, bytes, idx, true) && holds_pair(idx, bytes, key@, literal@);
                    lemma_same_pairs(idx, p.index, bytes, key@, literal@);
                }
            }
            r
        },
        Err(_) => {
            proof {
                if line_hit(line@, key@, literal@) {
                    let (bytes, idx) = choose|bytes: Seq<u8>, idx: StructuralIndex| #[trigger]
                        parses(line@, bytes, idx, true) && holds_pair(idx, bytes, key@, literal@);
                    assert(parses(line@, bytes, idx, true));
                }
            }
            false
        },
    }
}

/// The first newline from `i` on, or the end.
pub open spec fn line_end(chunk: Seq<u8>, i: int) -> int
    decreases chunk.len() - i,
{
    if i >= chunk.len() {
        chunk.len() as int
    } else if chunk[i] == LF {
        i
    } else {
        line_end(chunk, i + 1)
    }
}

pub proof fn lemma_line_end(chunk: Seq<u8>, i: int)
    requires
        0 <= i <= chunk.len(),
    ensures
        i <= line_end(chunk, i) <= chunk.len(),
        line_end(chunk, i) < chunk.len() ==> chunk[line_end(chunk, i)] == LF,
    decreases chunk.len() - i,
{
    if i < chunk.len() && chunk[i] != LF {
        lemma_line_end(chunk, i + 1);
    }
}

/// The matching lines from byte `start` on, each with a newline behind it.
pub open spec fn selected(chunk: Seq<u8>, start: int, name: Seq<char>, literal: Seq<u8>) -> Seq<u8>
    decreases chunk.len() + 1 - start,
    via selected_decreases
{
    if start < 0 || start >= chunk.len() {
        Seq::empty()
    } else {
        let end = line_end(chunk, start);
        let line = chunk.subrange(start, end);
        let rest = selected(chunk, end + 1, name, literal);
        if line_hit(line, name, literal) {
            line.push(LF).add(rest)
        } else {
            rest
        }
    }
}

#[via_fn]
proof fn selected_decreases(chunk: Seq<u8>, start: int, name: Seq<char>, literal: Seq<u8>) {
    if 0 <= start < chunk.len() {
        lemma_line_end(chunk, start);
    }
}

/// The matching lines of a chunk, each with a newline behind it.
pub fn process_chunk(chunk: &[u8], key: &str, literal: &[u8]) -> (r: Vec<u8>)
    ensures
        r@ == selected(chunk@, 0, key@, literal@),
{
    let n: usize = chunk.len();
    let mut out: Vec<u8> = Vec::with_capacity(n / 4);
    let mut start: usize = 0;
    let ghost whole = selected(chunk@, 0, key@, literal@);
    assert(out@.add(selected(chunk@, 0, key@, literal@)) =~= whole);
    while start < n
        invariant
            start <= n == chunk@.len(),
            whole == selected(chunk@, 0, key@, literal@),
            out@.add(selected(chunk@, start as int, key@, literal@)) == whole,
        decreases n - start,
    {
        let mut i: usize = start;
        while i < n && chunk[i] != LF
            invariant
                start <= i <= n == chunk@.len(),
                line_end(chunk@, i as int) == line_end(chunk@, start as int),
            decreases n - i,
        {
            i = i + 1;
        }
        let line = &chunk[start..i];
        let ghost front = out@;
        let ghost rest = selected(chunk@, i + 1, key@, literal@);
        if line_matches(line, key, literal) {
            append_bytes(&mut out, line);
            out.push(LF);
            assert(out@.add(rest) =~= front.add(line@.push(LF).add(rest)));
        }
        if i == n {
            assert(rest =~= Seq::<u8>::empty());
            assert(out@.add(rest) =~= out@);
            assert(out@ == whole);
            return out;
        }
        start = i + 1;
    }
    assert(out@.add(selected(chunk@, start as int, key@, literal@)) =~= out@);
    out
}

/// Appends bytes.
fn append_bytes(out: &mut Vec<u8>, bytes: &[u8])
    ensures
        final(out)@ == old(out)@.add(bytes@),
{
    let mut i: usize = 0;
    let ghost before = out@;
    assert(out@ =~= before.add(bytes@.take(0)));
    while i < bytes.len()
        invariant
            i <= bytes@.len(),
            out@ == before.add(bytes@.take(i as int)),
        decreases bytes@.len() - i,
    {
        out.push(bytes[i]);
        i = i + 1;
        assert(out@ =~= before.add(bytes@.take(i as int)));
    }
    assert(bytes@.take(i as int) =~= bytes@);
}

/// Lines do not reach across the end of a part that ends with a newline: what a buffer
/// selects is what its parts select, one after the other.
pub proof fn law_selection_by_parts(
    a: Seq<u8>,
    b: Seq<u8>,
    start: int,
    name: Seq<char>,
    literal: Seq<u8>,
)
    requires
        0 <= start <= a.len(),
        a.len() > 0 ==> a.last() == LF,
    ensures
        selected(a.add(b), start, name, literal) == selected(a, start, name, literal).add(
            selected(b, 0, name, literal),
        ),
    decreases a.len() - start,
{
    let whole = a.add(b);
    let tail = selected(b, 0, name, literal);
    if start == a.len() {
        lemma_shifted(a, b, 0, name, literal);
        assert(selected(a, start, name, literal).add(tail) =~= tail);
    } else {
        lemma_line_end(a, start);
        lemma_line_end_prefix(a, b, start);
        let end = line_end(a, start);
        assert(whole.subrange(start, end) =~= a.subrange(start, end));
        law_selection_by_parts(a, b, end + 1, name, literal);
        let line = a.subrange(start, end);
        let rest = selected(a, end + 1, name, literal);
        if line_hit(line, name, literal) {
            assert(line.push(LF).add(rest).add(tail) =~= line.push(LF).add(rest.add(tail)));
        }
    }
}

/// A line that ends inside the first part ends there in the whole.
proof fn lemma_line_end_prefix(a: Seq<u8>, b: Seq<u8>, i: int)
    requires
        0 <= i < a.len(),
        a.last() == LF,
    ensures
        line_end(a.add(b), i) == line_end(a, i) < a.len(),
    decreases a.len() - i,
{
    let whole = a.add(b);
    assert(whole[i] == a[i]);
    if a[i] != LF {
        lemma_line_end_prefix(a, b, i + 1);
    }
}

/// What the second part selects does not depend on the first.
proof fn lemma_shifted(a: Seq<u8>, b: Seq<u8>, i: int, name: Seq<char>, literal: Seq<u8>)
    requires
        0 <= i,
    ensures
        selected(a.add(b), a.len() + i, name, literal) == selected(b, i, name, literal),
    decreases b.len() + 1 - i,
{
    let whole = a.add(b);
    if i < b.len() {
        lemma_line_end(b, i);
        lemma_line_end_shifted(a, b, i);
        let end = line_end(b, i);
        lemma_shifted(a, b, end + 1, name, literal);
        assert(whole.subrange(a.len() + i, a.len() + end) =~= b.subrange(i, end));
    }
}

proof fn lemma_line_end_shifted(a: Seq<u8>, b: Seq<u8>, i: int)
    requires
        0 <= i <= b.len(),
    ensures
        line_end(a.add(b), a.len() + i) == a.len() + line_end(b, i),
    decreases b.len() - i,
{
    if i < b.len() {
        assert(a.add(b)[a.len() + i] == b[i]);
        lemma_line_end_shifted(a, b, i + 1);
    }
}

/// No line from `start` on is longer than a chunk: every chunk ends with a newline or at the
/// end of the buffer.
pub open spec fn lines_fit(buf: Seq<u8>, start: int, target: int) -> bool
    decreases buf.len() - start,
    via lines_fit_decreases
{
    start >= buf.len() || target <= 0 || {
        let end = chunk_end(buf, start, target);
        (end == buf.len() || buf[end - 1] == LF) && lines_fit(buf, end, target)
    }
}

#[via_fn]
proof fn lines_fit_decreases(buf: Seq<u8>, start: int, target: int) {
    lemma_chunk_end(buf, start, target);
}

/// What each chunk selects.
pub open spec fn selections(
    chunks: Seq<Seq<u8>>,
    name: Seq<char>,
    literal: Seq<u8>,
) -> Seq<Seq<u8>> {
    chunks.map_values(|c: Seq<u8>| selected(c, 0, name, literal))
}

/// Where no line is longer than a chunk, working chunk by chunk selects what working on the
/// whole buffer does, in the same order.
pub proof fn law_selection_by_chunks(
    buf: Seq<u8>,
    start: int,
    target: int,
    name: Seq<char>,
    literal: Seq<u8>,
)
    requires
        0 <= start <= buf.len(),
        0 < target,
        lines_fit(buf, start, target),
    ensures
        joined(selections(chunks_from(buf, start, target), name, literal)) == selected(
            buf.skip(start),
            0,
            name,
            literal,
        ),
    decreases buf.len() - start,
{
    let chunks = chunks_from(buf, start, target);
    let parts = selections(chunks, name, literal);
    if start < buf.len() {
        lemma_chunk_end(buf, start, target);
        let end = chunk_end(buf, start, target);
        let head = buf.subrange(start, end);
        let tail = buf.skip(end);
        law_selection_by_chunks(buf, end, target, name, literal);
        assert(chunks.skip(1) =~= chunks_from(buf, end, target));
        assert(parts[0] == selected(head, 0, name, literal));
        assert(parts.skip(1) =~= selections(chunks.skip(1), name, literal));
        if end == buf.len() {
            assert(tail =~= Seq::<u8>::empty());
            assert(buf.skip(start) =~= head);
            assert(selected(tail, 0, name, literal) =~= Seq::<u8>::empty());
            assert(parts[0].add(Seq::<u8>::empty()) =~= parts[0]);
        } else {
            assert(head.last() == LF);
            assert(buf.skip(start) =~= head.add(tail));
            law_selection_by_parts(head, tail, 0, name, literal);
        }
    }
}

} // verus!
