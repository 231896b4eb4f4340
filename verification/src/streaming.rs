//! One index per line of newline-delimited JSON.
//!
//! [`LineFeed`] decides what becomes of each line that a reader hands over. [`LineBuilder`]
//! reads the lines of a buffer in memory.

use vstd::prelude::*;

use crate::api::{BuildOptions, Error, StructuralIndex};
use crate::ascii::{CR, LF, SPACE, TAB};
use crate::from_tape::{parse_opts, parses, refuses};
use crate::laws::lines::{
    blank_between, first_line_from, law_next_document_is_the_next_line,
    law_only_blank_lines_are_skipped,
};
use crate::ndjson::{lemma_line_end, line_end};

verus! {

/// A line with its index.
pub struct LineParsed {
    /// The bytes that the index describes.
    pub bytes: Vec<u8>,
    /// The index.
    pub index: StructuralIndex,
}

/// What became of a line.
pub enum LineStep {
    /// The input has ended.
    End,
    /// The line held nothing but blanks.
    Skip,
    /// The line was indexed.
    Line(LineParsed),
}

/// A line without the line feeds and carriage returns at its end.
pub open spec fn trimmed(line: Seq<u8>) -> Seq<u8>
    decreases line.len(),
{
    if line.len() > 0 && (line.last() == LF || line.last() == CR) {
        trimmed(line.drop_last())
    } else {
        line
    }
}

/// Nothing but spaces and tabs.
pub open spec fn is_blank(s: Seq<u8>) -> bool {
    forall|i: int| 0 <= i < s.len() ==> #[trigger] s[i] == SPACE || s[i] == TAB
}

/// The state between two lines: which parts to build, and whether the input has ended.
pub struct LineFeed {
    opts: BuildOptions,
    done: bool,
}

impl LineFeed {
    /// Whether indexes get a key layer.
    pub closed spec fn keys(&self) -> bool {
        self.opts.keys
    }

    /// The input has ended.
    pub closed spec fn ended(&self) -> bool {
        self.done
    }

    /// A feed whose input has not ended.
    pub fn with_options(opts: BuildOptions) -> (r: Self)
        ensures
            r.keys() == opts.keys,
            !r.ended(),
    {
        LineFeed { opts, done: false }
    }

    /// Whether the input has ended.
    pub fn is_done(&self) -> (r: bool)
        ensures
            r == self.ended(),
    {
        self.done
    }

    /// Ends the input.
    pub fn stop(&mut self)
        ensures
            final(self).ended(),
            final(self).keys() == old(self).keys(),
    {
        self.done = true;
    }

    /// Takes the next line, with its line end if it has one; an empty line means that the
    /// input has ended. Blank lines are skipped, others indexed.
    pub fn feed(&mut self, line: Vec<u8>) -> (r: Result<LineStep, Error>)
        ensures
            final(self).keys() == old(self).keys(),
            final(self).ended() == (old(self).ended() || line@.len() == 0),
            match r {
                Ok(LineStep::End) => old(self).ended() || line@.len() == 0,
                Ok(LineStep::Skip) => !old(self).ended() && line@.len() > 0 && is_blank(
                    trimmed(line@),
                ),
                Ok(LineStep::Line(p)) => {
                    &&& !old(self).ended() && line@.len() > 0 && !is_blank(trimmed(line@))
                    &&& parses(trimmed(line@), p.bytes@, p.index, old(self).keys())
                },
                Err(e) => {
                    &&& !old(self).ended() && line@.len() > 0 && !is_blank(trimmed(line@))
                    &&& e matches Error::Parse(s) && refuses(trimmed(line@), s@)
                },
            },
            r matches Ok(LineStep::Skip) ==> blank_between(line@, 0, line@.len() as int),
    {
        proof {
            law_only_blank_lines_are_skipped(line@);
        }
        if self.done {
            return Ok(LineStep::End);
        }
        if line.len() == 0 {
            self.done = true;
            return Ok(LineStep::End);
        }
        let bytes = trim_line(line);
        if blank_line(&bytes) {
            return Ok(LineStep::Skip);
        }
        match parse_opts(bytes, self.opts.clone()) {
            Ok(p) => Ok(LineStep::Line(LineParsed { bytes: p.bytes, index: p.index })),
            Err(e) => Err(e),
        }
    }
}

/// Drops the line feeds and carriage returns at the end.
fn trim_line(line: Vec<u8>) -> (r: Vec<u8>)
    ensures
        r@ == trimmed(line@),
{
    let ghost whole = trimmed(line@);
    let mut out = line;
    while out.len() > 0 && (out[out.len() - 1] == LF || out[out.len() - 1] == CR)
        invariant
            trimmed(out@) == whole,
        decreases out@.len(),
    {
        out.pop();
    }
    out
}

/// Whether a line holds nothing but spaces and tabs.
fn blank_line(line: &Vec<u8>) -> (r: bool)
    ensures
        r == is_blank(line@),
{
    let mut i: usize = 0;
    while i < line.len()
        invariant
            i <= line@.len(),
            forall|k: int| 0 <= k < i ==> #[trigger] line@[k] == SPACE || line@[k] == TAB,
        decreases line@.len() - i,
    {
        if line[i] != SPACE && line[i] != TAB {
            return false;
        }
        i = i + 1;
    }
    true
}

/// One past the line from `pos` on, its newline included.
pub open spec fn next_pos(src: Seq<u8>, pos: int) -> int {
    if line_end(src, pos) < src.len() {
        line_end(src, pos) + 1
    } else {
        src.len() as int
    }
}

/// The next line from `pos` on that is not blank, trimmed, and the position behind it.
pub open spec fn next_document(src: Seq<u8>, pos: int) -> Option<(Seq<u8>, int)>
    decreases src.len() - pos,
    via next_document_decreases
{
    if pos < 0 || pos >= src.len() {
        None
    } else {
        let line = trimmed(src.subrange(pos, next_pos(src, pos)));
        if is_blank(line) {
            next_document(src, next_pos(src, pos))
        } else {
            Some((line, next_pos(src, pos)))
        }
    }
}

#[via_fn]
proof fn next_document_decreases(src: Seq<u8>, pos: int) {
    if 0 <= pos < src.len() {
        lemma_line_end(src, pos);
    }
}

/// Reads a buffer line by line.
pub struct LineBuilder<'a> {
    src: &'a [u8],
    pos: usize,
    lines: LineFeed,
}

impl<'a> LineBuilder<'a> {
    /// The buffer.
    pub closed spec fn source(&self) -> Seq<u8> {
        self.src@
    }

    /// Where the next line begins.
    pub closed spec fn position(&self) -> int {
        self.pos as int
    }

    /// Whether indexes get a key layer.
    pub closed spec fn keys(&self) -> bool {
        self.lines.keys()
    }

    /// No further line will be read.
    pub closed spec fn ended(&self) -> bool {
        self.lines.ended()
    }

    /// The position lies in the buffer.
    pub closed spec fn wf(&self) -> bool {
        self.pos <= self.src@.len()
    }

    /// Reads `src` and builds everything.
    pub fn new(src: &'a [u8]) -> (r: Self)
        ensures
            r.wf(),
            r.source() == src@,
            r.position() == 0,
            r.keys(),
            !r.ended(),
    {
        Self::with_options(src, BuildOptions::default())
    }

    /// Reads `src` and builds what the options ask for.
    pub fn with_options(src: &'a [u8], opts: BuildOptions) -> (r: Self)
        ensures
            r.wf(),
            r.source() == src@,
            r.position() == 0,
            r.keys() == opts.keys,
            !r.ended(),
    {
        LineBuilder { src, pos: 0, lines: LineFeed::with_options(opts) }
    }

    /// Indexes the next line that is not blank; `None` at the end. A line that is no document
    /// is an error, and the next call goes on behind it.
    pub fn next_line(&mut self) -> (r: Result<Option<LineParsed>, Error>)
        requires
            old(self).wf(),
        ensures
            final(self).wf(),
            final(self).source() == old(self).source(),
            final(self).keys() == old(self).keys(),
            ({
                let next = next_document(old(self).source(), old(self).position());
                match r {
                    Ok(None) => {
                        &&& old(self).ended() || next is None
                        &&& old(self).ended() || blank_between(
                            old(self).source(),
                            old(self).position(),
                            old(self).source().len() as int,
                        )
                        &&& final(self).ended()
                    },
                    Ok(Some(p)) => {
                        &&& !old(self).ended() && next is Some
                        &&& final(self).position() == (next->0).1
                        &&& first_line_from(
                            old(self).source(),
                            old(self).position(),
                            (next->0).0,
                            final(self).position(),
                        )
                        &&& !final(self).ended()
                        &&& parses((next->0).0, p.bytes@, p.index, old(self).keys())
                    },
                    Err(e) => {
                        &&& !old(self).ended() && next is Some
                        &&& final(self).position() == (next->0).1
                        &&& first_line_from(
                            old(self).source(),
                            old(self).position(),
                            (next->0).0,
                            final(self).position(),
                        )
                        &&& !final(self).ended()
                        &&& e matches Error::Parse(s) && refuses((next->0).0, s@)
                    },
                }
            }),
    {
        let ghost src = self.src@;
        let ghost next = next_document(src, self.pos as int);
        proof {
            law_next_document_is_the_next_line(src, self.pos as int);
        }
        if self.lines.is_done() {
            return Ok(None);
        }
        loop
            invariant
                self.pos <= self.src@.len(),
                src == self.src@,
                src == old(self).source(),
                self.lines.keys() == old(self).keys(),
                !self.lines.ended(),
                !old(self).ended(),
                next == next_document(src, old(self).position()),
                next_document(src, self.pos as int) == next,
                match next {
                    None => blank_between(src, old(self).position(), src.len() as int),
                    Some((doc, to)) => first_line_from(src, old(self).position(), doc, to),
                },
            decreases self.src@.len() - self.pos,
        {
            let n: usize = self.src.len();
            let from: usize = self.pos;
            let mut i: usize = from;
            while i < n && self.src[i] != LF
                invariant
                    from <= i <= n == self.src@.len(),
                    src == self.src@,
                    line_end(src, i as int) == line_end(src, from as int),
                decreases n - i,
            {
                i = i + 1;
            }
            let end: usize = if i < n {
                i + 1
            } else {
                n
            };
            assert(end == next_pos(src, from as int));
            let line = vstd::slice::slice_to_vec(&self.src[from..end]);
            self.pos = end;
            match self.lines.feed(line) {
                Ok(LineStep::End) => {
                    return Ok(None);
                },
                Ok(LineStep::Skip) => {},
                Ok(LineStep::Line(p)) => {
                    return Ok(Some(p));
                },
                Err(e) => {
                    return Err(e);
                },
            }
        }
    }

    /// The lines one after the other, up to the first error.
    pub fn into_iter(self) -> (r: LineIter<'a>)
        ensures
            r.builder() == self,
    {
        LineIter { inner: self }
    }
}

/// A walk over the lines of a buffer that stops behind the first error.
pub struct LineIter<'a> {
    inner: LineBuilder<'a>,
}

impl<'a> LineIter<'a> {
    /// What the walk reads from.
    pub closed spec fn builder(&self) -> LineBuilder<'a> {
        self.inner
    }

    /// The next line, or the error that ends the walk.
    pub fn next(&mut self) -> (r: Option<Result<LineParsed, Error>>)
        requires
            old(self).builder().wf(),
        ensures
            final(self).builder().wf(),
            final(self).builder().source() == old(self).builder().source(),
            final(self).builder().keys() == old(self).builder().keys(),
            ({
                let b = old(self).builder();
                let next = next_document(b.source(), b.position());
                match r {
                    None => (b.ended() || next is None) && final(self).builder().ended(),
                    Some(Ok(p)) => {
                        &&& !b.ended() && next is Some
                        &&& final(self).builder().position() == (next->0).1
                        &&& !final(self).builder().ended()
                        &&& parses((next->0).0, p.bytes@, p.index, b.keys())
                    },
                    Some(Err(e)) => {
                        &&& !b.ended() && next is Some
                        &&& final(self).builder().ended()
                        &&& e matches Error::Parse(s) && refuses((next->0).0, s@)
                    },
                }
            }),
    {
        match self.inner.next_line() {
            Ok(Some(p)) => Some(Ok(p)),
            Ok(None) => None,
            Err(e) => {
                self.inner.lines.stop();
                Some(Err(e))
            },
        }
    }
}

} // verus!
