//! The public face of the index: opaque tokens, spans, key lookups and fused queries.

use std::sync::Arc;

use croaring::Bitmap;
use vstd::prelude::*;
use vstd::std_specs::convert::FromSpecImpl;
use vstd::utf8::valid_utf8;

pub use crate::from_tape::from_simdjson;
pub use crate::hits::KeyHits;
pub use crate::multi_key::{multi_key_finder, multi_key_scan, try_multi_key_finder};
pub use crate::numbers::{json_number_eq, parse_i64};
pub use crate::text::json_string_eq;
use crate::hits::ids;
use crate::index::{
    covers, fits_index, in_byte_order, index_tokens, law_index_tokens_in_order, lemma_links, links,
    links_descend, tape_number, StructIndex,
};
use crate::keys::{
    deepest, dict_of, key_name, keys_in_objects, lemma_dict, value_for_key as keys_value_for_key,
    value_from, value_of, KeyBitmaps, Role,
};
use crate::lex::{scan, Kind, Token};
use crate::roaring::{
    add_closed_range, closed_range, cursor_position, cursor_values, lemma_finite_listing,
    lemma_listing, listing, lists, members,
};
use crate::text::{
    is_utf8, lemma_scalar_end, lemma_string_end, scalar_end, scan_scalar_end, scan_string_end,
    string_end, value_eq,
};
use crate::tree::{
    closes, is_close, is_open, lemma_close_after_open, lemma_open_between, lemma_parent, parent_at,
    stack_at,
};

verus! {

/// Opaque token handle: the place of a token in document order.
#[derive(Copy, Clone, Eq, PartialEq, Hash, Debug, Structural)]
pub struct TokenId(pub u32);

impl TokenId {
    /// The place of the token.
    pub fn raw(self) -> (r: u32)
        ensures
            r == self.0,
    {
        self.0
    }
}

impl From<u32> for TokenId {
    fn from(v: u32) -> (r: Self) {
        TokenId(v)
    }
}

impl FromSpecImpl<u32> for TokenId {
    open spec fn obeys_from_spec() -> bool {
        true
    }

    open spec fn from_spec(v: u32) -> TokenId {
        TokenId(v)
    }
}

/// What a token is to a reader of the document.
#[derive(Copy, Clone, Eq, PartialEq, Debug, Structural)]
#[non_exhaustive]
pub enum TokenKind {
    Object,
    Array,
    Key,
    String,
    Scalar,
    ObjectEnd,
    ArrayEnd,
}

/// A byte range of the source, its end excluded.
#[derive(Copy, Clone, Eq, PartialEq, Debug, Structural)]
pub struct ByteSpan {
    pub start: u32,
    pub end: u32,
}

impl ByteSpan {
    /// Number of bytes; none where the end lies in front of the start.
    pub fn len(self) -> (r: u32)
        ensures
            r == (if self.end >= self.start {
                self.end - self.start
            } else {
                0
            }),
    {
        if self.end >= self.start {
            self.end - self.start
        } else {
            0
        }
    }

    /// Whether the span holds no byte.
    pub fn is_empty(self) -> (r: bool)
        ensures
            r == (self.end <= self.start),
    {
        self.end <= self.start
    }

    /// The bytes of the span.
    pub fn slice<'a>(self, bytes: &'a [u8]) -> (r: &'a [u8])
        requires
            self.start <= self.end <= bytes@.len(),
        ensures
            r@ == bytes@.subrange(self.start as int, self.end as int),
    {
        &bytes[self.start as usize..self.end as usize]
    }
}

/// Why an index could not be had.
#[derive(Debug)]
pub enum Error {
    /// The document is not well formed; the text says in what way.
    Parse(String),
    /// A container is closed that was not opened.
    UnbalancedClose,
    /// The document ends too early.
    Truncated,
    /// The bytes are not UTF-8.
    InvalidUtf8,
}

impl Error {
    /// The error in words.
    pub open spec fn text(&self) -> Seq<char> {
        match self {
            Error::Parse(s) => "parse error: "@ + s@,
            Error::UnbalancedClose => "unbalanced container close"@,
            Error::Truncated => "truncated input"@,
            Error::InvalidUtf8 => "invalid UTF-8"@,
        }
    }

    /// The error in words.
    pub fn message(&self) -> (r: String)
        ensures
            r@ == self.text(),
    {
        match self {
            Error::Parse(s) => {
                let mut out: String = "parse error: ".to_owned();
                out.append(s.as_str());
                out
            },
            Error::UnbalancedClose => "unbalanced container close".to_owned(),
            Error::Truncated => "truncated input".to_owned(),
            Error::InvalidUtf8 => "invalid UTF-8".to_owned(),
        }
    }
}

/// Which parts of an index to build.
#[derive(Debug)]
#[non_exhaustive]
pub struct BuildOptions {
    /// The key layer.
    pub keys: bool,
    /// Token roles; they come with the key layer.
    pub roles: bool,
    /// Close links; every index has them.
    pub close_of: bool,
    /// Tape numbers without entries for closes; indexes built from a tape have them.
    pub tape_alignment: bool,
}

impl Clone for BuildOptions {
    fn clone(&self) -> (r: Self)
        ensures
            r == *self,
    {
        BuildOptions {
            keys: self.keys,
            roles: self.roles,
            close_of: self.close_of,
            tape_alignment: self.tape_alignment,
        }
    }
}

impl Default for BuildOptions {
    /// Everything but tape alignment.
    fn default() -> (r: Self)
        ensures
            r == (BuildOptions { keys: true, roles: true, close_of: true, tape_alignment: false }),
    {
        BuildOptions { keys: true, roles: true, close_of: true, tape_alignment: false }
    }
}

impl BuildOptions {
    /// The columns alone.
    pub fn minimal() -> (r: Self)
        ensures
            r == (BuildOptions {
                keys: false,
                roles: false,
                close_of: false,
                tape_alignment: false,
            }),
    {
        BuildOptions { keys: false, roles: false, close_of: false, tape_alignment: false }
    }

    /// Keys and roles.
    pub fn keys_only() -> (r: Self)
        ensures
            r == (BuildOptions { keys: true, roles: true, close_of: false, tape_alignment: false }),
    {
        BuildOptions { keys: true, roles: true, close_of: false, tape_alignment: false }
    }

    /// Everything.
    pub fn for_jetro_tape() -> (r: Self)
        ensures
            r == (BuildOptions { keys: true, roles: true, close_of: true, tape_alignment: true }),
    {
        BuildOptions { keys: true, roles: true, close_of: true, tape_alignment: true }
    }
}

// ---------------------------------------------------------------------------
// The index
// ---------------------------------------------------------------------------

/// Structural index over a JSON document. Cheap to hand around: what it holds is shared.
pub struct StructuralIndex {
    pub(crate) inner: Arc<Inner>,
}

pub(crate) struct Inner {
    pub idx: StructIndex,
    pub keys: Option<KeyBitmaps>,
}

impl StructuralIndex {
    /// The columns.
    pub closed spec fn index(&self) -> StructIndex {
        self.inner.idx
    }

    /// The key layer, where it was built.
    pub closed spec fn key_layer(&self) -> Option<KeyBitmaps> {
        self.inner.keys
    }

    /// Number of tokens.
    pub open spec fn spec_len(&self) -> nat {
        self.index().spec_len()
    }

    /// The tokens.
    pub open spec fn toks(&self) -> Seq<Token> {
        self.index().stage1@
    }

    /// The kinds of the tokens.
    pub open spec fn kinds(&self) -> Seq<Kind> {
        self.index().stage1.kind@
    }

    /// Per token, the name that it spells as a key. Without a key layer none is known.
    pub open spec fn key_names(&self) -> Seq<Option<Seq<char>>> {
        match self.key_layer() {
            Some(kb) => kb.names(),
            None => Seq::new(self.spec_len(), |i: int| None),
        }
    }

    /// The columns form a tree, and the key layer describes the same tokens.
    #[verifier::type_invariant]
    pub open spec fn wf(&self) -> bool {
        &&& self.index().tree_ok()
        &&& match self.key_layer() {
            Some(kb) => {
                &&& kb.wf()
                &&& kb.n_tokens == self.spec_len()
                &&& kb.depths_match(self.index().stage1.depth@)
                &&& keys_in_objects(self.kinds(), kb.names())
            },
            None => true,
        }
    }

    /// The tokens that spell `name` as a key, at the given depth where one is given.
    pub open spec fn key_tokens(&self, name: Seq<char>, depth: Option<u16>) -> Set<u32> {
        Set::new(
            |t: u32|
                {
                    &&& t < self.spec_len()
                    &&& self.key_names()[t as int] == Some(name)
                    &&& match depth {
                        Some(d) => self.toks()[t as int].depth == d,
                        None => true,
                    }
                },
        )
    }

    pub(crate) fn assemble(idx: StructIndex, keys: Option<KeyBitmaps>) -> (r: Self)
        requires
            idx.tree_ok(),
            match keys {
                Some(kb) => {
                    &&& kb.wf()
                    &&& kb.n_tokens == idx.spec_len()
                    &&& kb.depths_match(idx.stage1.depth@)
                    &&& keys_in_objects(idx.stage1.kind@, kb.names())
                },
                None => true,
            },
        ensures
            r.index() == idx,
            r.key_layer() == keys,
    {
        StructuralIndex { inner: Arc::new(Inner { idx, keys }) }
    }

    /// Number of tokens.
    pub fn token_count(&self) -> (r: u32)
        ensures
            r == self.spec_len(),
    {
        proof {
            use_type_invariant(self);
        }
        self.inner.idx.stage1.len() as u32
    }

    /// The greatest nesting depth of a token, `0` without tokens.
    pub fn max_depth(&self) -> (r: u16)
        ensures
            forall|i: int| 0 <= i < self.spec_len() ==> (#[trigger] self.toks()[i]).depth <= r,
            self.spec_len() > 0 ==> exists|i: int|
                0 <= i < self.spec_len() && (#[trigger] self.toks()[i]).depth == r,
            self.spec_len() == 0 ==> r == 0,
    {
        proof {
            use_type_invariant(self);
        }
        let ghost depth = self.index().stage1.depth@;
        let r: u16 = deepest(&self.inner.idx.stage1.depth);
        assert forall|i: int| 0 <= i < self.spec_len() implies (#[trigger] self.toks()[i]).depth
            <= r by {
            assert(self.toks()[i].depth == depth[i]);
        }
        proof {
            if depth.len() > 0 {
                let i = depth.index_of(r);
                assert(self.toks()[i].depth == r);
            }
        }
        r
    }

    /// What a token is. A string is told from a key where the key layer was built.
    pub fn kind(&self, tok: TokenId) -> (r: TokenKind)
        requires
            tok.0 < self.spec_len(),
        ensures
            r == (match self.kinds()[tok.0 as int] {
                Kind::ObjOpen => TokenKind::Object,
                Kind::ArrOpen => TokenKind::Array,
                Kind::ObjClose => TokenKind::ObjectEnd,
                Kind::ArrClose => TokenKind::ArrayEnd,
                Kind::Quote => if self.key_names()[tok.0 as int] is Some {
                    TokenKind::Key
                } else {
                    TokenKind::String
                },
                Kind::Scalar | Kind::Colon | Kind::Comma => TokenKind::Scalar,
            }),
    {
        proof {
            use_type_invariant(self);
        }
        let i: usize = tok.0 as usize;
        let key = match &self.inner.keys {
            Some(kb) => kb.role[i] == Role::Key,
            None => false,
        };
        match self.inner.idx.stage1.kind[i] {
            Kind::ObjOpen => TokenKind::Object,
            Kind::ArrOpen => TokenKind::Array,
            Kind::ObjClose => TokenKind::ObjectEnd,
            Kind::ArrClose => TokenKind::ArrayEnd,
            Kind::Quote => if key {
                TokenKind::Key
            } else {
                TokenKind::String
            },
            Kind::Scalar | Kind::Colon | Kind::Comma => TokenKind::Scalar,
        }
    }

    /// Nesting depth of a token, `0` at the root.
    pub fn depth(&self, tok: TokenId) -> (r: u16)
        requires
            tok.0 < self.spec_len(),
        ensures
            r == self.toks()[tok.0 as int].depth,
    {
        proof {
            use_type_invariant(self);
        }
        self.inner.idx.stage1.depth[tok.0 as usize]
    }

    /// Where a token begins in the source.
    pub fn byte_offset(&self, tok: TokenId) -> (r: u32)
        requires
            tok.0 < self.spec_len(),
        ensures
            r == self.toks()[tok.0 as int].offset,
    {
        proof {
            use_type_invariant(self);
        }
        self.inner.idx.stage1.offset[tok.0 as usize]
    }

    /// The container that holds a token, `None` at the root.
    pub fn parent(&self, tok: TokenId) -> (r: Option<TokenId>)
        requires
            tok.0 < self.spec_len(),
        ensures
            match r {
                Some(p) => p.0 == parent_at(self.kinds(), tok.0 as int) && p.0 < tok.0,
                None => parent_at(self.kinds(), tok.0 as int) < 0,
            },
    {
        proof {
            use_type_invariant(self);
            lemma_parent(self.kinds(), tok.0 as int);
        }
        let p: i32 = self.inner.idx.parent[tok.0 as usize];
        if p < 0 {
            None
        } else {
            Some(TokenId(p as u32))
        }
    }

    /// The close of a container, `None` for a token that opens none.
    pub fn close_of(&self, container: TokenId) -> (r: Option<TokenId>)
        requires
            container.0 < self.spec_len(),
        ensures
            match r {
                Some(c) => closes(self.kinds(), container.0 as int, c.0 as int),
                None => !is_open(self.kinds()[container.0 as int]),
            },
    {
        proof {
            use_type_invariant(self);
        }
        let c: i32 = self.inner.idx.close_of[container.0 as usize];
        if c < 0 {
            None
        } else {
            Some(TokenId(c as u32))
        }
    }

    /// The tape number of a token, `None` for one without.
    pub fn tape_index(&self, tok: TokenId) -> (r: Option<u32>)
        requires
            tok.0 < self.spec_len(),
        ensures
            r == (if self.index().tape_of@[tok.0 as int] == u32::MAX {
                None
            } else {
                Some(self.index().tape_of@[tok.0 as int])
            }),
    {
        proof {
            use_type_invariant(self);
        }
        let t: u32 = self.inner.idx.tape_of[tok.0 as usize];
        if t == u32::MAX {
            None
        } else {
            Some(t)
        }
    }

    /// The innermost container that covers byte `pos`, `None` outside all of them.
    pub fn container_at_byte(&self, pos: u32) -> (r: Option<TokenId>)
        requires
            self.index().sorted(),
        ensures
            match r {
                Some(c) => covers(self.toks(), c.0 as int, pos as int) && forall|d: int| #[trigger]
                    covers(self.toks(), d, pos as int) ==> d <= c.0,
                None => forall|d: int| !#[trigger] covers(self.toks(), d, pos as int),
            },
    {
        proof {
            use_type_invariant(self);
        }
        match self.inner.idx.container_at(pos) {
            Some(c) => Some(TokenId(c)),
            None => None,
        }
    }

    /// Whether the tokens come in strictly ascending byte order, as they do in an index built
    /// over bytes.
    pub fn in_byte_order(&self) -> (r: bool)
        ensures
            r == self.index().sorted(),
    {
        self.inner.idx.in_byte_order()
    }

    /// Whether the key layer was built.
    pub fn has_keys(&self) -> (r: bool)
        ensures
            r == (self.key_layer() is Some),
    {
        self.inner.keys.is_some()
    }

    /// Whether some token spells `name` as a key.
    pub fn has_key(&self, name: &str) -> (r: bool)
        ensures
            r == self.key_names().contains(Some(name@)),
    {
        proof {
            use_type_invariant(self);
        }
        match &self.inner.keys {
            Some(kb) => kb.contains_key(name),
            None => false,
        }
    }

    /// The value of a key: the next token of its container that is no separator.
    pub fn value_for_key(&self, key_tok: TokenId) -> (r: Option<TokenId>)
        requires
            key_tok.0 < self.spec_len(),
        ensures
            match r {
                Some(v) => value_of(self.kinds(), key_tok.0 as int) == Some(v.0 as int)
                    && key_tok.0 < v.0 < self.spec_len(),
                None => value_of(self.kinds(), key_tok.0 as int) is None,
            },
    {
        proof {
            use_type_invariant(self);
            lemma_value_in_range(self.kinds(), key_tok.0 as int, key_tok.0 + 1);
        }
        match keys_value_for_key(&self.inner.idx, key_tok.0) {
            Some(v) => Some(TokenId(v)),
            None => None,
        }
    }

    /// The distinct key names in order of first appearance.
    pub fn keys_seen(&self) -> (r: Vec<&str>)
        ensures
            r@.len() == dict_of(self.key_names(), self.spec_len() as int).len(),
            forall|i: int|
                0 <= i < r@.len() ==> (#[trigger] r@[i])@ == dict_of(
                    self.key_names(),
                    self.spec_len() as int,
                )[i],
    {
        proof {
            use_type_invariant(self);
        }
        let mut out: Vec<&str> = Vec::new();
        match &self.inner.keys {
            Some(kb) => {
                let mut i: usize = 0;
                while i < kb.dict.len()
                    invariant
                        i <= kb.dict@.len(),
                        out@.len() == i,
                        forall|k: int| 0 <= k < i ==> (#[trigger] out@[k])@ == kb.dict@[k]@,
                    decreases kb.dict@.len() - i,
                {
                    out.push(kb.dict[i].as_str());
                    i = i + 1;
                }
            },
            None => {
                proof {
                    lemma_dict(self.key_names(), self.spec_len() as int);
                    let d = dict_of(self.key_names(), self.spec_len() as int);
                    if d.len() > 0 {
                        assert(d.contains(d[0]));
                    }
                }
            },
        }
        out
    }
}

// ---------------------------------------------------------------------------
// Spans
// ---------------------------------------------------------------------------

impl StructuralIndex {
    /// One past the bytes of token `i` as far as the columns tell: behind the close of a
    /// container, at the next token behind a string or literal, behind its own byte for any
    /// other token.
    pub open spec fn coarse_end(&self, i: int) -> int {
        match self.kinds()[i] {
            Kind::ObjOpen | Kind::ArrOpen => self.toks()[self.index().close_of@[i] as int].offset
                + 1,
            Kind::Quote | Kind::Scalar => if i + 1 < self.spec_len() {
                self.toks()[i + 1].offset
            } else {
                self.toks()[i].offset + 1
            },
            _ => self.toks()[i].offset + 1,
        }
    }

    /// One past the bytes of token `i` in the source: strings up to their closing quote,
    /// literals up to the next delimiter.
    pub open spec fn exact_end(&self, bytes: Seq<u8>, i: int) -> int {
        match self.kinds()[i] {
            Kind::ObjOpen | Kind::ArrOpen => self.toks()[self.index().close_of@[i] as int].offset
                + 1,
            Kind::Quote => string_end(bytes, self.toks()[i].offset + 1),
            Kind::Scalar => scalar_end(bytes, self.toks()[i].offset),
            _ => self.toks()[i].offset + 1,
        }
    }

    /// The bytes of token `i` in the source.
    pub open spec fn token_bytes(&self, bytes: Seq<u8>, i: int) -> Seq<u8> {
        bytes.subrange(self.toks()[i].offset, self.exact_end(bytes, i))
    }

    /// Every token has its bytes inside `bytes`.
    pub open spec fn fits(&self, bytes: Seq<u8>) -> bool {
        &&& self.offsets_fit(bytes)
        &&& forall|i: int|
            0 <= i < self.spec_len() ==> self.toks()[i].offset <= #[trigger] self.exact_end(bytes, i)
                <= bytes.len()
        &&& forall|i: int|
            0 <= i < self.spec_len() ==> #[trigger] self.coarse_end(i) <= bytes.len()
    }

    /// Every token begins inside `bytes`, and no container closes in front of its open.
    pub open spec fn offsets_fit(&self, bytes: Seq<u8>) -> bool {
        &&& bytes.len() <= u32::MAX
        &&& forall|i: int|
            0 <= i < self.spec_len() ==> (#[trigger] self.toks()[i]).offset < bytes.len()
        &&& forall|i: int|
            0 <= i < self.spec_len() && is_open(self.kinds()[i]) ==> self.toks()[i].offset
                <= self.toks()[#[trigger] self.index().close_of@[i] as int].offset
    }

    /// Where the offsets fit, every token has its bytes.
    proof fn lemma_span(&self, bytes: Seq<u8>, i: int)
        requires
            self.index().tree_ok(),
            self.offsets_fit(bytes),
            0 <= i < self.spec_len(),
        ensures
            0 <= self.toks()[i].offset <= self.exact_end(bytes, i) <= bytes.len(),
            self.coarse_end(i) <= bytes.len(),
    {
        lemma_string_end(bytes, self.toks()[i].offset + 1);
        lemma_scalar_end(bytes, self.toks()[i].offset);
        assert(self.toks()[i].offset < bytes.len());
        if is_open(self.kinds()[i]) {
            let c = self.index().close_of@[i] as int;
            assert(closes(self.kinds(), i, c));
            assert(self.toks()[c].offset < bytes.len());
        } else if i + 1 < self.spec_len() {
            assert(self.toks()[i + 1].offset < bytes.len());
        }
    }

    /// Offsets that fit are enough.
    pub(crate) proof fn lemma_fits(&self, bytes: Seq<u8>)
        requires
            self.index().tree_ok(),
            self.offsets_fit(bytes),
        ensures
            self.fits(bytes),
    {
        assert forall|i: int| 0 <= i < self.spec_len() implies self.toks()[i].offset
            <= #[trigger] self.exact_end(bytes, i) <= bytes.len() by {
            self.lemma_span(bytes, i);
        }
        assert forall|i: int| 0 <= i < self.spec_len() implies #[trigger] self.coarse_end(i)
            <= bytes.len() by {
            self.lemma_span(bytes, i);
        }
    }

    /// Whether every token has its bytes inside `bytes`, as holds of the bytes that an index
    /// was built over.
    pub fn describes(&self, bytes: &[u8]) -> (r: bool)
        ensures
            r == self.fits(bytes@),
    {
        proof {
            use_type_invariant(self);
        }
        if bytes.len() > u32::MAX as usize {
            return false;
        }
        let n: usize = self.inner.idx.stage1.len();
        let mut i: usize = 0;
        while i < n
            invariant
                i <= n == self.spec_len(),
                self.index().tree_ok(),
                bytes@.len() <= u32::MAX,
                forall|k: int| 0 <= k < i ==> (#[trigger] self.toks()[k]).offset < bytes@.len(),
                forall|k: int|
                    0 <= k < i && is_open(self.kinds()[k]) ==> self.toks()[k].offset
                        <= self.toks()[#[trigger] self.index().close_of@[k] as int].offset,
            decreases n - i,
        {
            let off: u32 = self.inner.idx.stage1.offset[i];
            assert(self.toks()[i as int].offset == off);
            if off as usize >= bytes.len() {
                return false;
            }
            let close: i32 = self.inner.idx.close_of[i];
            if close >= 0 {
                assert(closes(self.kinds(), i as int, close as int));
                assert(self.toks()[close as int].offset
                    == self.index().stage1.offset@[close as int]);
                if self.inner.idx.stage1.offset[close as usize] < off {
                    return false;
                }
            }
            i = i + 1;
        }
        proof {
            self.lemma_fits(bytes@);
        }
        true
    }

    /// The span of a token as far as the columns tell: exact for containers, up to the next
    /// token for strings and literals. [`StructuralIndex::byte_span_in`] is exact for all.
    pub fn byte_span(&self, tok: TokenId) -> (r: ByteSpan)
        requires
            tok.0 < self.spec_len(),
            self.coarse_end(tok.0 as int) <= u32::MAX,
        ensures
            r.start == self.toks()[tok.0 as int].offset,
            r.end == self.coarse_end(tok.0 as int),
    {
        proof {
            use_type_invariant(self);
        }
        let s = &self.inner.idx.stage1;
        let i: usize = tok.0 as usize;
        let start: u32 = s.offset[i];
        let end: u32 = match s.kind[i] {
            Kind::ObjOpen | Kind::ArrOpen => {
                let close: i32 = self.inner.idx.close_of[i];
                assert(closes(self.kinds(), i as int, close as int));
                s.offset[close as usize] + 1
            },
            Kind::Quote | Kind::Scalar => if i + 1 < s.len() {
                s.offset[i + 1]
            } else {
                start + 1
            },
            _ => start + 1,
        };
        ByteSpan { start, end }
    }

    /// The exact span of a token, read off the source bytes: strings end behind their
    /// closing quote, literals in front of the next delimiter.
    pub fn byte_span_in(&self, tok: TokenId, bytes: &[u8]) -> (r: ByteSpan)
        requires
            tok.0 < self.spec_len(),
            self.exact_end(bytes@, tok.0 as int) <= u32::MAX,
        ensures
            r.start == self.toks()[tok.0 as int].offset,
            r.end == self.exact_end(bytes@, tok.0 as int),
    {
        proof {
            use_type_invariant(self);
        }
        let s = &self.inner.idx.stage1;
        let i: usize = tok.0 as usize;
        let start: u32 = s.offset[i];
        let end: u32 = match s.kind[i] {
            Kind::ObjOpen | Kind::ArrOpen => {
                let close: i32 = self.inner.idx.close_of[i];
                assert(closes(self.kinds(), i as int, close as int));
                s.offset[close as usize] + 1
            },
            Kind::Quote => scan_string_end(bytes, start as usize) as u32,
            Kind::Scalar => scan_scalar_end(bytes, start as usize) as u32,
            _ => start + 1,
        };
        ByteSpan { start, end }
    }

    /// The bytes of a token, cut off where the source ends.
    pub fn slice<'a>(&self, bytes: &'a [u8], tok: TokenId) -> (r: &'a [u8])
        requires
            tok.0 < self.spec_len(),
            self.exact_end(bytes@, tok.0 as int) <= u32::MAX,
            self.toks()[tok.0 as int].offset <= self.exact_end(bytes@, tok.0 as int),
            self.toks()[tok.0 as int].offset <= bytes@.len(),
        ensures
            r@ == bytes@.subrange(
                self.toks()[tok.0 as int].offset,
                if self.exact_end(bytes@, tok.0 as int) <= bytes@.len() {
                    self.exact_end(bytes@, tok.0 as int)
                } else {
                    bytes@.len() as int
                },
            ),
    {
        let span = self.byte_span_in(tok, bytes);
        let end: usize = if span.end as usize <= bytes.len() {
            span.end as usize
        } else {
            bytes.len()
        };
        &bytes[span.start as usize..end]
    }

    // -----------------------------------------------------------------------
    // Walks
    // -----------------------------------------------------------------------

    /// All tokens in document order.
    pub fn tokens(&self) -> (r: Tokens<'_>)
        ensures
            r.position() == 0,
            r.end() == self.spec_len(),
    {
        Tokens { idx: self, cur: 0, end: self.token_count() }
    }

    /// The containers of a token, innermost first.
    pub fn ancestors(&self, tok: TokenId) -> (r: Ancestors<'_>)
        requires
            tok.0 < self.spec_len(),
        ensures
            r.column() == self.index().parent@,
            r.position() == self.index().parent@[tok.0 as int],
            r.position() < r.column().len() == self.spec_len(),
            links_descend(r.column()),
    {
        proof {
            use_type_invariant(self);
            self.index().lemma_links_descend();
        }
        Ancestors {
            parent: self.inner.idx.parent.as_slice(),
            cur: self.inner.idx.parent[tok.0 as usize],
        }
    }
}

/// A walk over all tokens.
pub struct Tokens<'a> {
    idx: &'a StructuralIndex,
    cur: u32,
    end: u32,
}

impl<'a> Tokens<'a> {
    /// The token that comes next.
    pub closed spec fn position(&self) -> int {
        self.cur as int
    }

    /// One past the last token.
    pub closed spec fn end(&self) -> int {
        self.end as int
    }

    /// The next token.
    pub fn next(&mut self) -> (r: Option<TokenId>)
        ensures
            final(self).end() == old(self).end(),
            match r {
                Some(t) => t.0 == old(self).position() < old(self).end() && final(self).position()
                    == old(self).position() + 1,
                None => old(self).position() >= old(self).end() && final(self).position() == old(
                    self,
                ).position(),
            },
    {
        if self.cur >= self.end {
            return None;
        }
        let t = TokenId(self.cur);
        self.cur = self.cur + 1;
        Some(t)
    }
}

/// A walk from a token's container outwards.
pub struct Ancestors<'a> {
    parent: &'a [i32],
    cur: i32,
}

impl<'a> Ancestors<'a> {
    /// The parent column that the walk follows.
    pub closed spec fn column(&self) -> Seq<i32> {
        self.parent@
    }

    /// The token that comes next; negative at the end.
    pub closed spec fn position(&self) -> int {
        self.cur as int
    }

    /// The next container outwards.
    pub fn next(&mut self) -> (r: Option<TokenId>)
        requires
            old(self).position() < old(self).column().len(),
        ensures
            final(self).column() == old(self).column(),
            match r {
                Some(t) => t.0 == old(self).position() && final(self).position() == old(
                    self,
                ).column()[t.0 as int],
                None => old(self).position() < 0 && final(self).position() == old(self).position(),
            },
    {
        if self.cur < 0 {
            return None;
        }
        let out = TokenId(self.cur as u32);
        self.cur = self.parent[self.cur as usize];
        Some(out)
    }

    /// All that is left of the walk.
    pub fn collect(self) -> (r: Vec<TokenId>)
        requires
            links_descend(self.column()),
            self.position() < self.column().len(),
        ensures
            r@ == links(self.column(), self.position()).map_values(|t: u32| TokenId(t)),
            forall|k: int| 0 <= k < r@.len() ==> (#[trigger] r@[k]).0 < self.column().len(),
    {
        let mut walk = self;
        let mut out: Vec<TokenId> = Vec::new();
        let ghost ids = |t: u32| TokenId(t);
        let ghost whole = links(self.column(), self.position()).map_values(ids);
        assert(out@.add(links(walk.column(), walk.position()).map_values(ids)) =~= whole);
        loop
            invariant_except_break
                walk.position() < walk.column().len(),
                out@.add(links(walk.column(), walk.position()).map_values(ids)) == whole,
            invariant
                ids == (|t: u32| TokenId(t)),
                links_descend(walk.column()),
            ensures
                out@ == whole,
            decreases (if walk.position() < 0 {
                0
            } else {
                walk.position() + 1
            }),
        {
            let ghost front = out@;
            match walk.next() {
                Some(t) => {
                    out.push(t);
                    proof {
                        let rest = links(walk.column(), walk.position());
                        assert(out@.add(rest.map_values(ids)) =~= front.add(
                            seq![t.0].add(rest).map_values(ids),
                        ));
                    }
                },
                None => {
                    assert(out@.add(
                        links(walk.column(), walk.position()).map_values(ids),
                    ) =~= out@);
                    break ;
                },
            }
        }
        assert forall|k: int| 0 <= k < out@.len() implies (#[trigger] out@[k]).0
            < self.column().len() by {
            lemma_links(self.column(), self.position(), k);
        }
        out
    }
}

// ---------------------------------------------------------------------------
// Key lookups
// ---------------------------------------------------------------------------

impl StructuralIndex {
    /// The last token of the subtree at token `i`: the close of a container; the token itself
    /// where it opens none.
    pub open spec fn subtree_end(&self, i: int) -> int {
        if is_open(self.kinds()[i]) {
            self.index().close_of@[i] as int
        } else {
            i
        }
    }

    /// The subtree at token `i`: a container from its open to its close, any other token
    /// alone.
    pub open spec fn subtree(&self, i: int) -> Set<u32> {
        closed_range(i, self.subtree_end(i))
    }

    /// The tokens that spell `name` as a key directly inside token `p`.
    pub open spec fn keys_inside(&self, p: int, name: Seq<char>) -> Set<u32> {
        Set::new(
            |t: u32|
                self.key_tokens(name, None).contains(t) && parent_at(self.kinds(), t as int) == p,
        )
    }

    /// The last token of a token's subtree.
    fn subtree_close(&self, root: TokenId) -> (r: u32)
        requires
            root.0 < self.spec_len(),
        ensures
            r == self.subtree_end(root.0 as int),
    {
        proof {
            use_type_invariant(self);
        }
        let c: i32 = self.inner.idx.close_of[root.0 as usize];
        if c < 0 {
            root.0
        } else {
            c as u32
        }
    }

    /// The key layer's sets are the key tokens.
    proof fn lemma_key_sets(&self, name: Seq<char>, depth: Option<u16>)
        requires
            self.wf(),
        ensures
            match self.key_layer() {
                Some(kb) => kb.key_set(name, depth) == self.key_tokens(name, depth),
                None => self.key_tokens(name, depth) == Set::<u32>::empty(),
            },
    {
        match self.key_layer() {
            Some(kb) => {
                assert(kb.key_set(name, depth) =~= self.key_tokens(name, depth));
            },
            None => {
                assert(self.key_tokens(name, depth) =~= Set::<u32>::empty());
            },
        }
    }

    /// The tokens that spell `name` as a key; only those at `depth` where it is given.
    pub fn keys_named<'a>(&'a self, name: &str, depth: Option<u16>) -> (r: KeyHits<'a>)
        ensures
            r.wf(),
            r.set() == self.key_tokens(name@, depth),
            r.remaining() == self.key_tokens(name@, depth),
    {
        proof {
            use_type_invariant(self);
            self.lemma_key_sets(name@, depth);
        }
        match &self.inner.keys {
            Some(kb) => match kb.lookup(name, depth) {
                Some(b) => KeyHits::from_bitmap(b),
                None => KeyHits::empty(),
            },
            None => KeyHits::empty(),
        }
    }

    /// The tokens in the subtree of `root` that spell `name` as a key.
    pub fn keys_named_in<'a>(&'a self, name: &str, root: TokenId) -> (r: KeyHits<'a>)
        requires
            self.key_names().contains(Some(name@)) ==> root.0 < self.spec_len(),
        ensures
            r.wf(),
            r.set() == self.key_tokens(name@, None).intersect(self.subtree(root.0 as int)),
            r.remaining() == r.set(),
    {
        proof {
            use_type_invariant(self);
            self.lemma_key_sets(name@, None);
        }
        let ghost found = self.key_tokens(name@, None).intersect(self.subtree(root.0 as int));
        match &self.inner.keys {
            Some(kb) => match kb.key_id(name) {
                Some(id) => KeyHits::bounded(&kb.bitmaps[id], root.0, self.subtree_close(root)),
                None => {
                    assert(found =~= Set::<u32>::empty());
                    KeyHits::empty()
                },
            },
            None => {
                assert(found =~= Set::<u32>::empty());
                KeyHits::empty()
            },
        }
    }

    /// The value of the first key `name` directly inside the container `parent`.
    pub fn field_of(&self, parent: TokenId, name: &str) -> (r: Option<TokenId>)
        requires
            self.key_names().contains(Some(name@)) ==> parent.0 < self.spec_len(),
        ensures
            ({
                let inside = listing(self.keys_inside(parent.0 as int, name@));
                let value = if inside.len() > 0 {
                    value_of(self.kinds(), inside[0] as int)
                } else {
                    None
                };
                match r {
                    Some(v) => value == Some(v.0 as int) && v.0 < self.spec_len(),
                    None => value is None,
                }
            }),
    {
        proof {
            use_type_invariant(self);
            self.lemma_key_sets(name@, None);
        }
        let ghost set = self.keys_inside(parent.0 as int, name@);
        match &self.inner.keys {
            Some(kb) => match kb.key_id(name) {
                Some(id) => self.first_field(&kb.bitmaps[id], parent, Ghost(name@)),
                None => {
                    proof {
                        assert(set =~= Set::<u32>::empty());
                        lemma_listing(Seq::<u32>::empty(), set);
                    }
                    None
                },
            },
            None => {
                proof {
                    assert(set =~= Set::<u32>::empty());
                    lemma_listing(Seq::<u32>::empty(), set);
                }
                None
            },
        }
    }

    /// Seeks the first key of `bm` directly inside `parent`, within its subtree.
    fn first_field(&self, bm: &Bitmap, parent: TokenId, Ghost(name): Ghost<Seq<char>>) -> (r:
        Option<TokenId>)
        requires
            parent.0 < self.spec_len(),
            members(*bm) == self.key_tokens(name, None),
        ensures
            ({
                let inside = listing(self.keys_inside(parent.0 as int, name));
                let value = if inside.len() > 0 {
                    value_of(self.kinds(), inside[0] as int)
                } else {
                    None
                };
                match r {
                    Some(v) => value == Some(v.0 as int) && v.0 < self.spec_len(),
                    None => value is None,
                }
            }),
    {
        proof {
            use_type_invariant(self);
        }
        let close: u32 = self.subtree_close(parent);
        let lo: u32 = parent.0 + 1;
        let ghost set = self.keys_inside(parent.0 as int, name);
        let ghost list = listing(set);
        proof {
            lemma_finite_listing(set);
            assert forall|t: u32| #[trigger] set.contains(t) implies lo <= t <= close by {
                self.lemma_child_in_subtree(parent.0 as int, t as int);
            }
        }
        let mut cur = bm.cursor();
        cur.reset_at_or_after(lo);
        let ghost all = cursor_values(cur);
        loop
            invariant
                parent.0 < self.spec_len(),
                members(*bm) == self.key_tokens(name, None),
                set == self.keys_inside(parent.0 as int, name),
                list == listing(set),
                lists(list, set),
                forall|t: u32| #[trigger] set.contains(t) ==> lo <= t <= close,
                lists(all, members(*bm)),
                cursor_values(cur) == all,
                0 <= cursor_position(cur) <= all.len(),
                forall|k: int|
                    0 <= k < cursor_position(cur) ==> !set.contains(#[trigger] all[k]),
            ensures
                list.len() == 0,
            decreases all.len() - cursor_position(cur),
        {
            let ghost at = cursor_position(cur);
            match cur.current() {
                Some(v) => {
                    assert(all.contains(v));
                    if v > close {
                        proof {
                            if list.len() > 0 {
                                let t = list[0];
                                assert(list.contains(t));
                                assert(all.contains(t));
                                let k = all.index_of(t);
                                assert(all[k] == t);
                                if at < k {
                                    assert(all[at] < all[k]);
                                }
                            }
                        }
                        break ;
                    }
                    if let Some(p) = self.parent(TokenId(v)) {
                        if p.0 == parent.0 {
                            proof {
                                assert(set.contains(v));
                                assert(list.contains(v));
                                let j = list.index_of(v);
                                assert(list[j] == v);
                                let t = list[0];
                                assert(list.contains(t));
                                assert(all.contains(t));
                                let k = all.index_of(t);
                                assert(all[k] == t);
                                assert(k >= at);
                                if at < k {
                                    assert(all[at] < all[k]);
                                }
                                if 0 < j {
                                    assert(list[0] < list[j]);
                                }
                            }
                            return self.value_for_key(TokenId(v));
                        }
                    }
                    assert(!set.contains(v));
                    cur.move_next();
                },
                None => {
                    proof {
                        if list.len() > 0 {
                            let t = list[0];
                            assert(list.contains(t));
                            assert(all.contains(t));
                            let k = all.index_of(t);
                            assert(all[k] == t);
                        }
                    }
                    break ;
                },
            }
        }
        None
    }

    /// What a container holds lies in its subtree.
    pub proof fn lemma_child_in_subtree(&self, p: int, t: int)
        requires
            self.wf(),
            0 <= t < self.spec_len(),
            0 <= p < self.spec_len(),
            parent_at(self.kinds(), t) == p,
        ensures
            p < t <= self.subtree_end(p),
    {
        let kinds = self.kinds();
        lemma_parent(kinds, t);
        let at = if is_close(kinds[t]) {
            t + 1
        } else {
            t
        };
        let st = stack_at(kinds, at);
        assert(st[st.len() - 1] == p);
        assert(st.contains(p));
        lemma_open_between(kinds, p, at);
        let c = self.index().close_of@[p] as int;
        assert(closes(kinds, p, c));
    }

    /// The subtree of a token as a bitmap.
    pub fn subtree_bitmap(&self, root: TokenId) -> (r: Bitmap)
        requires
            root.0 < self.spec_len(),
        ensures
            members(r) == self.subtree(root.0 as int),
    {
        let close: u32 = self.subtree_close(root);
        let mut out = Bitmap::new();
        add_closed_range(&mut out, root.0, close);
        assert(members(out) =~= self.subtree(root.0 as int));
        out
    }
}

// ---------------------------------------------------------------------------
// Building
// ---------------------------------------------------------------------------

/// `idx` is the index over `bytes`, with a key layer where `keys` says so.
pub open spec fn indexes(idx: StructuralIndex, bytes: Seq<u8>, keys: bool) -> bool {
    &&& idx.wf()
    &&& idx.toks() == index_tokens(bytes)
    &&& idx.index().sorted()
    &&& forall|i: int|
        0 <= i < idx.spec_len() ==> #[trigger] idx.index().tape_of@[i] == tape_number(
            idx.kinds(),
            i,
            true,
        )
    &&& idx.key_layer() is Some <==> keys
    &&& keys ==> forall|i: int|
        0 <= i < idx.spec_len() ==> #[trigger] idx.key_names()[i] == key_name(
            bytes,
            idx.toks(),
            idx.kinds(),
            i,
        )
}

/// Builds an index with everything in it.
pub fn from_bytes(bytes: &[u8]) -> (r: Result<StructuralIndex, Error>)
    requires
        fits_index(bytes@),
    ensures
        match r {
            Ok(idx) => scan(bytes@) is Ok && indexes(idx, bytes@, true) && idx.fits(bytes@),
            Err(e) => e matches Error::Parse(s) && scan(bytes@) == Err::<Seq<Token>, Seq<char>>(
                s@,
            ),
        },
{
    from_bytes_with(bytes, BuildOptions::default())
}

/// Builds an index, with a key layer where the options ask for it.
pub fn from_bytes_with(bytes: &[u8], opts: BuildOptions) -> (r: Result<StructuralIndex, Error>)
    requires
        fits_index(bytes@),
    ensures
        match r {
            Ok(idx) => scan(bytes@) is Ok && indexes(idx, bytes@, opts.keys) && idx.fits(bytes@),
            Err(e) => e matches Error::Parse(s) && scan(bytes@) == Err::<Seq<Token>, Seq<char>>(
                s@,
            ),
        },
{
    let idx = match StructIndex::build(bytes) {
        Ok(idx) => idx,
        Err(e) => return Err(Error::Parse(e.to_owned())),
    };
    let keys = if opts.keys {
        Some(KeyBitmaps::build(&idx, bytes))
    } else {
        None
    };
    let r = StructuralIndex::assemble(idx, keys);
    proof {
        use_type_invariant(&r);
        law_index_fits_its_bytes(r, bytes@, opts.keys);
    }
    Ok(r)
}

/// An index over a buffer fits the buffer.
pub proof fn law_index_fits_its_bytes(idx: StructuralIndex, bytes: Seq<u8>, keys: bool)
    requires
        fits_index(bytes),
        indexes(idx, bytes, keys),
    ensures
        idx.fits(bytes),
{
    law_index_tokens_in_order(bytes);
    lemma_ordered_fits(idx, bytes);
}

/// Tokens in byte order inside `bytes` have their bytes there.
proof fn lemma_ordered_fits(idx: StructuralIndex, bytes: Seq<u8>)
    requires
        idx.index().tree_ok(),
        bytes.len() <= u32::MAX,
        in_byte_order(idx.toks(), bytes.len() as int),
    ensures
        idx.fits(bytes),
{
    let toks = idx.toks();
    let kinds = idx.kinds();
    let close_of = idx.index().close_of@;
    assert(kinds.len() == toks.len());
    assert forall|i: int| 0 <= i < toks.len() && is_open(kinds[i]) implies toks[i].offset
        <= toks[#[trigger] close_of[i] as int].offset by {
        let c = close_of[i] as int;
        assert(closes(kinds, i, c));
        lemma_close_after_open(kinds, i, c);
        assert(toks[i].offset < toks[c].offset);
    }
    idx.lemma_fits(bytes);
}

// ---------------------------------------------------------------------------
// Queries
// ---------------------------------------------------------------------------

impl StructuralIndex {
    /// The key at token `t` has a value whose bytes stand for `literal`.
    pub open spec fn key_eq(&self, bytes: Seq<u8>, t: int, literal: Seq<u8>) -> bool {
        match value_of(self.kinds(), t) {
            Some(v) => value_eq(self.token_bytes(bytes, v), literal),
            None => false,
        }
    }

    /// Some key `name` directly inside container `p` has a value that stands for `literal`.
    pub open spec fn field_eq(
        &self,
        bytes: Seq<u8>,
        p: int,
        name: Seq<char>,
        literal: Seq<u8>,
    ) -> bool {
        exists|t: u32| #[trigger]
            self.keys_inside(p, name).contains(t) && self.key_eq(bytes, t as int, literal)
    }

    /// The token begins an object.
    pub open spec fn is_object(&self, tok: TokenId) -> bool {
        tok.0 < self.spec_len() && self.kinds()[tok.0 as int] == Kind::ObjOpen
    }

    /// A key lies in an object.
    proof fn lemma_key_home(&self, name: Seq<char>, t: u32)
        requires
            self.wf(),
            self.key_tokens(name, None).contains(t),
        ensures
            0 <= parent_at(self.kinds(), t as int) < t,
            self.is_object(TokenId(parent_at(self.kinds(), t as int) as u32)),
    {
        assert(self.key_names()[t as int] is Some);
        lemma_parent(self.kinds(), t as int);
    }

    /// The containers of the listed tokens.
    pub open spec fn homes(&self, s: Seq<u32>) -> Seq<TokenId> {
        s.map_values(|t: u32| TokenId(parent_at(self.kinds(), t as int) as u32))
    }

    /// Whether the key at token `t` has a value whose bytes stand for `literal`.
    pub(crate) fn key_matches(&self, bytes: &[u8], t: TokenId, literal: &[u8]) -> (r: bool)
        requires
            self.fits(bytes@),
            t.0 < self.spec_len(),
        ensures
            r == self.key_eq(bytes@, t.0 as int, literal@),
    {
        proof {
            use_type_invariant(self);
        }
        match self.value_for_key(t) {
            Some(v) => {
                proof {
                    lemma_value_in_range(self.kinds(), t.0 as int, t.0 + 1);
                    assert(self.toks()[v.0 as int].offset <= self.exact_end(bytes@, v.0 as int));
                }
                let span = self.byte_span_in(v, bytes);
                json_string_eq(span.slice(bytes), literal)
            },
            None => false,
        }
    }
}

/// A value is a token behind its key.
pub proof fn lemma_value_in_range(kinds: Seq<Kind>, i: int, j: int)
    ensures
        value_from(kinds, i, j) matches Some(v) ==> j <= v < kinds.len(),
    decreases kinds.len() - j,
{
    if j < kinds.len() && parent_at(kinds, j) == parent_at(kinds, i) && (kinds[j] == Kind::Colon
        || kinds[j] == Kind::Comma) {
        lemma_value_in_range(kinds, i, j + 1);
    }
}

/// One more element: a filtered listing grows by it or not at all.
proof fn lemma_filter_step(s: Seq<u32>, i: int, keep: spec_fn(u32) -> bool)
    requires
        0 <= i < s.len(),
    ensures
        s.take(i + 1).filter(keep) == (if keep(s[i]) {
            s.take(i).filter(keep).push(s[i])
        } else {
            s.take(i).filter(keep)
        }),
{
    reveal(Seq::filter);
    assert(s.take(i + 1).drop_last() =~= s.take(i));
}

/// The objects with a key `key` whose value stands for `literal`, in the order of the keys.
pub open spec fn eq_hits(
    idx: &StructuralIndex,
    bytes: Seq<u8>,
    key: Seq<char>,
    literal: Seq<u8>,
) -> Seq<TokenId> {
    idx.homes(
        listing(idx.key_tokens(key, None)).filter(|t: u32| idx.key_eq(bytes, t as int, literal)),
    )
}

/// Every object with a key `key` whose value stands for `literal`, in the order of the keys.
///
/// `literal` is plain: a string value is compared without its quotes.
pub fn find_eq(idx: &StructuralIndex, bytes: &[u8], key: &str, literal: &[u8]) -> (r: Vec<TokenId>)
    requires
        idx.fits(bytes@),
    ensures
        r@ == eq_hits(idx, bytes@, key@, literal@),
        forall|k: int| 0 <= k < r@.len() ==> idx.is_object(#[trigger] r@[k]),
{
    let hits = idx.keys_named(key, None).collect();
    let ghost all = listing(idx.key_tokens(key@, None));
    let ghost keep = |t: u32| idx.key_eq(bytes@, t as int, literal@);
    proof {
        use_type_invariant(idx);
        lemma_listing(ids(hits@), idx.key_tokens(key@, None));
    }
    let mut out: Vec<TokenId> = Vec::new();
    let mut i: usize = 0;
    proof {
        reveal(Seq::filter);
        assert(out@ =~= idx.homes(all.take(0).filter(keep)));
    }
    while i < hits.len()
        invariant
            i <= hits@.len() == all.len(),
            idx.fits(bytes@),
            all == ids(hits@),
            lists(all, idx.key_tokens(key@, None)),
            idx.wf(),
            keep == (|t: u32| idx.key_eq(bytes@, t as int, literal@)),
            out@ == idx.homes(all.take(i as int).filter(keep)),
            forall|k: int| 0 <= k < out@.len() ==> idx.is_object(#[trigger] out@[k]),
        decreases hits@.len() - i,
    {
        let t = hits[i];
        proof {
            assert(all[i as int] == t.0);
            assert(all.contains(t.0));
            lemma_filter_step(all, i as int, keep);
            idx.lemma_key_home(key@, t.0);
        }
        if idx.key_matches(bytes, t, literal) {
            if let Some(p) = idx.parent(t) {
                out.push(p);
            }
        }
        i = i + 1;
        assert(out@ =~= idx.homes(all.take(i as int).filter(keep)));
    }
    assert(all.take(i as int) =~= all);
    out
}

/// Number of tokens that spell `key` as a key, without looking at values.
pub fn count_key(idx: &StructuralIndex, key: &str) -> (r: u64)
    ensures
        r == idx.key_tokens(key@, None).len(),
{
    idx.keys_named(key, None).count()
}

/// Container `p` meets every condition: a key with the condition's name and a value that
/// stands for its literal.
pub open spec fn meets_all(
    idx: &StructuralIndex,
    bytes: Seq<u8>,
    conds: Seq<(&str, &[u8])>,
    p: int,
) -> bool {
    forall|c: int|
        0 <= c < conds.len() ==> idx.field_eq(bytes, p, (#[trigger] conds[c]).0@, conds[c].1@)
}

/// What a filter keeps of a sequence.
pub(crate) proof fn lemma_filter_keeps(s: Seq<u32>, keep: spec_fn(u32) -> bool, t: u32)
    ensures
        s.filter(keep).contains(t) <==> s.contains(t) && keep(t),
    decreases s.len(),
{
    reveal(Seq::filter);
    if s.len() > 0 {
        let front = s.drop_last();
        lemma_filter_keeps(front, keep, t);
        if s.contains(t) && t != s.last() {
            let k = s.index_of(t);
            assert(front[k] == t);
        }
        if front.contains(t) {
            let k = front.index_of(t);
            assert(s[k] == t);
        }
        if t == s.last() {
            assert(s[s.len() - 1] == t);
        }
        let kept = front.filter(keep);
        let all = s.filter(keep);
        if kept.contains(t) {
            let k = kept.index_of(t);
            assert(all[k] == t);
        }
        if all.contains(t) && !kept.contains(t) {
            let k = all.index_of(t);
            if k < kept.len() {
                assert(kept[k] == t);
            }
            assert(t == s.last());
        }
        if t == s.last() && keep(t) {
            assert(all[all.len() - 1] == t);
        }
    }
}

/// An object is listed where some key of it is kept.
proof fn lemma_homes(
    idx: &StructuralIndex,
    name: Seq<char>,
    keep: spec_fn(u32) -> bool,
    p: TokenId,
)
    requires
        idx.wf(),
    ensures
        idx.homes(listing(idx.key_tokens(name, None)).filter(keep)).contains(p) <==> exists|t: u32|
            #[trigger] idx.keys_inside(p.0 as int, name).contains(t) && keep(t),
{
    let set = idx.key_tokens(name, None);
    let all = listing(set);
    let kept = all.filter(keep);
    let homes = idx.homes(kept);
    lemma_finite_listing(set);
    if homes.contains(p) {
        let k = homes.index_of(p);
        let t = kept[k];
        assert(kept.contains(t));
        lemma_filter_keeps(all, keep, t);
        idx.lemma_key_home(name, t);
        assert(idx.keys_inside(p.0 as int, name).contains(t));
    }
    if exists|t: u32| #[trigger] idx.keys_inside(p.0 as int, name).contains(t) && keep(t) {
        let t = choose|t: u32| #[trigger] idx.keys_inside(p.0 as int, name).contains(t) && keep(t);
        assert(set.contains(t));
        assert(all.contains(t));
        lemma_filter_keeps(all, keep, t);
        let k = kept.index_of(t);
        assert(homes[k] == p);
    }
}

/// A search finds the objects with a key whose value stands for the literal.
pub proof fn law_find_eq_finds_every_object(
    idx: &StructuralIndex,
    bytes: Seq<u8>,
    key: Seq<char>,
    literal: Seq<u8>,
    p: TokenId,
)
    requires
        idx.wf(),
    ensures
        eq_hits(idx, bytes, key, literal).contains(p) <==> idx.field_eq(
            bytes,
            p.0 as int,
            key,
            literal,
        ),
{
    let keep = |t: u32| idx.key_eq(bytes, t as int, literal);
    lemma_homes(idx, key, keep, p);
    if idx.field_eq(bytes, p.0 as int, key, literal) {
        let t = choose|t: u32| #[trigger]
            idx.keys_inside(p.0 as int, key).contains(t) && idx.key_eq(bytes, t as int, literal);
        assert(keep(t));
    }
}

/// A compound search finds the objects that a search for each of its conditions finds.
pub proof fn law_compound_search_intersects(
    idx: &StructuralIndex,
    bytes: Seq<u8>,
    conds: Seq<(&str, &[u8])>,
    p: TokenId,
)
    requires
        idx.wf(),
        conds.len() > 0,
    ensures
        compound_hits(idx, bytes, conds).contains(p) <==> forall|c: int|
            0 <= c < conds.len() ==> eq_hits(
                idx,
                bytes,
                (#[trigger] conds[c]).0@,
                conds[c].1@,
            ).contains(p),
{
    let name = conds[0].0@;
    let keep = |t: u32| meets_all(idx, bytes, conds, parent_at(idx.kinds(), t as int));
    lemma_homes(idx, name, keep, p);
    assert forall|c: int| 0 <= c < conds.len() implies (eq_hits(
        idx,
        bytes,
        (#[trigger] conds[c]).0@,
        conds[c].1@,
    ).contains(p) <==> idx.field_eq(bytes, p.0 as int, conds[c].0@, conds[c].1@)) by {
        law_find_eq_finds_every_object(idx, bytes, conds[c].0@, conds[c].1@, p);
    }
    if compound_hits(idx, bytes, conds).contains(p) {
        let t = choose|t: u32| #[trigger]
            idx.keys_inside(p.0 as int, name).contains(t) && keep(t);
        assert(parent_at(idx.kinds(), t as int) == p.0);
        assert(meets_all(idx, bytes, conds, p.0 as int));
    }
    if forall|c: int|
        0 <= c < conds.len() ==> eq_hits(
            idx,
            bytes,
            (#[trigger] conds[c]).0@,
            conds[c].1@,
        ).contains(p) {
        assert(meets_all(idx, bytes, conds, p.0 as int));
        assert(idx.field_eq(bytes, p.0 as int, conds[0].0@, conds[0].1@));
        let t = choose|t: u32| #[trigger]
            idx.keys_inside(p.0 as int, name).contains(t) && idx.key_eq(
                bytes,
                t as int,
                conds[0].1@,
            );
        assert(keep(t));
    }
}

/// Whether some key `name` directly inside `p` has a value that stands for `literal`.
fn field_matches(
    idx: &StructuralIndex,
    bytes: &[u8],
    p: TokenId,
    name: &str,
    literal: &[u8],
) -> (r: bool)
    requires
        idx.fits(bytes@),
    ensures
        r == idx.field_eq(bytes@, p.0 as int, name@, literal@),
{
    let hits = idx.keys_named(name, None).collect();
    let ghost set = idx.key_tokens(name@, None);
    let mut i: usize = 0;
    while i < hits.len()
        invariant
            i <= hits@.len(),
            idx.fits(bytes@),
            set == idx.key_tokens(name@, None),
            lists(ids(hits@), set),
            forall|k: int|
                0 <= k < i ==> !(idx.keys_inside(p.0 as int, name@).contains(
                    (#[trigger] hits@[k]).0,
                ) && idx.key_eq(bytes@, hits@[k].0 as int, literal@)),
        decreases hits@.len() - i,
    {
        let t = hits[i];
        proof {
            assert(ids(hits@)[i as int] == t.0);
            assert(ids(hits@).contains(t.0));
        }
        if let Some(q) = idx.parent(t) {
            if q.0 == p.0 && idx.key_matches(bytes, t, literal) {
                assert(idx.keys_inside(p.0 as int, name@).contains(t.0));
                return true;
            }
        }
        i = i + 1;
    }
    proof {
        assert forall|t: u32| #[trigger] idx.keys_inside(p.0 as int, name@).contains(t) implies !idx.key_eq(
            bytes@,
            t as int,
            literal@,
        ) by {
            assert(ids(hits@).contains(t));
            let k = ids(hits@).index_of(t);
            assert(ids(hits@)[k] == t);
            assert(hits@[k].0 == t);
        }
    }
    false
}

/// The objects that meet all conditions, once for each of its keys that the first condition
/// names.
pub open spec fn compound_hits(
    idx: &StructuralIndex,
    bytes: Seq<u8>,
    conds: Seq<(&str, &[u8])>,
) -> Seq<TokenId> {
    if conds.len() == 0 {
        Seq::empty()
    } else {
        idx.homes(
            listing(idx.key_tokens(conds[0].0@, None)).filter(
                |t: u32| meets_all(idx, bytes, conds, parent_at(idx.kinds(), t as int)),
            ),
        )
    }
}

/// Every object that meets all conditions, once for each of its keys that the first
/// condition names. Conditions count within one object.
pub fn find_eq_compound(
    idx: &StructuralIndex,
    bytes: &[u8],
    conds: &[(&str, &[u8])],
) -> (r: Vec<TokenId>)
    requires
        idx.fits(bytes@),
    ensures
        r@ == compound_hits(idx, bytes@, conds@),
        forall|k: int| 0 <= k < r@.len() ==> idx.is_object(#[trigger] r@[k]),
{
    let mut out: Vec<TokenId> = Vec::new();
    if conds.len() == 0 {
        return out;
    }
    let mut cands: Vec<TokenId> = Vec::new();
    let ghost set = idx.key_tokens(conds@[0].0@, None);
    let ghost all = listing(set);
    idx.keys_named(conds[0].0, None).collect_into(&mut cands);
    let ghost keep = |t: u32|
        meets_all(idx, bytes@, conds@, parent_at(idx.kinds(), t as int));
    proof {
        use_type_invariant(idx);
        assert(cands@.skip(0) =~= cands@);
        lemma_listing(ids(cands@), set);
        reveal(Seq::filter);
        assert(out@ =~= idx.homes(all.take(0).filter(keep)));
    }
    let mut i: usize = 0;
    while i < cands.len()
        invariant
            i <= cands@.len() == all.len(),
            idx.fits(bytes@),
            all == ids(cands@),
            set == idx.key_tokens(conds@[0].0@, None),
            lists(all, set),
            idx.wf(),
            keep == (|t: u32|
                meets_all(idx, bytes@, conds@, parent_at(idx.kinds(), t as int))),
            out@ == idx.homes(all.take(i as int).filter(keep)),
            forall|k: int| 0 <= k < out@.len() ==> idx.is_object(#[trigger] out@[k]),
        decreases cands@.len() - i,
    {
        let t = cands[i];
        proof {
            assert(all[i as int] == t.0);
            assert(all.contains(t.0));
            lemma_filter_step(all, i as int, keep);
            idx.lemma_key_home(conds@[0].0@, t.0);
        }
        if let Some(p) = idx.parent(t) {
            let mut matched: bool = true;
            let mut c: usize = 0;
            while c < conds.len() && matched
                invariant
                    c <= conds@.len(),
                    idx.fits(bytes@),
                    matched ==> forall|k: int|
                        0 <= k < c ==> idx.field_eq(
                            bytes@,
                            p.0 as int,
                            (#[trigger] conds@[k]).0@,
                            conds@[k].1@,
                        ),
                    !matched ==> !meets_all(idx, bytes@, conds@, p.0 as int),
                decreases conds@.len() - c,
            {
                let (key, lit) = conds[c];
                if !field_matches(idx, bytes, p, key, lit) {
                    matched = false;
                    assert(!idx.field_eq(
                        bytes@,
                        p.0 as int,
                        conds@[c as int].0@,
                        conds@[c as int].1@,
                    ));
                }
                c = c + 1;
            }
            if matched {
                out.push(p);
            }
        }
        i = i + 1;
        assert(out@ =~= idx.homes(all.take(i as int).filter(keep)));
    }
    assert(all.take(i as int) =~= all);
    out
}

/// Accepts bytes that are valid UTF-8.
pub fn validate_utf8(bytes: &[u8]) -> (r: Result<(), Error>)
    ensures
        match r {
            Ok(_) => valid_utf8(bytes@),
            Err(e) => e is InvalidUtf8 && !valid_utf8(bytes@),
        },
{
    if is_utf8(bytes) {
        Ok(())
    } else {
        Err(Error::InvalidUtf8)
    }
}

} // verus!
