//! An index built along a parsed tape.
//!
//! A tape lists the values of a document in order, without closes: an object or array says how
//! many entries follow. The byte offsets come from the structural positions that the parser
//! found on its way: brackets, separators, opening quotes and the first bytes of literals. One
//! walk over the tape, with a cursor in the positions, yields every column of the index and
//! the key layer.
//!
//! Tape numbers are positions on the tape; a close has none.

use vstd::prelude::*;

use crate::api::{BuildOptions, Error, StructuralIndex};
use crate::ascii::{ARR_CLOSE, ARR_OPEN, COLON, COMMA, OBJ_CLOSE, OBJ_OPEN, QUOTE};
use crate::index::{kinds_of, StructIndex};
use crate::keys::{parent_kind, KeyBitmaps, KeyBuilder, Role};
use crate::lex::Kind;
use crate::stage1::Stage1;
use crate::tree::{is_close, is_open, lemma_push_kind, TreeBuilder};
use crate::walk::{
    append, close_full, close_rest, close_top, find_struct, full, law_walk_spells_a_tree,
    open_container, passed, past, past_separators, place, place_text, row_ok, start, tape_walk,
    value_role, walk_to, Frame, NodeView, Walk,
};

verus! {

/// A node of a tape.
#[derive(Debug)]
pub enum TapeNode {
    /// An object with so many keys.
    Object { len: usize },
    /// An array with so many elements.
    Array { len: usize },
    /// A string, with the position of its opening quote where it is known.
    Text { text: String, offset: Option<u32> },
    /// A number, `true`, `false` or `null`, as it is written out.
    Static { text: String },
}

impl View for TapeNode {
    type V = NodeView;

    open spec fn view(&self) -> NodeView {
        match self {
            TapeNode::Object { len } => NodeView::Object { len: *len as int },
            TapeNode::Array { len } => NodeView::Array { len: *len as int },
            TapeNode::Text { text, offset } => NodeView::Text { text: text@, offset: *offset },
            TapeNode::Static { text } => NodeView::Static { text: text@ },
        }
    }
}

/// The nodes of a tape by their contents.
pub open spec fn node_views(nodes: Seq<TapeNode>) -> Seq<NodeView> {
    nodes.map_values(|n: TapeNode| n@)
}

// ---------------------------------------------------------------------------
// Building
// ---------------------------------------------------------------------------

/// An open container.
struct OpenFrame {
    object: bool,
    done: u32,
    limit: u32,
}

/// Every column under construction.
struct Builder {
    s1: Stage1,
    tree: TreeBuilder,
    tape_of: Vec<u32>,
    keys: KeyBuilder,
    frames: Vec<OpenFrame>,
    cursor: usize,
    next_is_key: bool,
}

impl View for Builder {
    type V = Walk;

    closed spec fn view(&self) -> Walk {
        Walk {
            toks: self.s1@,
            tape: self.tape_of@,
            roles: self.keys.roles(),
            names: self.keys.names(),
            frames: self.frames@.map_values(
                |f: OpenFrame|
                    Frame { object: f.object, done: f.done as int, limit: f.limit as int },
            ),
            cursor: self.cursor as int,
            next_is_key: self.next_is_key,
        }
    }
}

impl Builder {
    /// The columns have one length and describe the same tokens.
    closed spec fn columns_ok(&self) -> bool {
        let n = self.s1.kind@.len();
        &&& n <= i32::MAX
        &&& self.s1.wf()
        &&& self.tree.wf()
        &&& self.keys.wf()
        &&& self.tree.kinds() == self.s1.kind@
        &&& self.tape_of@.len() == n
        &&& self.keys.names().len() == n
        &&& self.keys.roles().len() == n
    }

    /// Every open container has its frame.
    closed spec fn wf(&self) -> bool {
        &&& self.columns_ok()
        &&& self.frames@.len() == self.tree.open_tokens().len() <= u16::MAX
        &&& forall|k: int|
            0 <= k < self.frames@.len() ==> (#[trigger] self.frames@[k]).done
                <= self.s1.kind@.len()
    }

    fn new(capacity: usize) -> (r: Self)
        ensures
            r.wf(),
            r@ == start(),
    {
        let r = Builder {
            s1: Stage1::with_capacity(capacity),
            tree: TreeBuilder::new(),
            tape_of: Vec::new(),
            keys: KeyBuilder::new(),
            frames: Vec::new(),
            cursor: 0,
            next_is_key: false,
        };
        proof {
            r.tree.lemma_depth();
            assert(r.s1.kind@.len() == r.s1@.len());
            assert(r.s1.kind@ =~= Seq::<Kind>::empty());
            assert(r@.frames =~= Seq::<Frame>::empty());
        }
        r
    }
}

/// The first structural position from `cursor` on that holds `target`.
fn find_next_struct(structurals: &[u32], bytes: &[u8], cursor: usize, target: u8) -> (r: Option<
    usize,
>)
    ensures
        match r {
            Some(c) => find_struct(structurals@, bytes@, cursor as int, target) == Some(c as int)
                && c < structurals@.len(),
            None => find_struct(structurals@, bytes@, cursor as int, target) is None,
        },
{
    let mut c: usize = cursor;
    while c < structurals.len()
        invariant
            find_struct(structurals@, bytes@, c as int, target) == find_struct(
                structurals@,
                bytes@,
                cursor as int,
                target,
            ),
        decreases structurals@.len() - c,
    {
        let off: usize = structurals[c] as usize;
        if off >= bytes.len() {
            return None;
        }
        if bytes[off] == target {
            return Some(c);
        }
        c = c + 1;
    }
    None
}

/// The cursor behind all positions in front of `off`, and behind `off` itself.
fn advance_cursor_past(cursor: usize, structurals: &[u32], off: u32) -> (r: usize)
    ensures
        r == past(structurals@, cursor as int, off as int),
{
    let mut c: usize = cursor;
    while c < structurals.len() && structurals[c] < off
        invariant
            past(structurals@, c as int, off as int) == past(
                structurals@,
                cursor as int,
                off as int,
            ),
        decreases structurals@.len() - c,
    {
        c = c + 1;
    }
    if c < structurals.len() && structurals[c] == off {
        c = c + 1;
    }
    c
}

/// The cursor behind the colons and commas in front of a literal.
fn scan_scalar_offset(structurals: &[u32], bytes: &[u8], cursor: usize) -> (r: usize)
    ensures
        r == past_separators(structurals@, bytes@, cursor as int),
{
    let mut c: usize = cursor;
    while c < structurals.len()
        invariant
            past_separators(structurals@, bytes@, c as int) == past_separators(
                structurals@,
                bytes@,
                cursor as int,
            ),
        decreases structurals@.len() - c,
    {
        let off: usize = structurals[c] as usize;
        if off >= bytes.len() || (bytes[off] != COLON && bytes[off] != COMMA) {
            return c;
        }
        c = c + 1;
    }
    c
}

impl Builder {
    /// Appends one row to every column.
    fn append_token(
        &mut self,
        off: u32,
        kind: Kind,
        depth: u16,
        tape: u32,
        role: Role,
        name: Option<&str>,
    )
        requires
            old(self).columns_ok(),
            old(self)@.toks.len() < i32::MAX,
            is_close(kind) ==> old(self).tree.open_tokens().len() > 0,
            role == Role::Key <==> name is Some,
        ensures
            final(self).columns_ok(),
            final(self).frames == old(self).frames,
            final(self).cursor == old(self).cursor,
            final(self).next_is_key == old(self).next_is_key,
            final(self)@ == append(
                old(self)@,
                off as int,
                kind,
                depth as int,
                tape,
                role,
                match name {
                    Some(s) => Some(s@),
                    None => None,
                },
            ),
            final(self).tree.open_tokens().len() == old(self).tree.open_tokens().len() + (
            if is_open(kind) {
                1int
            } else if is_close(kind) {
                -1int
            } else {
                0int
            }),
    {
        proof {
            self.tree.lemma_depth();
            lemma_push_kind(self.tree.kinds(), kind);
        }
        self.s1.push(off as usize, kind, depth);
        self.tree.push(kind);
        self.tape_of.push(tape);
        match name {
            Some(s) => self.keys.push_key(s),
            None => self.keys.push_other(role),
        }
        proof {
            self.tree.lemma_depth();
        }
    }

    /// One more entry of the innermost container has been passed.
    fn pass_entry(&mut self)
        requires
            old(self).columns_ok(),
            forall|k: int|
                0 <= k < old(self).frames@.len() ==> (#[trigger] old(self).frames@[k]).done < old(
                    self,
                ).s1.kind@.len(),
        ensures
            final(self).columns_ok(),
            final(self).tree == old(self).tree,
            final(self).s1 == old(self).s1,
            final(self).frames@.len() == old(self).frames@.len(),
            forall|k: int|
                0 <= k < final(self).frames@.len() ==> (#[trigger] final(self).frames@[k]).done
                    <= final(self).s1.kind@.len(),
            final(self)@ == (Walk { frames: passed(old(self)@.frames), ..old(self)@ }),
    {
        let n: usize = self.frames.len();
        if n > 0 {
            let f = OpenFrame {
                object: self.frames[n - 1].object,
                done: self.frames[n - 1].done + 1,
                limit: self.frames[n - 1].limit,
            };
            self.frames.set(n - 1, f);
        }
        assert(self@.frames =~= passed(old(self)@.frames));
    }

    /// Whether the innermost container is an object, or there is none.
    fn innermost_object(&self) -> (r: Option<bool>)
        ensures
            r == (if self@.frames.len() > 0 {
                Some(self@.frames.last().object)
            } else {
                None
            }),
    {
        let n: usize = self.frames.len();
        if n == 0 {
            None
        } else {
            Some(self.frames[n - 1].object)
        }
    }

    /// Closes the innermost container.
    fn close_innermost(
        &mut self,
        bytes: &[u8],
        structurals: &[u32],
        missing: &'static str,
    ) -> (r: Result<(), &'static str>)
        requires
            old(self).wf(),
            old(self)@.frames.len() > 0,
        ensures
            match r {
                Ok(_) => final(self).wf() && close_top(old(self)@, bytes@, structurals@, missing@)
                    == Ok::<Walk, Seq<char>>(final(self)@),
                Err(e) => close_top(old(self)@, bytes@, structurals@, missing@) == Err::<
                    Walk,
                    Seq<char>,
                >(e@),
            },
    {
        if self.s1.len() >= i32::MAX as usize {
            return Err("too many tokens");
        }
        let n: usize = self.frames.len();
        let object = self.frames[n - 1].object;
        assert(self@.frames.last().object == object);
        let c: usize = match find_next_struct(
            structurals,
            bytes,
            self.cursor,
            if object {
                OBJ_CLOSE
            } else {
                ARR_CLOSE
            },
        ) {
            Some(c) => c,
            None => {
                return Err(missing);
            },
        };
        let kind = if object {
            Kind::ObjClose
        } else {
            Kind::ArrClose
        };
        self.append_token(structurals[c], kind, (n - 1) as u16, u32::MAX, Role::Other, None);
        self.frames.pop();
        self.cursor = c + 1;
        if n > 1 {
            self.next_is_key = self.frames[n - 2].object;
        }
        proof {
            assert(self@.frames =~= old(self)@.frames.drop_last());
        }
        self.pass_entry();
        Ok(())
    }

    /// Closes every container whose entries have all been passed.
    fn close_complete(&mut self, bytes: &[u8], structurals: &[u32]) -> (r: Result<(), &'static str>)
        requires
            old(self).wf(),
        ensures
            match r {
                Ok(_) => final(self).wf() && close_full(old(self)@, bytes@, structurals@) == Ok::<
                    Walk,
                    Seq<char>,
                >(final(self)@),
                Err(e) => close_full(old(self)@, bytes@, structurals@) == Err::<Walk, Seq<char>>(
                    e@,
                ),
            },
    {
        let ghost whole = close_full(self@, bytes@, structurals@);
        loop
            invariant_except_break
                close_full(self@, bytes@, structurals@) == whole,
            invariant
                self.wf(),
                whole == close_full(old(self)@, bytes@, structurals@),
            ensures
                whole == Ok::<Walk, Seq<char>>(self@),
            decreases self@.frames.len(),
        {
            let n: usize = self.frames.len();
            if n == 0 {
                break ;
            }
            assert(self@.frames.last().done == self.frames@[n - 1].done);
            assert(self@.frames.last().limit == self.frames@[n - 1].limit);
            if self.frames[n - 1].done < self.frames[n - 1].limit {
                break ;
            }
            match self.close_innermost(bytes, structurals, "unmatched close") {
                Ok(_) => {},
                Err(e) => {
                    return Err(e);
                },
            }
        }
        Ok(())
    }

    /// Closes every container that is still open.
    fn close_remaining(&mut self, bytes: &[u8], structurals: &[u32]) -> (r: Result<
        (),
        &'static str,
    >)
        requires
            old(self).wf(),
        ensures
            match r {
                Ok(_) => final(self).wf() && final(self)@.frames.len() == 0 && close_rest(
                    old(self)@,
                    bytes@,
                    structurals@,
                ) == Ok::<Walk, Seq<char>>(final(self)@),
                Err(e) => close_rest(old(self)@, bytes@, structurals@) == Err::<Walk, Seq<char>>(
                    e@,
                ),
            },
    {
        let ghost whole = close_rest(self@, bytes@, structurals@);
        while self.frames.len() > 0
            invariant
                close_rest(self@, bytes@, structurals@) == whole,
                whole == close_rest(old(self)@, bytes@, structurals@),
                self.wf(),
            decreases self@.frames.len(),
        {
            match self.close_innermost(bytes, structurals, "trailing close not found") {
                Ok(_) => {},
                Err(e) => {
                    return Err(e);
                },
            }
        }
        Ok(())
    }

    /// Opens a container.
    fn open(
        &mut self,
        bytes: &[u8],
        structurals: &[u32],
        object: bool,
        len: usize,
        tape: usize,
    ) -> (r: Result<(), &'static str>)
        requires
            old(self).wf(),
            !full(old(self)@),
        ensures
            match r {
                Ok(_) => final(self).wf() && open_container(
                    old(self)@,
                    bytes@,
                    structurals@,
                    object,
                    len as int,
                    tape as int,
                ) == Ok::<Walk, Seq<char>>(final(self)@),
                Err(e) => open_container(
                    old(self)@,
                    bytes@,
                    structurals@,
                    object,
                    len as int,
                    tape as int,
                ) == Err::<Walk, Seq<char>>(e@),
            },
    {
        let c: usize = match find_next_struct(
            structurals,
            bytes,
            self.cursor,
            if object {
                OBJ_OPEN
            } else {
                ARR_OPEN
            },
        ) {
            Some(c) => c,
            None => {
                return Err(
                    if object {
                        "missing `{` in structurals"
                    } else {
                        "missing `[` in structurals"
                    },
                );
            },
        };
        let n: usize = self.frames.len();
        if n >= u16::MAX as usize {
            return Err("nesting too deep");
        }
        let role = self.role_of_value(Role::Other);
        let kind = if object {
            Kind::ObjOpen
        } else {
            Kind::ArrOpen
        };
        self.append_token(structurals[c], kind, n as u16, tape as u32, role, None);
        self.frames.push(OpenFrame { object, done: 0, limit: len as u32 });
        self.cursor = c + 1;
        self.next_is_key = object;
        proof {
            assert(self@.frames =~= old(self)@.frames.push(
                Frame { object, done: 0, limit: (len as u32) as int },
            ));
        }
        Ok(())
    }

    /// The role of a value inside the innermost container.
    fn role_of_value(&self, root: Role) -> (r: Role)
        requires
            root != Role::Key,
        ensures
            r == value_role(self@.frames, root),
            r != Role::Key,
    {
        match self.innermost_object() {
            Some(true) => Role::Value,
            Some(false) => Role::Elem,
            None => root,
        }
    }

    /// Places a string.
    fn text(
        &mut self,
        bytes: &[u8],
        structurals: &[u32],
        text: &str,
        off: u32,
        cursor: usize,
        tape: usize,
    )
        requires
            old(self).wf(),
            !full(old(self)@),
        ensures
            final(self).wf(),
            final(self)@ == place_text(
                old(self)@,
                bytes@,
                structurals@,
                text@,
                off as int,
                cursor as int,
                tape as int,
            ),
    {
        let n: usize = self.frames.len();
        let in_object = match self.innermost_object() {
            Some(object) => object,
            None => false,
        };
        if in_object && self.next_is_key {
            self.append_token(off, Kind::Quote, n as u16, tape as u32, Role::Key, Some(text));
            self.next_is_key = false;
            self.cursor = cursor;
            if cursor < structurals.len() {
                let at: usize = structurals[cursor] as usize;
                if at < bytes.len() && bytes[at] == COLON {
                    self.cursor = cursor + 1;
                }
            }
        } else {
            let role = self.role_of_value(Role::Value);
            self.append_token(off, Kind::Quote, n as u16, tape as u32, role, None);
            self.cursor = cursor;
            if in_object {
                self.next_is_key = true;
            }
            self.pass_entry();
        }
    }

    /// Places one node.
    fn place_node(
        &mut self,
        bytes: &[u8],
        structurals: &[u32],
        node: &TapeNode,
        tape: usize,
    ) -> (r: Result<(), &'static str>)
        requires
            old(self).wf(),
        ensures
            match r {
                Ok(_) => final(self).wf() && place(
                    old(self)@,
                    bytes@,
                    structurals@,
                    node@,
                    tape as int,
                ) == Ok::<Walk, Seq<char>>(final(self)@),
                Err(e) => place(old(self)@, bytes@, structurals@, node@, tape as int) == Err::<
                    Walk,
                    Seq<char>,
                >(e@),
            },
    {
        if self.s1.len() >= i32::MAX as usize {
            return Err("too many tokens");
        }
        match node {
            TapeNode::Object { len } => self.open(bytes, structurals, true, *len, tape),
            TapeNode::Array { len } => self.open(bytes, structurals, false, *len, tape),
            TapeNode::Text { text, offset } => {
                match offset {
                    Some(off) => {
                        let cursor: usize = advance_cursor_past(self.cursor, structurals, *off);
                        self.text(bytes, structurals, text.as_str(), *off, cursor, tape);
                        Ok(())
                    },
                    None => match find_next_struct(structurals, bytes, self.cursor, QUOTE) {
                        Some(c) => {
                            self.text(
                                bytes,
                                structurals,
                                text.as_str(),
                                structurals[c],
                                c + 1,
                                tape,
                            );
                            Ok(())
                        },
                        None => Err("missing `\"` in structurals"),
                    },
                }
            },
            TapeNode::Static { .. } => {
                let c: usize = scan_scalar_offset(structurals, bytes, self.cursor);
                if c >= structurals.len() {
                    return Err("scalar offset");
                }
                let n: usize = self.frames.len();
                let role = self.role_of_value(Role::Value);
                let in_object = match self.innermost_object() {
                    Some(object) => object,
                    None => false,
                };
                self.append_token(structurals[c], Kind::Scalar, n as u16, tape as u32, role, None);
                self.cursor = c + 1;
                if in_object {
                    self.next_is_key = true;
                }
                self.pass_entry();
                Ok(())
            },
        }
    }
}

/// Builds the index and its key layer in one walk over a tape.
///
/// `structurals` are the structural positions of the same document in `bytes`. Positions that
/// belong to another document lead to an error or to columns without meaning.
pub fn build_from_tape_and_structurals(
    nodes: &[TapeNode],
    bytes: &[u8],
    structurals: &[u32],
) -> (r: Result<(StructIndex, KeyBitmaps), String>)
    ensures
        match r {
            Ok((idx, keys)) => {
                &&& tape_walk(node_views(nodes@), bytes@, structurals@) matches Ok(w)
                &&& idx.stage1@ == w.toks
                &&& idx.tape_of@ == w.tape
                &&& idx.tree_ok()
                &&& keys.wf()
                &&& keys.n_tokens == idx.spec_len()
                &&& keys.role@ == w.roles
                &&& keys.names() == w.names
                &&& keys.depths_match(idx.stage1.depth@)
            },
            Err(e) => tape_walk(node_views(nodes@), bytes@, structurals@) == Err::<
                Walk,
                Seq<char>,
            >(e@),
        },
{
    let n: usize = nodes.len();
    let ghost views = node_views(nodes@);
    let mut b = Builder::new(n);
    let mut i: usize = 0;
    while i < n
        invariant
            i <= n == nodes@.len(),
            views == node_views(nodes@),
            b.wf(),
            walk_to(views, bytes@, structurals@, i as int) == Ok::<Walk, Seq<char>>(b@),
        decreases n - i,
    {
        match b.close_complete(bytes, structurals) {
            Ok(_) => {},
            Err(e) => {
                proof {
                    lemma_walk_fails(views, bytes@, structurals@, i + 1, n as int);
                }
                return Err(e.to_owned());
            },
        }
        assert(views[i as int] == nodes@[i as int]@);
        match b.place_node(bytes, structurals, &nodes[i], i) {
            Ok(_) => {},
            Err(e) => {
                proof {
                    lemma_walk_fails(views, bytes@, structurals@, i + 1, n as int);
                }
                return Err(e.to_owned());
            },
        }
        i = i + 1;
    }
    match b.close_remaining(bytes, structurals) {
        Ok(_) => {},
        Err(e) => {
            return Err(e.to_owned());
        },
    }
    let Builder { s1, tree, tape_of, keys, .. } = b;
    proof {
        tree.lemma_depth();
    }
    let (parent, close_of) = tree.finish();
    let key_layer = keys.finish(&s1.depth);
    let idx = StructIndex { stage1: s1, parent, close_of, tape_of };
    Ok((idx, key_layer))
}

/// A walk that fails stays failed.
proof fn lemma_walk_fails(
    nodes: Seq<NodeView>,
    bytes: Seq<u8>,
    structurals: Seq<u32>,
    i: int,
    n: int,
)
    requires
        0 <= i <= n,
        walk_to(nodes, bytes, structurals, i) is Err,
    ensures
        walk_to(nodes, bytes, structurals, n) == walk_to(nodes, bytes, structurals, i),
    decreases n,
{
    if i < n {
        lemma_walk_fails(nodes, bytes, structurals, i, n - 1);
    }
}

// ---------------------------------------------------------------------------
// Parsing
// ---------------------------------------------------------------------------

/// What the parser hands over of a document: its tape, the bytes with their escapes decoded
/// in place, and the structural positions.
pub struct TapeParts {
    pub nodes: Vec<TapeNode>,
    pub bytes: Vec<u8>,
    pub structurals: Vec<u32>,
}

/// What `simd_json::to_tape_with_buffers` makes of a document: the nodes of the tape, the
/// bytes that it leaves in the input, and the positions that
/// `Buffers::structural_indexes` lists afterwards. `None` where it refuses the document.
pub uninterp spec fn simd_tape(bytes: Seq<u8>) -> Option<(Seq<NodeView>, Seq<u8>, Seq<u32>)>;

/// `simd_json::to_tape_with_buffers` parses a document; `simd_json::Buffers` keeps the
/// structural positions. Literals are written out by their `Display`. The text of a refusal
/// names a position that differs between the crate's implementations and is left open.
#[verifier::external_body]
fn simd_parse(bytes: Vec<u8>) -> (r: Result<TapeParts, String>)
    ensures
        match r {
            Ok(p) => simd_tape(bytes@) == Some(
                (node_views(p.nodes@), p.bytes@, p.structurals@),
            ),
            Err(_) => simd_tape(bytes@) is None,
        },
{
    let mut bytes = bytes;
    let mut buffers = simd_json::Buffers::new(bytes.len());
    let tape = simd_json::to_tape_with_buffers(&mut bytes, &mut buffers).map_err(|e| e.to_string())?;
    let nodes = tape.0.iter().map(|n| match n {
        simd_json::Node::Object { len, .. } => TapeNode::Object { len: *len },
        simd_json::Node::Array { len, .. } => TapeNode::Array { len: *len },
        simd_json::Node::String(s) => TapeNode::Text { text: s.to_string(), offset: None },
        simd_json::Node::Static(s) => TapeNode::Static { text: s.to_string() },
    }).collect();
    let structurals = buffers.structural_indexes().to_vec();
    Ok(TapeParts { nodes, bytes, structurals })
}

/// A parsed document with its columns and key layer.
pub struct ParsedWithIndex {
    /// The bytes that the columns describe.
    pub bytes: Vec<u8>,
    /// The columns.
    pub index: StructIndex,
    /// The key layer.
    pub keys: KeyBitmaps,
}

/// Parses a document and builds its columns along the tape.
pub fn parse_with_index(bytes: Vec<u8>) -> (r: Result<ParsedWithIndex, String>)
    ensures
        match r {
            Ok(p) => {
                &&& simd_tape(bytes@) matches Some((nodes, left, structurals))
                &&& p.bytes@ == left
                &&& tape_walk(nodes, left, structurals) matches Ok(w)
                &&& p.index.stage1@ == w.toks
                &&& p.index.tape_of@ == w.tape
                &&& p.index.tree_ok()
                &&& p.keys.wf()
                &&& p.keys.n_tokens == p.index.spec_len()
                &&& p.keys.role@ == w.roles
                &&& p.keys.names() == w.names
                &&& p.keys.depths_match(p.index.stage1.depth@)
            },
            Err(e) => match simd_tape(bytes@) {
                Some((nodes, left, structurals)) => tape_walk(nodes, left, structurals) == Err::<
                    Walk,
                    Seq<char>,
                >(e@),
                None => true,
            },
        },
{
    let parts = match simd_parse(bytes) {
        Ok(p) => p,
        Err(e) => return Err(e),
    };
    match build_from_tape_and_structurals(
        parts.nodes.as_slice(),
        parts.bytes.as_slice(),
        parts.structurals.as_slice(),
    ) {
        Ok((index, keys)) => Ok(ParsedWithIndex { bytes: parts.bytes, index, keys }),
        Err(e) => Err(e),
    }
}

/// `idx` holds the columns of a walk, with a key layer where `keys` says so.
pub open spec fn indexes_walk(idx: StructuralIndex, w: Walk, keys: bool) -> bool {
    &&& idx.wf()
    &&& idx.toks() == w.toks
    &&& idx.index().tape_of@ == w.tape
    &&& idx.key_layer() is Some <==> keys
    &&& keys ==> idx.key_names() == w.names
}

/// Builds an index along a tape, with a key layer where the options ask for it.
pub fn from_simdjson(
    nodes: &[TapeNode],
    bytes: &[u8],
    structurals: &[u32],
    opts: BuildOptions,
) -> (r: Result<StructuralIndex, Error>)
    ensures
        match r {
            Ok(idx) => tape_walk(node_views(nodes@), bytes@, structurals@) matches Ok(w)
                && indexes_walk(idx, w, opts.keys),
            Err(e) => e matches Error::Parse(s) && tape_walk(
                node_views(nodes@),
                bytes@,
                structurals@,
            ) == Err::<Walk, Seq<char>>(s@),
        },
{
    match build_from_tape_and_structurals(nodes, bytes, structurals) {
        Ok((index, keys)) => {
            proof {
                law_walk_spells_a_tree(node_views(nodes@), bytes@, structurals@);
                let w = tape_walk(node_views(nodes@), bytes@, structurals@)->Ok_0;
                assert(index.stage1.kind@ =~= kinds_of(w.toks));
                assert forall|i: int|
                    0 <= i < w.names.len() && (#[trigger] w.names[i]) is Some implies index.stage1.kind@[i]
                    == Kind::Quote && parent_kind(index.stage1.kind@, i) == Some(Kind::ObjOpen) by {
                    assert(row_ok(w, i));
                }
            }
            let layer = if opts.keys {
                Some(keys)
            } else {
                None
            };
            Ok(StructuralIndex::assemble(index, layer))
        },
        Err(e) => Err(Error::Parse(e)),
    }
}

/// A parsed document with its index.
pub struct Parsed {
    /// The bytes that the index describes.
    pub bytes: Vec<u8>,
    /// The index.
    pub index: StructuralIndex,
}

/// `p` is the index along the parser's tape of `bytes`.
pub open spec fn parses(bytes: Seq<u8>, left: Seq<u8>, idx: StructuralIndex, keys: bool) -> bool {
    match simd_tape(bytes) {
        Some((nodes, after, structurals)) => left == after && match tape_walk(
            nodes,
            after,
            structurals,
        ) {
            Ok(w) => indexes_walk(idx, w, keys),
            Err(_) => false,
        },
        None => false,
    }
}

/// The parser refuses the document, or no index can be built along its tape.
pub open spec fn refuses(bytes: Seq<u8>, text: Seq<char>) -> bool {
    match simd_tape(bytes) {
        Some((nodes, left, structurals)) => tape_walk(nodes, left, structurals) == Err::<
            Walk,
            Seq<char>,
        >(text),
        None => true,
    }
}

/// Parses a document and builds its index along the tape, with everything in it.
pub fn parse(bytes: Vec<u8>) -> (r: Result<Parsed, Error>)
    ensures
        match r {
            Ok(p) => parses(bytes@, p.bytes@, p.index, true),
            Err(e) => e matches Error::Parse(s) && refuses(bytes@, s@),
        },
{
    parse_opts(bytes, BuildOptions::default())
}

/// Parses a document and builds its index along the tape.
pub fn parse_opts(bytes: Vec<u8>, opts: BuildOptions) -> (r: Result<Parsed, Error>)
    ensures
        match r {
            Ok(p) => parses(bytes@, p.bytes@, p.index, opts.keys),
            Err(e) => e matches Error::Parse(s) && refuses(bytes@, s@),
        },
{
    let parts = match simd_parse(bytes) {
        Ok(p) => p,
        Err(e) => return Err(Error::Parse(e)),
    };
    match from_simdjson(
        parts.nodes.as_slice(),
        parts.bytes.as_slice(),
        parts.structurals.as_slice(),
        opts,
    ) {
        Ok(index) => Ok(Parsed { bytes: parts.bytes, index }),
        Err(e) => Err(e),
    }
}

// ---------------------------------------------------------------------------
// Writing a tape out
// ---------------------------------------------------------------------------

/// The text of the value at node `i`, and the node behind it. `None` where the tape ends
/// inside the value.
pub open spec fn written(nodes: Seq<NodeView>, i: int) -> Option<(Seq<char>, int)>
    decreases nodes.len() - i, 0int, 0int,
{
    if i < 0 || i >= nodes.len() {
        None
    } else {
        match nodes[i] {
            NodeView::Static { text } => Some((text, i + 1)),
            NodeView::Text { text, .. } => Some(("\""@ + (text + "\""@), i + 1)),
            NodeView::Array { len } => match written_items(nodes, i + 1, false, len, true) {
                Some((t, j)) => Some(("["@ + (t + "]"@), j)),
                None => None,
            },
            NodeView::Object { len } => match written_items(nodes, i + 1, true, len, true) {
                Some((t, j)) => Some(("{"@ + (t + "}"@), j)),
                None => None,
            },
        }
    }
}

/// The text of one entry from node `i` on, and the node behind it. A comma comes in front of
/// every entry but the first. An entry of an object is a key and a value; a key that is no
/// string is written as a question mark.
pub open spec fn written_entry(nodes: Seq<NodeView>, i: int, object: bool, first: bool) -> Option<
    (Seq<char>, int),
>
    decreases nodes.len() - i, 1int, 0int,
{
    if i < 0 || i >= nodes.len() {
        None
    } else {
        let comma = if first {
            Seq::empty()
        } else {
            ","@
        };
        let key = match nodes[i] {
            NodeView::Text { text, .. } => text,
            _ => "?"@,
        };
        if object {
            match written(nodes, i + 1) {
                Some((v, j)) => Some((comma + "\""@ + key + "\":"@ + v, j)),
                None => None,
            }
        } else {
            match written(nodes, i) {
                Some((v, j)) => Some((comma + v, j)),
                None => None,
            }
        }
    }
}

/// The text of `n` entries from node `i` on, and the node behind them.
pub open spec fn written_items(
    nodes: Seq<NodeView>,
    i: int,
    object: bool,
    n: int,
    first: bool,
) -> Option<(Seq<char>, int)>
    decreases nodes.len() - i, 2int, n,
{
    if n <= 0 {
        Some((Seq::empty(), i))
    } else {
        match written_entry(nodes, i, object, first) {
            Some((entry, j)) => if j <= i || j > nodes.len() {
                None
            } else {
                match written_items(nodes, j, object, n - 1, false) {
                    Some((rest, k)) => Some((entry + rest, k)),
                    None => None,
                }
            },
            None => None,
        }
    }
}

/// Whether the tape holds the whole value at a node.
pub fn holds_value(nodes: &[TapeNode], tape_idx: usize) -> (r: bool)
    ensures
        r == (written(node_views(nodes@), tape_idx as int) is Some),
{
    value_end(nodes, tape_idx).is_some()
}

/// The node behind the value at node `at`.
fn value_end(nodes: &[TapeNode], at: usize) -> (r: Option<usize>)
    ensures
        match r {
            Some(j) => {
                &&& written(node_views(nodes@), at as int) is Some
                &&& (written(node_views(nodes@), at as int)->0).1 == j
                &&& at < j <= nodes@.len()
            },
            None => written(node_views(nodes@), at as int) is None,
        },
    decreases nodes@.len() - at, 0int,
{
    if at >= nodes.len() {
        return None;
    }
    assert(node_views(nodes@)[at as int] == nodes@[at as int]@);
    match &nodes[at] {
        TapeNode::Static { .. } => Some(at + 1),
        TapeNode::Text { .. } => Some(at + 1),
        TapeNode::Array { len } => items_end(nodes, at + 1, false, *len),
        TapeNode::Object { len } => items_end(nodes, at + 1, true, *len),
    }
}

/// The node behind `len` entries from node `from` on.
fn items_end(nodes: &[TapeNode], from: usize, object: bool, len: usize) -> (r: Option<usize>)
    requires
        from <= nodes@.len(),
    ensures
        ({
            let items = written_items(node_views(nodes@), from as int, object, len as int, true);
            match r {
                Some(j) => items is Some && (items->0).1 == j && from <= j <= nodes@.len(),
                None => items is None,
            }
        }),
    decreases nodes@.len() - from, 1int,
{
    let ghost views = node_views(nodes@);
    let ghost whole = written_items(views, from as int, object, len as int, true);
    let n: usize = nodes.len();
    let mut at: usize = from;
    let mut i: usize = 0;
    while i < len
        invariant
            i <= len,
            from <= at <= n == nodes@.len(),
            views == node_views(nodes@),
            whole == written_items(views, from as int, object, len as int, true),
            ({
                let rest = written_items(views, at as int, object, len - i, i == 0);
                &&& rest is Some <==> whole is Some
                &&& rest is Some ==> (rest->0).1 == (whole->0).1
            }),
        decreases len - i,
    {
        if at >= n {
            return None;
        }
        let end: Option<usize> = value_end(
            nodes,
            if object {
                at + 1
            } else {
                at
            },
        );
        proof {
            let entry = written_entry(views, at as int, object, i == 0);
            let value = written(
                views,
                if object {
                    at + 1
                } else {
                    at as int
                },
            );
            assert(entry is Some <==> value is Some);
            assert(entry is Some ==> (entry->0).1 == (value->0).1);
        }
        match end {
            Some(j) => {
                let ghost rest = written_items(views, j as int, object, len - i - 1, false);
                assert(rest is Some <==> whole is Some);
                at = j;
            },
            None => {
                return None;
            },
        }
        i = i + 1;
    }
    Some(at)
}

/// The value at a node of the tape, written out as JSON without escapes.
pub fn materialize_node(nodes: &[TapeNode], tape_idx: usize) -> (r: String)
    requires
        written(node_views(nodes@), tape_idx as int) is Some,
    ensures
        (written(node_views(nodes@), tape_idx as int)->0).0 == r@,
{
    let mut idx: usize = tape_idx;
    walk(nodes, &mut idx)
}

/// Writes out the value at node `idx` and moves `idx` behind it.
fn walk(nodes: &[TapeNode], idx: &mut usize) -> (r: String)
    requires
        written(node_views(nodes@), *old(idx) as int) is Some,
    ensures
        written(node_views(nodes@), *old(idx) as int) == Some((r@, *final(idx) as int)),
        *old(idx) < *final(idx) <= nodes@.len(),
    decreases nodes@.len() - *old(idx), 0int,
{
    let ghost views = node_views(nodes@);
    let at: usize = *idx;
    assert(views[at as int] == nodes@[at as int]@);
    assert(at < nodes.len());
    *idx = at + 1;
    match &nodes[at] {
        TapeNode::Static { text } => text.clone(),
        TapeNode::Text { text, .. } => {
            let mut out: String = "\"".to_owned();
            out.append(text.as_str());
            out.append("\"");
            assert(out@ =~= "\""@ + (text@ + "\""@));
            out
        },
        TapeNode::Array { len } => {
            let mut out: String = "[".to_owned();
            walk_items(nodes, idx, false, *len, &mut out);
            let ghost inner = (written_items(views, at + 1, false, *len as int, true)->0).0;
            out.append("]");
            assert(out@ =~= "["@ + (inner + "]"@));
            out
        },
        TapeNode::Object { len } => {
            let mut out: String = "{".to_owned();
            walk_items(nodes, idx, true, *len, &mut out);
            let ghost inner = (written_items(views, at + 1, true, *len as int, true)->0).0;
            out.append("}");
            assert(out@ =~= "{"@ + (inner + "}"@));
            out
        },
    }
}

/// Appends the entry at node `idx` and moves `idx` behind it.
fn walk_entry(nodes: &[TapeNode], idx: &mut usize, object: bool, first: bool, out: &mut String)
    requires
        written_entry(node_views(nodes@), *old(idx) as int, object, first) is Some,
    ensures
        ({
            let r = written_entry(node_views(nodes@), *old(idx) as int, object, first)->0;
            &&& final(out)@ == old(out)@ + r.0
            &&& *final(idx) == r.1
        }),
        *old(idx) < *final(idx) <= nodes@.len(),
    decreases nodes@.len() - *old(idx), 1int,
{
    let ghost views = node_views(nodes@);
    let at: usize = *idx;
    let ghost before = out@;
    assert(views[at as int] == nodes@[at as int]@);
    if !first {
        out.append(",");
    }
    let ghost comma = if first {
        Seq::<char>::empty()
    } else {
        ","@
    };
    assert(out@ =~= before + comma);
    if object {
        out.append("\"");
        match &nodes[at] {
            TapeNode::Text { text, .. } => out.append(text.as_str()),
            _ => out.append("?"),
        }
        out.append("\":");
        assert(at < nodes.len());
        *idx = at + 1;
        let v = walk(nodes, idx);
        out.append(v.as_str());
        proof {
            let r = written_entry(views, at as int, object, first)->0;
            assert(out@ =~= before + r.0);
        }
    } else {
        let v = walk(nodes, idx);
        out.append(v.as_str());
        proof {
            let r = written_entry(views, at as int, object, first)->0;
            assert(out@ =~= before + r.0);
        }
    }
}

/// Appends `len` entries from node `idx` on.
fn walk_items(nodes: &[TapeNode], idx: &mut usize, object: bool, len: usize, out: &mut String)
    requires
        *old(idx) <= nodes@.len(),
        written_items(node_views(nodes@), *old(idx) as int, object, len as int, true) is Some,
    ensures
        ({
            let r = written_items(
                node_views(nodes@),
                *old(idx) as int,
                object,
                len as int,
                true,
            )->0;
            &&& final(out)@ == old(out)@ + r.0
            &&& *final(idx) == r.1
        }),
        *old(idx) <= *final(idx) <= nodes@.len(),
    decreases nodes@.len() - *old(idx), 2int,
{
    let ghost views = node_views(nodes@);
    let ghost from = *idx as int;
    let ghost whole = written_items(views, from, object, len as int, true)->0;
    let mut i: usize = 0;
    while i < len
        invariant
            i <= len,
            views == node_views(nodes@),
            from == *old(idx),
            from <= *idx <= nodes@.len(),
            written_items(views, *idx as int, object, len - i, i == 0) is Some,
            ({
                let rest = written_items(views, *idx as int, object, len - i, i == 0)->0;
                &&& out@ + rest.0 == old(out)@ + whole.0
                &&& rest.1 == whole.1
            }),
        decreases len - i,
    {
        let ghost here = *idx as int;
        let ghost before = out@;
        let ghost rest = written_items(views, here, object, len - i, i == 0)->0;
        walk_entry(nodes, idx, object, i == 0, out);
        proof {
            let next = written_items(views, *idx as int, object, len - i - 1, false)->0;
            assert(out@ + next.0 =~= before + rest.0);
        }
        i = i + 1;
    }
    assert(out@ + Seq::<char>::empty() =~= out@);
}

} // verus!
