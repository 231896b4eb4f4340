//! The walk over a tape, as a function of its nodes, the bytes and the structural positions.

use vstd::prelude::*;

use crate::ascii::{ARR_CLOSE, ARR_OPEN, COLON, COMMA, OBJ_CLOSE, OBJ_OPEN, QUOTE};
use crate::index::{kinds_of, lemma_numbered, numbered_before, tape_number};
use crate::keys::{parent_kind, Role};
use crate::lex::{Kind, Token};
use crate::tree::{
    balanced, brackets_pair, closes, closes_matched, is_close, is_open, lemma_close_after_open,
    lemma_parent, lemma_push_kind, lemma_stack, lemma_stack_prefix, nesting_at, parent_at,
    stack_at,
};

verus! {

/// A node by its contents.
pub ghost enum NodeView {
    Object { len: int },
    Array { len: int },
    Text { text: Seq<char>, offset: Option<u32> },
    Static { text: Seq<char> },
}

/// An open container: how many of its entries have been passed, and how many it has.
pub ghost struct Frame {
    pub object: bool,
    pub done: int,
    pub limit: int,
}

/// How far a walk has come.
pub ghost struct Walk {
    /// Per token: offset, kind and depth.
    pub toks: Seq<Token>,
    /// Per token: its tape number.
    pub tape: Seq<u32>,
    /// Per token: its role.
    pub roles: Seq<Role>,
    /// Per token: the name that it spells as a key.
    pub names: Seq<Option<Seq<char>>>,
    /// The open containers, outermost first.
    pub frames: Seq<Frame>,
    /// The next structural position to look at.
    pub cursor: int,
    /// Inside an object, whether a string would be a key.
    pub next_is_key: bool,
}

pub open spec fn start() -> Walk {
    Walk {
        toks: Seq::empty(),
        tape: Seq::empty(),
        roles: Seq::empty(),
        names: Seq::empty(),
        frames: Seq::empty(),
        cursor: 0,
        next_is_key: false,
    }
}

/// The first structural position from `cursor` on that holds `target`. A position outside
/// the bytes ends the search.
pub open spec fn find_struct(
    structurals: Seq<u32>,
    bytes: Seq<u8>,
    cursor: int,
    target: u8,
) -> Option<int>
    decreases structurals.len() - cursor,
{
    if cursor >= structurals.len() || structurals[cursor] >= bytes.len() {
        None
    } else if bytes[structurals[cursor] as int] == target {
        Some(cursor)
    } else {
        find_struct(structurals, bytes, cursor + 1, target)
    }
}

/// The cursor behind all positions in front of `off`, and behind `off` itself.
pub open spec fn past(structurals: Seq<u32>, cursor: int, off: int) -> int
    decreases structurals.len() - cursor,
{
    if cursor >= structurals.len() || structurals[cursor] > off {
        cursor
    } else if structurals[cursor] == off {
        cursor + 1
    } else {
        past(structurals, cursor + 1, off)
    }
}

/// The cursor behind the colons and commas at `cursor`.
pub open spec fn past_separators(structurals: Seq<u32>, bytes: Seq<u8>, cursor: int) -> int
    decreases structurals.len() - cursor,
{
    if cursor < structurals.len() && structurals[cursor] < bytes.len() && (
    bytes[structurals[cursor] as int] == COLON || bytes[structurals[cursor] as int] == COMMA) {
        past_separators(structurals, bytes, cursor + 1)
    } else {
        cursor
    }
}

/// One more token.
pub open spec fn append(
    w: Walk,
    offset: int,
    kind: Kind,
    depth: int,
    tape: u32,
    role: Role,
    name: Option<Seq<char>>,
) -> Walk {
    Walk {
        toks: w.toks.push(Token { offset, kind, depth }),
        tape: w.tape.push(tape),
        roles: w.roles.push(role),
        names: w.names.push(name),
        ..w
    }
}

/// One more entry of the innermost container has been passed.
pub open spec fn passed(frames: Seq<Frame>) -> Seq<Frame> {
    if frames.len() > 0 {
        frames.update(
            frames.len() - 1,
            Frame { done: frames.last().done + 1, ..frames.last() },
        )
    } else {
        frames
    }
}

/// The role of a value inside the innermost container; `root` outside all of them.
pub open spec fn value_role(frames: Seq<Frame>, root: Role) -> Role {
    if frames.len() == 0 {
        root
    } else if frames.last().object {
        Role::Value
    } else {
        Role::Elem
    }
}

/// No further token can be numbered.
pub open spec fn full(w: Walk) -> bool {
    w.toks.len() >= i32::MAX
}

/// Closes the innermost container: seeks its bracket, and counts it as an entry of the
/// container around it. `missing` is the error where the bracket is not found.
pub open spec fn close_top(
    w: Walk,
    bytes: Seq<u8>,
    structurals: Seq<u32>,
    missing: Seq<char>,
) -> Result<Walk, Seq<char>> {
    let object = w.frames.last().object;
    let rest = w.frames.drop_last();
    if full(w) {
        Err("too many tokens"@)
    } else {
        match find_struct(
            structurals,
            bytes,
            w.cursor,
            if object {
                OBJ_CLOSE
            } else {
                ARR_CLOSE
            },
        ) {
            None => Err(missing),
            Some(c) => Ok(
                Walk {
                    frames: passed(rest),
                    cursor: c + 1,
                    next_is_key: if rest.len() > 0 {
                        rest.last().object
                    } else {
                        w.next_is_key
                    },
                    ..append(
                        w,
                        structurals[c] as int,
                        if object {
                            Kind::ObjClose
                        } else {
                            Kind::ArrClose
                        },
                        rest.len() as int,
                        u32::MAX,
                        Role::Other,
                        None,
                    )
                },
            ),
        }
    }
}

/// Closes every container whose entries have all been passed, from the innermost outwards.
pub open spec fn close_full(w: Walk, bytes: Seq<u8>, structurals: Seq<u32>) -> Result<
    Walk,
    Seq<char>,
>
    decreases w.frames.len(),
{
    if w.frames.len() > 0 && w.frames.last().done >= w.frames.last().limit {
        match close_top(w, bytes, structurals, "unmatched close"@) {
            Ok(next) => close_full(next, bytes, structurals),
            Err(e) => Err(e),
        }
    } else {
        Ok(w)
    }
}

/// Closes every container that is still open.
pub open spec fn close_rest(w: Walk, bytes: Seq<u8>, structurals: Seq<u32>) -> Result<
    Walk,
    Seq<char>,
>
    decreases w.frames.len(),
{
    if w.frames.len() > 0 {
        match close_top(w, bytes, structurals, "trailing close not found"@) {
            Ok(next) => close_rest(next, bytes, structurals),
            Err(e) => Err(e),
        }
    } else {
        Ok(w)
    }
}

/// Opens a container of `len` entries.
pub open spec fn open_container(
    w: Walk,
    bytes: Seq<u8>,
    structurals: Seq<u32>,
    object: bool,
    len: int,
    tape: int,
) -> Result<Walk, Seq<char>> {
    match find_struct(
        structurals,
        bytes,
        w.cursor,
        if object {
            OBJ_OPEN
        } else {
            ARR_OPEN
        },
    ) {
        None => Err(
            if object {
                "missing `{` in structurals"@
            } else {
                "missing `[` in structurals"@
            },
        ),
        Some(c) => if w.frames.len() >= u16::MAX {
            Err("nesting too deep"@)
        } else {
            Ok(
                Walk {
                    frames: w.frames.push(
                        Frame { object, done: 0, limit: (len as usize as u32) as int },
                    ),
                    cursor: c + 1,
                    next_is_key: object,
                    ..append(
                        w,
                        structurals[c] as int,
                        if object {
                            Kind::ObjOpen
                        } else {
                            Kind::ArrOpen
                        },
                        w.frames.len() as int,
                        tape as u32,
                        value_role(w.frames, Role::Other),
                        None,
                    )
                },
            )
        },
    }
}

/// A string at byte `off`, with the cursor behind its quote. In an object it is a key or a
/// value in turn; behind a key the colon is passed too.
pub open spec fn place_text(
    w: Walk,
    bytes: Seq<u8>,
    structurals: Seq<u32>,
    text: Seq<char>,
    off: int,
    cursor: int,
    tape: int,
) -> Walk {
    let inside = w.frames.len() > 0;
    if inside && w.frames.last().object && w.next_is_key {
        let colon = cursor < structurals.len() && structurals[cursor] < bytes.len()
            && bytes[structurals[cursor] as int] == COLON;
        Walk {
            cursor: if colon {
                cursor + 1
            } else {
                cursor
            },
            next_is_key: false,
            ..append(
                w,
                off,
                Kind::Quote,
                w.frames.len() as int,
                tape as u32,
                Role::Key,
                Some(text),
            )
        }
    } else {
        Walk {
            cursor,
            frames: passed(w.frames),
            next_is_key: w.next_is_key || (inside && w.frames.last().object),
            ..append(
                w,
                off,
                Kind::Quote,
                w.frames.len() as int,
                tape as u32,
                value_role(w.frames, Role::Value),
                None,
            )
        }
    }
}

/// Places one node of the tape.
pub open spec fn place(
    w: Walk,
    bytes: Seq<u8>,
    structurals: Seq<u32>,
    node: NodeView,
    tape: int,
) -> Result<Walk, Seq<char>> {
    if full(w) {
        Err("too many tokens"@)
    } else {
        match node {
            NodeView::Object { len } => open_container(w, bytes, structurals, true, len, tape),
            NodeView::Array { len } => open_container(w, bytes, structurals, false, len, tape),
            NodeView::Text { text, offset } => match offset {
                Some(off) => Ok(
                    place_text(
                        w,
                        bytes,
                        structurals,
                        text,
                        off as int,
                        past(structurals, w.cursor, off as int),
                        tape,
                    ),
                ),
                None => match find_struct(structurals, bytes, w.cursor, QUOTE) {
                    Some(c) => Ok(
                        place_text(
                            w,
                            bytes,
                            structurals,
                            text,
                            structurals[c] as int,
                            c + 1,
                            tape,
                        ),
                    ),
                    None => Err("missing `\"` in structurals"@),
                },
            },
            NodeView::Static { .. } => {
                let c = past_separators(structurals, bytes, w.cursor);
                if c >= structurals.len() {
                    Err("scalar offset"@)
                } else {
                    Ok(
                        Walk {
                            cursor: c + 1,
                            frames: passed(w.frames),
                            next_is_key: w.next_is_key || (w.frames.len() > 0
                                && w.frames.last().object),
                            ..append(
                                w,
                                structurals[c] as int,
                                Kind::Scalar,
                                w.frames.len() as int,
                                tape as u32,
                                value_role(w.frames, Role::Value),
                                None,
                            )
                        },
                    )
                }
            },
        }
    }
}

/// The walk over the first `n` nodes. In front of each node, containers that are complete
/// are closed.
pub open spec fn walk_to(
    nodes: Seq<NodeView>,
    bytes: Seq<u8>,
    structurals: Seq<u32>,
    n: int,
) -> Result<Walk, Seq<char>>
    decreases n,
{
    if n <= 0 {
        Ok(start())
    } else {
        match walk_to(nodes, bytes, structurals, n - 1) {
            Ok(w) => match close_full(w, bytes, structurals) {
                Ok(closed) => place(closed, bytes, structurals, nodes[n - 1], n - 1),
                Err(e) => Err(e),
            },
            Err(e) => Err(e),
        }
    }
}

/// The walk over a whole tape.
pub open spec fn tape_walk(nodes: Seq<NodeView>, bytes: Seq<u8>, structurals: Seq<u32>) -> Result<
    Walk,
    Seq<char>,
> {
    match walk_to(nodes, bytes, structurals, nodes.len() as int) {
        Ok(w) => close_rest(w, bytes, structurals),
        Err(e) => Err(e),
    }
}

// ---------------------------------------------------------------------------
// What the walk yields
// ---------------------------------------------------------------------------

/// The role of token `i` as far as its kind and its container tell, keys aside.
pub open spec fn role_without_key(kinds: Seq<Kind>, i: int) -> Role {
    let within = parent_kind(kinds, i);
    if is_close(kinds[i]) {
        Role::Other
    } else if within == Some(Kind::ArrOpen) {
        Role::Elem
    } else if within is None && is_open(kinds[i]) {
        Role::Other
    } else {
        Role::Value
    }
}

/// Token `i` of a walk: its depth is its nesting, its tape number counts the nodes in front
/// of it, only a string directly inside an object is a key, and its role follows.
pub open spec fn row_ok(w: Walk, i: int) -> bool {
    let kinds = kinds_of(w.toks);
    &&& kinds[i] != Kind::Colon && kinds[i] != Kind::Comma
    &&& w.toks[i].depth == nesting_at(kinds, i)
    &&& w.tape[i] == tape_number(kinds, i, false)
    &&& w.names[i] is Some ==> kinds[i] == Kind::Quote && parent_kind(kinds, i) == Some(
        Kind::ObjOpen,
    )
    &&& w.roles[i] == (if w.names[i] is Some {
        Role::Key
    } else {
        role_without_key(kinds, i)
    })
}

/// The columns of a walk over `placed` nodes agree, and its frames are the open containers.
pub open spec fn consistent(w: Walk, placed: int) -> bool {
    let kinds = kinds_of(w.toks);
    let n = w.toks.len() as int;
    let open = stack_at(kinds, n);
    &&& n <= i32::MAX
    &&& w.tape.len() == n
    &&& w.roles.len() == n
    &&& w.names.len() == n
    &&& closes_matched(kinds)
    &&& brackets_pair(kinds)
    &&& numbered_before(kinds, n, false) == placed
    &&& open.len() == w.frames.len()
    &&& forall|k: int|
        0 <= k < open.len() ==> (#[trigger] w.frames[k]).object == (kinds[open[k]]
            == Kind::ObjOpen)
    &&& forall|i: int| 0 <= i < n ==> #[trigger] row_ok(w, i)
}

/// Numbers of tokens depend on the tokens in front of them alone.
proof fn lemma_numbered_prefix(a: Seq<Kind>, b: Seq<Kind>, i: int)
    requires
        0 <= i <= a.len(),
        i <= b.len(),
        forall|k: int| 0 <= k < i ==> a[k] == b[k],
    ensures
        numbered_before(a, i, false) == numbered_before(b, i, false),
    decreases i,
{
    if i > 0 {
        lemma_numbered_prefix(a, b, i - 1);
    }
}

/// What one more token does to the frames: an open adds one, a close takes one away.
spec fn frames_follow(before: Seq<Frame>, after: Seq<Frame>, kind: Kind) -> bool {
    &&& after.len() == before.len() + (if is_open(kind) {
        1int
    } else if is_close(kind) {
        -1int
    } else {
        0int
    })
    &&& forall|k: int|
        0 <= k < before.len() && k < after.len() ==> (#[trigger] after[k]).object
            == before[k].object
    &&& is_open(kind) ==> after.last().object == (kind == Kind::ObjOpen)
}

/// One more row keeps the columns consistent.
proof fn lemma_append(
    w: Walk,
    next: Walk,
    placed: int,
    offset: int,
    kind: Kind,
    tape: u32,
    role: Role,
    name: Option<Seq<char>>,
)
    requires
        consistent(w, placed),
        !full(w),
        kind != Kind::Colon,
        kind != Kind::Comma,
        is_close(kind) ==> w.frames.len() > 0 && (kind == Kind::ObjClose
            <==> w.frames.last().object),
        frames_follow(w.frames, next.frames, kind),
        ({
            let depth = if is_close(kind) {
                w.frames.len() - 1
            } else {
                w.frames.len() as int
            };
            let row = append(w, offset, kind, depth, tape, role, name);
            &&& next.toks == row.toks
            &&& next.tape == row.tape
            &&& next.roles == row.roles
            &&& next.names == row.names
        }),
        tape == (if is_close(kind) {
            u32::MAX as int
        } else {
            placed
        }),
        name is Some ==> kind == Kind::Quote && w.frames.len() > 0 && w.frames.last().object,
        role == (if name is Some {
            Role::Key
        } else if is_close(kind) {
            Role::Other
        } else {
            value_role(
                w.frames,
                if is_open(kind) {
                    Role::Other
                } else {
                    Role::Value
                },
            )
        }),
    ensures
        consistent(
            next,
            placed + (if is_close(kind) {
                0int
            } else {
                1int
            }),
        ),
{
    let kinds = kinds_of(w.toks);
    let more = kinds_of(next.toks);
    let n = w.toks.len() as int;
    let open = stack_at(kinds, n);
    let then = stack_at(more, n + 1);
    assert(more =~= kinds.push(kind));
    lemma_push_kind(kinds, kind);
    lemma_stack_prefix(kinds, more, n);
    lemma_numbered_prefix(kinds, more, n);
    assert forall|d: int, j: int| #[trigger] closes(more, d, j) implies (more[j] == Kind::ObjClose
        <==> more[d] == Kind::ObjOpen) by {
        lemma_close_after_open(more, d, j);
        lemma_stack_prefix(kinds, more, j);
        if j < n {
            assert(closes(kinds, d, j));
        } else {
            assert(w.frames[open.len() - 1].object == (kinds[open[open.len() - 1]]
                == Kind::ObjOpen));
        }
    }
    assert forall|k: int| 0 <= k < then.len() implies (#[trigger] next.frames[k]).object == (
    more[then[k]] == Kind::ObjOpen) by {
        lemma_stack(more, n + 1);
        lemma_stack(kinds, n);
        if k < open.len() {
            assert(w.frames[k].object == (kinds[open[k]] == Kind::ObjOpen));
            assert(then[k] == open[k]);
            assert(next.frames[k].object == w.frames[k].object);
        }
    }
    assert forall|i: int| 0 <= i < n + 1 implies #[trigger] row_ok(next, i) by {
        lemma_stack_prefix(kinds, more, i);
        lemma_numbered_prefix(kinds, more, i);
        if i < n {
            lemma_stack_prefix(kinds, more, i + 1);
            assert(row_ok(w, i));
            assert(parent_at(more, i) == parent_at(kinds, i));
            lemma_parent(kinds, i);
        } else {
            lemma_parent(more, n);
            lemma_stack(kinds, n);
            if open.len() > 0 && !is_close(kind) {
                assert(parent_at(more, n) == open.last());
                assert(w.frames[open.len() - 1].object == (kinds[open[open.len() - 1]]
                    == Kind::ObjOpen));
            }
        }
    }
}

proof fn lemma_close_top(
    w: Walk,
    placed: int,
    bytes: Seq<u8>,
    structurals: Seq<u32>,
    missing: Seq<char>,
)
    requires
        consistent(w, placed),
        w.frames.len() > 0,
    ensures
        close_top(w, bytes, structurals, missing) matches Ok(next) ==> consistent(next, placed)
            && next.frames.len() == w.frames.len() - 1,
{
    match close_top(w, bytes, structurals, missing) {
        Ok(next) => {
            let offset = next.toks.last().offset;
            let kind = next.toks.last().kind;
            lemma_append(w, next, placed, offset, kind, u32::MAX, Role::Other, None);
        },
        Err(_) => {},
    }
}

proof fn lemma_close_full(w: Walk, placed: int, bytes: Seq<u8>, structurals: Seq<u32>)
    requires
        consistent(w, placed),
    ensures
        close_full(w, bytes, structurals) matches Ok(next) ==> consistent(next, placed),
    decreases w.frames.len(),
{
    if w.frames.len() > 0 && w.frames.last().done >= w.frames.last().limit {
        lemma_close_top(w, placed, bytes, structurals, "unmatched close"@);
        match close_top(w, bytes, structurals, "unmatched close"@) {
            Ok(next) => lemma_close_full(next, placed, bytes, structurals),
            Err(_) => {},
        }
    }
}

proof fn lemma_close_rest(w: Walk, placed: int, bytes: Seq<u8>, structurals: Seq<u32>)
    requires
        consistent(w, placed),
    ensures
        close_rest(w, bytes, structurals) matches Ok(next) ==> consistent(next, placed)
            && next.frames.len() == 0,
    decreases w.frames.len(),
{
    if w.frames.len() > 0 {
        lemma_close_top(w, placed, bytes, structurals, "trailing close not found"@);
        match close_top(w, bytes, structurals, "trailing close not found"@) {
            Ok(next) => lemma_close_rest(next, placed, bytes, structurals),
            Err(_) => {},
        }
    }
}

proof fn lemma_place(w: Walk, placed: int, bytes: Seq<u8>, structurals: Seq<u32>, node: NodeView)
    requires
        consistent(w, placed),
    ensures
        place(w, bytes, structurals, node, placed) matches Ok(next) ==> consistent(
            next,
            placed + 1,
        ),
{
    let kinds = kinds_of(w.toks);
    lemma_numbered(kinds, 0, w.toks.len() as int, false);
    match place(w, bytes, structurals, node, placed) {
        Ok(next) => {
            let t = next.toks.last();
            assert(next.toks.len() == w.toks.len() + 1);
            let name = next.names.last();
            let role = next.roles.last();
            lemma_append(w, next, placed, t.offset, t.kind, placed as u32, role, name);
        },
        Err(_) => {},
    }
}

proof fn lemma_walk_to(nodes: Seq<NodeView>, bytes: Seq<u8>, structurals: Seq<u32>, n: int)
    requires
        0 <= n,
    ensures
        walk_to(nodes, bytes, structurals, n) matches Ok(w) ==> consistent(w, n),
    decreases n,
{
    if n > 0 {
        lemma_walk_to(nodes, bytes, structurals, n - 1);
        match walk_to(nodes, bytes, structurals, n - 1) {
            Ok(w) => {
                lemma_close_full(w, n - 1, bytes, structurals);
                match close_full(w, bytes, structurals) {
                    Ok(closed) => lemma_place(closed, n - 1, bytes, structurals, nodes[n - 1]),
                    Err(_) => {},
                }
            },
            Err(_) => {},
        }
    }
}

/// What a walk yields is a tree, with one token per node and one per close: objects are closed
/// as objects and arrays as arrays. A token's depth is its nesting, tape numbers are the positions of the nodes, a key is a string directly
/// inside an object, and every role is that of the token's place.
pub proof fn law_walk_spells_a_tree(nodes: Seq<NodeView>, bytes: Seq<u8>, structurals: Seq<u32>)
    ensures
        tape_walk(nodes, bytes, structurals) matches Ok(w) ==> balanced(kinds_of(w.toks))
            && brackets_pair(kinds_of(w.toks)) && consistent(w, nodes.len() as int),
{
    lemma_walk_to(nodes, bytes, structurals, nodes.len() as int);
    match walk_to(nodes, bytes, structurals, nodes.len() as int) {
        Ok(w) => lemma_close_rest(w, nodes.len() as int, bytes, structurals),
        Err(_) => {},
    }
}

} // verus!
