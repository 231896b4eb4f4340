//! Documents and their tapes: what a walk along the tape of a document lists, and what a
//! document is written out as.

use vstd::prelude::*;

use crate::api::{BuildOptions, Error, StructuralIndex};
use crate::from_tape::{
    from_simdjson, holds_value, materialize_node, node_views, parse, simd_tape, written,
    written_entry, written_items, Parsed, TapeNode,
};
use crate::keys::Role;
use crate::lex::{Kind, Token};
use crate::walk::{
    close_full, close_rest, close_top, find_struct, full, passed, past, past_separators, place,
    place_text, start, tape_walk, walk_to, Frame, NodeView, Walk,
};

verus! {

/// A document by what it holds: a string, a literal that begins with the byte `first`, or an
/// object or array with its entries in order. Names count in objects alone.
pub ghost enum Doc {
    Text { text: Seq<char> },
    Literal { text: Seq<char>, first: u8 },
    Container { object: bool, entries: Seq<(Seq<char>, Doc)> },
}

/// The structural bytes of a document in order: brackets, colons, commas, opening quotes and
/// the first byte of every literal.
pub open spec fn shape(doc: Doc) -> Seq<u8>
    decreases doc, 0int,
{
    match doc {
        Doc::Text { .. } => seq![0x22u8],
        Doc::Literal { first, .. } => seq![first],
        Doc::Container { object, entries } => seq![
            if object {
                0x7bu8
            } else {
                0x5bu8
            },
        ] + row_shape(object, entries, entries.len() as int) + seq![
            if object {
                0x7du8
            } else {
                0x5du8
            },
        ],
    }
}

/// The structural bytes of the first `k` entries.
pub open spec fn row_shape(object: bool, entries: Seq<(Seq<char>, Doc)>, k: int) -> Seq<u8>
    decreases entries, k,
{
    if k <= 0 || k > entries.len() {
        Seq::empty()
    } else {
        row_shape(object, entries, k - 1) + entry_front(object, k) + shape(entries[k - 1].1)
    }
}

/// What stands in front of the value of entry `k`: a comma but for the first, and in an object
/// the quote of the name and a colon.
pub open spec fn entry_front(object: bool, k: int) -> Seq<u8> {
    let comma = if k > 1 {
        seq![0x2cu8]
    } else {
        Seq::empty()
    };
    if object {
        comma + seq![0x22u8, 0x3au8]
    } else {
        comma
    }
}

/// The nodes of a document: containers in front of what they hold, with the number of their
/// entries, and names in front of values.
pub open spec fn nodes_of(doc: Doc) -> Seq<NodeView>
    decreases doc, 0int,
{
    match doc {
        Doc::Text { text } => seq![NodeView::Text { text, offset: None }],
        Doc::Literal { text, .. } => seq![NodeView::Static { text }],
        Doc::Container { object, entries } => seq![
            if object {
                NodeView::Object { len: entries.len() as int }
            } else {
                NodeView::Array { len: entries.len() as int }
            },
        ] + row_nodes(object, entries, entries.len() as int),
    }
}

/// The nodes of the first `k` entries.
pub open spec fn row_nodes(object: bool, entries: Seq<(Seq<char>, Doc)>, k: int) -> Seq<NodeView>
    decreases entries, k,
{
    if k <= 0 || k > entries.len() {
        Seq::empty()
    } else {
        row_nodes(object, entries, k - 1) + entry_nodes(object, entries[k - 1].0) + nodes_of(
            entries[k - 1].1,
        )
    }
}

/// The node of a name; an array has none.
pub open spec fn entry_nodes(object: bool, name: Seq<char>) -> Seq<NodeView> {
    if object {
        seq![NodeView::Text { text: name, offset: None }]
    } else {
        Seq::empty()
    }
}

/// A token by its place among the structural bytes, with the name that it spells as a key, the
/// number of its node and its role.
pub ghost struct Row {
    pub at: int,
    pub kind: Kind,
    pub depth: int,
    pub name: Option<Seq<char>>,
    pub tape: u32,
    pub role: Role,
}

/// The role of a value: in an object a value, in an array an element; at the root a string or
/// literal is a value and a container has no role.
pub open spec fn role_in(inside: Option<bool>, container: bool) -> Role {
    match inside {
        Some(object) => if object {
            Role::Value
        } else {
            Role::Elem
        },
        None => if container {
            Role::Other
        } else {
            Role::Value
        },
    }
}

/// The tokens of a document whose structural bytes begin at place `at` and whose nodes begin at
/// node `n`: every structural byte but colons and commas, at its nesting depth. Closes have no
/// node.
pub open spec fn rows(doc: Doc, at: int, depth: int, n: int, inside: Option<bool>) -> Seq<Row>
    decreases doc, 0int,
{
    match doc {
        Doc::Text { .. } => seq![
            Row {
                at,
                kind: Kind::Quote,
                depth,
                name: None,
                tape: n as u32,
                role: role_in(inside, false),
            },
        ],
        Doc::Literal { .. } => seq![
            Row {
                at,
                kind: Kind::Scalar,
                depth,
                name: None,
                tape: n as u32,
                role: role_in(inside, false),
            },
        ],
        Doc::Container { object, entries } => {
            let k = entries.len() as int;
            let open = Row {
                at,
                kind: if object {
                    Kind::ObjOpen
                } else {
                    Kind::ArrOpen
                },
                depth,
                name: None,
                tape: n as u32,
                role: role_in(inside, true),
            };
            let close = Row {
                at: at + 1 + row_shape(object, entries, k).len(),
                kind: if object {
                    Kind::ObjClose
                } else {
                    Kind::ArrClose
                },
                depth,
                name: None,
                tape: u32::MAX,
                role: Role::Other,
            };
            seq![open] + entry_rows(object, entries, k, at + 1, depth + 1, n + 1) + seq![close]
        },
    }
}

/// The token of a name.
pub open spec fn key_row(at: int, depth: int, name: Seq<char>, n: int) -> Row {
    Row { at, kind: Kind::Quote, depth, name: Some(name), tape: n as u32, role: Role::Key }
}

/// The tokens of the first `k` entries; in an object the name of each is a key.
pub open spec fn entry_rows(
    object: bool,
    entries: Seq<(Seq<char>, Doc)>,
    k: int,
    at: int,
    depth: int,
    n: int,
) -> Seq<Row>
    decreases entries, k,
{
    if k <= 0 || k > entries.len() {
        Seq::empty()
    } else {
        let front = at + row_shape(object, entries, k - 1).len();
        let value = front + entry_front(object, k).len();
        let node = n + row_nodes(object, entries, k - 1).len();
        let key = if object {
            seq![key_row(value - 2, depth, entries[k - 1].0, node)]
        } else {
            Seq::empty()
        };
        entry_rows(object, entries, k - 1, at, depth, n) + key + rows(
            entries[k - 1].1,
            value,
            depth,
            node + key.len(),
            Some(object),
        )
    }
}

/// No literal of the document begins with a colon or a comma.
pub open spec fn literals_ok(doc: Doc) -> bool
    decreases doc,
{
    match doc {
        Doc::Text { .. } => true,
        Doc::Literal { first, .. } => first != 0x3a && first != 0x2c,
        Doc::Container { entries, .. } => forall|i: int|
            0 <= i < entries.len() ==> literals_ok((#[trigger] entries[i]).1),
    }
}

/// The document nests at most `n` containers deep.
pub open spec fn nests_within(doc: Doc, n: int) -> bool
    decreases doc,
{
    match doc {
        Doc::Container { entries, .. } => n > 0 && forall|i: int|
            0 <= i < entries.len() ==> nests_within((#[trigger] entries[i]).1, n - 1),
        _ => n >= 0,
    }
}

/// The structural positions from place `at` on hold the bytes `s`.
pub open spec fn holds(structurals: Seq<u32>, bytes: Seq<u8>, at: int, s: Seq<u8>) -> bool {
    &&& 0 <= at
    &&& at + s.len() <= structurals.len()
    &&& forall|p: int|
        at <= p < at + s.len() ==> #[trigger] structurals[p] < bytes.len()
            && bytes[structurals[p] as int] == s[p - at]
}

/// The tokens that the rows stand for.
pub open spec fn tokens_of(rows: Seq<Row>, structurals: Seq<u32>) -> Seq<Token> {
    rows.map_values(
        |r: Row| Token { offset: structurals[r.at] as int, kind: r.kind, depth: r.depth },
    )
}

/// The names in the rows.
pub open spec fn names_of(rows: Seq<Row>) -> Seq<Option<Seq<char>>> {
    rows.map_values(|r: Row| r.name)
}

/// The tape numbers in the rows.
pub open spec fn tape_of(rows: Seq<Row>) -> Seq<u32> {
    rows.map_values(|r: Row| r.tape)
}

/// The roles in the rows.
pub open spec fn roles_of(rows: Seq<Row>) -> Seq<Role> {
    rows.map_values(|r: Row| r.role)
}

// ---------------------------------------------------------------------------
// Seeking
// ---------------------------------------------------------------------------

/// From `cursor` to `at` stand colons and commas.
spec fn separated(structurals: Seq<u32>, bytes: Seq<u8>, cursor: int, at: int) -> bool {
    &&& 0 <= cursor <= at <= structurals.len()
    &&& forall|j: int|
        cursor <= j < at ==> (#[trigger] structurals[j]) < bytes.len() && (
        bytes[structurals[j] as int] == 0x3a || bytes[structurals[j] as int] == 0x2c)
}

proof fn lemma_find(structurals: Seq<u32>, bytes: Seq<u8>, cursor: int, at: int, target: u8)
    requires
        separated(structurals, bytes, cursor, at),
        at < structurals.len(),
        structurals[at] < bytes.len(),
        bytes[structurals[at] as int] == target,
        target != 0x3a && target != 0x2c,
    ensures
        find_struct(structurals, bytes, cursor, target) == Some(at),
    decreases at - cursor,
{
    if cursor < at {
        assert(structurals[cursor] < bytes.len());
        lemma_find(structurals, bytes, cursor + 1, at, target);
    }
}

proof fn lemma_past(structurals: Seq<u32>, bytes: Seq<u8>, cursor: int, at: int)
    requires
        separated(structurals, bytes, cursor, at),
        at < structurals.len(),
        structurals[at] < bytes.len(),
        bytes[structurals[at] as int] != 0x3a && bytes[structurals[at] as int] != 0x2c,
    ensures
        past_separators(structurals, bytes, cursor) == at,
    decreases at - cursor,
{
    if cursor < at {
        assert(structurals[cursor] < bytes.len());
        lemma_past(structurals, bytes, cursor + 1, at);
    }
}

proof fn lemma_shape_len(doc: Doc)
    ensures
        shape(doc).len() > 0,
        nodes_of(doc).len() > 0,
{
}

proof fn lemma_row_len(object: bool, entries: Seq<(Seq<char>, Doc)>, k: int)
    requires
        0 <= k <= entries.len(),
    ensures
        row_shape(object, entries, k).len() >= k,
    decreases k,
{
    if k > 0 {
        lemma_row_len(object, entries, k - 1);
        lemma_shape_len(entries[k - 1].1);
    }
}

/// A part of what is held is held.
proof fn lemma_holds_part(
    structurals: Seq<u32>,
    bytes: Seq<u8>,
    at: int,
    a: Seq<u8>,
    b: Seq<u8>,
    c: Seq<u8>,
)
    requires
        holds(structurals, bytes, at, a + b + c),
    ensures
        holds(structurals, bytes, at, a),
        holds(structurals, bytes, at + a.len(), b),
        holds(structurals, bytes, at + a.len() + b.len(), c),
{
    let s = a + b + c;
    assert forall|p: int| at <= p < at + a.len() implies #[trigger] structurals[p] < bytes.len()
        && bytes[structurals[p] as int] == a[p - at] by {
        assert(s[p - at] == a[p - at]);
    }
    let q = at + a.len();
    assert forall|p: int| q <= p < q + b.len() implies #[trigger] structurals[p] < bytes.len()
        && bytes[structurals[p] as int] == b[p - q] by {
        assert(s[p - at] == b[p - q]);
    }
    let r = at + a.len() + b.len();
    assert forall|p: int| r <= p < r + c.len() implies #[trigger] structurals[p] < bytes.len()
        && bytes[structurals[p] as int] == c[p - r] by {
        assert(s[p - at] == c[p - r]);
    }
}

// ---------------------------------------------------------------------------
// Walking
// ---------------------------------------------------------------------------

/// Once complete containers are closed, the walk over the first `n` nodes stands where `u`
/// does.
spec fn leads_to(
    nodes: Seq<NodeView>,
    bytes: Seq<u8>,
    structurals: Seq<u32>,
    n: int,
    u: Walk,
) -> bool {
    match walk_to(nodes, bytes, structurals, n) {
        Ok(v) => close_full(v, bytes, structurals) == close_full(u, bytes, structurals),
        Err(_) => false,
    }
}

/// `u` is `w` with more rows, and the cursor at place `at`.
spec fn extends(w: Walk, u: Walk, more: Seq<Row>, structurals: Seq<u32>, at: int) -> bool {
    &&& u.toks == w.toks + tokens_of(more, structurals)
    &&& u.names == w.names + names_of(more)
    &&& u.tape == w.tape + tape_of(more)
    &&& u.roles == w.roles + roles_of(more)
    &&& u.cursor == at
    &&& u.toks.len() <= u.cursor
}

proof fn lemma_one_row(w: Walk, u: Walk, r: Row, structurals: Seq<u32>, at: int)
    requires
        u.toks == w.toks.push(
            Token { offset: structurals[r.at] as int, kind: r.kind, depth: r.depth },
        ),
        u.names == w.names.push(r.name),
        u.tape == w.tape.push(r.tape),
        u.roles == w.roles.push(r.role),
        u.cursor == at,
        u.toks.len() <= u.cursor,
    ensures
        extends(w, u, seq![r], structurals, at),
{
    assert(u.toks =~= w.toks + tokens_of(seq![r], structurals));
    assert(u.names =~= w.names + names_of(seq![r]));
    assert(u.tape =~= w.tape + tape_of(seq![r]));
    assert(u.roles =~= w.roles + roles_of(seq![r]));
}

proof fn lemma_more_rows(
    w: Walk,
    u: Walk,
    v: Walk,
    a: Seq<Row>,
    b: Seq<Row>,
    structurals: Seq<u32>,
    p: int,
    q: int,
)
    requires
        extends(w, u, a, structurals, p),
        extends(u, v, b, structurals, q),
    ensures
        extends(w, v, a + b, structurals, q),
{
    assert(tokens_of(a + b, structurals) =~= tokens_of(a, structurals) + tokens_of(b, structurals));
    assert(names_of(a + b) =~= names_of(a) + names_of(b));
    assert(tape_of(a + b) =~= tape_of(a) + tape_of(b));
    assert(roles_of(a + b) =~= roles_of(a) + roles_of(b));
    assert(v.toks =~= w.toks + tokens_of(a + b, structurals));
    assert(v.names =~= w.names + names_of(a + b));
    assert(v.tape =~= w.tape + tape_of(a + b));
    assert(v.roles =~= w.roles + roles_of(a + b));
}

/// Whether the innermost open container is an object.
spec fn around(w: Walk) -> Option<bool> {
    if w.frames.len() > 0 {
        Some(w.frames.last().object)
    } else {
        None
    }
}

/// The walk stands in front of a value: its innermost container has room for one, and no name
/// is due.
spec fn ready(w: Walk) -> bool {
    &&& w.toks.len() <= w.cursor
    &&& w.frames.len() > 0 ==> w.frames.last().done < w.frames.last().limit && !w.next_is_key
}

/// Walking over the nodes of a document adds its rows, and counts it as one entry of the
/// container around it.
proof fn lemma_walk_doc(
    nodes: Seq<NodeView>,
    bytes: Seq<u8>,
    structurals: Seq<u32>,
    n: int,
    w: Walk,
    doc: Doc,
    at: int,
) -> (u: Walk)
    requires
        structurals.len() <= i32::MAX,
        0 <= n,
        n + nodes_of(doc).len() <= nodes.len(),
        nodes.subrange(n, n + nodes_of(doc).len()) == nodes_of(doc),
        leads_to(nodes, bytes, structurals, n, w),
        ready(w),
        separated(structurals, bytes, w.cursor, at),
        holds(structurals, bytes, at, shape(doc)),
        literals_ok(doc),
        nests_within(doc, u16::MAX - w.frames.len()),
    ensures
        leads_to(nodes, bytes, structurals, n + nodes_of(doc).len(), u),
        extends(
            w,
            u,
            rows(doc, at, w.frames.len() as int, n, around(w)),
            structurals,
            at + shape(doc).len(),
        ),
        u.frames == passed(w.frames),
        u.frames.len() > 0 ==> u.next_is_key == u.frames.last().object,
    decreases doc, 0int,
{
    let depth = w.frames.len() as int;
    assert(close_full(w, bytes, structurals) == Ok::<Walk, Seq<char>>(w));
    lemma_shape_len(doc);
    assert(nodes[n] == nodes.subrange(n, n + nodes_of(doc).len())[0]);
    assert(walk_to(nodes, bytes, structurals, n + 1) == place(
        w,
        bytes,
        structurals,
        nodes[n],
        n,
    ));
    assert(structurals[at] < bytes.len() && bytes[structurals[at] as int] == shape(doc)[0]);
    assert(!full(w));
    match doc {
        Doc::Text { text } => {
            lemma_find(structurals, bytes, w.cursor, at, 0x22);
            let u = place_text(w, bytes, structurals, text, structurals[at] as int, at + 1, n);
            let list = rows(doc, at, depth, n, around(w));
            lemma_one_row(w, u, list[0], structurals, at + 1);
            assert(list =~= seq![list[0]]);
            u
        },
        Doc::Literal { text, first } => {
            lemma_past(structurals, bytes, w.cursor, at);
            let u = place(w, bytes, structurals, nodes[n], n)->Ok_0;
            let list = rows(doc, at, depth, n, around(w));
            lemma_one_row(w, u, list[0], structurals, at + 1);
            assert(list =~= seq![list[0]]);
            u
        },
        Doc::Container { object, entries } => {
            let len = entries.len() as int;
            let open_byte: u8 = if object {
                0x7b
            } else {
                0x5b
            };
            let close_byte: u8 = if object {
                0x7d
            } else {
                0x5d
            };
            let row = row_shape(object, entries, len);
            assert(shape(doc) == seq![open_byte] + row + seq![close_byte]);
            assert(shape(doc)[0] == open_byte);
            lemma_holds_part(structurals, bytes, at, seq![open_byte], row, seq![close_byte]);
            lemma_row_len(object, entries, len);
            lemma_find(structurals, bytes, w.cursor, at, open_byte);
            let x = place(w, bytes, structurals, nodes[n], n)->Ok_0;
            assert(walk_to(nodes, bytes, structurals, n + 1) == Ok::<Walk, Seq<char>>(x));
            let list = rows(doc, at, depth, n, around(w));
            let inner = entry_rows(object, entries, len, at + 1, depth + 1, n + 1);
            let open_row = list[0];
            let close_row = list.last();
            assert(list =~= seq![open_row] + inner + seq![close_row]);
            lemma_one_row(w, x, open_row, structurals, at + 1);
            let total = nodes_of(doc);
            assert(nodes.subrange(n + 1, n + total.len()) =~= total.skip(1));
            assert(total.skip(1) =~= row_nodes(object, entries, len));
            let y = lemma_walk_entries(
                nodes,
                bytes,
                structurals,
                n + 1,
                x,
                object,
                entries,
                len,
                at + 1,
            );
            let end = at + 1 + row.len();
            lemma_more_rows(w, x, y, seq![open_row], inner, structurals, at + 1, end);
            // All entries have been passed, so the container is closed.
            let missing = "unmatched close"@;
            assert(seq![close_byte][0] == close_byte);
            assert(structurals[end] < bytes.len() && bytes[structurals[end] as int] == close_byte);
            lemma_find(structurals, bytes, end, end, close_byte);
            assert(y.toks.len() <= y.cursor);
            assert(!full(y));
            assert(y.frames.drop_last() =~= w.frames);
            let u = close_top(y, bytes, structurals, missing)->Ok_0;
            assert(close_top(y, bytes, structurals, missing) == Ok::<Walk, Seq<char>>(u));
            assert(close_full(y, bytes, structurals) == close_full(u, bytes, structurals));
            lemma_one_row(y, u, close_row, structurals, end + 1);
            lemma_more_rows(
                w,
                y,
                u,
                seq![open_row] + inner,
                seq![close_row],
                structurals,
                end,
                end + 1,
            );
            u
        },
    }
}

/// Walking over the name of an entry adds its row and passes the colon.
proof fn lemma_walk_name(
    nodes: Seq<NodeView>,
    bytes: Seq<u8>,
    structurals: Seq<u32>,
    m: int,
    p: Walk,
    name: Seq<char>,
    quote: int,
) -> (y: Walk)
    requires
        structurals.len() <= i32::MAX,
        0 <= m < nodes.len(),
        nodes[m] == (NodeView::Text { text: name, offset: None }),
        leads_to(nodes, bytes, structurals, m, p),
        p.toks.len() <= p.cursor,
        p.frames.len() > 0,
        p.frames.last().object,
        p.frames.last().done < p.frames.last().limit,
        p.next_is_key,
        separated(structurals, bytes, p.cursor, quote),
        quote + 1 < structurals.len(),
        structurals[quote] < bytes.len() && bytes[structurals[quote] as int] == 0x22,
        structurals[quote + 1] < bytes.len() && bytes[structurals[quote + 1] as int] == 0x3a,
    ensures
        leads_to(nodes, bytes, structurals, m + 1, y),
        extends(
            p,
            y,
            seq![
                key_row(quote, p.frames.len() as int, name, m),
            ],
            structurals,
            quote + 2,
        ),
        y.frames == p.frames,
        !y.next_is_key,
{
    assert(close_full(p, bytes, structurals) == Ok::<Walk, Seq<char>>(p));
    lemma_find(structurals, bytes, p.cursor, quote, 0x22);
    assert(!full(p));
    let y = place_text(p, bytes, structurals, name, structurals[quote] as int, quote + 1, m);
    assert(place(p, bytes, structurals, nodes[m], m) == Ok::<Walk, Seq<char>>(y));
    assert(walk_to(nodes, bytes, structurals, m + 1) == place(p, bytes, structurals, nodes[m], m));
    let r = key_row(quote, p.frames.len() as int, name, m);
    lemma_one_row(p, y, r, structurals, quote + 2);
    y
}

/// Walking over the nodes of the first `k` entries of a container adds their rows.
#[verifier::rlimit(60)]
#[verifier::spinoff_prover]
proof fn lemma_walk_entries(
    nodes: Seq<NodeView>,
    bytes: Seq<u8>,
    structurals: Seq<u32>,
    n: int,
    x: Walk,
    object: bool,
    entries: Seq<(Seq<char>, Doc)>,
    k: int,
    at: int,
) -> (u: Walk)
    requires
        structurals.len() <= i32::MAX,
        0 <= n,
        0 <= k <= entries.len(),
        n + row_nodes(object, entries, k).len() <= nodes.len(),
        nodes.subrange(n, n + row_nodes(object, entries, k).len()) == row_nodes(object, entries, k),
        leads_to(nodes, bytes, structurals, n, x),
        x.toks.len() <= x.cursor,
        x.cursor == at,
        x.next_is_key == object,
        x.frames.len() > 0,
        x.frames.last() == (Frame { object, done: 0, limit: entries.len() as int }),
        holds(structurals, bytes, at, row_shape(object, entries, k)),
        forall|i: int| 0 <= i < entries.len() ==> literals_ok((#[trigger] entries[i]).1),
        forall|i: int|
            0 <= i < entries.len() ==> nests_within(
                (#[trigger] entries[i]).1,
                u16::MAX - x.frames.len(),
            ),
    ensures
        leads_to(nodes, bytes, structurals, n + row_nodes(object, entries, k).len(), u),
        extends(
            x,
            u,
            entry_rows(object, entries, k, at, x.frames.len() as int, n),
            structurals,
            at + row_shape(object, entries, k).len(),
        ),
        u.frames == x.frames.update(
            x.frames.len() - 1,
            Frame { object, done: k, limit: entries.len() as int },
        ),
        u.next_is_key == object,
    decreases entries, k,
{
    let depth = x.frames.len() as int;
    if k == 0 {
        assert(tokens_of(Seq::<Row>::empty(), structurals) =~= Seq::<Token>::empty());
        assert(names_of(Seq::<Row>::empty()) =~= Seq::<Option<Seq<char>>>::empty());
        assert(x.toks + Seq::<Token>::empty() =~= x.toks);
        assert(x.names + Seq::<Option<Seq<char>>>::empty() =~= x.names);
        assert(tape_of(Seq::<Row>::empty()) =~= Seq::<u32>::empty());
        assert(roles_of(Seq::<Row>::empty()) =~= Seq::<Role>::empty());
        assert(x.tape + Seq::<u32>::empty() =~= x.tape);
        assert(x.roles + Seq::<Role>::empty() =~= x.roles);
        assert(x.frames.update(
            x.frames.len() - 1,
            Frame { object, done: 0, limit: entries.len() as int },
        ) =~= x.frames);
        x
    } else {
        let (name, doc) = entries[k - 1];
        let front = row_nodes(object, entries, k - 1);
        let key = entry_nodes(object, name);
        let all = row_nodes(object, entries, k);
        let part = nodes_of(doc);
        let before = row_shape(object, entries, k - 1);
        let head = entry_front(object, k);
        assert(all == front + key + part);
        assert(row_shape(object, entries, k) == before + head + shape(doc));
        lemma_holds_part(structurals, bytes, at, before, head, shape(doc));
        assert(nodes.subrange(n, n + front.len()) =~= nodes.subrange(n, n + all.len()).subrange(
            0,
            front.len() as int,
        ));
        assert(all.subrange(0, front.len() as int) =~= front);
        let p = lemma_walk_entries(
            nodes,
            bytes,
            structurals,
            n,
            x,
            object,
            entries,
            k - 1,
            at,
        );
        let m = n + front.len();
        let here = at + before.len();
        let value = here + head.len();
        let done = entry_rows(object, entries, k - 1, at, depth, n);
        assert(p.frames.last() == (Frame { object, done: k - 1, limit: entries.len() as int }));
        assert(close_full(p, bytes, structurals) == Ok::<Walk, Seq<char>>(p));
        assert(nodes.subrange(m + key.len(), m + key.len() + part.len()) =~= nodes.subrange(
            n,
            n + all.len(),
        ).subrange((front.len() + key.len()) as int, all.len() as int));
        assert(all.subrange((front.len() + key.len()) as int, all.len() as int) =~= part);
        lemma_shape_len(doc);
        let named = key_row(value - 2, depth, name, m);
        let y = if object {
            // The name, behind a comma but for the first entry.
            assert(head[head.len() - 2] == 0x22 && head[head.len() - 1] == 0x3a);
            if k > 1 {
                assert(head[0] == 0x2c);
            }
            assert(separated(structurals, bytes, here, value - 2));
            assert(nodes[m] == nodes.subrange(n, n + all.len())[front.len() as int]);
            assert(all[front.len() as int] == key[0]);
            let y = lemma_walk_name(nodes, bytes, structurals, m, p, name, value - 2);
            lemma_more_rows(x, p, y, done, seq![named], structurals, here, value);
            y
        } else {
            assert(done + Seq::<Row>::empty() =~= done);
            if k > 1 {
                assert(head[0] == 0x2c);
            }
            assert(separated(structurals, bytes, here, value));
            p
        };
        let so_far = if object {
            done + seq![named]
        } else {
            done + Seq::<Row>::empty()
        };
        let from = if object {
            value
        } else {
            here
        };
        assert(extends(x, y, so_far, structurals, from));
        assert(separated(structurals, bytes, y.cursor, value));
        assert(y.frames == p.frames);
        let u = lemma_walk_doc(
            nodes,
            bytes,
            structurals,
            m + key.len(),
            y,
            doc,
            value,
        );
        let part_rows = rows(doc, value, depth, m + key.len(), Some(object));
        lemma_more_rows(
            x,
            y,
            u,
            so_far,
            part_rows,
            structurals,
            from,
            value + shape(doc).len(),
        );
        assert(entry_rows(object, entries, k, at, depth, n) == so_far + part_rows);
        assert(u.frames =~= x.frames.update(
            x.frames.len() - 1,
            Frame { object, done: k, limit: entries.len() as int },
        ));
        u
    }
}

/// Where closing complete containers leaves none open, closing all of them does the same.
proof fn lemma_close_all(v: Walk, u: Walk, bytes: Seq<u8>, structurals: Seq<u32>)
    requires
        close_full(v, bytes, structurals) == Ok::<Walk, Seq<char>>(u),
        u.frames.len() == 0,
    ensures
        close_rest(v, bytes, structurals) == Ok::<Walk, Seq<char>>(u),
    decreases v.frames.len(),
{
    if v.frames.len() > 0 {
        let next = close_top(v, bytes, structurals, "unmatched close"@)->Ok_0;
        assert(close_top(v, bytes, structurals, "trailing close not found"@) == Ok::<
            Walk,
            Seq<char>,
        >(next));
        lemma_close_all(next, u, bytes, structurals);
    }
}

/// Walking along the tape of a document with its structural positions lists every bracket,
/// string and literal of the document, each at its position, in order and at its nesting
/// depth, with the number of its node and its role, and knows the names of its objects as keys.
pub proof fn law_walk_lists_the_document(doc: Doc, bytes: Seq<u8>, structurals: Seq<u32>)
    requires
        structurals.len() <= i32::MAX,
        holds(structurals, bytes, 0, shape(doc)),
        literals_ok(doc),
        nests_within(doc, u16::MAX as int),
    ensures
        tape_walk(nodes_of(doc), bytes, structurals) matches Ok(w) && w.toks == tokens_of(
            rows(doc, 0, 0, 0, None),
            structurals,
        ) && w.names == names_of(rows(doc, 0, 0, 0, None)) && w.tape == tape_of(
            rows(doc, 0, 0, 0, None),
        ) && w.roles == roles_of(rows(doc, 0, 0, 0, None)),
{
    let nodes = nodes_of(doc);
    let w = start();
    assert(nodes.subrange(0, nodes.len() as int) =~= nodes);
    assert(walk_to(nodes, bytes, structurals, 0) == Ok::<Walk, Seq<char>>(w));
    let u = lemma_walk_doc(nodes, bytes, structurals, 0, w, doc, 0);
    let v = walk_to(nodes, bytes, structurals, nodes.len() as int)->Ok_0;
    lemma_close_all(v, u, bytes, structurals);
    assert(u.toks =~= tokens_of(rows(doc, 0, 0, 0, None), structurals));
    assert(u.names =~= names_of(rows(doc, 0, 0, 0, None)));
    assert(u.tape =~= tape_of(rows(doc, 0, 0, 0, None)));
    assert(u.roles =~= roles_of(rows(doc, 0, 0, 0, None)));
}

/// An index along the tape of a document can be built, and lists the document.
pub proof fn law_tape_indexes_list_the_document(
    doc: Doc,
    nodes: &[TapeNode],
    bytes: &[u8],
    structurals: &[u32],
    opts: BuildOptions,
    r: Result<StructuralIndex, Error>,
)
    requires
        node_views(nodes@) == nodes_of(doc),
        structurals@.len() <= i32::MAX,
        holds(structurals@, bytes@, 0, shape(doc)),
        literals_ok(doc),
        nests_within(doc, u16::MAX as int),
        call_ensures(from_simdjson, (nodes, bytes, structurals, opts), r),
    ensures
        r matches Ok(idx) && idx.toks() == tokens_of(rows(doc, 0, 0, 0, None), structurals@)
            && idx.index().tape_of@ == tape_of(rows(doc, 0, 0, 0, None)) && (opts.keys
            ==> idx.key_names() == names_of(rows(doc, 0, 0, 0, None))),
{
    law_walk_lists_the_document(doc, bytes@, structurals@);
}

proof fn lemma_past_known(structurals: Seq<u32>, cursor: int, c: int)
    requires
        forall|i: int, j: int| 0 <= i < j < structurals.len() ==> structurals[i] < structurals[j],
        0 <= cursor <= c < structurals.len(),
    ensures
        past(structurals, cursor, structurals[c] as int) == c + 1,
    decreases c - cursor,
{
    if cursor < c {
        assert(structurals[cursor] < structurals[c]);
        lemma_past_known(structurals, cursor + 1, c);
    }
}

proof fn lemma_found(structurals: Seq<u32>, bytes: Seq<u8>, cursor: int, target: u8)
    requires
        0 <= cursor,
    ensures
        find_struct(structurals, bytes, cursor, target) matches Some(c) ==> {
            &&& cursor <= c < structurals.len()
            &&& structurals[c] < bytes.len()
            &&& bytes[structurals[c] as int] == target
            &&& forall|k: int|
                cursor <= k < c ==> bytes[#[trigger] structurals[k] as int] != target
        },
    decreases structurals.len() - cursor,
{
    if cursor < structurals.len() && structurals[cursor] < bytes.len()
        && bytes[structurals[cursor] as int] != target {
        lemma_found(structurals, bytes, cursor + 1, target);
    }
}

/// A string whose position is known is placed as one whose quote is sought, where the search
/// ends at that position.
pub proof fn law_known_positions_change_nothing(
    w: Walk,
    bytes: Seq<u8>,
    structurals: Seq<u32>,
    text: Seq<char>,
    tape: int,
    c: int,
)
    requires
        forall|i: int, j: int| 0 <= i < j < structurals.len() ==> structurals[i] < structurals[j],
        0 <= w.cursor,
        find_struct(structurals, bytes, w.cursor, 0x22) == Some(c),
    ensures
        place(w, bytes, structurals, NodeView::Text { text, offset: None }, tape) == place(
            w,
            bytes,
            structurals,
            NodeView::Text { text, offset: Some(structurals[c]) },
            tape,
        ),
{
    lemma_found(structurals, bytes, w.cursor, 0x22);
    lemma_past_known(structurals, w.cursor, c);
}

// ---------------------------------------------------------------------------
// Writing out
// ---------------------------------------------------------------------------

/// The text of a document: strings in quotes, literals as they are, containers in brackets
/// with commas between their entries and a colon behind each name.
pub open spec fn text_of(doc: Doc) -> Seq<char>
    decreases doc, 0int,
{
    match doc {
        Doc::Text { text } => seq!['"'] + text + seq!['"'],
        Doc::Literal { text, .. } => text,
        Doc::Container { object, entries } => seq![
            if object {
                '{'
            } else {
                '['
            },
        ] + text_from(object, entries, 0) + seq![
            if object {
                '}'
            } else {
                ']'
            },
        ],
    }
}

/// The text of the entries from `k` on.
pub open spec fn text_from(object: bool, entries: Seq<(Seq<char>, Doc)>, k: int) -> Seq<char>
    decreases entries, entries.len() - k,
{
    if k < 0 || k >= entries.len() {
        Seq::empty()
    } else {
        let comma = if k > 0 {
            seq![',']
        } else {
            Seq::empty()
        };
        let name = if object {
            seq!['"'] + entries[k].0 + seq!['"', ':']
        } else {
            Seq::empty()
        };
        comma + name + text_of(entries[k].1) + text_from(object, entries, k + 1)
    }
}

proof fn lemma_literal_texts()
    ensures
        "\""@ == seq!['"'],
        "\":"@ == seq!['"', ':'],
        ","@ == seq![','],
        "["@ == seq!['['],
        "]"@ == seq![']'],
        "{"@ == seq!['{'],
        "}"@ == seq!['}'],
{
    reveal_strlit("\"");
    reveal_strlit("\":");
    reveal_strlit(",");
    reveal_strlit("[");
    reveal_strlit("]");
    reveal_strlit("{");
    reveal_strlit("}");
    assert("\""@ =~= seq!['"']);
    assert("\":"@ =~= seq!['"', ':']);
    assert(","@ =~= seq![',']);
    assert("["@ =~= seq!['[']);
    assert("]"@ =~= seq![']']);
    assert("{"@ =~= seq!['{']);
    assert("}"@ =~= seq!['}']);
}

/// The nodes of a document, wherever they stand on a tape, are written out as its text.
pub proof fn law_documents_are_written_out(nodes: Seq<NodeView>, i: int, doc: Doc)
    requires
        0 <= i,
        i + nodes_of(doc).len() <= nodes.len(),
        nodes.subrange(i, i + nodes_of(doc).len()) == nodes_of(doc),
    ensures
        written(nodes, i) == Some((text_of(doc), i + nodes_of(doc).len())),
    decreases doc, 0int,
{
    lemma_literal_texts();
    lemma_shape_len(doc);
    assert(nodes[i] == nodes.subrange(i, i + nodes_of(doc).len())[0]);
    match doc {
        Doc::Text { text } => {
            assert("\""@ + (text + "\""@) =~= text_of(doc));
        },
        Doc::Literal { .. } => {},
        Doc::Container { object, entries } => {
            let len = entries.len() as int;
            let total = nodes_of(doc);
            assert(nodes.subrange(i + 1, i + total.len()) =~= total.skip(1));
            assert(total.skip(1) =~= row_nodes(object, entries, len));
            lemma_written_items(nodes, i + 1, object, entries, 0);
            let t = text_from(object, entries, 0);
            assert("["@ + (t + "]"@) =~= seq!['['] + t + seq![']']);
            assert("{"@ + (t + "}"@) =~= seq!['{'] + t + seq!['}']);
        },
    }
}

proof fn lemma_row_nodes_grow(object: bool, entries: Seq<(Seq<char>, Doc)>, k: int, n: int)
    requires
        0 <= k <= n <= entries.len(),
    ensures
        row_nodes(object, entries, k).len() <= row_nodes(object, entries, n).len(),
        row_nodes(object, entries, n).subrange(0, row_nodes(object, entries, k).len() as int)
            == row_nodes(object, entries, k),
    decreases n - k,
{
    let all = row_nodes(object, entries, n);
    let front = row_nodes(object, entries, k);
    if k < n {
        lemma_row_nodes_grow(object, entries, k, n - 1);
        let most = row_nodes(object, entries, n - 1);
        assert(all.subrange(0, front.len() as int) =~= most.subrange(0, front.len() as int));
    } else {
        assert(all.subrange(0, front.len() as int) =~= front);
    }
}

#[verifier::spinoff_prover]
proof fn lemma_written_items(
    nodes: Seq<NodeView>,
    i: int,
    object: bool,
    entries: Seq<(Seq<char>, Doc)>,
    k: int,
)
    requires
        0 <= i,
        0 <= k <= entries.len(),
        i + row_nodes(object, entries, entries.len() as int).len() <= nodes.len(),
        nodes.subrange(i, i + row_nodes(object, entries, entries.len() as int).len()) == row_nodes(
            object,
            entries,
            entries.len() as int,
        ),
    ensures
        written_items(
            nodes,
            i + row_nodes(object, entries, k).len(),
            object,
            entries.len() - k,
            k == 0,
        ) == Some(
            (
                text_from(object, entries, k),
                i + row_nodes(object, entries, entries.len() as int).len(),
            ),
        ),
    decreases entries, entries.len() - k,
{
    let len = entries.len() as int;
    if k < len {
        lemma_literal_texts();
        let (name, doc) = entries[k];
        let whole = row_nodes(object, entries, len);
        let front = row_nodes(object, entries, k);
        let more = row_nodes(object, entries, k + 1);
        let key = entry_nodes(object, name);
        let part = nodes_of(doc);
        lemma_row_nodes_grow(object, entries, k, len);
        lemma_row_nodes_grow(object, entries, k + 1, len);
        assert(more == front + key + part);
        lemma_shape_len(doc);
        let j = i + front.len();
        let v = j + key.len();
        let tail = more.subrange((front.len() + key.len()) as int, more.len() as int);
        let here = nodes.subrange(v, v + part.len());
        assert forall|x: int| 0 <= x < part.len() implies #[trigger] here[x] == tail[x] by {
            let y = front.len() + key.len() + x;
            assert(whole.subrange(0, more.len() as int)[y] == more[y]);
            assert(nodes.subrange(i, i + whole.len())[y] == whole[y]);
        }
        assert(here =~= tail);
        assert(tail =~= part);
        law_documents_are_written_out(nodes, v, doc);
        if object {
            let y = front.len() as int;
            assert(whole.subrange(0, more.len() as int)[y] == more[y]);
            assert(nodes.subrange(i, i + whole.len())[y] == whole[y]);
            assert(more[y] == key[0]);
            assert(nodes[j] == key[0]);
        }
        lemma_written_items(nodes, i, object, entries, k + 1);
        let comma = if k == 0 {
            Seq::<char>::empty()
        } else {
            ","@
        };
        let value = text_of(doc);
        let rest = text_from(object, entries, k + 1);
        if object {
            let entry = comma + "\""@ + name + "\":"@ + value;
            assert(written_entry(nodes, j, true, k == 0) == Some((entry, v + part.len())));
            assert(entry + rest =~= text_from(object, entries, k));
        } else {
            assert(written_entry(nodes, j, false, k == 0) == Some((comma + value, v + part.len())));
            assert(comma + value + rest =~= text_from(object, entries, k));
        }
    }
}

/// Writing out the tape of a document gives the text of the document.
pub proof fn law_materialized_documents_read_as_text(
    doc: Doc,
    nodes: &[TapeNode],
    r: String,
)
    requires
        node_views(nodes@) == nodes_of(doc),
        call_ensures(materialize_node, (nodes, 0usize), r),
    ensures
        r@ == text_of(doc),
{
    assert(nodes_of(doc).subrange(0, nodes_of(doc).len() as int) =~= nodes_of(doc));
    law_documents_are_written_out(nodes_of(doc), 0, doc);
}

/// A value that is written out ends behind its first node and inside the tape.
pub proof fn law_values_end_on_the_tape(nodes: Seq<NodeView>, i: int)
    ensures
        written(nodes, i) matches Some((t, j)) ==> 0 <= i < j <= nodes.len(),
    decreases nodes.len() - i, 0int, 0int,
{
    if 0 <= i < nodes.len() {
        match nodes[i] {
            NodeView::Array { len } => lemma_items_end(nodes, i + 1, false, len, true),
            NodeView::Object { len } => lemma_items_end(nodes, i + 1, true, len, true),
            _ => {},
        }
    }
}

proof fn lemma_items_end(nodes: Seq<NodeView>, i: int, object: bool, n: int, first: bool)
    requires
        0 <= i <= nodes.len(),
    ensures
        written_items(nodes, i, object, n, first) matches Some((t, j)) ==> i <= j <= nodes.len(),
    decreases nodes.len() - i, 2int, n,
{
    if n > 0 {
        match written_entry(nodes, i, object, first) {
            Some((entry, j)) => {
                if i < j <= nodes.len() {
                    lemma_items_end(nodes, j, object, n - 1, false);
                }
            },
            None => {},
        }
    }
}

proof fn lemma_not_found(structurals: Seq<u32>, bytes: Seq<u8>, cursor: int, target: u8)
    requires
        0 <= cursor,
        forall|k: int|
            cursor <= k < structurals.len() && (#[trigger] structurals[k]) < bytes.len()
                ==> bytes[structurals[k] as int] != target,
    ensures
        find_struct(structurals, bytes, cursor, target) is None,
    decreases structurals.len() - cursor,
{
    if cursor < structurals.len() && structurals[cursor] < bytes.len() {
        lemma_not_found(structurals, bytes, cursor + 1, target);
    }
}

/// No structural position from `cursor` on holds the byte.
pub open spec fn is_missing(
    structurals: Seq<u32>,
    bytes: Seq<u8>,
    cursor: int,
    target: u8,
) -> bool {
    forall|k: int|
        cursor <= k < structurals.len() && (#[trigger] structurals[k]) < bytes.len()
            ==> bytes[structurals[k] as int] != target
}

/// A node whose byte is missing is refused, with a text that names the byte; so is a close.
pub proof fn law_missing_bytes_are_reported(
    w: Walk,
    bytes: Seq<u8>,
    structurals: Seq<u32>,
    text: Seq<char>,
    len: int,
    tape: int,
    missing: Seq<char>,
)
    requires
        0 <= w.cursor,
        w.toks.len() < i32::MAX,
    ensures
        is_missing(structurals, bytes, w.cursor, 0x7b) ==> place(
            w,
            bytes,
            structurals,
            NodeView::Object { len },
            tape,
        ) == Err::<Walk, Seq<char>>("missing `{` in structurals"@),
        is_missing(structurals, bytes, w.cursor, 0x5b) ==> place(
            w,
            bytes,
            structurals,
            NodeView::Array { len },
            tape,
        ) == Err::<Walk, Seq<char>>("missing `[` in structurals"@),
        is_missing(structurals, bytes, w.cursor, 0x22) ==> place(
            w,
            bytes,
            structurals,
            NodeView::Text { text, offset: None },
            tape,
        ) == Err::<Walk, Seq<char>>("missing `\"` in structurals"@),
        w.cursor >= structurals.len() ==> place(
            w,
            bytes,
            structurals,
            NodeView::Static { text },
            tape,
        ) == Err::<Walk, Seq<char>>("scalar offset"@),
        w.frames.len() > 0 && is_missing(
            structurals,
            bytes,
            w.cursor,
            if w.frames.last().object {
                0x7d
            } else {
                0x5d
            },
        ) ==> close_top(w, bytes, structurals, missing) == Err::<Walk, Seq<char>>(missing),
{
    assert(!full(w));
    if is_missing(structurals, bytes, w.cursor, 0x7b) {
        lemma_not_found(structurals, bytes, w.cursor, 0x7b);
    }
    if is_missing(structurals, bytes, w.cursor, 0x5b) {
        lemma_not_found(structurals, bytes, w.cursor, 0x5b);
    }
    if is_missing(structurals, bytes, w.cursor, 0x22) {
        lemma_not_found(structurals, bytes, w.cursor, 0x22);
    }
    if is_missing(structurals, bytes, w.cursor, 0x7d) {
        lemma_not_found(structurals, bytes, w.cursor, 0x7d);
    }
    if is_missing(structurals, bytes, w.cursor, 0x5d) {
        lemma_not_found(structurals, bytes, w.cursor, 0x5d);
    }
}

/// Parsing a document whose tape and structural positions are those of `doc` lists `doc`.
pub proof fn law_parsed_documents_are_listed(
    bytes: Vec<u8>,
    doc: Doc,
    left: Seq<u8>,
    structurals: Seq<u32>,
    r: Result<Parsed, Error>,
)
    requires
        simd_tape(bytes@) == Some((nodes_of(doc), left, structurals)),
        structurals.len() <= i32::MAX,
        holds(structurals, left, 0, shape(doc)),
        literals_ok(doc),
        nests_within(doc, u16::MAX as int),
        call_ensures(parse, (bytes,), r),
    ensures
        r matches Ok(p) && p.bytes@ == left && p.index.toks() == tokens_of(
            rows(doc, 0, 0, 0, None),
            structurals,
        ) && p.index.key_names() == names_of(rows(doc, 0, 0, 0, None)),
{
    law_walk_lists_the_document(doc, left, structurals);
}

/// A tape holds the value of a document at its first node, and none behind its last.
pub proof fn law_tapes_hold_their_documents(
    doc: Doc,
    nodes: &[TapeNode],
    at: usize,
    r: bool,
)
    requires
        node_views(nodes@) == nodes_of(doc),
        call_ensures(holds_value, (nodes, at), r),
    ensures
        at == 0 ==> r,
        at >= nodes@.len() ==> !r,
{
    assert(nodes_of(doc).subrange(0, nodes_of(doc).len() as int) =~= nodes_of(doc));
    law_documents_are_written_out(nodes_of(doc), 0, doc);
}

/// Passing a known position leaves behind all that lie in front of it and itself, and stops in
/// front of the first one behind it.
pub proof fn law_known_positions_are_passed(structurals: Seq<u32>, cursor: int, off: int)
    requires
        forall|i: int, j: int| 0 <= i < j < structurals.len() ==> structurals[i] < structurals[j],
        0 <= cursor <= structurals.len(),
    ensures
        cursor <= past(structurals, cursor, off) <= structurals.len(),
        forall|k: int|
            cursor <= k < structurals.len() ==> (#[trigger] structurals[k] <= off <==> k < past(
                structurals,
                cursor,
                off,
            )),
    decreases structurals.len() - cursor,
{
    if cursor < structurals.len() {
        assert forall|k: int| cursor < k < structurals.len() implies structurals[cursor]
            < #[trigger] structurals[k] by {}
        if structurals[cursor] < off {
            law_known_positions_are_passed(structurals, cursor + 1, off);
        }
    }
}

/// What else a walk refuses: a container that is complete and whose close is missing, one that
/// is still open at the end of the tape, more tokens than `i32` can number, and more than
/// 65535 containers in each other.
pub proof fn law_walks_refuse(
    w: Walk,
    bytes: Seq<u8>,
    structurals: Seq<u32>,
    node: NodeView,
    tape: int,
)
    requires
        0 <= w.cursor,
    ensures
        ({
            let lost = w.frames.len() > 0 && w.toks.len() < i32::MAX && is_missing(
                structurals,
                bytes,
                w.cursor,
                if w.frames.last().object {
                    0x7d
                } else {
                    0x5d
                },
            );
            &&& lost && w.frames.last().done >= w.frames.last().limit ==> close_full(
                w,
                bytes,
                structurals,
            ) == Err::<Walk, Seq<char>>("unmatched close"@)
            &&& lost ==> close_rest(w, bytes, structurals) == Err::<Walk, Seq<char>>(
                "trailing close not found"@,
            )
        }),
        w.frames.len() > 0 && w.frames.last().done < w.frames.last().limit ==> close_full(
            w,
            bytes,
            structurals,
        ) == Ok::<Walk, Seq<char>>(w),
        w.toks.len() >= 0x7fff_ffff ==> place(w, bytes, structurals, node, tape) == Err::<
            Walk,
            Seq<char>,
        >("too many tokens"@),
        w.frames.len() >= 0xffff && w.toks.len() < 0x7fff_ffff && (node is Object || node is Array)
            && !is_missing(
            structurals,
            bytes,
            w.cursor,
            if node is Object {
                0x7b
            } else {
                0x5b
            },
        ) ==> place(w, bytes, structurals, node, tape) is Err,
{
    if w.frames.len() > 0 && w.toks.len() < i32::MAX {
        law_missing_bytes_are_reported(
            w,
            bytes,
            structurals,
            Seq::empty(),
            0,
            tape,
            "unmatched close"@,
        );
        law_missing_bytes_are_reported(
            w,
            bytes,
            structurals,
            Seq::empty(),
            0,
            tape,
            "trailing close not found"@,
        );
    }
}

} // verus!
