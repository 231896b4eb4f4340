//! Keys: which tokens are keys, under which names they are found, and which values are theirs.

use vstd::prelude::*;

use crate::api::{count_key, indexes, StructuralIndex, TokenId, TokenKind};
use crate::hits::KeyHits;
use crate::index::StructIndex;
use crate::keys::{
    dict_of, key_name, lemma_dict, role_at, value_from, value_of, KeyBitmaps, Role,
};
use crate::laws::tokens::law_index_tokens_are_written;
use crate::lex::{scan, Kind};
use crate::op::field_value;
use crate::roaring::{lemma_finite_listing, listing};
use crate::text::decoded;
use crate::tree::{
    balanced, is_close, lemma_parent, lemma_stack, overclosed_at, parent_at, stack_at,
};

verus! {

/// Token `i` is a string directly inside an object with a colon as the next token.
pub open spec fn is_key(idx: StructuralIndex, i: int) -> bool {
    &&& 0 <= i
    &&& i + 1 < idx.spec_len()
    &&& idx.kinds()[i] == Kind::Quote
    &&& idx.kinds()[i + 1] == Kind::Colon
    &&& idx.index().parent@[i] >= 0
    &&& idx.kinds()[idx.index().parent@[i] as int] == Kind::ObjOpen
}

/// In an index over bytes the keys are the strings directly inside an object with a colon
/// behind them, each under the name that its bytes write.
pub proof fn law_keys_are_strings_in_front_of_colons(
    idx: StructuralIndex,
    bytes: Seq<u8>,
    i: int,
)
    requires
        indexes(idx, bytes, true),
        0 <= i < idx.spec_len(),
    ensures
        idx.key_names()[i] == (if is_key(idx, i) {
            Some(decoded(bytes, idx.toks()[i].offset + 1))
        } else {
            None
        }),
{
    let kinds = idx.kinds();
    assert(idx.index().parent@[i] == parent_at(kinds, i));
    if kinds[i] == Kind::Quote && i + 1 < kinds.len() && kinds[i + 1] == Kind::Colon {
        assert(stack_at(kinds, i + 1) == stack_at(kinds, i));
        assert(parent_at(kinds, i + 1) == parent_at(kinds, i));
    }
}

/// A lookup finds the keys whose bytes write the name, at the depth where one is given, and
/// no others.
pub proof fn law_lookups_find_the_keys_of_a_name<'a>(
    idx: &'a StructuralIndex,
    bytes: Seq<u8>,
    name: &str,
    depth: Option<u16>,
    r: KeyHits<'a>,
    t: u32,
)
    requires
        indexes(*idx, bytes, true),
        call_ensures(StructuralIndex::keys_named, (idx, name, depth), r),
    ensures
        r.set().contains(t) <==> {
            &&& is_key(*idx, t as int)
            &&& decoded(bytes, idx.toks()[t as int].offset + 1) == name@
            &&& depth matches Some(d) ==> idx.toks()[t as int].depth == d
        },
        r.remaining() == r.set(),
{
    if t < idx.spec_len() {
        law_keys_are_strings_in_front_of_colons(*idx, bytes, t as int);
    }
}

/// A lookup inside a token finds the keys of the name in its subtree, and no others.
pub proof fn law_lookups_stay_in_a_subtree<'a>(
    idx: &'a StructuralIndex,
    bytes: Seq<u8>,
    name: &str,
    root: TokenId,
    r: KeyHits<'a>,
    t: u32,
)
    requires
        indexes(*idx, bytes, true),
        root.0 < idx.spec_len(),
        call_ensures(StructuralIndex::keys_named_in, (idx, name, root), r),
    ensures
        r.set().contains(t) <==> {
            &&& is_key(*idx, t as int)
            &&& decoded(bytes, idx.toks()[t as int].offset + 1) == name@
            &&& idx.subtree(root.0 as int).contains(t)
        },
        r.remaining() == r.set(),
{
    if t < idx.spec_len() {
        law_keys_are_strings_in_front_of_colons(*idx, bytes, t as int);
    }
}

/// Counting a key counts its tokens.
pub proof fn law_count_key_counts_tokens(
    idx: &StructuralIndex,
    bytes: Seq<u8>,
    name: &str,
    r: u64,
)
    requires
        indexes(*idx, bytes, true),
        call_ensures(count_key, (idx, name), r),
    ensures
        r == Set::new(
            |t: u32|
                is_key(*idx, t as int) && decoded(bytes, idx.toks()[t as int].offset + 1) == name@,
        ).len(),
{
    let want = Set::new(
        |t: u32|
            is_key(*idx, t as int) && decoded(bytes, idx.toks()[t as int].offset + 1) == name@,
    );
    assert forall|t: u32| #[trigger] want.contains(t) <==> idx.key_tokens(name@, None).contains(
        t,
    ) by {
        if t < idx.spec_len() {
            law_keys_are_strings_in_front_of_colons(*idx, bytes, t as int);
        }
    }
    assert(want =~= idx.key_tokens(name@, None));
}

/// A key is known where some token spells it.
pub proof fn law_has_key_tells_of_tokens(
    idx: &StructuralIndex,
    bytes: Seq<u8>,
    name: &str,
    r: bool,
)
    requires
        indexes(*idx, bytes, true),
        call_ensures(StructuralIndex::has_key, (idx, name), r),
    ensures
        r <==> exists|t: int| #[trigger]
            is_key(*idx, t) && decoded(bytes, idx.toks()[t].offset + 1) == name@,
{
    if r {
        let t = idx.key_names().index_of(Some(name@));
        law_keys_are_strings_in_front_of_colons(*idx, bytes, t);
        assert(is_key(*idx, t));
    }
    if exists|t: int| #[trigger]
        is_key(*idx, t) && decoded(bytes, idx.toks()[t].offset + 1) == name@ {
        let t = choose|t: int| #[trigger]
            is_key(*idx, t) && decoded(bytes, idx.toks()[t].offset + 1) == name@;
        law_keys_are_strings_in_front_of_colons(*idx, bytes, t);
        assert(idx.key_names()[t] == Some(name@));
    }
}

/// The kind of a token is told by the byte that it begins with; of strings the keys are told
/// apart.
pub proof fn law_kinds_tell_bytes(
    idx: &StructuralIndex,
    bytes: Seq<u8>,
    tok: TokenId,
    r: TokenKind,
)
    requires
        scan(bytes) is Ok,
        indexes(*idx, bytes, true),
        tok.0 < idx.spec_len(),
        call_ensures(StructuralIndex::kind, (idx, tok), r),
    ensures
        ({
            let b = bytes[idx.toks()[tok.0 as int].offset];
            &&& r == TokenKind::Object <==> b == 0x7b
            &&& r == TokenKind::ObjectEnd <==> b == 0x7d
            &&& r == TokenKind::Array <==> b == 0x5b
            &&& r == TokenKind::ArrayEnd <==> b == 0x5d
            &&& r == TokenKind::Key <==> is_key(*idx, tok.0 as int)
            &&& r == TokenKind::String <==> b == 0x22 && !is_key(*idx, tok.0 as int)
        }),
{
    let i = tok.0 as int;
    law_index_tokens_are_written(bytes, i);
    assert(idx.toks()[i].kind == idx.kinds()[i]);
    law_keys_are_strings_in_front_of_colons(*idx, bytes, i);
}

// ---------------------------------------------------------------------------
// The dictionary
// ---------------------------------------------------------------------------

/// The names of a document are listed once each, all of them, in the order in which they
/// first appear.
pub proof fn law_names_are_listed_as_they_appear(names: Seq<Option<Seq<char>>>, n: int)
    requires
        0 <= n <= names.len(),
    ensures
        dict_of(names, n).no_duplicates(),
        forall|k: Seq<char>| #[trigger]
            dict_of(names, n).contains(k) <==> exists|i: int|
                0 <= i < n && #[trigger] names[i] == Some(k),
        forall|a: int, b: int, v: int|
            0 <= a < b < dict_of(names, n).len() && 0 <= v < n && #[trigger] names[v] == Some(
                #[trigger] dict_of(names, n)[b],
            ) ==> exists|u: int|
                0 <= u < v && #[trigger] names[u] == Some(#[trigger] dict_of(names, n)[a]),
    decreases n,
{
    lemma_dict(names, n);
    if n > 0 {
        law_names_are_listed_as_they_appear(names, n - 1);
        lemma_dict(names, n - 1);
        let front = dict_of(names, n - 1);
        let all = dict_of(names, n);
        assert forall|a: int, b: int, v: int|
            0 <= a < b < all.len() && 0 <= v < n && #[trigger] names[v] == Some(
                #[trigger] all[b],
            ) implies exists|u: int| 0 <= u < v && #[trigger] names[u] == Some(
            #[trigger] all[a],
        ) by {
            assert(all[a] == front[a]);
            assert(front.contains(front[a]));
            if b < front.len() {
                assert(all[b] == front[b]);
                if v < n - 1 {
                    let u = choose|u: int|
                        0 <= u < v && #[trigger] names[u] == Some(#[trigger] front[a]);
                    assert(names[u] == Some(all[a]));
                } else {
                    assert(front.contains(front[b]));
                    let w = choose|w: int| 0 <= w < n - 1 && #[trigger] names[w] == Some(front[b]);
                    let u = choose|u: int|
                        0 <= u < w && #[trigger] names[u] == Some(#[trigger] front[a]);
                    assert(names[u] == Some(all[a]));
                }
            } else {
                if v < n - 1 {
                    assert(front.contains(all[b]));
                }
                let u = choose|u: int| 0 <= u < n - 1 && #[trigger] names[u] == Some(front[a]);
                assert(names[u] == Some(all[a]));
            }
        }
    }
}

// ---------------------------------------------------------------------------
// Values
// ---------------------------------------------------------------------------

proof fn lemma_value_behind(kinds: Seq<Kind>, key: int, i: int, j: int)
    requires
        balanced(kinds),
        0 <= key < i <= j <= kinds.len(),
        kinds[key] == Kind::Quote,
        stack_at(kinds, i) == stack_at(kinds, key),
        forall|k: int| i <= k < j ==> #[trigger] kinds[k] == Kind::Colon || kinds[k] == Kind::Comma,
        j < kinds.len() ==> kinds[j] != Kind::Colon && kinds[j] != Kind::Comma,
    ensures
        value_from(kinds, key, i) == (if j < kinds.len() && kinds[j] != Kind::ObjClose && kinds[j]
            != Kind::ArrClose {
            Some(j)
        } else {
            None
        }),
    decreases j - i,
{
    if i < j {
        assert(kinds[i] == Kind::Colon || kinds[i] == Kind::Comma);
        assert(stack_at(kinds, i + 1) == stack_at(kinds, i));
        lemma_value_behind(kinds, key, i + 1, j);
    } else if j < kinds.len() && is_close(kinds[j]) {
        let s = stack_at(kinds, j);
        assert(!overclosed_at(kinds, j));
        lemma_stack(kinds, j);
        assert(s[s.len() - 1] == parent_at(kinds, key));
        if s.len() > 1 {
            assert(s[s.len() - 2] < s[s.len() - 1]);
            assert(s.drop_last().last() == s[s.len() - 2]);
        }
    }
}

/// The value of a key is the first token behind it that is no colon and no comma; there is
/// none where that token is a close, or where the document ends first.
pub proof fn law_values_follow_separators(kinds: Seq<Kind>, key: int, j: int)
    requires
        balanced(kinds),
        0 <= key < j <= kinds.len(),
        kinds[key] == Kind::Quote,
        forall|k: int|
            key < k < j ==> #[trigger] kinds[k] == Kind::Colon || kinds[k] == Kind::Comma,
        j < kinds.len() ==> kinds[j] != Kind::Colon && kinds[j] != Kind::Comma,
    ensures
        value_of(kinds, key) == (if j < kinds.len() && kinds[j] != Kind::ObjClose && kinds[j]
            != Kind::ArrClose {
            Some(j)
        } else {
            None
        }),
{
    assert(stack_at(kinds, key + 1) == stack_at(kinds, key));
    lemma_value_behind(kinds, key, key + 1, j);
}

/// Token `t` is the first key with the name directly inside token `p`.
pub open spec fn is_first_key(idx: StructuralIndex, p: int, name: Seq<char>, t: int) -> bool {
    &&& 0 <= t < idx.spec_len()
    &&& idx.key_names()[t] == Some(name)
    &&& idx.index().parent@[t] == p
    &&& forall|u: int|
        0 <= u < t && #[trigger] idx.key_names()[u] == Some(name) ==> idx.index().parent@[u] != p
}

/// The field of a container is the value of the first key with the name directly inside it;
/// without such a key it has none.
pub proof fn law_fields_are_values_of_first_keys(idx: &StructuralIndex, p: int, name: Seq<char>)
    requires
        idx.wf(),
    ensures
        forall|t: int| #[trigger]
            is_first_key(*idx, p, name, t) ==> field_value(idx, p, name) == value_of(
                idx.kinds(),
                t,
            ),
        field_value(idx, p, name) is Some ==> exists|t: int| #[trigger]
            is_first_key(*idx, p, name, t),
{
    let set = idx.keys_inside(p, name);
    let l = listing(set);
    lemma_finite_listing(set);
    assert forall|t: int| 0 <= t < idx.spec_len() implies #[trigger] idx.index().parent@[t]
        == parent_at(idx.kinds(), t) by {}
    assert forall|t: int| #[trigger] is_first_key(*idx, p, name, t) implies field_value(
        idx,
        p,
        name,
    ) == value_of(idx.kinds(), t) by {
        assert(set.contains(t as u32));
        assert(l.contains(t as u32));
        let k = l.index_of(t as u32);
        assert(l.contains(l[0]));
        assert(set.contains(l[0]));
        if k > 0 {
            assert(l[0] < l[k]);
            assert(idx.key_names()[l[0] as int] == Some(name));
        }
    }
    if l.len() > 0 {
        assert(l.contains(l[0]));
        assert(set.contains(l[0]));
        let t = l[0] as int;
        assert forall|u: int|
            0 <= u < t && #[trigger] idx.key_names()[u] == Some(name) implies idx.index().parent@[u]
            != p by {
            if idx.index().parent@[u] == p {
                assert(set.contains(u as u32));
                assert(l.contains(u as u32));
                let k = l.index_of(u as u32);
                if 0 < k {
                    assert(l[0] < l[k]);
                }
            }
        }
        assert(is_first_key(*idx, p, name, t));
    }
}

/// Asking for a field gives the value of the first key with the name directly inside the
/// container.
pub proof fn law_field_of_reads_first_keys(
    idx: &StructuralIndex,
    parent: TokenId,
    name: &str,
    r: Option<TokenId>,
    t: int,
)
    requires
        idx.wf(),
        call_ensures(StructuralIndex::field_of, (idx, parent, name), r),
    ensures
        is_first_key(*idx, parent.0 as int, name@, t) ==> match r {
            Some(v) => value_of(idx.kinds(), t) == Some(v.0 as int),
            None => value_of(idx.kinds(), t) is None,
        },
        r is Some ==> exists|u: int| #[trigger]
            is_first_key(*idx, parent.0 as int, name@, u),
{
    law_fields_are_values_of_first_keys(idx, parent.0 as int, name@);
}

/// Asking for the value of a key gives the first token behind it that is no separator.
pub proof fn law_value_for_key_follows_separators(
    idx: &StructuralIndex,
    key: TokenId,
    r: Option<TokenId>,
    j: int,
)
    requires
        idx.wf(),
        key.0 < j <= idx.spec_len(),
        idx.kinds()[key.0 as int] == Kind::Quote,
        forall|k: int|
            key.0 < k < j ==> #[trigger] idx.kinds()[k] == Kind::Colon || idx.kinds()[k]
                == Kind::Comma,
        j < idx.spec_len() ==> idx.kinds()[j] != Kind::Colon && idx.kinds()[j] != Kind::Comma,
        call_ensures(StructuralIndex::value_for_key, (idx, key), r),
    ensures
        r == (if j < idx.spec_len() && idx.kinds()[j] != Kind::ObjClose && idx.kinds()[j]
            != Kind::ArrClose {
            Some(TokenId(j as u32))
        } else {
            None
        }),
{
    law_values_follow_separators(idx.kinds(), key.0 as int, j);
}

// ---------------------------------------------------------------------------
// Roles
// ---------------------------------------------------------------------------

/// The role of a token is told by its container: in an array strings, literals and containers
/// are elements; in an object strings with a colon behind them are keys, other strings,
/// literals and containers values; at the root strings and literals are values. Everything
/// else has no role.
pub proof fn law_roles_tell_places(kinds: Seq<Kind>, i: int)
    requires
        0 <= i < kinds.len(),
    ensures
        ({
            let p = parent_at(kinds, i);
            let k = kinds[i];
            let in_array = p >= 0 && kinds[p] == Kind::ArrOpen;
            let in_object = p >= 0 && kinds[p] == Kind::ObjOpen;
            let single = k == Kind::Quote || k == Kind::Scalar;
            let container = k == Kind::ObjOpen || k == Kind::ArrOpen;
            let key = k == Kind::Quote && in_object && i + 1 < kinds.len() && kinds[i + 1]
                == Kind::Colon;
            &&& role_at(kinds, i) == Role::Key <==> key
            &&& role_at(kinds, i) == Role::Elem <==> in_array && (single || container)
            &&& role_at(kinds, i) == Role::Value <==> !key && ((in_object && (single || container))
                || (p < 0 && single))
        }),
{
    lemma_parent(kinds, i);
    if kinds[i] == Kind::Quote && i + 1 < kinds.len() && kinds[i + 1] == Kind::Colon {
        assert(stack_at(kinds, i + 1) == stack_at(kinds, i));
        assert(parent_at(kinds, i + 1) == parent_at(kinds, i));
    }
}

/// The names of an index are listed once each, all of them, in the order in which they first
/// appear.
pub proof fn law_keys_seen_lists_names<'a>(
    idx: &'a StructuralIndex,
    bytes: Seq<u8>,
    r: Vec<&'a str>,
    name: Seq<char>,
)
    requires
        indexes(*idx, bytes, true),
        call_ensures(StructuralIndex::keys_seen, (idx,), r),
    ensures
        (exists|i: int| 0 <= i < r@.len() && (#[trigger] r@[i])@ == name) <==> exists|t: int|
            #[trigger] is_key(*idx, t) && decoded(bytes, idx.toks()[t].offset + 1) == name,
{
    let names = idx.key_names();
    let n = idx.spec_len() as int;
    let d = dict_of(names, n);
    lemma_dict(names, n);
    if exists|i: int| 0 <= i < r@.len() && (#[trigger] r@[i])@ == name {
        let i = choose|i: int| 0 <= i < r@.len() && (#[trigger] r@[i])@ == name;
        assert(d.contains(d[i]));
        let t = choose|t: int| 0 <= t < n && #[trigger] names[t] == Some(name);
        law_keys_are_strings_in_front_of_colons(*idx, bytes, t);
        assert(is_key(*idx, t));
    }
    if exists|t: int| #[trigger]
        is_key(*idx, t) && decoded(bytes, idx.toks()[t].offset + 1) == name {
        let t = choose|t: int| #[trigger]
            is_key(*idx, t) && decoded(bytes, idx.toks()[t].offset + 1) == name;
        law_keys_are_strings_in_front_of_colons(*idx, bytes, t);
        assert(names[t] == Some(name));
        assert(d.contains(name));
        let i = d.index_of(name);
        assert(r@[i]@ == name);
    }
}

/// The key layer finds the tokens that its columns list under a name, at the depth where one
/// is given, in document order.
pub proof fn law_find_key_lists_the_columns(
    kb: &KeyBitmaps,
    column: Seq<u16>,
    name: &str,
    depth: Option<u16>,
    r: Vec<u32>,
    t: u32,
)
    requires
        kb.wf(),
        kb.depths_match(column),
        column.len() == kb.n_tokens,
        call_ensures(KeyBitmaps::find_key, (kb, name, depth), r),
    ensures
        r@.contains(t) <==> {
            &&& t < kb.n_tokens
            &&& kb.role@[t as int] == Role::Key
            &&& kb.dict@[kb.key_id_of@[t as int] as int]@ == name@
            &&& depth matches Some(d) ==> column[t as int] == d
        },
        forall|i: int, j: int| 0 <= i < j < r@.len() ==> r@[i] < r@[j],
{
    assert(r@.contains(t) <==> kb.key_set(name@, depth).contains(t));
    if let Some(d) = depth {
        assert(kb.at_depth(t, d) <==> t < column.len() && column[t as int] == d);
    }
}

/// Building the key layer gives every token its role, and every key the name that its bytes
/// write.
pub proof fn law_building_keys_reads_roles_and_names(
    idx: &StructIndex,
    buf: &[u8],
    r: KeyBitmaps,
    i: int,
)
    requires
        idx.tree_ok(),
        0 <= i < idx.spec_len(),
        call_ensures(KeyBitmaps::build, (idx, buf), r),
    ensures
        r.role@.len() == idx.spec_len(),
        r.role@[i] == role_at(idx.stage1.kind@, i),
        r.role@[i] == Role::Key ==> r.dict@[r.key_id_of@[i] as int]@ == decoded(
            buf@,
            idx.stage1.offset@[i] + 1,
        ),
{
    assert(r.role@[i] == role_at(idx.stage1.kind@, i));
    assert(r.names()[i] == key_name(buf@, idx.stage1@, idx.stage1.kind@, i));
}

} // verus!
