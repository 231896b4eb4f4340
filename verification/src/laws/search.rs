//! Searches: which objects they find, in which order, and which matches a scan for several
//! keys reports.

use aho_corasick::AhoCorasick;
use vstd::prelude::*;
use vstd::utf8::encode_utf8;

use crate::api::{
    find_eq, find_eq_compound, lemma_filter_keeps, meets_all, StructuralIndex, TokenId,
};
use crate::keys::value_of;
use crate::multi_key::{
    key_pattern, key_patterns, match_end, matches_as_seen, multi_key_finder, multi_key_scan,
    search_start, seen_first, stands_at,
};
use crate::roaring::{lemma_finite_listing, listing};
use crate::text::value_eq;
use crate::tree::{lemma_parent, parent_at};

verus! {

/// Token `t` is a key with the name, and the bytes of its value stand for the literal.
pub open spec fn key_holds(
    idx: StructuralIndex,
    bytes: Seq<u8>,
    t: int,
    name: Seq<char>,
    literal: Seq<u8>,
) -> bool {
    &&& 0 <= t < idx.spec_len()
    &&& idx.key_names()[t] == Some(name)
    &&& value_of(idx.kinds(), t) matches Some(v) && value_eq(
        bytes.subrange(idx.toks()[v].offset, idx.exact_end(bytes, v)),
        literal,
    )
}

/// `found` lists the containers of the keys `keys`, one after the other.
pub open spec fn containers_of(
    idx: StructuralIndex,
    keys: Seq<u32>,
    found: Seq<TokenId>,
) -> bool {
    &&& found.len() == keys.len()
    &&& forall|i: int|
        0 <= i < keys.len() ==> (#[trigger] found[i]).0 == idx.index().parent@[keys[i] as int]
}

/// Every element is less than those behind it.
pub open spec fn ascending(s: Seq<u32>) -> bool {
    forall|i: int, j: int| 0 <= i < j < s.len() ==> s[i] < s[j]
}

proof fn lemma_filter_ascending(s: Seq<u32>, keep: spec_fn(u32) -> bool)
    requires
        ascending(s),
    ensures
        ascending(s.filter(keep)),
    decreases s.len(),
{
    reveal(Seq::filter);
    if s.len() > 0 {
        let front = s.drop_last();
        lemma_filter_ascending(front, keep);
        let f = front.filter(keep);
        assert forall|i: int, j: int| 0 <= i < j < s.filter(keep).len() implies s.filter(keep)[i]
            < s.filter(keep)[j] by {
            if j == f.len() {
                assert(f.contains(f[i]));
                lemma_filter_keeps(front, keep, f[i]);
                let k = front.index_of(f[i]);
                assert(s[k] < s[s.len() - 1]);
            }
        }
    }
}

/// The keys of a name that a condition keeps, and their containers.
proof fn lemma_kept(idx: StructuralIndex, name: Seq<char>, keep: spec_fn(u32) -> bool)
    requires
        idx.wf(),
    ensures
        ({
            let keys = listing(idx.key_tokens(name, None)).filter(keep);
            &&& ascending(keys)
            &&& forall|t: u32| #[trigger]
                keys.contains(t) <==> t < idx.spec_len() && idx.key_names()[t as int] == Some(name)
                    && keep(t)
            &&& containers_of(idx, keys, idx.homes(keys))
        }),
{
    let set = idx.key_tokens(name, None);
    let all = listing(set);
    lemma_finite_listing(set);
    lemma_filter_ascending(all, keep);
    let keys = all.filter(keep);
    assert forall|t: u32| #[trigger] keys.contains(t) <==> t < idx.spec_len()
        && idx.key_names()[t as int] == Some(name) && keep(t) by {
        lemma_filter_keeps(all, keep, t);
        assert(all.contains(t) <==> set.contains(t));
    }
    assert forall|i: int| 0 <= i < keys.len() implies (#[trigger] idx.homes(keys)[i]).0
        == idx.index().parent@[keys[i] as int] by {
        assert(keys.contains(keys[i]));
        assert(idx.key_names()[keys[i] as int] is Some);
        lemma_parent(idx.kinds(), keys[i] as int);
        assert(idx.index().parent@[keys[i] as int] == parent_at(idx.kinds(), keys[i] as int));
    }
}

/// A search lists, in document order, the object of every key with the name whose value stands
/// for the literal: of each such key, and of no other.
pub proof fn law_find_eq_lists_every_match(
    idx: &StructuralIndex,
    bytes: &[u8],
    key: &str,
    literal: &[u8],
    r: Vec<TokenId>,
)
    requires
        idx.wf(),
        call_ensures(find_eq, (idx, bytes, key, literal), r),
    ensures
        exists|keys: Seq<u32>|
            {
                &&& #[trigger] ascending(keys)
                &&& forall|t: u32| #[trigger]
                    keys.contains(t) <==> key_holds(*idx, bytes@, t as int, key@, literal@)
                &&& containers_of(*idx, keys, r@)
            },
{
    let keep = |t: u32| idx.key_eq(bytes@, t as int, literal@);
    lemma_kept(*idx, key@, keep);
    let keys = listing(idx.key_tokens(key@, None)).filter(keep);
    assert forall|t: u32| #[trigger] keys.contains(t) <==> key_holds(
        *idx,
        bytes@,
        t as int,
        key@,
        literal@,
    ) by {}
    assert(ascending(keys));
}

/// Some key with the name in the container `p` has a value that stands for the literal.
pub open spec fn object_holds(
    idx: StructuralIndex,
    bytes: Seq<u8>,
    p: int,
    name: Seq<char>,
    literal: Seq<u8>,
) -> bool {
    exists|t: int| #[trigger]
        key_holds(idx, bytes, t, name, literal) && idx.index().parent@[t] == p
}

proof fn lemma_field_eq(
    idx: StructuralIndex,
    bytes: Seq<u8>,
    p: int,
    name: Seq<char>,
    literal: Seq<u8>,
)
    requires
        idx.wf(),
    ensures
        idx.field_eq(bytes, p, name, literal) <==> object_holds(idx, bytes, p, name, literal),
{
    assert forall|t: int| 0 <= t < idx.spec_len() implies #[trigger] idx.index().parent@[t]
        == parent_at(idx.kinds(), t) by {}
    if idx.field_eq(bytes, p, name, literal) {
        let t = choose|t: u32| #[trigger]
            idx.keys_inside(p, name).contains(t) && idx.key_eq(bytes, t as int, literal);
        assert(key_holds(idx, bytes, t as int, name, literal));
    }
    if object_holds(idx, bytes, p, name, literal) {
        let t = choose|t: int| #[trigger]
            key_holds(idx, bytes, t, name, literal) && idx.index().parent@[t] == p;
        assert(idx.keys_inside(p, name).contains(t as u32));
    }
}

/// A search with several conditions lists, in document order, the object of every key with the
/// first condition's name in which each condition is met by some key.
pub proof fn law_compound_search_lists_every_match(
    idx: &StructuralIndex,
    bytes: &[u8],
    conds: &[(&str, &[u8])],
    r: Vec<TokenId>,
)
    requires
        idx.wf(),
        call_ensures(find_eq_compound, (idx, bytes, conds), r),
    ensures
        conds@.len() == 0 ==> r@.len() == 0,
        conds@.len() > 0 ==> exists|keys: Seq<u32>|
            {
                &&& #[trigger] ascending(keys)
                &&& forall|t: u32| #[trigger]
                    keys.contains(t) <==> {
                        &&& t < idx.spec_len()
                        &&& idx.key_names()[t as int] == Some(conds@[0].0@)
                        &&& forall|c: int|
                            0 <= c < conds@.len() ==> object_holds(
                                *idx,
                                bytes@,
                                idx.index().parent@[t as int] as int,
                                (#[trigger] conds@[c]).0@,
                                conds@[c].1@,
                            )
                    }
                &&& containers_of(*idx, keys, r@)
            },
{
    if conds@.len() > 0 {
        let name = conds@[0].0@;
        let keep = |t: u32| meets_all(idx, bytes@, conds@, parent_at(idx.kinds(), t as int));
        lemma_kept(*idx, name, keep);
        let keys = listing(idx.key_tokens(name, None)).filter(keep);
        assert forall|t: u32| #[trigger] keys.contains(t) <==> {
            &&& t < idx.spec_len()
            &&& idx.key_names()[t as int] == Some(name)
            &&& forall|c: int|
                0 <= c < conds@.len() ==> object_holds(
                    *idx,
                    bytes@,
                    idx.index().parent@[t as int] as int,
                    (#[trigger] conds@[c]).0@,
                    conds@[c].1@,
                )
        } by {
            if t < idx.spec_len() {
                let p = idx.index().parent@[t as int] as int;
                assert(p == parent_at(idx.kinds(), t as int));
                assert forall|c: int| 0 <= c < conds@.len() implies (idx.field_eq(
                    bytes@,
                    p,
                    (#[trigger] conds@[c]).0@,
                    conds@[c].1@,
                ) <==> object_holds(*idx, bytes@, p, conds@[c].0@, conds@[c].1@)) by {
                    lemma_field_eq(*idx, bytes@, p, conds@[c].0@, conds@[c].1@);
                }
                if keep(t) {
                    assert forall|c: int| 0 <= c < conds@.len() implies object_holds(
                        *idx,
                        bytes@,
                        p,
                        (#[trigger] conds@[c]).0@,
                        conds@[c].1@,
                    ) by {
                        assert(idx.field_eq(bytes@, p, conds@[c].0@, conds@[c].1@));
                    }
                }
            }
        }
        assert(ascending(keys));
    }
}

/// A value is found under at most one literal.
pub proof fn law_a_key_holds_one_literal(
    idx: StructuralIndex,
    bytes: Seq<u8>,
    t: int,
    name: Seq<char>,
    a: Seq<u8>,
    b: Seq<u8>,
)
    requires
        key_holds(idx, bytes, t, name, a),
        key_holds(idx, bytes, t, name, b),
    ensures
        a == b,
{
}

// ---------------------------------------------------------------------------
// Several keys at once
// ---------------------------------------------------------------------------

/// The pattern of a key is its name in quotes with a colon behind it.
pub proof fn law_key_patterns_are_quoted_names(keys: Seq<&str>, p: int)
    requires
        0 <= p < keys.len(),
    ensures
        key_patterns(keys).len() == keys.len(),
        key_patterns(keys)[p] == seq!['"'] + keys[p]@ + seq!['"', ':'],
{
    reveal_strlit("\"");
    reveal_strlit("\":");
    assert("\""@ =~= seq!['"']);
    assert("\":"@ =~= seq!['"', ':']);
    assert(key_patterns(keys)[p] == key_pattern(keys[p]@));
}

/// What a scan reports is there, one match behind the other, and nothing is passed over: where
/// a pattern stands, a match that ends no later covers its first byte or begins behind it.
pub proof fn law_matches_are_there_and_all_of_them(
    patterns: Seq<Seq<char>>,
    bytes: Seq<u8>,
    matches: Seq<(usize, usize)>,
)
    requires
        matches_as_seen(patterns, bytes, matches),
    ensures
        forall|k: int|
            0 <= k < matches.len() ==> {
                let (p, at) = #[trigger] matches[k];
                let len = encode_utf8(patterns[p as int]).len();
                &&& p < patterns.len()
                &&& at + len <= bytes.len()
                &&& bytes.subrange(at as int, at + len) == encode_utf8(patterns[p as int])
            },
        forall|k: int|
            0 < k < matches.len() ==> {
                let (p, at) = matches[k - 1];
                at + encode_utf8(patterns[p as int]).len() <= (#[trigger] matches[k]).1
            },
        forall|q: int, b: int|
            {
                &&& 0 <= q < patterns.len()
                &&& 0 <= b
                &&& b + encode_utf8(#[trigger] patterns[q]).len() <= bytes.len()
                &&& #[trigger] bytes.subrange(b, b + encode_utf8(patterns[q]).len())
                    == encode_utf8(patterns[q])
            } ==> exists|k: int|
                {
                    let (p, at) = #[trigger] matches[k];
                    let end = at + encode_utf8(patterns[p as int]).len();
                    &&& 0 <= k < matches.len()
                    &&& b < end <= b + encode_utf8(patterns[q]).len()
                },
{
    assert forall|k: int| 0 <= k < matches.len() implies {
        let (p, at) = #[trigger] matches[k];
        let len = encode_utf8(patterns[p as int]).len();
        &&& p < patterns.len()
        &&& at + len <= bytes.len()
        &&& bytes.subrange(at as int, at + len) == encode_utf8(patterns[p as int])
    } by {
        let (p, at) = matches[k];
        assert(stands_at(patterns, bytes, p as int, at as int));
    }
    assert forall|k: int| 0 < k < matches.len() implies {
        let (p, at) = matches[k - 1];
        at + encode_utf8(patterns[p as int]).len() <= (#[trigger] matches[k]).1
    } by {
        let (p, at) = matches[k];
        assert(seen_first(
            patterns,
            bytes,
            search_start(patterns, matches, k),
            p as int,
            at as int,
        ));
    }
    assert forall|q: int, b: int|
        {
            &&& 0 <= q < patterns.len()
            &&& 0 <= b
            &&& b + encode_utf8(#[trigger] patterns[q]).len() <= bytes.len()
            &&& #[trigger] bytes.subrange(b, b + encode_utf8(patterns[q]).len()) == encode_utf8(
                patterns[q],
            )
        } implies exists|k: int|
        {
            let (p, at) = #[trigger] matches[k];
            let end = at + encode_utf8(patterns[p as int]).len();
            &&& 0 <= k < matches.len()
            &&& b < end <= b + encode_utf8(patterns[q]).len()
        } by {
        assert(stands_at(patterns, bytes, q, b));
        let k = lemma_passed(patterns, bytes, matches, q, b, matches.len() as int);
        let (p, at) = matches[k];
        assert(b < match_end(patterns, p as int, at as int));
    }
}

/// The first match that ends behind `b`, where a pattern stands, ends no later than it.
proof fn lemma_passed(
    patterns: Seq<Seq<char>>,
    bytes: Seq<u8>,
    matches: Seq<(usize, usize)>,
    q: int,
    b: int,
    n: int,
) -> (k: int)
    requires
        matches_as_seen(patterns, bytes, matches),
        stands_at(patterns, bytes, q, b),
        0 <= n <= matches.len(),
        b < search_start(patterns, matches, n),
    ensures
        0 <= k < matches.len(),
        b < match_end(patterns, matches[k].0 as int, matches[k].1 as int) <= match_end(
            patterns,
            q,
            b,
        ),
    decreases n,
{
    if b < search_start(patterns, matches, n - 1) {
        lemma_passed(patterns, bytes, matches, q, b, n - 1)
    } else {
        let (p, at) = matches[n - 1];
        assert(seen_first(
            patterns,
            bytes,
            search_start(patterns, matches, n - 1),
            p as int,
            at as int,
        ));
        n - 1
    }
}

/// The bytes of a name in quotes with a colon behind it.
pub open spec fn quoted_name(name: Seq<char>) -> Seq<u8> {
    encode_utf8(seq!['"'] + name + seq!['"', ':'])
}

/// The name stands in the bytes at `at`, in quotes and with a colon behind it.
pub open spec fn name_stands(bytes: Seq<u8>, name: Seq<char>, at: int) -> bool {
    &&& 0 <= at
    &&& at + quoted_name(name).len() <= bytes.len()
    &&& bytes.subrange(at, at + quoted_name(name).len()) == quoted_name(name)
}

/// A scan for several keys reports quoted names with a colon behind them, each by the number
/// of its key, and misses none: where such a name stands, a match ends behind its first byte
/// and no later than it.
pub proof fn law_multi_key_scans_find_quoted_names(
    keys: &[&str],
    finder: &AhoCorasick,
    bytes: &[u8],
    r: Vec<(usize, usize)>,
)
    requires
        call_ensures(multi_key_finder, (keys,), *finder),
        call_ensures(multi_key_scan, (finder, bytes), r),
    ensures
        forall|k: int|
            0 <= k < r@.len() ==> {
                let (p, at) = #[trigger] r@[k];
                p < keys@.len() && name_stands(bytes@, keys@[p as int]@, at as int)
            },
        forall|q: int, b: int|
            0 <= q < keys@.len() && #[trigger] name_stands(bytes@, keys@[q]@, b) ==> exists|k: int|
                {
                    let (p, at) = #[trigger] r@[k];
                    &&& 0 <= k < r@.len()
                    &&& b < at + quoted_name(keys@[p as int]@).len() <= b + quoted_name(
                        keys@[q]@,
                    ).len()
                },
{
    let patterns = key_patterns(keys@);
    assert(patterns.len() == keys@.len());
    assert forall|p: int| 0 <= p < keys@.len() implies encode_utf8(#[trigger] patterns[p])
        == quoted_name(keys@[p]@) by {
        law_key_patterns_are_quoted_names(keys@, p);
    }
    law_matches_are_there_and_all_of_them(patterns, bytes@, r@);
    assert forall|k: int| 0 <= k < r@.len() implies {
        let (p, at) = #[trigger] r@[k];
        p < keys@.len() && name_stands(bytes@, keys@[p as int]@, at as int)
    } by {
        let (p, at) = r@[k];
        assert(p < patterns.len());
        assert(encode_utf8(patterns[p as int]) == quoted_name(keys@[p as int]@));
    }
    assert forall|q: int, b: int|
        0 <= q < keys@.len() && #[trigger] name_stands(bytes@, keys@[q]@, b) implies exists|k: int|
        {
            let (p, at) = #[trigger] r@[k];
            &&& 0 <= k < r@.len()
            &&& b < at + quoted_name(keys@[p as int]@).len() <= b + quoted_name(keys@[q]@).len()
        } by {
        assert(encode_utf8(patterns[q]) == quoted_name(keys@[q]@));
        assert(stands_at(patterns, bytes@, q, b));
        let k = lemma_passed(patterns, bytes@, r@, q, b, r@.len() as int);
        let (p, at) = r@[k];
        assert(p < patterns.len());
        assert(encode_utf8(patterns[p as int]) == quoted_name(keys@[p as int]@));
    }
}

} // verus!
