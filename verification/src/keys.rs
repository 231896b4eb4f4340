//! Key bitmaps: for every object key, the tokens that spell it.
//!
//! A token is a key if it is a string directly inside an object with a colon behind it.
//! Keys are interned in document order; each has a Roaring bitmap of its tokens, and each
//! nesting depth has one of all tokens at that depth. Compound lookups intersect them.

use croaring::Bitmap;
use vstd::hash_map::StringHashMap;
use vstd::prelude::*;

use crate::index::StructIndex;
use crate::lex::{Kind, Token};
use crate::roaring::{lists, members, values};
use crate::text::{decode_string_body, decoded};
use crate::tree::{is_close, lemma_parent, parent_at};

verus! {

/// What a token is to the container that holds it.
#[derive(Copy, Clone, Debug, PartialEq, Eq, Structural)]
pub enum Role {
    /// A string that names a value of an object.
    Key,
    /// A value of an object, or a string or literal outside containers.
    Value,
    /// An element of an array.
    Elem,
    /// Closes, separators and a container at the root.
    Other,
}

/// The kind of the container that token `i` belongs to.
pub open spec fn parent_kind(kinds: Seq<Kind>, i: int) -> Option<Kind> {
    let p = parent_at(kinds, i);
    if p >= 0 {
        Some(kinds[p])
    } else {
        None
    }
}

/// A colon of the same container stands right behind token `i`.
pub open spec fn colon_follows(kinds: Seq<Kind>, i: int) -> bool {
    i + 1 < kinds.len() && kinds[i + 1] == Kind::Colon && parent_at(kinds, i + 1) == parent_at(
        kinds,
        i,
    )
}

/// The role of token `i`.
pub open spec fn role_at(kinds: Seq<Kind>, i: int) -> Role {
    let within = parent_kind(kinds, i);
    match kinds[i] {
        Kind::Quote => if within == Some(Kind::ObjOpen) && colon_follows(kinds, i) {
            Role::Key
        } else if within == Some(Kind::ArrOpen) {
            Role::Elem
        } else {
            Role::Value
        },
        Kind::Scalar => if within == Some(Kind::ArrOpen) {
            Role::Elem
        } else {
            Role::Value
        },
        Kind::ObjOpen | Kind::ArrOpen => if within == Some(Kind::ArrOpen) {
            Role::Elem
        } else if within == Some(Kind::ObjOpen) {
            Role::Value
        } else {
            Role::Other
        },
        _ => Role::Other,
    }
}

/// The name that token `i` spells as a key.
pub open spec fn key_name(buf: Seq<u8>, toks: Seq<Token>, kinds: Seq<Kind>, i: int) -> Option<
    Seq<char>,
> {
    if role_at(kinds, i) == Role::Key {
        Some(decoded(buf, toks[i].offset + 1))
    } else {
        None
    }
}

/// Every key is a string directly inside an object.
pub open spec fn keys_in_objects(kinds: Seq<Kind>, names: Seq<Option<Seq<char>>>) -> bool {
    forall|i: int|
        0 <= i < names.len() && (#[trigger] names[i]) is Some ==> kinds[i] == Kind::Quote
            && parent_kind(kinds, i) == Some(Kind::ObjOpen)
}

/// The distinct names among the first `n`, in order of first appearance.
pub open spec fn dict_of(names: Seq<Option<Seq<char>>>, n: int) -> Seq<Seq<char>>
    decreases n,
{
    if n <= 0 {
        Seq::empty()
    } else {
        let front = dict_of(names, n - 1);
        match names[n - 1] {
            Some(k) if !front.contains(k) => front.push(k),
            _ => front,
        }
    }
}

proof fn lemma_dict_prefix(a: Seq<Option<Seq<char>>>, b: Seq<Option<Seq<char>>>, n: int)
    requires
        n <= a.len(),
        n <= b.len(),
        forall|i: int| 0 <= i < n ==> a[i] == b[i],
    ensures
        dict_of(a, n) == dict_of(b, n),
    decreases n,
{
    if n > 0 {
        lemma_dict_prefix(a, b, n - 1);
    }
}

/// The dictionary lists each name once, and exactly the names that occur.
pub proof fn lemma_dict(names: Seq<Option<Seq<char>>>, n: int)
    requires
        0 <= n <= names.len(),
    ensures
        dict_of(names, n).len() <= n,
        dict_of(names, n).no_duplicates(),
        forall|k: Seq<char>| #[trigger]
            dict_of(names, n).contains(k) <==> exists|i: int| 0 <= i < n && #[trigger] names[i] == Some(k),
    decreases n,
{
    if n > 0 {
        lemma_dict(names, n - 1);
        let front = dict_of(names, n - 1);
        let all = dict_of(names, n);
        assert forall|k: Seq<char>| #[trigger] all.contains(k) implies exists|i: int|
            0 <= i < n && #[trigger] names[i] == Some(k) by {
            let j = all.index_of(k);
            if j < front.len() {
                assert(front[j] == k);
                assert(front.contains(k));
                let i = choose|i: int| 0 <= i < n - 1 && #[trigger] names[i] == Some(k);
                assert(names[i] == Some(k));
            } else {
                assert(names[n - 1] == Some(k));
            }
        }
        assert forall|k: Seq<char>, i: int| 0 <= i < n && #[trigger] names[i] == Some(k) implies #[trigger]
            all.contains(k) by {
            if i < n - 1 {
                assert(front.contains(k));
                let j = front.index_of(k);
                assert(all[j] == k);
            } else if front.contains(k) {
                assert(all == front);
            } else {
                assert(all[front.len() as int] == k);
            }
        }
    }
}

/// The key tables of a row of names: dictionary, reverse map, bitmaps and per-token columns.
pub open spec fn key_tables_match(
    names: Seq<Option<Seq<char>>>,
    dict: Seq<String>,
    by_name: Map<Seq<char>, u32>,
    bitmaps: Seq<Bitmap>,
    role: Seq<Role>,
    key_id_of: Seq<u32>,
) -> bool {
    let d = dict_of(names, names.len() as int);
    &&& names.len() <= u32::MAX
    &&& dict.len() == d.len()
    &&& forall|i: int| 0 <= i < d.len() ==> (#[trigger] dict[i])@ == d[i]
    &&& forall|k: Seq<char>| #[trigger] by_name.dom().contains(k) <==> d.contains(k)
    &&& forall|i: int| 0 <= i < d.len() ==> by_name[#[trigger] d[i]] == i
    &&& bitmaps.len() == d.len()
    &&& forall|i: int, t: u32|
        0 <= i < d.len() ==> (#[trigger] members(bitmaps[i]).contains(t) <==> t < names.len()
            && names[t as int] == Some(d[i]))
    &&& role.len() == names.len()
    &&& key_id_of.len() == names.len()
    &&& forall|i: int|
        0 <= i < names.len() ==> (#[trigger] role[i] == Role::Key <==> names[i] is Some)
    &&& forall|i: int|
        0 <= i < names.len() ==> match names[i] {
            Some(k) => #[trigger] key_id_of[i] < d.len() && d[key_id_of[i] as int] == k,
            None => key_id_of[i] == u32::MAX,
        }
}

/// The names in a row of key columns.
pub open spec fn names_in(dict: Seq<String>, role: Seq<Role>, key_id_of: Seq<u32>) -> Seq<
    Option<Seq<char>>,
> {
    Seq::new(
        role.len(),
        |i: int|
            if role[i] == Role::Key {
                Some(dict[key_id_of[i] as int]@)
            } else {
                None
            },
    )
}

/// Key tables under construction, one token at a time.
pub(crate) struct KeyBuilder {
    dict: Vec<String>,
    by_name: StringHashMap<u32>,
    bitmaps: Vec<Bitmap>,
    role: Vec<Role>,
    key_id_of: Vec<u32>,
}

impl KeyBuilder {
    pub(crate) closed spec fn names(&self) -> Seq<Option<Seq<char>>> {
        names_in(self.dict@, self.role@, self.key_id_of@)
    }

    pub(crate) closed spec fn roles(&self) -> Seq<Role> {
        self.role@
    }

    pub(crate) closed spec fn wf(&self) -> bool {
        key_tables_match(
            self.names(),
            self.dict@,
            self.by_name@,
            self.bitmaps@,
            self.role@,
            self.key_id_of@,
        )
    }

    pub(crate) fn new() -> (r: Self)
        ensures
            r.wf(),
            r.names() == Seq::<Option<Seq<char>>>::empty(),
            r.roles() == Seq::<Role>::empty(),
    {
        let r = KeyBuilder {
            dict: Vec::new(),
            by_name: StringHashMap::new(),
            bitmaps: Vec::new(),
            role: Vec::new(),
            key_id_of: Vec::new(),
        };
        assert(r.names() =~= Seq::<Option<Seq<char>>>::empty());
        r
    }

    /// Appends a token that is no key.
    pub(crate) fn push_other(&mut self, role: Role)
        requires
            old(self).wf(),
            old(self).names().len() < u32::MAX,
            role != Role::Key,
        ensures
            final(self).wf(),
            final(self).names() == old(self).names().push(None),
            final(self).roles() == old(self).roles().push(role),
    {
        let ghost before = self.names();
        self.role.push(role);
        self.key_id_of.push(u32::MAX);
        proof {
            let after = before.push(None);
            assert(self.names() =~= after);
            lemma_dict_prefix(before, after, before.len() as int);
        }
    }

    /// Appends a token that spells the key `name`.
    pub(crate) fn push_key(&mut self, name: &str)
        requires
            old(self).wf(),
            old(self).names().len() < u32::MAX,
        ensures
            final(self).wf(),
            final(self).names() == old(self).names().push(Some(name@)),
            final(self).roles() == old(self).roles().push(Role::Key),
    {
        let ghost before = self.names();
        let ghost d0 = dict_of(before, before.len() as int);
        let ghost after = before.push(Some(name@));
        let ghost d1 = dict_of(after, after.len() as int);
        proof {
            lemma_dict_prefix(before, after, before.len() as int);
            lemma_dict(before, before.len() as int);
            lemma_dict(after, after.len() as int);
        }
        let tok: u32 = self.role.len() as u32;
        let id: u32 = match self.by_name.get(name) {
            Some(id) => *id,
            None => {
                let id: u32 = self.dict.len() as u32;
                let owned: String = name.to_owned();
                self.dict.push(owned.clone());
                self.by_name.insert(owned, id);
                self.bitmaps.push(Bitmap::new());
                id
            },
        };
        assert(d1[id as int] == name@);
        self.role.push(Role::Key);
        self.key_id_of.push(id);
        self.bitmaps[id as usize].add(tok);
        proof {
            assert(self.names() =~= after);
            assert(d0.len() <= d1.len());
            assert forall|k: Seq<char>| #[trigger] self.by_name@.dom().contains(k) <==> d1.contains(
                k,
            ) by {
                if d1.contains(k) && k != name@ {
                    let i = choose|i: int| 0 <= i < after.len() && #[trigger] after[i] == Some(k);
                    assert(before[i] == Some(k));
                    assert(d0.contains(k));
                }
                if d0.contains(k) {
                    let j = d0.index_of(k);
                    assert(d1[j] == k);
                }
                assert(d1.contains(name@));
            }
            assert forall|i: int, t: u32| 0 <= i < d1.len() implies (#[trigger] members(
                self.bitmaps@[i],
            ).contains(t) <==> t < after.len() && after[t as int] == Some(d1[i])) by {
                if t < before.len() {
                    assert(after[t as int] == before[t as int]);
                }
                if i < d0.len() {
                    assert(d1[i] == d0[i]);
                } else if t < before.len() && before[t as int] == Some(d1[i]) {
                    assert(d0.contains(d1[i]));
                }
            }
            assert forall|i: int| 0 <= i < after.len() implies match after[i] {
                Some(k) => #[trigger] self.key_id_of@[i] < d1.len() && d1[self.key_id_of@[i] as int]
                    == k,
                None => self.key_id_of@[i] == u32::MAX,
            } by {
                if i < before.len() {
                    assert(after[i] == before[i]);
                }
            }
        }
    }
}

/// The key layer of an index.
pub struct KeyBitmaps {
    /// Distinct key names in order of first appearance.
    pub dict: Vec<String>,
    /// From a key name to its place in `dict`.
    pub by_name: StringHashMap<u32>,
    /// Per name, the tokens that spell it as a key.
    pub bitmaps: Vec<Bitmap>,
    /// Per depth, the tokens at it.
    pub depth_bitmaps: Vec<Bitmap>,
    /// Per token, its role.
    pub role: Vec<Role>,
    /// Per token, the place of its name in `dict`; `u32::MAX` for a token that is no key.
    pub key_id_of: Vec<u32>,
    /// Number of tokens.
    pub n_tokens: usize,
}

impl KeyBitmaps {
    /// Per token, the name that it spells as a key.
    pub open spec fn names(&self) -> Seq<Option<Seq<char>>> {
        names_in(self.dict@, self.role@, self.key_id_of@)
    }

    /// The tables agree with each other.
    pub open spec fn wf(&self) -> bool {
        &&& key_tables_match(
            self.names(),
            self.dict@,
            self.by_name@,
            self.bitmaps@,
            self.role@,
            self.key_id_of@,
        )
        &&& self.n_tokens == self.role@.len()
    }

    /// Token `t` is listed at depth `d`.
    pub open spec fn at_depth(&self, t: u32, d: u16) -> bool {
        d < self.depth_bitmaps@.len() && members(self.depth_bitmaps@[d as int]).contains(t)
    }

    /// The depth bitmaps list the tokens of a depth column.
    pub open spec fn depths_match(&self, depth: Seq<u16>) -> bool {
        forall|t: u32, d: u16| #[trigger]
            self.at_depth(t, d) <==> t < depth.len() && depth[t as int] == d
    }

    /// The tokens that spell `name` as a key, at the given depth where one is given.
    pub open spec fn key_set(&self, name: Seq<char>, depth: Option<u16>) -> Set<u32> {
        Set::new(
            |t: u32|
                {
                    &&& t < self.names().len()
                    &&& self.names()[t as int] == Some(name)
                    &&& match depth {
                        Some(d) => self.at_depth(t, d),
                        None => true,
                    }
                },
        )
    }

    /// Builds the key layer of `idx` over `buf`: classifies every token, decodes and interns
    /// the keys, and lists the tokens of every key and of every depth.
    pub fn build(idx: &StructIndex, buf: &[u8]) -> (r: Self)
        requires
            idx.tree_ok(),
        ensures
            r.wf(),
            r.depths_match(idx.stage1.depth@),
            r.n_tokens == idx.spec_len(),
            keys_in_objects(idx.stage1.kind@, r.names()),
            forall|i: int|
                0 <= i < idx.spec_len() ==> #[trigger] r.role@[i] == role_at(idx.stage1.kind@, i),
            forall|i: int|
                0 <= i < idx.spec_len() ==> #[trigger] r.names()[i] == key_name(
                    buf@,
                    idx.stage1@,
                    idx.stage1.kind@,
                    i,
                ),
    {
        let n: usize = idx.stage1.len();
        let ghost kinds = idx.stage1.kind@;
        let mut keys = KeyBuilder::new();
        let mut i: usize = 0;
        while i < n
            invariant
                i <= n == kinds.len() == idx.spec_len(),
                idx.tree_ok(),
                kinds == idx.stage1.kind@,
                keys.wf(),
                keys.names().len() == i,
                keys.roles().len() == i,
                forall|k: int| 0 <= k < i ==> #[trigger] keys.roles()[k] == role_at(kinds, k),
                forall|k: int|
                    0 <= k < i ==> #[trigger] keys.names()[k] == key_name(
                        buf@,
                        idx.stage1@,
                        kinds,
                        k,
                    ),
            decreases n - i,
        {
            let role = classify(idx, i);
            if role == Role::Key {
                let name = decode_string_body(buf, idx.stage1.offset[i] as usize);
                keys.push_key(name.as_str());
            } else {
                keys.push_other(role);
            }
            i = i + 1;
        }
        keys.finish(&idx.stage1.depth)
    }

    /// The tokens that spell `name` as a key, in document order; only those at `depth` where
    /// it is given.
    pub fn find_key(&self, name: &str, depth: Option<u16>) -> (r: Vec<u32>)
        requires
            self.wf(),
        ensures
            lists(r@, self.key_set(name@, depth)),
            forall|k: int|
                0 <= k < r@.len() ==> self.key_set(name@, depth).contains(#[trigger] r@[k])
                    && r@[k] < self.n_tokens,
    {
        let r: Vec<u32> = match self.lookup(name, depth) {
            Some(b) => values(&b),
            None => Vec::new(),
        };
        assert forall|k: int| 0 <= k < r@.len() implies self.key_set(name@, depth).contains(
            #[trigger] r@[k],
        ) && r@[k] < self.n_tokens by {
            assert(r@.contains(r@[k]));
        }
        r
    }

    /// The bitmap of [`KeyBitmaps::find_key`]; `None` for a name that is no key, and at a
    /// depth below all tokens.
    pub(crate) fn lookup(&self, name: &str, depth: Option<u16>) -> (r: Option<Bitmap>)
        requires
            self.wf(),
        ensures
            match r {
                Some(b) => members(b) == self.key_set(name@, depth),
                None => self.key_set(name@, depth) == Set::<u32>::empty(),
            },
    {
        let ghost d = dict_of(self.names(), self.names().len() as int);
        proof {
            lemma_dict(self.names(), self.names().len() as int);
        }
        let id: u32 = match self.by_name.get(name) {
            Some(id) => *id,
            None => {
                assert(self.key_set(name@, depth) =~= Set::<u32>::empty());
                return None;
            },
        };
        proof {
            let j = d.index_of(name@);
            assert(d[j] == name@);
        }
        let bm = &self.bitmaps[id as usize];
        assert forall|t: u32| #[trigger] members(*bm).contains(t) <==> t < self.names().len()
            && self.names()[t as int] == Some(name@) by {}
        match depth {
            Some(at) => {
                if (at as usize) < self.depth_bitmaps.len() {
                    let b = bm.and(&self.depth_bitmaps[at as usize]);
                    assert(members(b) =~= self.key_set(name@, depth));
                    Some(b)
                } else {
                    assert(self.key_set(name@, depth) =~= Set::<u32>::empty());
                    None
                }
            },
            None => {
                let b = bm.clone();
                assert(members(b) =~= self.key_set(name@, depth));
                Some(b)
            },
        }
    }

    /// The place of `name` in the dictionary.
    pub(crate) fn key_id(&self, name: &str) -> (r: Option<usize>)
        requires
            self.wf(),
        ensures
            match r {
                Some(id) => id < self.bitmaps@.len() && members(self.bitmaps@[id as int])
                    == self.key_set(name@, None) && self.names().contains(Some(name@)),
                None => self.key_set(name@, None) == Set::<u32>::empty(),
            },
    {
        let ghost d = dict_of(self.names(), self.names().len() as int);
        proof {
            lemma_dict(self.names(), self.names().len() as int);
        }
        match self.by_name.get(name) {
            Some(id) => {
                proof {
                    let j = d.index_of(name@);
                    assert(d[j] == name@);
                    assert(members(self.bitmaps@[j]) =~= self.key_set(name@, None));
                    let i = choose|i: int|
                        0 <= i < self.names().len() && #[trigger] self.names()[i] == Some(name@);
                    assert(self.names()[i] == Some(name@));
                }
                Some(*id as usize)
            },
            None => {
                assert(self.key_set(name@, None) =~= Set::<u32>::empty());
                None
            },
        }
    }

    /// Number of tokens.
    pub fn len(&self) -> (r: usize)
        ensures
            r == self.n_tokens,
    {
        self.n_tokens
    }

    /// Whether some token spells `name` as a key.
    pub fn contains_key(&self, name: &str) -> (r: bool)
        requires
            self.wf(),
        ensures
            r == self.names().contains(Some(name@)),
    {
        proof {
            lemma_dict(self.names(), self.names().len() as int);
            let d = dict_of(self.names(), self.names().len() as int);
            if d.contains(name@) {
                let i = choose|i: int|
                    0 <= i < self.names().len() && #[trigger] self.names()[i] == Some(name@);
                assert(self.names()[i] == Some(name@));
            }
        }
        self.by_name.contains_key(name)
    }
}

/// The bitmaps of `b` hold what those of `a` hold.
pub open spec fn same_members(a: Seq<Bitmap>, b: Seq<Bitmap>) -> bool {
    &&& a.len() == b.len()
    &&& forall|i: int| 0 <= i < a.len() ==> members(#[trigger] b[i]) == members(a[i])
}

/// A clone of each bitmap.
fn clone_bitmaps(bitmaps: &Vec<Bitmap>) -> (r: Vec<Bitmap>)
    ensures
        same_members(bitmaps@, r@),
{
    let n: usize = bitmaps.len();
    let mut out: Vec<Bitmap> = Vec::with_capacity(n);
    let mut i: usize = 0;
    while i < n
        invariant
            i <= n == bitmaps@.len(),
            out@.len() == i,
            forall|k: int| 0 <= k < i ==> members(#[trigger] out@[k]) == members(bitmaps@[k]),
        decreases n - i,
    {
        out.push(bitmaps[i].clone());
        i = i + 1;
    }
    out
}

impl Clone for KeyBitmaps {
    /// The same tables. Of `by_name` the names in the dictionary are kept, which are all of
    /// them where the tables agree.
    fn clone(&self) -> (r: Self)
        ensures
            r.dict@.len() == self.dict@.len(),
            forall|i: int| 0 <= i < self.dict@.len() ==> (#[trigger] r.dict@[i])@ == self.dict@[i]@,
            forall|k: Seq<char>| #[trigger]
                r.by_name@.dom().contains(k) <==> self.by_name@.dom().contains(k) && exists|i: int|
                    0 <= i < self.dict@.len() && (#[trigger] self.dict@[i])@ == k,
            forall|k: Seq<char>| #[trigger]
                r.by_name@.dom().contains(k) ==> r.by_name@[k] == self.by_name@[k],
            same_members(self.bitmaps@, r.bitmaps@),
            same_members(self.depth_bitmaps@, r.depth_bitmaps@),
            r.role@ == self.role@,
            r.key_id_of@ == self.key_id_of@,
            r.n_tokens == self.n_tokens,
            self.wf() ==> r.wf() && r.names() == self.names() && r.by_name@ == self.by_name@,
    {
        let n: usize = self.dict.len();
        let mut dict: Vec<String> = Vec::with_capacity(n);
        let mut by_name: StringHashMap<u32> = StringHashMap::new();
        let mut i: usize = 0;
        while i < n
            invariant
                i <= n == self.dict@.len(),
                dict@.len() == i,
                forall|k: int| 0 <= k < i ==> (#[trigger] dict@[k])@ == self.dict@[k]@,
                forall|k: Seq<char>| #[trigger]
                    by_name@.dom().contains(k) <==> self.by_name@.dom().contains(k)
                        && exists|j: int| 0 <= j < i && (#[trigger] self.dict@[j])@ == k,
                forall|k: Seq<char>| #[trigger]
                    by_name@.dom().contains(k) ==> by_name@[k] == self.by_name@[k],
            decreases n - i,
        {
            let name: String = self.dict[i].clone();
            let ghost before = by_name@;
            if let Some(id) = self.by_name.get(name.as_str()) {
                by_name.insert(name.clone(), *id);
            }
            dict.push(name);
            assert forall|k: Seq<char>| #[trigger]
                by_name@.dom().contains(k) <==> self.by_name@.dom().contains(k) && exists|j: int|
                    0 <= j < i + 1 && (#[trigger] self.dict@[j])@ == k by {
                if before.dom().contains(k) {
                    let j = choose|j: int| 0 <= j < i && (#[trigger] self.dict@[j])@ == k;
                    assert(self.dict@[j]@ == k);
                }
                assert(self.dict@[i as int]@ == name@);
            }
            i = i + 1;
        }
        let role: Vec<Role> = self.role.clone();
        let key_id_of: Vec<u32> = self.key_id_of.clone();
        assert(role@ =~= self.role@);
        assert(key_id_of@ =~= self.key_id_of@);
        let r = KeyBitmaps {
            dict,
            by_name,
            bitmaps: clone_bitmaps(&self.bitmaps),
            depth_bitmaps: clone_bitmaps(&self.depth_bitmaps),
            role,
            key_id_of,
            n_tokens: self.n_tokens,
        };
        proof {
            if self.wf() {
                self.lemma_clone(r);
            }
        }
        r
    }
}

impl KeyBitmaps {
    /// Tables that agree stay so in a copy.
    proof fn lemma_clone(&self, r: KeyBitmaps)
        requires
            self.wf(),
            r.dict@.len() == self.dict@.len(),
            forall|i: int| 0 <= i < self.dict@.len() ==> (#[trigger] r.dict@[i])@ == self.dict@[i]@,
            forall|k: Seq<char>| #[trigger]
                r.by_name@.dom().contains(k) <==> self.by_name@.dom().contains(k) && exists|i: int|
                    0 <= i < self.dict@.len() && (#[trigger] self.dict@[i])@ == k,
            forall|k: Seq<char>| #[trigger]
                r.by_name@.dom().contains(k) ==> r.by_name@[k] == self.by_name@[k],
            same_members(self.bitmaps@, r.bitmaps@),
            r.role@ == self.role@,
            r.key_id_of@ == self.key_id_of@,
            r.n_tokens == self.n_tokens,
        ensures
            r.wf(),
            r.names() == self.names(),
            r.by_name@ == self.by_name@,
    {
        let names = self.names();
        let d = dict_of(names, names.len() as int);
        assert forall|i: int| 0 <= i < names.len() implies r.names()[i] == #[trigger] names[i] by {
            if self.role@[i] == Role::Key {
                assert(names[i] is Some);
                assert(self.key_id_of@[i] < d.len());
            }
        }
        assert(r.names() =~= names);
        assert forall|k: Seq<char>| #[trigger] self.by_name@.dom().contains(k) implies r.by_name@.dom().contains(
            k,
        ) by {
            let i = d.index_of(k);
            assert(self.dict@[i]@ == d[i]);
        }
        assert(r.by_name@ =~= self.by_name@);
    }
}

impl KeyBuilder {
    /// Completes the tables with the bitmaps of a depth column and compacts them all.
    pub(crate) fn finish(self, depth: &Vec<u16>) -> (r: KeyBitmaps)
        requires
            self.wf(),
            depth@.len() == self.names().len(),
        ensures
            r.wf(),
            r.names() == self.names(),
            r.role@ == self.roles(),
            r.n_tokens == depth@.len(),
            r.depths_match(depth@),
    {
        let mut depth_bitmaps = list_depths(depth);
        let mut bitmaps = self.bitmaps;
        compact(&mut bitmaps);
        compact(&mut depth_bitmaps);
        let n_tokens: usize = self.role.len();
        KeyBitmaps {
            dict: self.dict,
            by_name: self.by_name,
            bitmaps,
            depth_bitmaps,
            role: self.role,
            key_id_of: self.key_id_of,
            n_tokens,
        }
    }
}

/// The greatest entry of a depth column, `0` of an empty one.
pub(crate) fn deepest(depth: &Vec<u16>) -> (r: u16)
    ensures
        forall|i: int| 0 <= i < depth@.len() ==> #[trigger] depth@[i] <= r,
        depth@.len() > 0 ==> depth@.contains(r),
        depth@.len() == 0 ==> r == 0,
{
    let mut max: u16 = 0;
    let mut i: usize = 0;
    while i < depth.len()
        invariant
            i <= depth@.len(),
            forall|k: int| 0 <= k < i ==> #[trigger] depth@[k] <= max,
            i > 0 ==> exists|k: int| 0 <= k < i && #[trigger] depth@[k] == max,
            i == 0 ==> max == 0,
        decreases depth@.len() - i,
    {
        if i == 0 || depth[i] > max {
            max = depth[i];
            assert(depth@[i as int] == max);
        }
        i = i + 1;
    }
    max
}

/// One bitmap per depth up to the deepest, with the tokens at it.
fn list_depths(depth: &Vec<u16>) -> (r: Vec<Bitmap>)
    requires
        depth@.len() <= u32::MAX,
    ensures
        forall|t: u32, d: u16|
            d < r@.len() && #[trigger] members(r@[d as int]).contains(t) ==> t < depth@.len()
                && depth@[t as int] == d,
        forall|t: u32|
            t < depth@.len() ==> (#[trigger] depth@[t as int]) < r@.len() && members(
                r@[depth@[t as int] as int],
            ).contains(t),
{
    let max: usize = deepest(depth) as usize;
    let mut out: Vec<Bitmap> = Vec::new();
    while out.len() <= max
        invariant
            out@.len() <= max + 1,
            max <= u16::MAX,
            forall|d: int|
                0 <= d < out@.len() ==> members(#[trigger] out@[d]) == Set::<u32>::empty(),
        decreases max + 1 - out@.len(),
    {
        out.push(Bitmap::new());
    }
    let mut i: usize = 0;
    while i < depth.len()
        invariant
            i <= depth@.len() <= u32::MAX,
            out@.len() == max + 1,
            forall|k: int| 0 <= k < depth@.len() ==> #[trigger] depth@[k] <= max,
            forall|t: u32, d: u16|
                d < out@.len() && #[trigger] members(out@[d as int]).contains(t) ==> t < i
                    && depth@[t as int] == d,
            forall|t: u32|
                t < i ==> members(out@[#[trigger] depth@[t as int] as int]).contains(t),
        decreases depth@.len() - i,
    {
        let d: usize = depth[i] as usize;
        out[d].add(i as u32);
        i = i + 1;
    }
    out
}

/// Compacts each bitmap.
fn compact(bitmaps: &mut Vec<Bitmap>)
    ensures
        final(bitmaps)@.len() == old(bitmaps)@.len(),
        forall|i: int|
            0 <= i < old(bitmaps)@.len() ==> members(#[trigger] final(bitmaps)@[i]) == members(
                old(bitmaps)@[i],
            ),
{
    let n: usize = bitmaps.len();
    let ghost before = bitmaps@;
    let mut i: usize = 0;
    while i < n
        invariant
            i <= n == bitmaps@.len() == before.len(),
            forall|k: int| 0 <= k < n ==> members(#[trigger] bitmaps@[k]) == members(before[k]),
        decreases n - i,
    {
        bitmaps[i].run_optimize();
        i = i + 1;
    }
}

/// The role of token `i`.
fn classify(idx: &StructIndex, i: usize) -> (r: Role)
    requires
        idx.tree_ok(),
        i < idx.spec_len(),
    ensures
        r == role_at(idx.stage1.kind@, i as int),
{
    let ghost kinds = idx.stage1.kind@;
    proof {
        lemma_parent(kinds, i as int);
    }
    let p: i32 = idx.parent[i];
    let in_object = p >= 0 && idx.stage1.kind[p as usize] == Kind::ObjOpen;
    let in_array = p >= 0 && idx.stage1.kind[p as usize] == Kind::ArrOpen;
    match idx.stage1.kind[i] {
        Kind::Quote => if in_object && next_is_colon(idx, i) {
            Role::Key
        } else if in_array {
            Role::Elem
        } else {
            Role::Value
        },
        Kind::Scalar => if in_array {
            Role::Elem
        } else {
            Role::Value
        },
        Kind::ObjOpen | Kind::ArrOpen => if in_array {
            Role::Elem
        } else if in_object {
            Role::Value
        } else {
            Role::Other
        },
        _ => Role::Other,
    }
}

/// Whether a colon of the same container stands right behind token `i`.
fn next_is_colon(idx: &StructIndex, i: usize) -> (r: bool)
    requires
        idx.tree_ok(),
        i < idx.spec_len(),
    ensures
        r == colon_follows(idx.stage1.kind@, i as int),
{
    i + 1 < idx.stage1.len() && idx.parent[i + 1] == idx.parent[i] && idx.stage1.kind[i + 1]
        == Kind::Colon
}

// ---------------------------------------------------------------------------
// From keys to values
// ---------------------------------------------------------------------------

/// From token `j` on, the value of the key at token `i`: the first token that is no
/// separator of the key's container. `None` if the container, or the document, ends first.
pub open spec fn value_from(kinds: Seq<Kind>, i: int, j: int) -> Option<int>
    decreases kinds.len() - j,
{
    if j >= kinds.len() {
        None
    } else if parent_at(kinds, j) == parent_at(kinds, i) {
        if kinds[j] == Kind::Colon || kinds[j] == Kind::Comma {
            value_from(kinds, i, j + 1)
        } else {
            Some(j)
        }
    } else if is_close(kinds[j]) {
        None
    } else {
        Some(j)
    }
}

/// The value of the key at token `i`.
pub open spec fn value_of(kinds: Seq<Kind>, i: int) -> Option<int> {
    value_from(kinds, i, i + 1)
}

/// The value that belongs to a key: the next token of the key's container that is no
/// separator. There is none where the container ends first.
pub fn value_for_key(idx: &StructIndex, key_tok: u32) -> (r: Option<u32>)
    requires
        idx.tree_ok(),
        key_tok < idx.spec_len(),
    ensures
        match r {
            Some(v) => value_of(idx.stage1.kind@, key_tok as int) == Some(v as int) && key_tok < v
                < idx.spec_len(),
            None => value_of(idx.stage1.kind@, key_tok as int) is None,
        },
{
    let n: usize = idx.stage1.len();
    let home: i32 = idx.parent[key_tok as usize];
    let mut i: usize = key_tok as usize + 1;
    while i < n
        invariant
            key_tok < i <= n == idx.spec_len(),
            idx.tree_ok(),
            home == parent_at(idx.stage1.kind@, key_tok as int),
            value_from(idx.stage1.kind@, key_tok as int, i as int) == value_of(
                idx.stage1.kind@,
                key_tok as int,
            ),
        decreases n - i,
    {
        let k = idx.stage1.kind[i];
        if idx.parent[i] == home {
            if k != Kind::Colon && k != Kind::Comma {
                return Some(i as u32);
            }
        } else if k == Kind::ObjClose || k == Kind::ArrClose {
            return None;
        } else {
            return Some(i as u32);
        }
        i = i + 1;
    }
    None
}

} // verus!
