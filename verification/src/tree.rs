//! The tree that a row of brackets spells: which containers are open in front of a token,
//! which container a token belongs to, and which close ends which open.

use vstd::prelude::*;

use crate::lex::Kind;

verus! {

pub open spec fn is_open(k: Kind) -> bool {
    k == Kind::ObjOpen || k == Kind::ArrOpen
}

pub open spec fn is_close(k: Kind) -> bool {
    k == Kind::ObjClose || k == Kind::ArrClose
}

/// The open containers in front of token `i`, outermost first. A close ends the innermost
/// one, whichever bracket it is written with.
pub open spec fn stack_at(kinds: Seq<Kind>, i: int) -> Seq<int>
    decreases i,
{
    if i <= 0 {
        Seq::empty()
    } else {
        let s = stack_at(kinds, i - 1);
        if is_open(kinds[i - 1]) {
            s.push(i - 1)
        } else if is_close(kinds[i - 1]) && s.len() > 0 {
            s.drop_last()
        } else {
            s
        }
    }
}

/// Token `i` closes a container although none is open.
pub open spec fn overclosed_at(kinds: Seq<Kind>, i: int) -> bool {
    is_close(kinds[i]) && stack_at(kinds, i).len() == 0
}

/// Every close has its open.
pub open spec fn closes_matched(kinds: Seq<Kind>) -> bool {
    forall|i: int| 0 <= i < kinds.len() ==> !#[trigger] overclosed_at(kinds, i)
}

/// Every close has its open and every open its close.
pub open spec fn balanced(kinds: Seq<Kind>) -> bool {
    closes_matched(kinds) && stack_at(kinds, kinds.len() as int).len() == 0
}

/// Token `close` ends the container that token `open` begins.
pub open spec fn closes(kinds: Seq<Kind>, open: int, close: int) -> bool {
    &&& 0 <= close < kinds.len()
    &&& is_close(kinds[close])
    &&& stack_at(kinds, close).len() > 0
    &&& stack_at(kinds, close).last() == open
}

/// The last element of a stack, `-1` for none.
pub open spec fn top(s: Seq<int>) -> int {
    if s.len() > 0 {
        s.last()
    } else {
        -1
    }
}

/// The container that token `i` belongs to, `-1` at the root. A close belongs where its
/// open does.
pub open spec fn parent_at(kinds: Seq<Kind>, i: int) -> int {
    if is_close(kinds[i]) {
        top(stack_at(kinds, i + 1))
    } else {
        top(stack_at(kinds, i))
    }
}

/// Objects are closed as objects and arrays as arrays.
pub open spec fn brackets_pair(kinds: Seq<Kind>) -> bool {
    forall|i: int, j: int| #[trigger]
        closes(kinds, i, j) ==> (kinds[j] == Kind::ObjClose <==> kinds[i] == Kind::ObjOpen)
}

/// How many containers hold token `i`. A close is held by what holds its open.
pub open spec fn nesting_at(kinds: Seq<Kind>, i: int) -> int {
    if is_close(kinds[i]) {
        stack_at(kinds, i + 1).len() as int
    } else {
        stack_at(kinds, i).len() as int
    }
}

/// Open containers are opens in front of `i`, in ascending order.
pub proof fn lemma_stack(kinds: Seq<Kind>, i: int)
    requires
        0 <= i <= kinds.len(),
    ensures
        forall|k: int|
            0 <= k < stack_at(kinds, i).len() ==> 0 <= #[trigger] stack_at(kinds, i)[k] < i
                && is_open(kinds[stack_at(kinds, i)[k]]),
        forall|a: int, b: int|
            0 <= a < b < stack_at(kinds, i).len() ==> stack_at(kinds, i)[a] < stack_at(kinds, i)[b],
    decreases i,
{
    if i > 0 {
        lemma_stack(kinds, i - 1);
        let p = stack_at(kinds, i - 1);
        let s = stack_at(kinds, i);
        assert forall|k: int| 0 <= k < s.len() implies 0 <= #[trigger] s[k] < i && is_open(
            kinds[s[k]],
        ) by {
            if k < p.len() {
                assert(s[k] == p[k]);
            }
        }
        assert forall|a: int, b: int| 0 <= a < b < s.len() implies s[a] < s[b] by {
            assert(s[a] == p[a]);
            if b < p.len() {
                assert(s[b] == p[b]);
            }
        }
    }
}

/// A container is open from behind its open up to its close.
pub proof fn lemma_open_between(kinds: Seq<Kind>, d: int, i: int)
    requires
        0 <= d < kinds.len(),
        is_open(kinds[d]),
        0 <= i <= kinds.len(),
    ensures
        stack_at(kinds, i).contains(d) <==> d < i && forall|j: int|
            j < i ==> !#[trigger] closes(kinds, d, j),
    decreases i,
{
    let s = stack_at(kinds, i);
    if i > 0 {
        let p = stack_at(kinds, i - 1);
        lemma_open_between(kinds, d, i - 1);
        lemma_stack(kinds, i - 1);
        if is_open(kinds[i - 1]) {
            assert(!closes(kinds, d, i - 1));
            assert(s == p.push(i - 1));
            if s.contains(d) {
                let k = s.index_of(d);
                if k < p.len() {
                    assert(p[k] == d);
                }
            }
            if p.contains(d) {
                let k = p.index_of(d);
                assert(s[k] == d);
            }
            if d == i - 1 {
                assert(s[s.len() - 1] == d);
                assert forall|j: int| j < i implies !#[trigger] closes(kinds, d, j) by {
                    if closes(kinds, d, j) {
                        lemma_stack(kinds, j);
                        assert(stack_at(kinds, j)[stack_at(kinds, j).len() - 1] == d);
                    }
                }
            }
        } else if is_close(kinds[i - 1]) && p.len() > 0 {
            assert(s == p.drop_last());
            if s.contains(d) {
                let k = s.index_of(d);
                assert(p[k] == d);
                assert(p[k] < p[p.len() - 1]);
            }
            if p.contains(d) && !closes(kinds, d, i - 1) {
                let k = p.index_of(d);
                assert(k < p.len() - 1);
                assert(s[k] == d);
            }
        } else {
            assert(!closes(kinds, d, i - 1));
        }
    }
}

/// A close comes behind the open that it ends.
pub proof fn lemma_close_after_open(kinds: Seq<Kind>, d: int, j: int)
    requires
        closes(kinds, d, j),
    ensures
        0 <= d < j,
        is_open(kinds[d]),
{
    lemma_stack(kinds, j);
    assert(stack_at(kinds, j)[stack_at(kinds, j).len() - 1] == d);
}

/// An open has at most one close.
pub proof fn lemma_close_unique(kinds: Seq<Kind>, d: int, j: int, k: int)
    requires
        closes(kinds, d, j),
        closes(kinds, d, k),
    ensures
        j == k,
{
    lemma_close_after_open(kinds, d, j);
    lemma_close_after_open(kinds, d, k);
    lemma_open_between(kinds, d, j);
    lemma_open_between(kinds, d, k);
    assert(stack_at(kinds, j)[stack_at(kinds, j).len() - 1] == d);
    assert(stack_at(kinds, k)[stack_at(kinds, k).len() - 1] == d);
}

/// In balanced kinds every open has a close.
pub proof fn lemma_close_exists(kinds: Seq<Kind>, d: int)
    requires
        balanced(kinds),
        0 <= d < kinds.len(),
        is_open(kinds[d]),
    ensures
        exists|j: int| #[trigger] closes(kinds, d, j),
{
    lemma_open_between(kinds, d, kinds.len() as int);
    assert(!stack_at(kinds, kinds.len() as int).contains(d));
}

/// A token's container is an open in front of it.
pub proof fn lemma_parent(kinds: Seq<Kind>, i: int)
    requires
        0 <= i < kinds.len(),
    ensures
        -1 <= parent_at(kinds, i) < i,
        parent_at(kinds, i) >= 0 ==> is_open(kinds[parent_at(kinds, i)]),
{
    lemma_stack(kinds, i);
    lemma_stack(kinds, i + 1);
    let s = if is_close(kinds[i]) {
        stack_at(kinds, i + 1)
    } else {
        stack_at(kinds, i)
    };
    if s.len() > 0 {
        assert(s[s.len() - 1] == s.last());
        if is_close(kinds[i]) && s.last() == i {
            assert(is_open(kinds[s.last()]));
        }
    }
}

/// The open containers in front of token `i` depend on the tokens in front of it alone.
pub proof fn lemma_stack_prefix(a: Seq<Kind>, b: Seq<Kind>, i: int)
    requires
        0 <= i <= a.len(),
        i <= b.len(),
        forall|k: int| 0 <= k < i ==> a[k] == b[k],
    ensures
        stack_at(a, i) == stack_at(b, i),
    decreases i,
{
    if i > 0 {
        lemma_stack_prefix(a, b, i - 1);
    }
}

/// One more token: what it does to the nesting.
pub proof fn lemma_push_kind(kinds: Seq<Kind>, k: Kind)
    requires
        closes_matched(kinds),
        is_close(k) ==> stack_at(kinds, kinds.len() as int).len() > 0,
    ensures
        closes_matched(kinds.push(k)),
        stack_at(kinds.push(k), kinds.len() as int + 1).len() == stack_at(kinds, kinds.len() as int).len()
            + (if is_open(k) {
            1int
        } else if is_close(k) {
            -1int
        } else {
            0int
        }),
{
    let more = kinds.push(k);
    lemma_stack_prefix(kinds, more, kinds.len() as int);
    assert forall|i: int| 0 <= i < more.len() implies !#[trigger] overclosed_at(more, i) by {
        lemma_stack_prefix(kinds, more, i);
        if i < kinds.len() {
            assert(!overclosed_at(kinds, i));
        }
    }
}

/// Below an open container lie those that were open in front of it.
pub proof fn lemma_stack_below(kinds: Seq<Kind>, i: int, k: int)
    requires
        0 <= i <= kinds.len(),
        0 <= k < stack_at(kinds, i).len(),
    ensures
        stack_at(kinds, stack_at(kinds, i)[k]) == stack_at(kinds, i).take(k),
    decreases i,
{
    if i > 0 {
        let p = stack_at(kinds, i - 1);
        let s = stack_at(kinds, i);
        if k < p.len() {
            lemma_stack_below(kinds, i - 1, k);
            assert(s[k] == p[k]);
            assert(s.take(k) =~= p.take(k));
        } else {
            assert(s.take(k) =~= p);
        }
    }
}

/// The `parent` and `close_of` columns of the tree that `kinds` spells.
pub open spec fn columns_match(kinds: Seq<Kind>, parent: Seq<i32>, close_of: Seq<i32>) -> bool {
    &&& parent.len() == kinds.len()
    &&& close_of.len() == kinds.len()
    &&& forall|i: int| 0 <= i < kinds.len() ==> #[trigger] parent[i] == parent_at(kinds, i)
    &&& forall|i: int|
        0 <= i < kinds.len() ==> if is_open(kinds[i]) {
            closes(kinds, i, #[trigger] close_of[i] as int)
        } else {
            close_of[i] == -1
        }
}

/// The tree columns under construction, one token at a time.
pub(crate) struct TreeBuilder {
    parent: Vec<i32>,
    close_of: Vec<i32>,
    stack: Vec<u32>,
    seen: Ghost<Seq<Kind>>,
}

impl TreeBuilder {
    /// The kinds of the tokens so far.
    pub(crate) closed spec fn kinds(&self) -> Seq<Kind> {
        self.seen@
    }

    /// The containers that are open.
    pub(crate) closed spec fn open_tokens(&self) -> Seq<u32> {
        self.stack@
    }

    pub(crate) closed spec fn wf(&self) -> bool {
        let kinds = self.seen@;
        let n = kinds.len() as int;
        let st = stack_at(kinds, n);
        &&& n <= i32::MAX
        &&& closes_matched(kinds)
        &&& self.parent@.len() == n
        &&& self.close_of@.len() == n
        &&& self.stack@.len() == st.len()
        &&& forall|k: int| 0 <= k < st.len() ==> #[trigger] self.stack@[k] == st[k]
        &&& forall|k: int| 0 <= k < n ==> #[trigger] self.parent@[k] == parent_at(kinds, k)
        &&& forall|d: int, j: int| #[trigger] closes(kinds, d, j) ==> self.close_of@[d] == j
        &&& forall|d: int|
            0 <= d < n && #[trigger] self.close_of@[d] != -1 ==> closes(
                kinds,
                d,
                self.close_of@[d] as int,
            )
    }

    pub(crate) fn new() -> (r: Self)
        ensures
            r.wf(),
            r.kinds() == Seq::<Kind>::empty(),
    {
        TreeBuilder {
            parent: Vec::new(),
            close_of: Vec::new(),
            stack: Vec::new(),
            seen: Ghost(Seq::empty()),
        }
    }

    /// The open containers are those of the kinds so far.
    pub(crate) proof fn lemma_depth(&self)
        requires
            self.wf(),
        ensures
            closes_matched(self.kinds()),
            self.open_tokens().len() == stack_at(self.kinds(), self.kinds().len() as int).len(),
            forall|k: int|
                0 <= k < self.open_tokens().len() ==> #[trigger] self.open_tokens()[k] == stack_at(
                    self.kinds(),
                    self.kinds().len() as int,
                )[k],
    {
    }

    /// Number of open containers.
    pub(crate) fn depth(&self) -> (r: usize)
        ensures
            r == self.open_tokens().len(),
    {
        self.stack.len()
    }

    /// The innermost open container.
    pub(crate) fn innermost(&self) -> (r: Option<u32>)
        ensures
            r == (if self.open_tokens().len() > 0 {
                Some(self.open_tokens().last())
            } else {
                None
            }),
    {
        if self.stack.len() == 0 {
            None
        } else {
            Some(self.stack[self.stack.len() - 1])
        }
    }

    /// Appends a token.
    pub(crate) fn push(&mut self, k: Kind)
        requires
            old(self).wf(),
            old(self).kinds().len() < i32::MAX,
            is_close(k) ==> old(self).open_tokens().len() > 0,
        ensures
            final(self).wf(),
            final(self).kinds() == old(self).kinds().push(k),
    {
        let ghost kinds = self.seen@;
        let ghost more = kinds.push(k);
        let ghost n = kinds.len() as int;
        let i: usize = self.parent.len();
        let ghost st = stack_at(kinds, n);
        proof {
            lemma_push_kind(kinds, k);
            lemma_stack(kinds, n);
            lemma_stack_prefix(kinds, more, n);
            assert forall|d: int, j: int| j < n implies #[trigger] closes(more, d, j) == closes(
                kinds,
                d,
                j,
            ) by {
                if 0 <= j {
                    lemma_stack_prefix(kinds, more, j);
                }
            }
            assert forall|j: int| 0 <= j < n implies #[trigger] parent_at(more, j) == parent_at(
                kinds,
                j,
            ) by {
                lemma_stack_prefix(kinds, more, j);
                lemma_stack_prefix(kinds, more, j + 1);
            }
        }
        let last: i32 = match self.innermost() {
            Some(t) => {
                assert(st[st.len() - 1] == t);
                t as i32
            },
            None => -1,
        };
        assert(last == top(st));
        if k == Kind::ObjClose || k == Kind::ArrClose {
            if let Some(open) = self.stack.pop() {
                let ghost d = open as int;
                proof {
                    assert(st[st.len() - 1] == d);
                    assert(closes(more, d, n));
                    lemma_stack_below(kinds, n, st.len() - 1);
                    assert(st.take(st.len() - 1) =~= st.drop_last());
                    assert(self.parent@[d] == parent_at(kinds, d));
                }
                self.close_of.set(open as usize, i as i32);
                let up: i32 = self.parent[open as usize];
                self.parent.push(up);
                assert(up == top(stack_at(more, n + 1)));
            }
        } else {
            self.parent.push(last);
            if k == Kind::ObjOpen || k == Kind::ArrOpen {
                self.stack.push(i as u32);
            }
        }
        self.close_of.push(-1);
        self.seen = Ghost(more);
        proof {
            assert forall|e: int, j: int| #[trigger] closes(more, e, j) implies self.close_of@[e] == j by {
                lemma_close_after_open(more, e, j);
                if j < n {
                    assert(closes(kinds, e, j));
                    if is_close(k) && e == st.last() {
                        lemma_close_unique(more, e, j, n);
                    }
                }
            }
            assert forall|d: int| 0 <= d < n + 1 && #[trigger] self.close_of@[d] != -1 implies closes(
                more,
                d,
                self.close_of@[d] as int,
            ) by {
                if !(is_close(k) && d == st.last()) {
                    assert(closes(kinds, d, self.close_of@[d] as int));
                    assert(closes(more, d, self.close_of@[d] as int));
                }
            }
        }
    }

    /// The finished columns.
    pub(crate) fn finish(self) -> (r: (Vec<i32>, Vec<i32>))
        requires
            self.wf(),
            self.open_tokens().len() == 0,
        ensures
            balanced(self.kinds()),
            columns_match(self.kinds(), r.0@, r.1@),
    {
        proof {
            let kinds = self.seen@;
            assert forall|d: int| 0 <= d < kinds.len() implies if is_open(kinds[d]) {
                closes(kinds, d, #[trigger] self.close_of@[d] as int)
            } else {
                self.close_of@[d] == -1
            } by {
                if is_open(kinds[d]) {
                    lemma_close_exists(kinds, d);
                    let j = choose|j: int| #[trigger] closes(kinds, d, j);
                    assert(closes(kinds, d, j));
                } else if self.close_of@[d] != -1 {
                    lemma_close_after_open(kinds, d, self.close_of@[d] as int);
                }
            }
        }
        (self.parent, self.close_of)
    }
}

} // verus!
