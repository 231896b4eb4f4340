//! Key hits: sets of key tokens that can be combined, counted and walked in document order.

use croaring::bitmap::BitmapCursor;
use croaring::Bitmap;
use vstd::prelude::*;

use crate::api::TokenId;
use crate::roaring::{
    add_closed_range, closed_range, closed_range_cardinality, cursor_position, cursor_values,
    lemma_finite, lists, members, values,
};

verus! {

/// A set of key tokens, walked in ascending order by [`KeyHits::next`].
///
/// The set comes from a bitmap of its own, or is the part of a borrowed bitmap that lies in a
/// range; the latter is walked with a cursor and copies nothing.
pub struct KeyHits<'a> {
    state: State<'a>,
}

#[allow(inconsistent_fields)]
enum State<'a> {
    Empty,
    Owned { bitmap: Bitmap, cache: Option<Vec<u32>>, pos: usize },
    Bounded { bitmap: &'a Bitmap, cursor: Option<BitmapCursor<'a>>, lo: u32, hi: u32 },
}

/// The entries of `s` from `from` on that are at most `hi`.
spec fn tail_set(s: Seq<u32>, from: int, hi: int) -> Set<u32> {
    Set::new(|t: u32| t <= hi && exists|k: int| from <= k < s.len() && 0 <= k && #[trigger] s[k] == t)
}

/// What is left of a walk over a listing that is made on the first step.
spec fn owned_rest(bitmap: Bitmap, cache: Option<Vec<u32>>, pos: usize) -> Set<u32> {
    match cache {
        Some(v) => tail_set(v@, pos as int, u32::MAX as int),
        None => members(bitmap),
    }
}

/// What is left of a walk with a cursor that stands where the last step ended.
spec fn bounded_rest(bitmap: Bitmap, cursor: Option<BitmapCursor<'_>>, lo: u32, hi: u32) -> Set<
    u32,
> {
    match cursor {
        Some(c) => tail_set(cursor_values(c), cursor_position(c) + 1, hi as int),
        None => members(bitmap).intersect(closed_range(lo as int, hi as int)),
    }
}

/// `t` is the least element of `rest`, and `left` is what remains without it; or nothing was
/// there.
spec fn took_least(rest: Set<u32>, t: Option<u32>, left: Set<u32>) -> bool {
    match t {
        Some(v) => {
            &&& rest.contains(v)
            &&& forall|u: u32| #[trigger] rest.contains(u) ==> v <= u
            &&& left == rest.remove(v)
        },
        None => rest == Set::<u32>::empty() && left == Set::<u32>::empty(),
    }
}

/// The listing of token ids.
pub open spec fn ids(s: Seq<TokenId>) -> Seq<u32> {
    s.map_values(|t: TokenId| t.0)
}

impl<'a> KeyHits<'a> {
    /// All tokens of the set, whether walked over or not.
    pub closed spec fn set(&self) -> Set<u32> {
        match self.state {
            State::Empty => Set::empty(),
            State::Owned { bitmap, .. } => members(bitmap),
            State::Bounded { bitmap, lo, hi, .. } => members(*bitmap).intersect(
                closed_range(lo as int, hi as int),
            ),
        }
    }

    /// The tokens that are still to come.
    pub closed spec fn remaining(&self) -> Set<u32> {
        match self.state {
            State::Empty => Set::empty(),
            State::Owned { bitmap, cache, pos } => owned_rest(bitmap, cache, pos),
            State::Bounded { bitmap, cursor, lo, hi } => bounded_rest(*bitmap, cursor, lo, hi),
        }
    }

    /// What has been walked over agrees with the set.
    pub closed spec fn wf(&self) -> bool {
        match self.state {
            State::Empty => true,
            State::Owned { bitmap, cache, pos } => match cache {
                Some(v) => lists(v@, members(bitmap)) && pos <= v@.len(),
                None => pos == 0,
            },
            State::Bounded { bitmap, cursor, lo, hi } => match cursor {
                Some(c) => {
                    &&& lists(cursor_values(c), members(*bitmap))
                    &&& 0 <= cursor_position(c) <= cursor_values(c).len()
                    &&& lo <= hi
                },
                None => lo <= hi,
            },
        }
    }

    pub(crate) fn from_bitmap(bm: Bitmap) -> (r: Self)
        ensures
            r.wf(),
            r.set() == members(bm),
            r.remaining() == members(bm),
    {
        KeyHits { state: State::Owned { bitmap: bm, cache: None, pos: 0 } }
    }

    pub(crate) fn bounded(bitmap: &'a Bitmap, lo: u32, hi: u32) -> (r: Self)
        ensures
            r.wf(),
            r.set() == members(*bitmap).intersect(closed_range(lo as int, hi as int)),
            r.remaining() == r.set(),
    {
        if lo > hi {
            assert(members(*bitmap).intersect(closed_range(lo as int, hi as int)) =~= Set::<
                u32,
            >::empty());
            return Self::empty();
        }
        KeyHits { state: State::Bounded { bitmap, cursor: None, lo, hi } }
    }

    pub(crate) fn empty() -> (r: Self)
        ensures
            r.wf(),
            r.set() == Set::<u32>::empty(),
            r.remaining() == Set::<u32>::empty(),
    {
        KeyHits { state: State::Empty }
    }

    /// The set as a bitmap of its own, where it has one.
    fn into_owned_bitmap(self) -> (r: Option<Bitmap>)
        ensures
            match r {
                Some(b) => members(b) == self.set(),
                None => self.set() == Set::<u32>::empty(),
            },
    {
        match self.state {
            State::Empty => None,
            State::Owned { bitmap, .. } => Some(bitmap),
            State::Bounded { bitmap, lo, hi, .. } => {
                let mut range = Bitmap::new();
                add_closed_range(&mut range, lo, hi);
                let mut out = bitmap.clone();
                out.and_inplace(&range);
                assert(members(out) =~= self.set());
                Some(out)
            },
        }
    }

    /// The same hits: a depth is chosen where the hits are looked up.
    pub fn at_depth(self, _depth: u16) -> (r: Self)
        ensures
            r == self,
    {
        self
    }

    /// The tokens in both sets.
    pub fn and(self, other: KeyHits<'a>) -> (r: Self)
        ensures
            r.wf(),
            r.set() == self.set().intersect(other.set()),
            r.remaining() == r.set(),
    {
        let ghost both = self.set().intersect(other.set());
        match (self.into_owned_bitmap(), other.into_owned_bitmap()) {
            (Some(a), Some(b)) => {
                let mut a = a;
                a.and_inplace(&b);
                Self::from_bitmap(a)
            },
            _ => {
                assert(both =~= Set::<u32>::empty());
                Self::empty()
            },
        }
    }

    /// The tokens in either set.
    pub fn or(self, other: KeyHits<'a>) -> (r: Self)
        ensures
            r.wf(),
            r.set() == self.set().union(other.set()),
            r.remaining() == r.set(),
    {
        let ghost either = self.set().union(other.set());
        match (self.into_owned_bitmap(), other.into_owned_bitmap()) {
            (Some(a), Some(b)) => {
                let mut a = a;
                a.or_inplace(&b);
                Self::from_bitmap(a)
            },
            (Some(a), None) => {
                assert(either =~= members(a));
                Self::from_bitmap(a)
            },
            (None, Some(a)) => {
                assert(either =~= members(a));
                Self::from_bitmap(a)
            },
            (None, None) => {
                assert(either =~= Set::<u32>::empty());
                Self::empty()
            },
        }
    }

    /// Number of tokens in the set.
    pub fn count(self) -> (r: u64)
        requires
            self.wf(),
        ensures
            r == self.set().len(),
    {
        match self.state {
            State::Empty => 0,
            State::Owned { bitmap, .. } => bitmap.cardinality(),
            State::Bounded { bitmap, lo, hi, .. } => closed_range_cardinality(bitmap, lo, hi),
        }
    }

    /// The least token of the set.
    pub fn first(self) -> (r: Option<TokenId>)
        requires
            self.wf(),
        ensures
            match r {
                Some(t) => self.set().contains(t.0) && forall|u: u32| #[trigger]
                    self.set().contains(u) ==> t.0 <= u,
                None => self.set() == Set::<u32>::empty(),
            },
    {
        match self.state {
            State::Empty => None,
            State::Owned { bitmap, .. } => match bitmap.minimum() {
                Some(t) => Some(TokenId(t)),
                None => None,
            },
            State::Bounded { bitmap, lo, hi, .. } => {
                let mut cur = bitmap.cursor();
                cur.reset_at_or_after(lo);
                let ghost all = cursor_values(cur);
                let ghost at = cursor_position(cur);
                proof {
                    assert forall|u: u32| #[trigger] self.set().contains(u) implies at < all.len()
                        && all[at] <= u by {
                        assert(all.contains(u));
                        let k = all.index_of(u);
                        assert(all[k] == u);
                        if at < k {
                            assert(all[at] < all[k]);
                        }
                    }
                }
                match cur.current() {
                    Some(v) => {
                        if v <= hi {
                            assert(all.contains(v));
                            assert(self.set().contains(v));
                            Some(TokenId(v))
                        } else {
                            assert(self.set() =~= Set::<u32>::empty());
                            None
                        }
                    },
                    None => {
                        assert(self.set() =~= Set::<u32>::empty());
                        None
                    },
                }
            },
        }
    }

    /// The greatest token of the set.
    pub fn last(self) -> (r: Option<TokenId>)
        requires
            self.wf(),
        ensures
            match r {
                Some(t) => self.set().contains(t.0) && forall|u: u32| #[trigger]
                    self.set().contains(u) ==> u <= t.0,
                None => self.set() == Set::<u32>::empty(),
            },
    {
        match self.state {
            State::Empty => None,
            State::Owned { bitmap, .. } => match bitmap.maximum() {
                Some(t) => Some(TokenId(t)),
                None => None,
            },
            State::Bounded { bitmap, lo, hi, .. } => {
                let found = values_between(bitmap, lo, hi);
                if found.len() == 0 {
                    assert forall|u: u32| !#[trigger] self.set().contains(u) by {
                        assert(found@.contains(u) <==> self.set().contains(u));
                    }
                    assert(self.set() =~= Set::<u32>::empty());
                    None
                } else {
                    let t: u32 = found[found.len() - 1];
                    proof {
                        assert(found@.contains(t));
                        assert forall|u: u32| #[trigger] self.set().contains(u) implies u <= t by {
                            assert(found@.contains(u));
                            let k = found@.index_of(u);
                            assert(found@[k] == u);
                        }
                    }
                    Some(TokenId(t))
                }
            },
        }
    }

    /// Appends the tokens of the set in ascending order.
    pub fn collect_into(self, buf: &mut Vec<TokenId>)
        requires
            self.wf(),
        ensures
            final(buf)@.len() >= old(buf)@.len(),
            final(buf)@.take(old(buf)@.len() as int) == old(buf)@,
            lists(ids(final(buf)@.skip(old(buf)@.len() as int)), self.set()),
    {
        let found: Vec<u32> = match self.state {
            State::Empty => Vec::new(),
            State::Owned { bitmap, .. } => values(&bitmap),
            State::Bounded { bitmap, lo, hi, .. } => values_between(bitmap, lo, hi),
        };
        assert(lists(found@, self.set()));
        let ghost before = buf@;
        let mut i: usize = 0;
        assert(ids(buf@.skip(before.len() as int)) =~= found@.take(0));
        while i < found.len()
            invariant
                i <= found@.len(),
                buf@.len() == before.len() + i,
                buf@.take(before.len() as int) == before,
                ids(buf@.skip(before.len() as int)) == found@.take(i as int),
            decreases found@.len() - i,
        {
            let ghost prior = buf@;
            buf.push(TokenId(found[i]));
            i = i + 1;
            assert(buf@.take(before.len() as int) =~= before);
            assert(buf@.skip(before.len() as int) =~= prior.skip(before.len() as int).push(
                TokenId(found@[i - 1]),
            ));
            assert(ids(buf@.skip(before.len() as int)) =~= found@.take(i as int));
        }
        assert(found@.take(i as int) =~= found@);
        assert(buf@.take(before.len() as int) =~= before);
    }

    /// The next token in ascending order.
    pub fn next(&mut self) -> (r: Option<TokenId>)
        requires
            old(self).wf(),
        ensures
            final(self).wf(),
            final(self).set() == old(self).set(),
            match r {
                Some(t) => {
                    &&& old(self).remaining().contains(t.0)
                    &&& forall|u: u32| #[trigger] old(self).remaining().contains(u) ==> t.0 <= u
                    &&& final(self).remaining() == old(self).remaining().remove(t.0)
                },
                None => old(self).remaining() == Set::<u32>::empty() && final(self).remaining()
                    == Set::<u32>::empty(),
            },
    {
        let t: Option<u32> = match &mut self.state {
            State::Empty => None,
            State::Owned { bitmap, cache, pos } => next_owned(bitmap, cache, pos),
            State::Bounded { bitmap, cursor, lo, hi } => next_bounded(bitmap, cursor, *lo, *hi),
        };
        match t {
            Some(v) => Some(TokenId(v)),
            None => None,
        }
    }

    /// The tokens that are still to come, in ascending order.
    pub fn collect(self) -> (r: Vec<TokenId>)
        requires
            self.wf(),
        ensures
            lists(ids(r@), self.remaining()),
            forall|k: int| 0 <= k < r@.len() ==> self.remaining().contains((#[trigger] r@[k]).0),
    {
        let mut walk = self;
        let mut out: Vec<TokenId> = Vec::new();
        let ghost all = self.remaining();
        proof {
            lemma_finite(all);
        }
        loop
            invariant_except_break
                forall|v: u32| #[trigger]
                    all.contains(v) <==> ids(out@).contains(v) || walk.remaining().contains(v),
                forall|k: int, v: u32|
                    0 <= k < out@.len() && #[trigger] walk.remaining().contains(v) ==> (
                    #[trigger] out@[k]).0 < v,
            invariant
                walk.wf(),
                walk.remaining().finite(),
                forall|i: int, j: int| 0 <= i < j < out@.len() ==> out@[i].0 < out@[j].0,
            ensures
                forall|v: u32| #[trigger] ids(out@).contains(v) <==> all.contains(v),
            decreases walk.remaining().len(),
        {
            let ghost before = walk.remaining();
            let ghost front = out@;
            match walk.next() {
                Some(t) => {
                    out.push(t);
                    proof {
                        assert(ids(out@) =~= ids(front).push(t.0));
                        assert forall|v: u32| #[trigger] all.contains(v) <==> ids(out@).contains(v)
                            || walk.remaining().contains(v) by {
                            if ids(front).contains(v) {
                                let k = ids(front).index_of(v);
                                assert(ids(out@)[k] == v);
                            }
                            if v == t.0 {
                                assert(ids(out@)[front.len() as int] == v);
                            }
                            if ids(out@).contains(v) {
                                let k = ids(out@).index_of(v);
                                if k < front.len() {
                                    assert(ids(front)[k] == v);
                                }
                            }
                            assert(all.contains(v) <==> ids(front).contains(v) || before.contains(v));
                        }
                    }
                },
                None => {
                    assert forall|v: u32| #[trigger] ids(out@).contains(v) <==> all.contains(v) by {
                        assert(all.contains(v) <==> ids(out@).contains(v) || before.contains(v));
                    }
                    break ;
                },
            }
        }
        assert forall|k: int| 0 <= k < out@.len() implies all.contains((#[trigger] out@[k]).0) by {
            assert(ids(out@)[k] == out@[k].0);
            assert(ids(out@).contains(out@[k].0));
        }
        out
    }
}

/// One step of a walk over a listing.
fn next_owned(bitmap: &Bitmap, cache: &mut Option<Vec<u32>>, pos: &mut usize) -> (r: Option<u32>)
    requires
        match *old(cache) {
            Some(v) => lists(v@, members(*bitmap)) && *old(pos) <= v@.len(),
            None => *old(pos) == 0,
        },
    ensures
        match *final(cache) {
            Some(v) => lists(v@, members(*bitmap)) && *final(pos) <= v@.len(),
            None => false,
        },
        took_least(
            owned_rest(*bitmap, *old(cache), *old(pos)),
            r,
            owned_rest(*bitmap, *final(cache), *final(pos)),
        ),
{
    let ghost rest = owned_rest(*bitmap, *cache, *pos);
    if cache.is_none() {
        *cache = Some(values(bitmap));
        proof {
            let v = cache->0@;
            assert forall|t: u32| rest.contains(t) == #[trigger] tail_set(v, 0, u32::MAX as int).contains(
                t,
            ) by {
                if v.contains(t) {
                    let k = v.index_of(t);
                    assert(v[k] == t);
                }
                if tail_set(v, 0, u32::MAX as int).contains(t) {
                    let k = choose|k: int| 0 <= k < v.len() && #[trigger] v[k] == t;
                    assert(v.contains(t));
                }
            }
            assert(rest =~= tail_set(v, 0, u32::MAX as int));
        }
    }
    match cache {
        Some(v) => {
            let at: usize = *pos;
            if at < v.len() {
                let t: u32 = v[at];
                *pos = at + 1;
                proof {
                    lemma_tail(v@, at as int, u32::MAX as int);
                }
                Some(t)
            } else {
                assert(rest =~= Set::<u32>::empty());
                None
            }
        },
        None => None,
    }
}

/// One step of a walk with a cursor.
fn next_bounded<'a>(
    bitmap: &'a Bitmap,
    cursor: &mut Option<BitmapCursor<'a>>,
    lo: u32,
    hi: u32,
) -> (r: Option<u32>)
    requires
        lo <= hi,
        match *old(cursor) {
            Some(c) => {
                &&& lists(cursor_values(c), members(*bitmap))
                &&& 0 <= cursor_position(c) <= cursor_values(c).len()
            },
            None => true,
        },
    ensures
        match *final(cursor) {
            Some(c) => {
                &&& lists(cursor_values(c), members(*bitmap))
                &&& 0 <= cursor_position(c) <= cursor_values(c).len()
            },
            None => false,
        },
        took_least(
            bounded_rest(*bitmap, *old(cursor), lo, hi),
            r,
            bounded_rest(*bitmap, *final(cursor), lo, hi),
        ),
{
    let ghost rest = bounded_rest(*bitmap, *cursor, lo, hi);
    match cursor {
        Some(c) => {
            let ghost all = cursor_values(*c);
            let ghost was = cursor_position(*c);
            c.move_next();
            proof {
                assert(rest =~= tail_set(all, cursor_position(*c), hi as int));
            }
        },
        None => {
            let mut c = bitmap.cursor();
            c.reset_at_or_after(lo);
            proof {
                let all = cursor_values(c);
                let at = cursor_position(c);
                assert forall|t: u32| rest.contains(t) == #[trigger] tail_set(all, at, hi as int).contains(t) by {
                    if rest.contains(t) {
                        assert(all.contains(t));
                        let k = all.index_of(t);
                        assert(all[k] == t);
                    }
                    if tail_set(all, at, hi as int).contains(t) {
                        let k = choose|k: int| at <= k < all.len() && 0 <= k && #[trigger] all[k] == t;
                        assert(all.contains(t));
                        assert(!(all[k] < lo));
                    }
                }
                assert(rest =~= tail_set(all, at, hi as int));
            }
            *cursor = Some(c);
        },
    }
    match cursor {
        Some(c) => {
            let ghost all = cursor_values(*c);
            let ghost at = cursor_position(*c);
            match c.current() {
                Some(v) => {
                    proof {
                        lemma_tail(all, at, hi as int);
                    }
                    if v > hi {
                        None
                    } else {
                        Some(v)
                    }
                },
                None => {
                    assert(rest =~= Set::<u32>::empty());
                    assert(tail_set(all, at + 1, hi as int) =~= Set::<u32>::empty());
                    None
                },
            }
        },
        None => None,
    }
}

/// The head of an ascending tail is its least element, or the bound cuts all of it off.
proof fn lemma_tail(s: Seq<u32>, at: int, hi: int)
    requires
        forall|i: int, j: int| 0 <= i < j < s.len() ==> s[i] < s[j],
        0 <= at < s.len(),
    ensures
        s[at] <= hi ==> took_least(tail_set(s, at, hi), Some(s[at]), tail_set(s, at + 1, hi)),
        s[at] > hi ==> tail_set(s, at, hi) == Set::<u32>::empty() && tail_set(s, at + 1, hi)
            == Set::<u32>::empty(),
{
    let rest = tail_set(s, at, hi);
    let left = tail_set(s, at + 1, hi);
    assert forall|u: u32| #[trigger] rest.contains(u) implies s[at] <= u by {
        let k = choose|k: int| at <= k < s.len() && 0 <= k && #[trigger] s[k] == u;
        if at < k {
            assert(s[at] < s[k]);
        }
    }
    if s[at] <= hi {
        assert(rest.contains(s[at]));
        assert forall|u: u32| #[trigger] left.contains(u) == rest.remove(s[at]).contains(u) by {
            if left.contains(u) {
                let k = choose|k: int| at + 1 <= k < s.len() && 0 <= k && #[trigger] s[k] == u;
                assert(s[at] < s[k]);
                assert(rest.contains(u));
            }
            if rest.remove(s[at]).contains(u) {
                let k = choose|k: int| at <= k < s.len() && 0 <= k && #[trigger] s[k] == u;
                assert(k != at);
            }
        }
        assert(left =~= rest.remove(s[at]));
    } else {
        assert(rest =~= Set::<u32>::empty());
        assert forall|u: u32| !#[trigger] left.contains(u) by {
            if left.contains(u) {
                let k = choose|k: int| at + 1 <= k < s.len() && 0 <= k && #[trigger] s[k] == u;
                assert(rest.contains(u));
            }
        }
        assert(left =~= Set::<u32>::empty());
    }
}

/// The values of a bitmap from `lo` to `hi` in ascending order.
fn values_between(bitmap: &Bitmap, lo: u32, hi: u32) -> (r: Vec<u32>)
    ensures
        lists(r@, members(*bitmap).intersect(closed_range(lo as int, hi as int))),
{
    let mut cur = bitmap.cursor();
    cur.reset_at_or_after(lo);
    let ghost all = cursor_values(cur);
    let ghost from = cursor_position(cur);
    let mut out: Vec<u32> = Vec::new();
    assert(out@ =~= all.subrange(from, from));
    loop
        invariant_except_break
            out@ == all.subrange(from, cursor_position(cur)),
        invariant
            cursor_values(cur) == all,
            lists(all, members(*bitmap)),
            0 <= from <= cursor_position(cur) <= all.len(),
            forall|k: int| 0 <= k < all.len() ==> (k < from <==> #[trigger] all[k] < lo),
            forall|k: int| from <= k < cursor_position(cur) ==> #[trigger] all[k] <= hi,
        ensures
            out@ == all.subrange(from, cursor_position(cur)),
            cursor_position(cur) < all.len() ==> all[cursor_position(cur)] > hi,
        decreases all.len() - cursor_position(cur),
    {
        match cur.current() {
            Some(v) => {
                if v > hi {
                    break ;
                }
                out.push(v);
                assert(out@ =~= all.subrange(from, cursor_position(cur) + 1));
                cur.move_next();
            },
            None => {
                break ;
            },
        }
    }
    proof {
        let set = members(*bitmap).intersect(closed_range(lo as int, hi as int));
        let to = cursor_position(cur);
        assert forall|v: u32| #[trigger] out@.contains(v) <==> set.contains(v) by {
            if out@.contains(v) {
                let k = out@.index_of(v);
                assert(all[from + k] == v);
                assert(all.contains(v));
            }
            if set.contains(v) {
                assert(all.contains(v));
                let k = all.index_of(v);
                assert(all[k] == v);
                if k >= to && to < all.len() {
                    if to < k {
                        assert(all[to] < all[k]);
                    }
                }
                assert(out@[k - from] == v);
            }
        }
    }
    out
}

} // verus!
