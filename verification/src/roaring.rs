//! What the crate relies on of `croaring`, and loops over its bitmaps.
//!
//! A `Bitmap` is a set of `u32` values. A `BitmapCursor` walks the ascending listing of a
//! bitmap's values; it stands at one of them, in front of the first or behind the last.

use croaring::bitmap::BitmapCursor;
use croaring::Bitmap;
use vstd::prelude::*;

verus! {

/// `croaring::Bitmap`, a compressed set of `u32` values.
#[verifier::external_type_specification]
#[verifier::external_body]
pub struct ExBitmap(croaring::Bitmap);

/// `croaring::bitmap::BitmapCursor`, a position in the values of a bitmap.
#[verifier::external_type_specification]
#[verifier::external_body]
pub struct ExBitmapCursor<'a>(croaring::bitmap::BitmapCursor<'a>);

/// The values that a bitmap holds.
pub uninterp spec fn members(b: Bitmap) -> Set<u32>;

/// The values that a cursor walks, in ascending order.
pub uninterp spec fn cursor_values(c: BitmapCursor<'_>) -> Seq<u32>;

/// The index of the value that a cursor stands at: `-1` in front of the first value, the
/// number of values behind the last.
pub uninterp spec fn cursor_position(c: BitmapCursor<'_>) -> int;

/// `s` lists the elements of `set`, each once, in ascending order.
pub open spec fn lists(s: Seq<u32>, set: Set<u32>) -> bool {
    &&& forall|i: int, j: int| 0 <= i < j < s.len() ==> s[i] < s[j]
    &&& forall|v: u32| #[trigger] s.contains(v) <==> set.contains(v)
}

/// The values from `lo` to `hi`, both included.
pub open spec fn closed_range(lo: int, hi: int) -> Set<u32> {
    Set::new(|v: u32| lo <= v <= hi)
}

/// `Bitmap::new` makes an empty bitmap.
pub assume_specification[ croaring::Bitmap::new ]() -> (r: Bitmap)
    ensures
        members(r) == Set::<u32>::empty(),
;

/// `Bitmap::add` adds one value.
pub assume_specification[ croaring::Bitmap::add ](b: &mut Bitmap, element: u32)
    ensures
        members(*final(b)) == members(*old(b)).insert(element),
;

/// `Bitmap::and` makes the intersection.
pub assume_specification[ croaring::Bitmap::and ](b: &Bitmap, other: &Bitmap) -> (r: Bitmap)
    ensures
        members(r) == members(*b).intersect(members(*other)),
;

/// `Bitmap::and_inplace` keeps what the other bitmap holds too.
pub assume_specification[ croaring::Bitmap::and_inplace ](b: &mut Bitmap, other: &Bitmap)
    ensures
        members(*final(b)) == members(*old(b)).intersect(members(*other)),
;

/// `Bitmap::or_inplace` adds what the other bitmap holds.
pub assume_specification[ croaring::Bitmap::or_inplace ](b: &mut Bitmap, other: &Bitmap)
    ensures
        members(*final(b)) == members(*old(b)).union(members(*other)),
;

/// `Bitmap::andnot_inplace` removes what the other bitmap holds.
pub assume_specification[ croaring::Bitmap::andnot_inplace ](b: &mut Bitmap, other: &Bitmap)
    ensures
        members(*final(b)) == members(*old(b)).difference(members(*other)),
;

/// `Bitmap::cardinality` counts the values.
pub assume_specification[ croaring::Bitmap::cardinality ](b: &Bitmap) -> (r: u64)
    ensures
        r == members(*b).len(),
;

/// `Bitmap::minimum` is the least value, `None` of an empty bitmap.
pub assume_specification[ croaring::Bitmap::minimum ](b: &Bitmap) -> (r: Option<u32>)
    ensures
        match r {
            Some(m) => members(*b).contains(m) && forall|v: u32| #[trigger]
                members(*b).contains(v) ==> m <= v,
            None => members(*b) == Set::<u32>::empty(),
        },
;

/// `Bitmap::maximum` is the greatest value, `None` of an empty bitmap.
pub assume_specification[ croaring::Bitmap::maximum ](b: &Bitmap) -> (r: Option<u32>)
    ensures
        match r {
            Some(m) => members(*b).contains(m) && forall|v: u32| #[trigger]
                members(*b).contains(v) ==> v <= m,
            None => members(*b) == Set::<u32>::empty(),
        },
;

/// `Bitmap::run_optimize` changes how the values are stored, not which they are. What it
/// returns tells of the storage and is left open.
pub assume_specification[ croaring::Bitmap::run_optimize ](b: &mut Bitmap) -> (r: bool)
    ensures
        members(*final(b)) == members(*old(b)),
;

/// The clone of a bitmap holds the same values.
pub assume_specification[ <croaring::Bitmap as Clone>::clone ](b: &Bitmap) -> (r: Bitmap)
    ensures
        members(r) == members(*b),
;

/// `Bitmap::cursor` stands at the first value, or behind the last of no values.
pub assume_specification<'a>[ croaring::Bitmap::cursor ](b: &'a Bitmap) -> (r: BitmapCursor<'a>)
    ensures
        lists(cursor_values(r), members(*b)),
        cursor_position(r) == 0,
;

/// `BitmapCursor::current` is the value that the cursor stands at, if it stands at one.
pub assume_specification<'a>[ croaring::bitmap::BitmapCursor::<'a>::current ](
    c: &BitmapCursor<'a>,
) -> (r: Option<u32>)
    ensures
        r == (if 0 <= cursor_position(*c) < cursor_values(*c).len() {
            Some(cursor_values(*c)[cursor_position(*c)])
        } else {
            None
        }),
;

/// `BitmapCursor::move_next` moves on by one value; behind the last it stays.
pub assume_specification<'a>[ croaring::bitmap::BitmapCursor::<'a>::move_next ](
    c: &mut BitmapCursor<'a>,
)
    ensures
        cursor_values(*final(c)) == cursor_values(*old(c)),
        cursor_position(*final(c)) == (if cursor_position(*old(c)) < cursor_values(*old(c)).len() {
            cursor_position(*old(c)) + 1
        } else {
            cursor_position(*old(c))
        }),
;

/// `BitmapCursor::reset_at_or_after` moves to the first value that is at least `val`, behind
/// the last if there is none.
pub assume_specification<'a>[ croaring::bitmap::BitmapCursor::<'a>::reset_at_or_after ](
    c: &mut BitmapCursor<'a>,
    val: u32,
)
    ensures
        cursor_values(*final(c)) == cursor_values(*old(c)),
        0 <= cursor_position(*final(c)) <= cursor_values(*final(c)).len(),
        forall|k: int|
            0 <= k < cursor_values(*final(c)).len() ==> (k < cursor_position(*final(c))
                <==> #[trigger] cursor_values(*final(c))[k] < val),
;

/// `Bitmap::add_range` of a range that includes both ends adds every value from `lo` to
/// `hi`; none where `lo` is greater.
#[verifier::external_body]
pub(crate) fn add_closed_range(b: &mut Bitmap, lo: u32, hi: u32)
    ensures
        members(*final(b)) == members(*old(b)).union(closed_range(lo as int, hi as int)),
{
    b.add_range(lo..=hi)
}

/// `Bitmap::range_cardinality` of a range that includes both ends counts the values from
/// `lo` to `hi`.
#[verifier::external_body]
pub(crate) fn closed_range_cardinality(b: &Bitmap, lo: u32, hi: u32) -> (r: u64)
    requires
        lo <= hi,
    ensures
        r == members(*b).intersect(closed_range(lo as int, hi as int)).len(),
{
    b.range_cardinality(lo..=hi)
}

/// A set of `u32` values is finite.
pub proof fn lemma_finite(s: Set<u32>)
    ensures
        s.finite(),
{
    broadcast use vstd::set_lib::full_set_properties;

    let full = Set::<u32>::full();
    assert(s.subset_of(full));
    vstd::set_lib::lemma_len_subset(s, full);
}

/// A set has one ascending listing, as long as the set is large.
pub proof fn lemma_lists(s: Seq<u32>, set: Set<u32>)
    requires
        lists(s, set),
    ensures
        s.len() == set.len(),
        s.no_duplicates(),
        s.to_set() == set,
{
    assert(s.to_set() =~= set);
    s.unique_seq_to_set();
}

/// The elements of a set in ascending order.
pub open spec fn listing(set: Set<u32>) -> Seq<u32> {
    choose|s: Seq<u32>| lists(s, set)
}

/// Two ascending listings of one set are the same.
proof fn lemma_one_listing(a: Seq<u32>, b: Seq<u32>, set: Set<u32>)
    requires
        lists(a, set),
        lists(b, set),
    ensures
        a == b,
    decreases a.len(),
{
    lemma_lists(a, set);
    lemma_lists(b, set);
    if a.len() > 0 {
        let (x, y) = (a.last(), b.last());
        assert(a.contains(x) && b.contains(y));
        assert(b.contains(x) && a.contains(y));
        let i = b.index_of(x);
        let j = a.index_of(y);
        assert(b[i] == x && a[j] == y);
        assert(x == y);
        assert forall|v: u32| #[trigger] a.drop_last().contains(v) <==> set.remove(x).contains(v) by {
            lemma_drop_last(a, v);
        }
        assert forall|v: u32| #[trigger] b.drop_last().contains(v) <==> set.remove(x).contains(v) by {
            lemma_drop_last(b, v);
        }
        lemma_one_listing(a.drop_last(), b.drop_last(), set.remove(x));
        assert(a =~= a.drop_last().push(x));
        assert(b =~= b.drop_last().push(y));
    } else {
        assert(a =~= b);
    }
}

proof fn lemma_drop_last(s: Seq<u32>, v: u32)
    requires
        s.len() > 0,
        forall|i: int, j: int| 0 <= i < j < s.len() ==> s[i] < s[j],
    ensures
        s.drop_last().contains(v) <==> s.contains(v) && v != s.last(),
{
    if s.drop_last().contains(v) {
        let k = s.drop_last().index_of(v);
        assert(s[k] == v);
    }
    if s.contains(v) && v != s.last() {
        let k = s.index_of(v);
        assert(s.drop_last()[k] == v);
    }
}

/// An ascending listing of a set is its listing.
pub proof fn lemma_listing(s: Seq<u32>, set: Set<u32>)
    requires
        lists(s, set),
    ensures
        listing(set) == s,
{
    lemma_one_listing(s, listing(set), set);
}

/// Every set of `u32` values has a listing.
pub proof fn lemma_finite_listing(set: Set<u32>)
    ensures
        lists(listing(set), set),
    decreases set.len(),
{
    lemma_finite(set);
    if set.len() == 0 {
        let s = Seq::<u32>::empty();
        assert(set =~= Set::<u32>::empty());
        assert(lists(s, set));
    } else {
        let le = |a: u32, b: u32| a <= b;
        let m = set.find_unique_maximal(le);
        set.find_unique_maximal_ensures(le);
        let rest = set.remove(m);
        lemma_finite_listing(rest);
        let s = listing(rest).push(m);
        let front = listing(rest);
        assert forall|v: u32| #[trigger] s.contains(v) <==> set.contains(v) by {
            if s.contains(v) {
                let k = s.index_of(v);
                if k < front.len() {
                    assert(front[k] == v);
                    assert(front.contains(v));
                }
            }
            if set.contains(v) {
                if v == m {
                    assert(s[front.len() as int] == v);
                } else {
                    assert(front.contains(v));
                    let k = front.index_of(v);
                    assert(s[k] == v);
                }
            }
        }
        assert forall|i: int, j: int| 0 <= i < j < s.len() implies s[i] < s[j] by {
            assert(s[i] == front[i]);
            assert(front.contains(front[i]));
            if j < front.len() {
                assert(s[j] == front[j]);
            } else {
                assert(le(m, s[i]) ==> le(s[i], m));
            }
        }
        assert(lists(s, set));
    }
}

/// The values of a bitmap in ascending order.
pub(crate) fn values(b: &Bitmap) -> (r: Vec<u32>)
    ensures
        lists(r@, members(*b)),
{
    let mut out: Vec<u32> = Vec::new();
    let mut cur = b.cursor();
    let ghost all = cursor_values(cur);
    assert(out@ =~= all.take(0));
    loop
        invariant_except_break
            0 <= cursor_position(cur) <= all.len(),
            out@ == all.take(cursor_position(cur)),
        invariant
            cursor_values(cur) == all,
            lists(all, members(*b)),
        ensures
            out@ == all,
        decreases all.len() - cursor_position(cur),
    {
        match cur.current() {
            Some(v) => {
                out.push(v);
                assert(out@ =~= all.take(cursor_position(cur) + 1));
                cur.move_next();
            },
            None => {
                assert(out@ =~= all);
                break ;
            },
        }
    }
    out
}

} // verus!
