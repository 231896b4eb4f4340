//! Numbers: integers read from bytes, and numeric equality.
//!
//! Floating-point text is read by the caller, who hands in what came out: a truncated integer,
//! or the bits of the value.

use vstd::prelude::*;

use crate::ascii::{DIGIT_0, DIGIT_9, MINUS, PLUS};

verus! {

/// The number that decimal digits write, from the first to the last. `None` without digits or
/// with any other byte.
pub open spec fn decimal(s: Seq<u8>) -> Option<int>
    decreases s.len(),
{
    if s.len() == 0 || !(DIGIT_0 <= s.last() <= DIGIT_9) {
        None
    } else if s.len() == 1 {
        Some(s.last() - DIGIT_0)
    } else {
        match decimal(s.drop_last()) {
            Some(n) => Some(10 * n + (s.last() - DIGIT_0)),
            None => None,
        }
    }
}

/// The integer that digits with an optional sign write.
pub open spec fn integer(s: Seq<u8>) -> Option<int> {
    if s.len() > 0 && s[0] == MINUS {
        match decimal(s.skip(1)) {
            Some(n) => Some(-n),
            None => None,
        }
    } else if s.len() > 0 && s[0] == PLUS {
        decimal(s.skip(1))
    } else {
        decimal(s)
    }
}

/// One past the greatest `i64`, as a number without sign.
pub const MAGNITUDE: u64 = 0x8000_0000_0000_0000;

/// Digits that do not begin a number do not begin a longer one.
proof fn lemma_decimal_prefix(s: Seq<u8>, k: int)
    requires
        0 < k <= s.len(),
        decimal(s.take(k)) is None,
    ensures
        decimal(s) is None,
    decreases s.len() - k,
{
    if k < s.len() {
        assert(s.take(k + 1).drop_last() =~= s.take(k));
        lemma_decimal_prefix(s, k + 1);
    } else {
        assert(s.take(k) =~= s);
    }
}

/// The number that the digits from `from` on write, as far as it is at most the magnitude
/// bound. The flag says that it is greater.
fn parse_digits(s: &[u8], from: usize) -> (r: Option<(u64, bool)>)
    requires
        from <= s@.len(),
    ensures
        match r {
            Some((n, over)) => decimal(s@.skip(from as int)) matches Some(v) && (over <==> v
                > MAGNITUDE) && (!over ==> v == n),
            None => decimal(s@.skip(from as int)) is None,
        },
{
    let len: usize = s.len();
    let ghost digits = s@.skip(from as int);
    if from == len {
        return None;
    }
    let mut n: u64 = 0;
    let mut over: bool = false;
    let mut i: usize = from;
    while i < len
        invariant
            from <= i <= len == s@.len(),
            digits == s@.skip(from as int),
            i > from ==> (decimal(digits.take(i - from)) matches Some(v) && (over <==> v
                > MAGNITUDE) && (!over ==> v == n)),
            i == from ==> n == 0 && !over,
            n <= MAGNITUDE,
        decreases len - i,
    {
        let b = s[i];
        let ghost more = digits.take(i - from + 1);
        proof {
            assert(more.last() == b);
            assert(more.drop_last() =~= digits.take(i - from));
        }
        if b < DIGIT_0 || b > DIGIT_9 {
            proof {
                lemma_decimal_prefix(digits, i - from + 1);
            }
            return None;
        }
        let d: u64 = (b - DIGIT_0) as u64;
        if !over {
            if n > (MAGNITUDE - d) / 10 {
                over = true;
            } else {
                n = 10 * n + d;
            }
        }
        i = i + 1;
    }
    assert(digits.take(i - from) =~= digits);
    Some((n, over))
}

/// Reads a number as `i64`: digits with an optional sign where they fit, and otherwise what
/// reading the same bytes as floating point and truncating gives, which `truncated` holds.
pub fn parse_i64(bytes: &[u8], truncated: Option<i64>) -> (r: Option<i64>)
    ensures
        r == (match integer(bytes@) {
            Some(n) if i64::MIN <= n <= i64::MAX => Some(n as i64),
            _ => truncated,
        }),
{
    let negative: bool = bytes.len() > 0 && bytes[0] == MINUS;
    let signed: bool = bytes.len() > 0 && (bytes[0] == MINUS || bytes[0] == PLUS);
    let from: usize = if signed {
        1
    } else {
        0
    };
    assert(bytes@.skip(0) =~= bytes@);
    match parse_digits(bytes, from) {
        Some((n, over)) => {
            if over || (n == MAGNITUDE && !negative) {
                truncated
            } else if negative {
                if n == MAGNITUDE {
                    Some(i64::MIN)
                } else {
                    Some(-(n as i64))
                }
            } else {
                Some(n as i64)
            }
        },
        None => truncated,
    }
}

/// The bits of a floating-point value without its sign.
pub open spec fn unsigned_bits(b: u64) -> u64 {
    b & 0x7fff_ffff_ffff_ffff
}

/// The bits belong to a value that is not a number.
pub open spec fn is_nan(b: u64) -> bool {
    unsigned_bits(b) > 0x7ff0_0000_0000_0000
}

/// Whether two numbers are equal, given the bits of their floating-point values. What is no
/// number equals nothing; both zeros are equal.
pub fn json_number_eq(value: Option<u64>, literal: Option<u64>) -> (r: bool)
    ensures
        r == (match (value, literal) {
            (Some(a), Some(b)) => !is_nan(a) && !is_nan(b) && (a == b || (unsigned_bits(a) == 0
                && unsigned_bits(b) == 0)),
            _ => false,
        }),
{
    match (value, literal) {
        (Some(a), Some(b)) => {
            let ua: u64 = a & 0x7fff_ffff_ffff_ffff;
            let ub: u64 = b & 0x7fff_ffff_ffff_ffff;
            let nan: u64 = 0x7ff0_0000_0000_0000;
            ua <= nan && ub <= nan && (a == b || (ua == 0 && ub == 0))
        },
        _ => false,
    }
}

} // verus!
