//! Numbers: reading back what was written, and equality by value.

use vstd::prelude::*;

use crate::numbers::{decimal, integer, is_nan, json_number_eq, parse_i64, unsigned_bits};

verus! {

/// The decimal digits of a number, without leading zeros.
pub open spec fn digits(n: nat) -> Seq<u8>
    decreases n,
{
    if n < 10 {
        seq![(0x30 + n) as u8]
    } else {
        digits(n / 10).push((0x30 + n % 10) as u8)
    }
}

/// Reading the digits of a number gives the number, and each of them is a digit.
proof fn lemma_digits(n: nat)
    ensures
        decimal(digits(n)) == Some(n as int),
        digits(n).len() > 0,
        forall|k: int| 0 <= k < digits(n).len() ==> 0x30 <= #[trigger] digits(n)[k] <= 0x39,
    decreases n,
{
    if n >= 10 {
        lemma_digits(n / 10);
        let s = digits(n);
        assert(s.drop_last() =~= digits(n / 10));
        assert(s.last() == (0x30 + n % 10) as u8);
        assert forall|k: int| 0 <= k < s.len() implies 0x30 <= #[trigger] s[k] <= 0x39 by {
            if k < s.len() - 1 {
                assert(s[k] == digits(n / 10)[k]);
            }
        }
    } else {
        assert(digits(n).last() == (0x30 + n) as u8);
    }
}

/// Leading zeros change nothing.
pub proof fn law_leading_zeros_change_nothing(s: Seq<u8>)
    requires
        s.len() > 0,
    ensures
        decimal(seq![0x30u8] + s) == decimal(s),
    decreases s.len(),
{
    let more = seq![0x30u8] + s;
    assert(more.last() == s.last());
    if s.len() > 1 {
        law_leading_zeros_change_nothing(s.drop_last());
        assert(more.drop_last() =~= seq![0x30u8] + s.drop_last());
    } else {
        assert(more.drop_last() =~= seq![0x30u8]);
        assert(decimal(seq![0x30u8]) == Some(0int));
    }
}

/// Bytes that are not all digits, or none at all, write no number.
pub proof fn law_only_digits_write_numbers(s: Seq<u8>)
    ensures
        decimal(s) is Some <==> s.len() > 0 && forall|k: int|
            0 <= k < s.len() ==> 0x30 <= #[trigger] s[k] <= 0x39,
    decreases s.len(),
{
    if s.len() > 0 {
        let front = s.drop_last();
        law_only_digits_write_numbers(front);
        if forall|k: int| 0 <= k < s.len() ==> 0x30 <= #[trigger] s[k] <= 0x39 {
            assert(0x30 <= s[s.len() - 1] <= 0x39);
            assert forall|k: int| 0 <= k < front.len() implies 0x30 <= #[trigger] front[k] <= 0x39 by {
                assert(front[k] == s[k]);
            }
        }
        if decimal(s) is Some {
            assert forall|k: int| 0 <= k < s.len() implies 0x30 <= #[trigger] s[k] <= 0x39 by {
                if k < front.len() {
                    assert(front[k] == s[k]);
                }
            }
        }
    }
}

/// A number that was written, with a minus sign, a plus sign or none, is read back; one that
/// `i64` cannot hold is left to the floating-point reading.
pub proof fn law_integers_are_read_back(
    n: nat,
    minus: bool,
    plus: bool,
    bytes: &[u8],
    truncated: Option<i64>,
    r: Option<i64>,
)
    requires
        bytes@ == (if minus {
            seq![0x2du8] + digits(n)
        } else if plus {
            seq![0x2bu8] + digits(n)
        } else {
            digits(n)
        }),
        call_ensures(parse_i64, (bytes, truncated), r),
    ensures
        ({
            let v = if minus {
                -(n as int)
            } else {
                n as int
            };
            r == (if -0x8000_0000_0000_0000 <= v <= 0x7fff_ffff_ffff_ffff {
                Some(v as i64)
            } else {
                truncated
            })
        }),
{
    lemma_digits(n);
    let d = digits(n);
    assert(0x30 <= d[0] <= 0x39);
    assert((seq![0x2du8] + d).skip(1) =~= d);
    assert((seq![0x2bu8] + d).skip(1) =~= d);
}

/// What is no integer is left to the floating-point reading: nothing but digits may stand
/// behind an optional sign, and one of them has to.
pub proof fn law_other_numbers_are_truncated(
    bytes: &[u8],
    truncated: Option<i64>,
    r: Option<i64>,
    k: int,
)
    requires
        call_ensures(parse_i64, (bytes, truncated), r),
        ({
            let signed = bytes@.len() > 0 && (bytes@[0] == 0x2d || bytes@[0] == 0x2b);
            let from: int = if signed {
                1
            } else {
                0
            };
            bytes@.len() == from || (from <= k < bytes@.len() && !(0x30 <= bytes@[k] <= 0x39))
        }),
    ensures
        r == truncated,
{
    law_only_digits_write_numbers(bytes@);
    law_only_digits_write_numbers(bytes@.skip(1));
    if 0 < k < bytes@.len() {
        assert(bytes@.skip(1)[k - 1] == bytes@[k]);
    }
}

/// The bits of a floating-point value that is no number: all exponent bits set, and some bit
/// of the fraction.
pub open spec fn no_number(b: u64) -> bool {
    (b >> 52u64) & 0x7ff == 0x7ff && b & 0xf_ffff_ffff_ffff != 0
}

/// The bits of one of the two zeros.
pub open spec fn zero(b: u64) -> bool {
    b == 0 || b == 0x8000_0000_0000_0000
}

/// Two numbers are equal where their bits are, or where both are zero; what is no number
/// equals nothing, not even itself.
pub proof fn law_numbers_are_equal_by_value(a: Option<u64>, b: Option<u64>, r: bool)
    requires
        call_ensures(json_number_eq, (a, b), r),
    ensures
        r <==> match (a, b) {
            (Some(x), Some(y)) => !no_number(x) && !no_number(y) && (x == y || (zero(x) && zero(
                y,
            ))),
            _ => false,
        },
{
    if let (Some(x), Some(y)) = (a, b) {
        lemma_bits(x);
        lemma_bits(y);
    }
}

proof fn lemma_bits(b: u64)
    ensures
        is_nan(b) == no_number(b),
        (unsigned_bits(b) == 0) == zero(b),
{
    assert((b & 0x7fff_ffff_ffff_ffff > 0x7ff0_0000_0000_0000) == ((b >> 52u64) & 0x7ff == 0x7ff && b
        & 0xf_ffff_ffff_ffff != 0)) by (bit_vector);
    assert((b & 0x7fff_ffff_ffff_ffff == 0) == (b == 0 || b == 0x8000_0000_0000_0000)) by (bit_vector);
}

} // verus!
