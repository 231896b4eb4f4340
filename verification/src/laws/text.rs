//! Values as bytes: what a string stands for, where values end, what names escapes spell.

use vstd::prelude::*;
use vstd::utf8::{decode_utf8, is_scalar, valid_utf8};

use crate::lex::Kind;
use crate::text::{
    body_bytes, decoded, escape_code, hex_digit, hex_number, is_delimiter, json_string_eq,
    lemma_string_end, plain_end, scalar_end, simple_escape, string_end, value_byte_slice,
    value_eq,
};

verus! {

// ---------------------------------------------------------------------------
// Comparing
// ---------------------------------------------------------------------------

/// A body between quotes.
pub open spec fn quoted(body: Seq<u8>) -> Seq<u8> {
    seq![0x22u8] + body + seq![0x22u8]
}

/// A backslash and the byte `e` stand for the byte `c`: `\"`, `\\` and `\/` for the byte behind
/// the backslash, `\b`, `\f`, `\n`, `\r` and `\t` for backspace, form feed, line feed, carriage
/// return and tab.
pub open spec fn spells(e: u8, c: u8) -> bool {
    ||| e == 0x22 && c == 0x22
    ||| e == 0x5c && c == 0x5c
    ||| e == 0x2f && c == 0x2f
    ||| e == 0x62 && c == 0x08
    ||| e == 0x66 && c == 0x0c
    ||| e == 0x6e && c == 0x0a
    ||| e == 0x72 && c == 0x0d
    ||| e == 0x74 && c == 0x09
}

proof fn lemma_quoted(body: Seq<u8>, literal: Seq<u8>)
    ensures
        value_eq(quoted(body), literal) == (body_bytes(body, 0) == Some(literal)),
{
    let v = quoted(body);
    assert(v.subrange(1, v.len() - 1) =~= body);
    assert(v.last() == 0x22);
}

proof fn lemma_body_shift(a: Seq<u8>, b: Seq<u8>, i: int)
    requires
        0 <= i <= b.len(),
    ensures
        body_bytes(a + b, a.len() + i) == body_bytes(b, i),
    decreases b.len() - i,
{
    if i < b.len() {
        assert((a + b)[a.len() + i] == b[i]);
        lemma_body_shift(a, b, i + 1);
        if i + 1 < b.len() {
            assert((a + b)[a.len() + i + 1] == b[i + 1]);
            lemma_body_shift(a, b, i + 2);
        }
    }
}

/// A quoted string without backslash equals a literal where the two are the same bytes, from
/// the first to the last.
pub proof fn law_plain_strings_compare_whole(body: Seq<u8>, literal: Seq<u8>)
    requires
        forall|k: int| 0 <= k < body.len() ==> #[trigger] body[k] != 0x5c,
    ensures
        value_eq(quoted(body), literal) <==> body == literal,
    decreases body.len(),
{
    lemma_quoted(body, literal);
    if body.len() == 0 {
        assert(body =~= Seq::<u8>::empty());
    } else {
        let b = body[0];
        let rest = body.skip(1);
        assert(body =~= seq![b] + rest);
        if literal.len() > 0 {
            law_plain_strings_compare_whole(rest, literal.skip(1));
            assert(literal =~= seq![literal[0]] + literal.skip(1));
            assert(literal.skip(1) == rest && literal[0] == b ==> literal == body);
        }
        law_strings_compare_byte_by_byte(b, rest, literal);
        if body == literal {
            assert(literal.skip(1) =~= rest);
        }
    }
}

/// Every value equals at most one literal.
pub proof fn law_one_literal_per_value(value: Seq<u8>, a: Seq<u8>, b: Seq<u8>)
    requires
        value_eq(value, a),
        value_eq(value, b),
    ensures
        a == b,
{
}

/// A value that is no quoted string equals its own bytes and nothing else.
pub proof fn law_other_values_compare_raw(value: Seq<u8>, literal: Seq<u8>)
    requires
        value.len() < 2 || value[0] != 0x22 || value[value.len() - 1] != 0x22,
    ensures
        value_eq(value, literal) <==> value == literal,
{
}

/// The empty string equals the empty literal alone.
pub proof fn law_empty_string(literal: Seq<u8>)
    ensures
        value_eq(quoted(Seq::<u8>::empty()), literal) <==> literal.len() == 0,
{
    lemma_quoted(Seq::<u8>::empty(), literal);
    if literal.len() == 0 {
        assert(literal =~= Seq::<u8>::empty());
    }
}

/// A byte that is no backslash stands for itself, and the rest of the string for the rest of
/// the literal.
pub proof fn law_strings_compare_byte_by_byte(b: u8, rest: Seq<u8>, literal: Seq<u8>)
    requires
        b != 0x5c,
    ensures
        value_eq(quoted(seq![b] + rest), literal) <==> literal.len() > 0 && literal[0] == b
            && value_eq(quoted(rest), literal.skip(1)),
{
    let body = seq![b] + rest;
    lemma_quoted(body, literal);
    lemma_body_shift(seq![b], rest, 0);
    assert(body[0] == b);
    match body_bytes(rest, 0) {
        Some(tail) => {
            lemma_first(b, tail, literal);
        },
        None => {},
    }
    lemma_quoted(rest, literal.skip(1));
}

proof fn lemma_first(c: u8, tail: Seq<u8>, literal: Seq<u8>)
    ensures
        seq![c].add(tail) == literal <==> literal.len() > 0 && literal[0] == c && literal.skip(1)
            == tail,
{
    let whole = seq![c].add(tail);
    assert(whole.skip(1) =~= tail);
    if literal.len() > 0 && literal[0] == c && literal.skip(1) == tail {
        assert(literal =~= whole);
    }
}

/// An escape stands for one byte where it has a meaning, and a string with any other escape
/// equals no literal.
pub proof fn law_escapes_stand_for_one_byte(e: u8, rest: Seq<u8>, literal: Seq<u8>)
    ensures
        value_eq(quoted(seq![0x5cu8, e] + rest), literal) <==> literal.len() > 0 && spells(
            e,
            literal[0],
        ) && value_eq(quoted(rest), literal.skip(1)),
{
    let body = seq![0x5cu8, e] + rest;
    lemma_quoted(body, literal);
    lemma_body_shift(seq![0x5cu8, e], rest, 0);
    assert(body[0] == 0x5c && body[1] == e);
    match (simple_escape(e), body_bytes(rest, 0)) {
        (Some(c), Some(tail)) => {
            lemma_first(c, tail, literal);
        },
        _ => {},
    }
    lemma_quoted(rest, literal.skip(1));
}

/// A backslash with nothing behind it stands for itself.
pub proof fn law_lone_backslash(literal: Seq<u8>)
    ensures
        value_eq(quoted(seq![0x5cu8]), literal) <==> literal == seq![0x5cu8],
{
    let body = seq![0x5cu8];
    lemma_quoted(body, literal);
    assert(body_bytes(body, 1) == Some(Seq::<u8>::empty()));
    assert(seq![0x5cu8].add(Seq::<u8>::empty()) =~= seq![0x5cu8]);
}

/// A literal as a writer escapes it: quotes, backslashes and the control bytes with a
/// one-letter escape behind a backslash, every other byte as it is.
pub open spec fn escaped(literal: Seq<u8>) -> Seq<u8>
    decreases literal.len(),
{
    if literal.len() == 0 {
        Seq::empty()
    } else {
        let rest = escaped(literal.skip(1));
        match literal[0] {
            0x22 => seq![0x5cu8, 0x22] + rest,
            0x5c => seq![0x5cu8, 0x5c] + rest,
            0x08 => seq![0x5cu8, 0x62] + rest,
            0x0c => seq![0x5cu8, 0x66] + rest,
            0x0a => seq![0x5cu8, 0x6e] + rest,
            0x0d => seq![0x5cu8, 0x72] + rest,
            0x09 => seq![0x5cu8, 0x74] + rest,
            b => seq![b] + rest,
        }
    }
}

/// A string that was written from a literal equals that literal and no other.
pub proof fn law_written_strings_equal_their_literal(text: Seq<u8>, literal: Seq<u8>)
    ensures
        value_eq(quoted(escaped(text)), literal) <==> text == literal,
    decreases text.len(),
{
    if text.len() == 0 {
        law_empty_string(literal);
        assert(literal.len() == 0 ==> text =~= literal);
    } else {
        let rest = escaped(text.skip(1));
        law_written_strings_equal_their_literal(text.skip(1), literal.skip(1));
        let e: u8 = match text[0] {
            0x22 => 0x22,
            0x5c => 0x5c,
            0x08 => 0x62,
            0x0c => 0x66,
            0x0a => 0x6e,
            0x0d => 0x72,
            0x09 => 0x74,
            b => b,
        };
        if text[0] == e && e != 0x22 && e != 0x5c {
            law_strings_compare_byte_by_byte(text[0], rest, literal);
        } else {
            law_escapes_stand_for_one_byte(e, rest, literal);
        }
        if literal.len() > 0 && literal[0] == text[0] && text.skip(1) == literal.skip(1) {
            assert(text =~= seq![text[0]] + text.skip(1));
            assert(literal =~= seq![literal[0]] + literal.skip(1));
        }
    }
}

/// Comparing a quoted string without backslash says whether the whole body is the literal.
pub proof fn law_json_string_eq_compares_whole(
    value: &[u8],
    literal: &[u8],
    body: Seq<u8>,
    r: bool,
)
    requires
        call_ensures(json_string_eq, (value, literal), r),
        value@ == quoted(body),
        forall|k: int| 0 <= k < body.len() ==> #[trigger] body[k] != 0x5c,
    ensures
        r == (body == literal@),
{
    law_plain_strings_compare_whole(body, literal@);
}

/// Comparing a string that was written from a text says whether the text is the literal.
pub proof fn law_json_string_eq_reads_escapes(
    value: &[u8],
    literal: &[u8],
    text: Seq<u8>,
    r: bool,
)
    requires
        call_ensures(json_string_eq, (value, literal), r),
        value@ == quoted(escaped(text)),
    ensures
        r == (text == literal@),
{
    law_written_strings_equal_their_literal(text, literal@);
}

// ---------------------------------------------------------------------------
// Ends
// ---------------------------------------------------------------------------

/// A literal reaches up to the next comma, close or white space, or to the end of the buffer:
/// not further, and not less far.
pub proof fn law_literals_reach_their_delimiter(bytes: Seq<u8>, i: int)
    requires
        0 <= i <= bytes.len(),
    ensures
        i <= scalar_end(bytes, i) <= bytes.len(),
        forall|k: int|
            i <= k < scalar_end(bytes, i) ==> {
                let b = #[trigger] bytes[k];
                b != 0x2c && b != 0x7d && b != 0x5d && b != 0x20 && b != 0x09 && b != 0x0a && b
                    != 0x0d
            },
        scalar_end(bytes, i) < bytes.len() ==> {
            let b = bytes[scalar_end(bytes, i)];
            b == 0x2c || b == 0x7d || b == 0x5d || b == 0x20 || b == 0x09 || b == 0x0a || b == 0x0d
        },
    decreases bytes.len() - i,
{
    if i < bytes.len() && !is_delimiter(bytes[i]) {
        law_literals_reach_their_delimiter(bytes, i + 1);
    }
}

/// How many backslashes stand directly in front of `q`, none in front of `from` counted.
pub open spec fn backslashes(bytes: Seq<u8>, from: int, q: int) -> nat
    decreases q - from,
{
    if q > from && bytes[q - 1] == 0x5c {
        1 + backslashes(bytes, from, q - 1)
    } else {
        0
    }
}

/// A quote stands at `q` with an even number of backslashes in front of it: it ends a string
/// whose body begins at `from`.
pub open spec fn bare_quote(bytes: Seq<u8>, from: int, q: int) -> bool {
    from <= q < bytes.len() && bytes[q] == 0x22 && backslashes(bytes, from, q) % 2 == 0
}

/// `end` lies behind the first bare quote of the string body from `from` on, or is the end of
/// the buffer where there is none.
pub open spec fn string_ends_at(bytes: Seq<u8>, from: int, end: int) -> bool {
    &&& from <= end <= bytes.len()
    &&& forall|q: int| from <= q < end - 1 ==> !#[trigger] bare_quote(bytes, from, q)
    &&& bare_quote(bytes, from, end - 1) || end == bytes.len()
}

proof fn lemma_string_from(bytes: Seq<u8>, from: int, i: int)
    requires
        0 <= from <= i <= bytes.len(),
        backslashes(bytes, from, i) % 2 == 0,
        forall|q: int| from <= q < i ==> !#[trigger] bare_quote(bytes, from, q),
    ensures
        string_ends_at(bytes, from, string_end(bytes, i)),
    decreases bytes.len() - i,
{
    lemma_string_end(bytes, i);
    if i < bytes.len() {
        if bytes[i] == 0x5c {
            assert(backslashes(bytes, from, i + 1) == 1 + backslashes(bytes, from, i));
            assert(!bare_quote(bytes, from, i));
            assert(!bare_quote(bytes, from, i + 1));
            if i + 2 <= bytes.len() {
                if bytes[i + 1] == 0x5c {
                    assert(backslashes(bytes, from, i + 2) == 1 + backslashes(bytes, from, i + 1));
                }
                lemma_string_from(bytes, from, i + 2);
            } else {
                assert(string_end(bytes, i + 2) == bytes.len());
            }
        } else if bytes[i] == 0x22 {
            assert(bare_quote(bytes, from, i));
        } else {
            assert(!bare_quote(bytes, from, i));
            assert(backslashes(bytes, from, i + 1) == 0);
            lemma_string_from(bytes, from, i + 1);
        }
    } else {
        assert(string_end(bytes, i) == bytes.len());
    }
}

/// A string ends behind the first quote with an even number of backslashes in front of it; at
/// the end of the buffer if it has none.
pub proof fn law_strings_reach_their_quote(bytes: Seq<u8>, from: int)
    requires
        0 <= from <= bytes.len(),
    ensures
        string_ends_at(bytes, from, string_end(bytes, from)),
{
    lemma_string_from(bytes, from, from);
}

// ---------------------------------------------------------------------------
// Names
// ---------------------------------------------------------------------------

/// The name in a string ends at its closing quote, and at the end of the buffer.
pub proof fn law_names_end_at_quotes(buf: Seq<u8>, i: int)
    requires
        i >= buf.len() || buf[i] == 0x22,
    ensures
        decoded(buf, i).len() == 0,
{
}

/// The plain bytes in front of a quote, a backslash or the end of the buffer are the text that
/// they write in UTF-8, and what comes behind them follows it.
pub proof fn law_names_keep_plain_text(buf: Seq<u8>, i: int, e: int)
    requires
        0 <= i < e <= buf.len(),
        forall|k: int| i <= k < e ==> #[trigger] buf[k] != 0x22 && buf[k] != 0x5c,
        e < buf.len() ==> buf[e] == 0x22 || buf[e] == 0x5c,
        valid_utf8(buf.subrange(i, e)),
    ensures
        decoded(buf, i) == decode_utf8(buf.subrange(i, e)) + decoded(buf, e),
{
    lemma_plain_to(buf, i, e);
}

proof fn lemma_plain_to(buf: Seq<u8>, i: int, e: int)
    requires
        0 <= i <= e <= buf.len(),
        forall|k: int| i <= k < e ==> #[trigger] buf[k] != 0x22 && buf[k] != 0x5c,
        e < buf.len() ==> buf[e] == 0x22 || buf[e] == 0x5c,
    ensures
        plain_end(buf, i) == e,
    decreases e - i,
{
    if i < e {
        lemma_plain_to(buf, i + 1, e);
    }
}

/// A backslash and a byte other than `u` add one character: the one that the escape stands
/// for, or the byte itself where the escape has no meaning.
pub proof fn law_names_read_escapes(buf: Seq<u8>, i: int, e: u8, c: u8)
    requires
        0 <= i,
        i + 1 < buf.len(),
        buf[i] == 0x5c,
        buf[i + 1] == e,
        e != 0x75,
        spells(e, c) || (c == e && forall|d: u8| !spells(e, d)),
    ensures
        decoded(buf, i) == seq![c as char] + decoded(buf, i + 2),
{
    if !spells(e, c) {
        assert(!spells(e, 0x08) && !spells(e, 0x0c) && !spells(e, 0x0a) && !spells(e, 0x0d)
            && !spells(e, 0x09));
    }
}

/// The byte `b` is the hexadecimal digit with the value `d`.
pub open spec fn digit(b: u8, d: int) -> bool {
    ||| 0x30 <= b <= 0x39 && d == b - 0x30
    ||| 0x61 <= b <= 0x66 && d == b - 0x61 + 10
    ||| 0x41 <= b <= 0x46 && d == b - 0x41 + 10
}

/// `\u` with four hexadecimal digits adds the character with that number; half of a surrogate
/// pair adds nothing.
pub proof fn law_names_read_unicode_escapes(buf: Seq<u8>, i: int, a: int, b: int, c: int, d: int)
    requires
        0 <= i,
        i + 6 <= buf.len(),
        buf[i] == 0x5c,
        buf[i + 1] == 0x75,
        digit(buf[i + 2], a),
        digit(buf[i + 3], b),
        digit(buf[i + 4], c),
        digit(buf[i + 5], d),
    ensures
        ({
            let n = 0x1000 * a + 0x100 * b + 0x10 * c + d;
            decoded(buf, i) == (if 0xd800 <= n <= 0xdfff {
                decoded(buf, i + 6)
            } else {
                seq![n as u32 as char] + decoded(buf, i + 6)
            })
        }),
{
    let s = buf.subrange(i + 2, i + 6);
    let n = 0x1000 * a + 0x100 * b + 0x10 * c + d;
    assert(s[0] != 0x2b);
    lemma_hex_four(s, a, b, c, d);
    assert(escape_code(s) == Some(n));
    assert(is_scalar(n as u32) <==> !(0xd800 <= n <= 0xdfff));
    assert(Seq::<char>::empty().add(decoded(buf, i + 6)) =~= decoded(buf, i + 6));
}

proof fn lemma_hex_four(s: Seq<u8>, a: int, b: int, c: int, d: int)
    requires
        s.len() == 4,
        digit(s[0], a),
        digit(s[1], b),
        digit(s[2], c),
        digit(s[3], d),
    ensures
        hex_number(s) == Some(0x1000 * a + 0x100 * b + 0x10 * c + d),
{
    let s3 = s.drop_last();
    let s2 = s3.drop_last();
    let s1 = s2.drop_last();
    let s0 = s1.drop_last();
    assert(s0.len() == 0);
    assert(hex_number(s0) == Some(0int));
    assert(hex_digit(s[0]) == Some(a));
    assert(hex_digit(s[1]) == Some(b));
    assert(hex_digit(s[2]) == Some(c));
    assert(hex_digit(s[3]) == Some(d));
    assert(s1.last() == s[0] && s2.last() == s[1] && s3.last() == s[2]);
    assert(hex_number(s1) == Some(a));
    assert(hex_number(s2) == Some(16 * a + b));
    assert(hex_number(s3) == Some(16 * (16 * a + b) + c));
}

/// `\u` with a byte that is no hexadecimal digit adds nothing.
pub proof fn law_names_drop_broken_escapes(buf: Seq<u8>, i: int, k: int)
    requires
        0 <= i,
        i + 6 <= buf.len(),
        buf[i] == 0x5c,
        buf[i + 1] == 0x75,
        buf[i + 2] != 0x2b,
        i + 2 <= k < i + 6,
        forall|d: int| !digit(buf[k], d),
    ensures
        decoded(buf, i) == decoded(buf, i + 6),
{
    let s = buf.subrange(i + 2, i + 6);
    let b = buf[k];
    assert(!digit(b, b - 0x30) && !digit(b, b - 0x61 + 10) && !digit(b, b - 0x41 + 10));
    assert(hex_digit(b) is None);
    assert(s[k - i - 2] == b);
    let s3 = s.drop_last();
    let s2 = s3.drop_last();
    let s1 = s2.drop_last();
    assert(s1.last() == s[0] && s2.last() == s[1] && s3.last() == s[2]);
    if k == i + 2 {
        assert(hex_number(s1) is None);
    }
    if k <= i + 3 {
        assert(hex_number(s2) is None);
    }
    if k <= i + 4 {
        assert(hex_number(s3) is None);
    }
    assert(hex_number(s) is None);
    assert(Seq::<char>::empty().add(decoded(buf, i + 6)) =~= decoded(buf, i + 6));
}

/// Plain bytes that are no UTF-8 add nothing.
pub proof fn law_names_drop_invalid_text(buf: Seq<u8>, i: int, e: int)
    requires
        0 <= i < e <= buf.len(),
        forall|k: int| i <= k < e ==> #[trigger] buf[k] != 0x22 && buf[k] != 0x5c,
        e < buf.len() ==> buf[e] == 0x22 || buf[e] == 0x5c,
        !valid_utf8(buf.subrange(i, e)),
    ensures
        decoded(buf, i) == decoded(buf, e),
{
    lemma_plain_to(buf, i, e);
    assert(Seq::<char>::empty().add(decoded(buf, e)) =~= decoded(buf, e));
}

/// A backslash on the last byte of the buffer ends a name, and `\u` with fewer than four bytes
/// behind it adds nothing.
pub proof fn law_names_are_cut_off(buf: Seq<u8>, i: int)
    requires
        0 <= i < buf.len(),
        buf[i] == 0x5c,
    ensures
        i + 1 == buf.len() ==> decoded(buf, i).len() == 0,
        i + 1 < buf.len() < i + 6 && buf[i + 1] == 0x75 ==> decoded(buf, i) == decoded(buf, i + 2),
{
}

/// `\u` with a plus sign and three hexadecimal digits adds the character with that number.
pub proof fn law_names_read_signed_escapes(buf: Seq<u8>, i: int, b: int, c: int, d: int)
    requires
        0 <= i,
        i + 6 <= buf.len(),
        buf[i] == 0x5c,
        buf[i + 1] == 0x75,
        buf[i + 2] == 0x2b,
        digit(buf[i + 3], b),
        digit(buf[i + 4], c),
        digit(buf[i + 5], d),
    ensures
        decoded(buf, i) == seq![(0x100 * b + 0x10 * c + d) as u32 as char] + decoded(buf, i + 6),
{
    let s = buf.subrange(i + 2, i + 6);
    let t = s.skip(1);
    let t2 = t.drop_last();
    let t1 = t2.drop_last();
    assert(t1.drop_last().len() == 0);
    assert(hex_number(t1.drop_last()) == Some(0int));
    assert(t[0] == buf[i + 3] && t[1] == buf[i + 4] && t[2] == buf[i + 5]);
    assert(t1.last() == t[0] && t2.last() == t[1]);
    assert(hex_digit(t[0]) == Some(b));
    assert(hex_digit(t[1]) == Some(c));
    assert(hex_digit(t[2]) == Some(d));
    assert(hex_number(t1) == Some(b));
    assert(hex_number(t2) == Some(16 * b + c));
    assert(hex_number(t) == Some(0x100 * b + 0x10 * c + d));
    assert(escape_code(s) == Some(0x100 * b + 0x10 * c + d));
}

/// The bytes of a value are cut out from its first byte to its end: of a string to its closing
/// quote, of a literal to its delimiter; of any other token there are none.
pub proof fn law_value_slices_are_exact<'a>(buf: &'a [u8], off: usize, kind: Kind, r: &'a [u8])
    requires
        off < buf@.len(),
        call_ensures(value_byte_slice, (buf, off, kind), r),
    ensures
        off + r@.len() <= buf@.len(),
        r@ == buf@.subrange(off as int, off + r@.len()),
        match kind {
            Kind::Quote => string_ends_at(buf@, off + 1, off + r@.len()),
            Kind::Scalar => {
                let end = off + r@.len();
                &&& forall|k: int|
                    off <= k < end ==> {
                        let b = #[trigger] buf@[k];
                        b != 0x2c && b != 0x7d && b != 0x5d && b != 0x20 && b != 0x09 && b != 0x0a
                            && b != 0x0d
                    }
                &&& end < buf@.len() ==> {
                    let b = buf@[end];
                    b == 0x2c || b == 0x7d || b == 0x5d || b == 0x20 || b == 0x09 || b == 0x0a || b
                        == 0x0d
                }
            },
            _ => r@.len() == 0,
        },
{
    law_strings_reach_their_quote(buf@, off + 1);
    law_literals_reach_their_delimiter(buf@, off as int);
}

} // verus!
