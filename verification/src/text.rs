//! String bodies: decoding them, finding where they end, comparing them with plain bytes.

use vstd::prelude::*;
use vstd::utf8::{decode_utf8, is_scalar, valid_utf8};

use crate::ascii::{
    ARR_CLOSE, BACKSLASH, BS, COMMA, CR, DIGIT_0, DIGIT_9, FF, LF, LOWER_A, LOWER_B, LOWER_F,
    LOWER_N, LOWER_R, LOWER_T, LOWER_U, OBJ_CLOSE, PLUS, QUOTE, SLASH, SPACE, TAB, UPPER_A, UPPER_F,
};
use crate::lex::Kind;

verus! {

/// `String::push` appends one character.
pub assume_specification[ std::string::String::push ](s: &mut std::string::String, ch: char)
    ensures
        final(s)@ == old(s)@.push(ch),
;

/// `char::from_u32` is the character with the given number, where there is one.
pub assume_specification[ char::from_u32 ](i: u32) -> (r: Option<char>)
    ensures
        match r {
            Some(c) => is_scalar(i) && c as u32 == i,
            None => !is_scalar(i),
        },
;

/// `std::str::from_utf8` reads bytes as text where they are valid UTF-8.
#[verifier::external_body]
pub(crate) fn utf8_text(bytes: &[u8]) -> (r: Option<&str>)
    ensures
        match r {
            Some(s) => valid_utf8(bytes@) && s@ == decode_utf8(bytes@),
            None => !valid_utf8(bytes@),
        },
{
    std::str::from_utf8(bytes).ok()
}

/// `simdutf8::basic::from_utf8` accepts exactly the bytes that are valid UTF-8.
#[verifier::external_body]
pub(crate) fn is_utf8(bytes: &[u8]) -> (r: bool)
    ensures
        r == valid_utf8(bytes@),
{
    simdutf8::basic::from_utf8(bytes).is_ok()
}

// ---------------------------------------------------------------------------
// Decoding
// ---------------------------------------------------------------------------

/// The byte that a one-letter escape stands for; other letters stand for themselves.
pub open spec fn unescaped(b: u8) -> u8 {
    if b == LOWER_B {
        BS
    } else if b == LOWER_F {
        FF
    } else if b == LOWER_N {
        LF
    } else if b == LOWER_R {
        CR
    } else if b == LOWER_T {
        TAB
    } else {
        b
    }
}

/// The value of a hexadecimal digit.
pub open spec fn hex_digit(b: u8) -> Option<int> {
    if DIGIT_0 <= b <= DIGIT_9 {
        Some(b - DIGIT_0)
    } else if LOWER_A <= b <= LOWER_F {
        Some(b - LOWER_A + 10)
    } else if UPPER_A <= b <= UPPER_F {
        Some(b - UPPER_A + 10)
    } else {
        None
    }
}

/// The number that hexadecimal digits write, from the first to the last.
pub open spec fn hex_number(s: Seq<u8>) -> Option<int>
    decreases s.len(),
{
    if s.len() == 0 {
        Some(0)
    } else {
        match (hex_number(s.drop_last()), hex_digit(s.last())) {
            (Some(n), Some(d)) => Some(16 * n + d),
            _ => None,
        }
    }
}

/// The code that the four bytes of a `\u` escape write: four digits, or a plus sign and
/// three.
pub open spec fn escape_code(s: Seq<u8>) -> Option<int> {
    if s[0] == PLUS {
        hex_number(s.skip(1))
    } else {
        hex_number(s)
    }
}

/// What a `\u` escape adds to the text: its character, or nothing where the bytes write no
/// code or the code is half of a surrogate pair.
pub open spec fn escape_text(s: Seq<u8>) -> Seq<char> {
    match escape_code(s) {
        Some(n) if is_scalar(n as u32) => seq![n as u32 as char],
        _ => Seq::empty(),
    }
}

/// The first position from `i` on that holds a quote or a backslash, or the end.
pub open spec fn plain_end(buf: Seq<u8>, i: int) -> int
    decreases buf.len() - i,
{
    if i < buf.len() && buf[i] != QUOTE && buf[i] != BACKSLASH {
        plain_end(buf, i + 1)
    } else {
        i
    }
}

/// The text of bytes without escapes; invalid UTF-8 has none.
pub open spec fn plain_text(s: Seq<u8>) -> Seq<char> {
    if valid_utf8(s) {
        decode_utf8(s)
    } else {
        Seq::empty()
    }
}

/// The text of a string body from byte `i` up to its closing quote, or to the end of the
/// buffer. A `\u` that the buffer cuts off adds nothing; a backslash on the last byte ends
/// the text.
pub open spec fn decoded(buf: Seq<u8>, i: int) -> Seq<char>
    decreases buf.len() - i,
    via decoded_decreases
{
    if i >= buf.len() || buf[i] == QUOTE {
        Seq::empty()
    } else if buf[i] == BACKSLASH {
        if i + 1 >= buf.len() {
            Seq::empty()
        } else if buf[i + 1] != LOWER_U {
            seq![unescaped(buf[i + 1]) as char].add(decoded(buf, i + 2))
        } else if i + 6 <= buf.len() {
            escape_text(buf.subrange(i + 2, i + 6)).add(decoded(buf, i + 6))
        } else {
            decoded(buf, i + 2)
        }
    } else {
        plain_text(buf.subrange(i, plain_end(buf, i))).add(decoded(buf, plain_end(buf, i)))
    }
}

#[via_fn]
proof fn decoded_decreases(buf: Seq<u8>, i: int) {
    lemma_plain_end(buf, i + 1);
}

proof fn lemma_plain_end(buf: Seq<u8>, i: int)
    ensures
        i <= plain_end(buf, i),
        i <= buf.len() ==> plain_end(buf, i) <= buf.len(),
    decreases buf.len() - i,
{
    if i < buf.len() && buf[i] != QUOTE && buf[i] != BACKSLASH {
        lemma_plain_end(buf, i + 1);
    }
}

/// The value of a hexadecimal digit.
fn hex_value(b: u8) -> (r: Option<u32>)
    ensures
        match r {
            Some(d) => hex_digit(b) == Some(d as int) && d < 16,
            None => hex_digit(b) is None,
        },
{
    if DIGIT_0 <= b && b <= DIGIT_9 {
        Some((b - DIGIT_0) as u32)
    } else if LOWER_A <= b && b <= LOWER_F {
        Some((b - LOWER_A) as u32 + 10)
    } else if UPPER_A <= b && b <= UPPER_F {
        Some((b - UPPER_A) as u32 + 10)
    } else {
        None
    }
}

/// The code that the four bytes of a `\u` escape write.
fn parse_escape(s: &[u8]) -> (r: Option<u32>)
    requires
        s@.len() == 4,
    ensures
        match r {
            Some(n) => escape_code(s@) == Some(n as int) && n <= 0xffff,
            None => escape_code(s@) is None,
        },
{
    let start: usize = if s[0] == PLUS {
        1
    } else {
        0
    };
    let ghost digits = s@.skip(start as int);
    let mut n: u32 = 0;
    let mut i: usize = start;
    assert(start == 0 ==> digits =~= s@);
    assert(digits.take(0) =~= Seq::<u8>::empty());
    while i < 4
        invariant
            start <= i <= 4,
            start <= 1,
            s@.len() == 4,
            digits == s@.skip(start as int),
            hex_number(digits.take(i - start)) == Some(n as int),
            escape_code(s@) == hex_number(digits),
            i == 0 ==> n == 0,
            i == 1 ==> n < 0x10,
            i == 2 ==> n < 0x100,
            i == 3 ==> n < 0x1000,
            i == 4 ==> n < 0x10000,
        decreases 4 - i,
    {
        let ghost more = digits.take(i - start + 1);
        assert(more.drop_last() =~= digits.take(i - start));
        assert(more.last() == s@[i as int]);
        match hex_value(s[i]) {
            Some(d) => {
                n = 16 * n + d;
            },
            None => {
                proof {
                    lemma_hex_prefix(digits, i - start + 1);
                }
                return None;
            },
        }
        i = i + 1;
    }
    assert(digits.take(4 - start) =~= digits);
    Some(n)
}

/// Digits that start with no number write none.
proof fn lemma_hex_prefix(s: Seq<u8>, k: int)
    requires
        0 <= k <= s.len(),
        hex_number(s.take(k)) is None,
    ensures
        hex_number(s) is None,
    decreases s.len() - k,
{
    if k < s.len() {
        assert(s.take(k + 1).drop_last() =~= s.take(k));
        lemma_hex_prefix(s, k + 1);
    } else {
        assert(s.take(k) =~= s);
    }
}

/// Decodes the body of the string whose opening quote stands at `quote_off`.
///
/// Knows the escapes `\"`, `\\`, `\/`, `\b`, `\f`, `\n`, `\r`, `\t` and `\uXXXX`.
pub(crate) fn decode_string_body(buf: &[u8], quote_off: usize) -> (r: String)
    ensures
        r@ == decoded(buf@, quote_off + 1),
{
    let n: usize = buf.len();
    let mut out = String::new();
    if quote_off >= n {
        return out;
    }
    let mut i: usize = quote_off + 1;
    let ghost whole = decoded(buf@, quote_off + 1);
    assert(out@.add(decoded(buf@, i as int)) =~= whole);
    while i < n && buf[i] != QUOTE
        invariant_except_break
            out@.add(decoded(buf@, i as int)) == whole,
        invariant
            i <= n == buf@.len(),
        ensures
            out@ == whole,
        decreases n - i,
    {
        let ghost front = out@;
        if buf[i] == BACKSLASH {
            if i + 1 >= n {
                assert(out@.add(decoded(buf@, i as int)) =~= out@);
                break ;
            }
            let esc = buf[i + 1];
            if esc == LOWER_U {
                if n - i >= 6 {
                    let hex = &buf[i + 2..i + 6];
                    let ghost tail = decoded(buf@, i + 6);
                    match parse_escape(hex) {
                        Some(code) => {
                            match char::from_u32(code) {
                                Some(c) => {
                                    out.push(c);
                                    proof {
                                        vstd::utf8::char_u32_cast(c, code);
                                    }
                                    assert(out@.add(tail) =~= front.add(escape_text(hex@).add(tail)));
                                },
                                None => {
                                    assert(out@.add(tail) =~= front.add(escape_text(hex@).add(tail)));
                                },
                            }
                        },
                        None => {
                            assert(out@.add(tail) =~= front.add(escape_text(hex@).add(tail)));
                        },
                    }
                    i = i + 6;
                } else {
                    i = i + 2;
                }
            } else {
                let plain: u8 = if esc == LOWER_B {
                    BS
                } else if esc == LOWER_F {
                    FF
                } else if esc == LOWER_N {
                    LF
                } else if esc == LOWER_R {
                    CR
                } else if esc == LOWER_T {
                    TAB
                } else {
                    esc
                };
                out.push(plain as char);
                proof {
                    let tail = decoded(buf@, i + 2);
                    assert(out@.add(tail) =~= front.add(seq![plain as char].add(tail)));
                }
                i = i + 2;
            }
        } else {
            let start: usize = i;
            while i < n && buf[i] != QUOTE && buf[i] != BACKSLASH
                invariant
                    start <= i <= n == buf@.len(),
                    plain_end(buf@, i as int) == plain_end(buf@, start as int),
                decreases n - i,
            {
                i = i + 1;
            }
            proof {
                lemma_plain_end(buf@, start + 1);
            }
            let raw = &buf[start..i];
            let ghost tail = decoded(buf@, i as int);
            match utf8_text(raw) {
                Some(s) => {
                    out.append(s);
                    assert(out@.add(tail) =~= front.add(plain_text(raw@).add(tail)));
                },
                None => {
                    assert(out@.add(tail) =~= front.add(plain_text(raw@).add(tail)));
                },
            }
        }
    }
    out
}

// ---------------------------------------------------------------------------
// Where values end
// ---------------------------------------------------------------------------

/// One past the quote that closes a string body, read from byte `i` of the body on; the end
/// of the buffer if it does not close. A backslash escapes the byte behind it.
pub open spec fn string_end(bytes: Seq<u8>, i: int) -> int
    decreases bytes.len() + 1 - i,
{
    if i >= bytes.len() {
        bytes.len() as int
    } else if bytes[i] == BACKSLASH {
        string_end(bytes, i + 2)
    } else if bytes[i] == QUOTE {
        i + 1
    } else {
        string_end(bytes, i + 1)
    }
}

/// `b` ends a literal.
pub open spec fn is_delimiter(b: u8) -> bool {
    b == COMMA || b == OBJ_CLOSE || b == ARR_CLOSE || b == SPACE || b == TAB || b == LF || b == CR
}

/// The first position from `i` on that ends a literal, or the end of the buffer.
pub open spec fn scalar_end(bytes: Seq<u8>, i: int) -> int
    decreases bytes.len() - i,
{
    if i >= bytes.len() {
        bytes.len() as int
    } else if is_delimiter(bytes[i]) {
        i
    } else {
        scalar_end(bytes, i + 1)
    }
}

/// A string body that begins inside the buffer ends behind its first byte.
pub proof fn lemma_string_end(bytes: Seq<u8>, i: int)
    ensures
        i <= bytes.len() ==> i <= string_end(bytes, i),
        string_end(bytes, i) <= bytes.len(),
    decreases bytes.len() + 1 - i,
{
    if i < bytes.len() {
        if bytes[i] == BACKSLASH {
            lemma_string_end(bytes, i + 2);
        } else if bytes[i] != QUOTE {
            lemma_string_end(bytes, i + 1);
        }
    }
}

pub proof fn lemma_scalar_end(bytes: Seq<u8>, i: int)
    ensures
        i <= bytes.len() ==> i <= scalar_end(bytes, i),
        scalar_end(bytes, i) <= bytes.len(),
    decreases bytes.len() - i,
{
    if i < bytes.len() && !is_delimiter(bytes[i]) {
        lemma_scalar_end(bytes, i + 1);
    }
}

/// One past the closing quote of the string whose opening quote stands at `start`.
pub(crate) fn scan_string_end(bytes: &[u8], start: usize) -> (r: usize)
    ensures
        r == string_end(bytes@, start + 1),
{
    let n: usize = bytes.len();
    if start >= n {
        return n;
    }
    let mut i: usize = start + 1;
    while i < n
        invariant
            n == bytes@.len(),
            string_end(bytes@, i as int) == string_end(bytes@, start + 1),
        decreases n - i,
    {
        if bytes[i] == BACKSLASH {
            if n - i <= 2 {
                assert(string_end(bytes@, i + 2) == n);
                return n;
            }
            i = i + 2;
        } else if bytes[i] == QUOTE {
            return i + 1;
        } else {
            i = i + 1;
        }
    }
    n
}

/// The first delimiter from `start` on.
pub(crate) fn scan_scalar_end(bytes: &[u8], start: usize) -> (r: usize)
    ensures
        r == scalar_end(bytes@, start as int),
{
    let n: usize = bytes.len();
    let mut i: usize = start;
    while i < n
        invariant
            n == bytes@.len(),
            scalar_end(bytes@, i as int) == scalar_end(bytes@, start as int),
        decreases n - i,
    {
        let b = bytes[i];
        if b == COMMA || b == OBJ_CLOSE || b == ARR_CLOSE || b == SPACE || b == TAB || b == LF || b
            == CR {
            return i;
        }
        i = i + 1;
    }
    n
}

/// The bytes of a string, quotes included, or of a literal that begins at `off`; nothing for
/// a token of another kind.
pub fn value_byte_slice<'a>(buf: &'a [u8], off: usize, kind: Kind) -> (r: &'a [u8])
    requires
        off <= buf@.len(),
    ensures
        r@ == buf@.subrange(
            off as int,
            match kind {
                Kind::Quote => string_end(buf@, off + 1),
                Kind::Scalar => scalar_end(buf@, off as int),
                _ => off as int,
            },
        ),
{
    proof {
        lemma_string_end(buf@, off + 1);
        lemma_scalar_end(buf@, off as int);
    }
    let end: usize = match kind {
        Kind::Quote => scan_string_end(buf, off),
        Kind::Scalar => scan_scalar_end(buf, off),
        _ => off,
    };
    &buf[off..end]
}

// ---------------------------------------------------------------------------
// Comparing
// ---------------------------------------------------------------------------

/// The byte that one of the escapes `\"`, `\\`, `\/`, `\n`, `\t`, `\r`, `\b` and `\f` stands
/// for.
pub open spec fn simple_escape(b: u8) -> Option<u8> {
    if b == QUOTE || b == BACKSLASH || b == SLASH || b == LOWER_N || b == LOWER_T || b == LOWER_R
        || b == LOWER_B || b == LOWER_F {
        Some(unescaped(b))
    } else {
        None
    }
}

/// The bytes that a string body stands for from byte `i` on. `None` where it holds another
/// escape, `\u` included. A backslash on the last byte stands for itself.
pub open spec fn body_bytes(body: Seq<u8>, i: int) -> Option<Seq<u8>>
    decreases body.len() - i,
{
    if i >= body.len() {
        Some(Seq::empty())
    } else if body[i] == BACKSLASH && i + 1 < body.len() {
        match (simple_escape(body[i + 1]), body_bytes(body, i + 2)) {
            (Some(c), Some(rest)) => Some(seq![c].add(rest)),
            _ => None,
        }
    } else {
        match body_bytes(body, i + 1) {
            Some(rest) => Some(seq![body[i]].add(rest)),
            None => None,
        }
    }
}

/// `value` stands for `literal`: the body of a quoted string does, or the raw bytes of
/// anything else.
pub open spec fn value_eq(value: Seq<u8>, literal: Seq<u8>) -> bool {
    if value.len() >= 2 && value[0] == QUOTE && value.last() == QUOTE {
        body_bytes(value.subrange(1, value.len() - 1), 0) == Some(literal)
    } else {
        value == literal
    }
}

/// `memchr::memchr` finds the first byte of `haystack` that equals the needle.
pub assume_specification[ memchr::memchr ](needle: u8, haystack: &[u8]) -> (r: Option<usize>)
    ensures
        match r {
            Some(p) => {
                &&& p < haystack@.len()
                &&& haystack@[p as int] == needle
                &&& forall|k: int| 0 <= k < p ==> #[trigger] haystack@[k] != needle
            },
            None => forall|k: int| 0 <= k < haystack@.len() ==> #[trigger] haystack@[k] != needle,
        },
;

/// A body without backslashes stands for its own bytes.
proof fn lemma_body_without_escapes(body: Seq<u8>, i: int)
    requires
        0 <= i <= body.len(),
        forall|k: int| 0 <= k < body.len() ==> #[trigger] body[k] != BACKSLASH,
    ensures
        body_bytes(body, i) == Some(body.skip(i)),
    decreases body.len() - i,
{
    if i < body.len() {
        lemma_body_without_escapes(body, i + 1);
        assert(seq![body[i]].add(body.skip(i + 1)) =~= body.skip(i));
    } else {
        assert(body.skip(i) =~= Seq::empty());
    }
}

/// Whether two byte strings are equal.
pub(crate) fn bytes_eq(a: &[u8], b: &[u8]) -> (r: bool)
    ensures
        r == (a@ == b@),
{
    if a.len() != b.len() {
        return false;
    }
    let mut i: usize = 0;
    while i < a.len()
        invariant
            i <= a@.len() == b@.len(),
            forall|k: int| 0 <= k < i ==> a@[k] == b@[k],
        decreases a@.len() - i,
    {
        if a[i] != b[i] {
            return false;
        }
        i = i + 1;
    }
    assert(a@ =~= b@);
    true
}

/// Compares the bytes that a body with escapes stands for.
fn slow_decode_eq(body: &[u8], literal: &[u8]) -> (r: bool)
    ensures
        r == (body_bytes(body@, 0) == Some(literal@)),
{
    let n: usize = body.len();
    let m: usize = literal.len();
    let mut i: usize = 0;
    let mut j: usize = 0;
    assert(literal@.skip(0) =~= literal@);
    while i < n && j < m
        invariant
            i <= n == body@.len(),
            j <= m == literal@.len(),
            (body_bytes(body@, 0) == Some(literal@)) == (body_bytes(body@, i as int) == Some(
                literal@.skip(j as int),
            )),
        decreases n - i,
    {
        let b = body[i];
        let mut decoded: u8 = b;
        let mut consumed: usize = 1;
        let ghost rest = literal@.skip(j + 1);
        if b == BACKSLASH && i + 1 < n {
            let e = body[i + 1];
            if e == QUOTE || e == BACKSLASH || e == SLASH {
                decoded = e;
            } else if e == LOWER_N {
                decoded = LF;
            } else if e == LOWER_T {
                decoded = TAB;
            } else if e == LOWER_R {
                decoded = CR;
            } else if e == LOWER_B {
                decoded = BS;
            } else if e == LOWER_F {
                decoded = FF;
            } else {
                return false;
            }
            consumed = 2;
        }
        proof {
            assert(literal@.skip(j as int) =~= seq![literal@[j as int]].add(rest));
            match body_bytes(body@, i + consumed) {
                Some(tail) => {
                    let whole = seq![decoded].add(tail);
                    assert(body_bytes(body@, i as int) == Some(whole));
                    assert(whole[0] == decoded);
                    assert(whole.skip(1) =~= tail);
                    assert(literal@.skip(j as int)[0] == literal@[j as int]);
                    assert(literal@.skip(j as int).skip(1) =~= rest);
                },
                None => {},
            }
        }
        if decoded != literal[j] {
            return false;
        }
        i = i + consumed;
        j = j + 1;
    }
    proof {
        if i < n {
            assert(literal@.skip(j as int) =~= Seq::empty());
            match body_bytes(body@, i as int) {
                Some(tail) => {
                    assert(tail.len() > 0);
                },
                None => {},
            }
        } else if j < m {
            assert(literal@.skip(j as int).len() > 0);
        } else {
            assert(literal@.skip(j as int) =~= Seq::empty());
        }
    }
    i == n && j == m
}

/// Whether the bytes of a JSON value stand for `literal`. A quoted string is compared by its
/// body, with its escapes decoded; anything else byte by byte.
pub fn json_string_eq(value: &[u8], literal: &[u8]) -> (r: bool)
    ensures
        r == value_eq(value@, literal@),
{
    let n: usize = value.len();
    if n >= 2 && value[0] == QUOTE && value[n - 1] == QUOTE {
        let body = &value[1..n - 1];
        if memchr::memchr(BACKSLASH, body).is_some() {
            return slow_decode_eq(body, literal);
        }
        proof {
            lemma_body_without_escapes(body@, 0);
            assert(body@.skip(0) =~= body@);
        }
        bytes_eq(body, literal)
    } else {
        bytes_eq(value, literal)
    }
}

} // verus!
