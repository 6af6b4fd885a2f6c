//! The number and string syntax of RFC 8259, stated on its own terms, and their agreement
//! with the scanners of the tokenizer.

use vstd::prelude::*;
use crate::grammar::{
    digit_end, hex_value, is_digit, scan_escape, scan_exponent, scan_fraction, scan_from, scan_hex,
    scan_number, scan_string, EscScan, NumScan, StrScan,
};
use crate::text::{spec_decode, utf16_of};
use vstd::utf8::{decode_first_scalar, is_continuation_byte, length_of_first_scalar, valid_first_scalar, valid_utf8};
use crate::tokenizer::lemma_digit_end;
use crate::number::NumberView;

verus! {

/// Every byte of `t` from `i` up to `j` is a decimal digit.
pub open spec fn digits(t: Seq<u8>, i: int, j: int) -> bool {
    forall|k: int| i <= k < j ==> is_digit(#[trigger] t[k])
}

/// Where the integer part of a number starts: after a leading minus sign, if there is one.
pub open spec fn int_start(t: Seq<u8>) -> int {
    if t.len() > 0 && t[0] == 45 {
        1
    } else {
        0
    }
}

/// Where the digits of an exponent that starts at `c` (with `e` or `E`) begin.
pub open spec fn exp_digits_start(t: Seq<u8>, c: int) -> int {
    if c + 1 < t.len() && (t[c + 1] == 43 || t[c + 1] == 45) {
        c + 2
    } else {
        c + 1
    }
}

/// `t` is a number whose integer part ends at `b` and whose fraction (if any) ends at `c`:
/// `-`? (`0` | [1-9][0-9]*) (`.` [0-9]+)? ([eE] [+-]? [0-9]+)?
pub open spec fn number_parts(t: Seq<u8>, b: int, c: int) -> bool {
    let a = int_start(t);
    &&& a < b <= c <= t.len()
    &&& digits(t, a, b)
    &&& (t[a] == 48 ==> b == a + 1)
    &&& (b == c || (t[b] == 46 && b + 1 < c && digits(t, b + 1, c)))
    &&& (c == t.len() || ((t[c] == 101 || t[c] == 69) && exp_digits_start(t, c) < t.len() && digits(
        t,
        exp_digits_start(t, c),
        t.len() as int,
    )))
}

/// `t` is a number in the syntax of RFC 8259.
pub open spec fn json_number(t: Seq<u8>) -> bool {
    exists|b: int, c: int| number_parts(t, b, c)
}

/// A byte that can go on a number: a digit, a decimal point or an exponent mark.
pub open spec fn number_byte(b: u8) -> bool {
    is_digit(b) || b == 46 || b == 101 || b == 69
}

/// The digits from `i` run exactly up to `b`.
proof fn lemma_digit_end_at(d: Seq<u8>, i: int, b: int)
    requires
        0 <= i <= b <= d.len(),
        digits(d, i, b),
        b == d.len() || !is_digit(d[b]),
    ensures
        digit_end(d, i) == b,
    decreases b - i,
{
    if i < b {
        assert(is_digit(d[i]));
        lemma_digit_end_at(d, i + 1, b);
    }
}

/// A number in the syntax of RFC 8259 that is not followed by a byte that could go on a
/// number is scanned as one number token of exactly its length (the end of the input being
/// signaled and no length limit set).
pub proof fn law_number_syntax_scanned(d: Seq<u8>, k: int, max_len: i32)
    requires
        0 < k <= d.len(),
        max_len <= 0,
        json_number(d.subrange(0, k)),
        k == d.len() || !number_byte(d[k]),
    ensures
        scan_number(d, true, max_len) matches NumScan::Done { len, .. } && len == k,
{
    let t = d.subrange(0, k);
    let (b, c) = choose|b: int, c: int| number_parts(t, b, c);
    assert(forall|i: int| 0 <= i < k ==> t[i] == d[i]);
    let a = int_start(t);
    assert(a == (if d[0] == 45 { 1int } else { 0int }));
    assert(forall|i: int| a <= i < b ==> is_digit(#[trigger] d[i])) by {
        assert forall|i: int| a <= i < b implies is_digit(#[trigger] d[i]) by {
            assert(is_digit(t[i]));
        }
    }
    // The integer part.
    if b < k {
        assert(t[b] == 46 || t[b] == 101 || t[b] == 69);
    }
    assert(b == d.len() || !is_digit(d[b]));
    if d[a] != 48 {
        lemma_digit_end_at(d, a + 1, b);
    }
    // The fraction.
    if b < c {
        assert(forall|i: int| b + 1 <= i < c ==> is_digit(#[trigger] d[i])) by {
            assert forall|i: int| b + 1 <= i < c implies is_digit(#[trigger] d[i]) by {
                assert(is_digit(t[i]));
            }
        }
        if c < k {
            assert(t[c] == 101 || t[c] == 69);
        }
        assert(c == d.len() || !is_digit(d[c]));
        lemma_digit_end_at(d, b + 2, c);
    } else {
        assert(b == d.len() || d[b] != 46);
    }
    // The exponent.
    if c < k {
        let e = exp_digits_start(t, c);
        assert(e == (if c + 1 < d.len() && (d[c + 1] == 43 || d[c + 1] == 45) { c + 2 } else { c + 1 }));
        assert(forall|i: int| e <= i < k ==> is_digit(#[trigger] d[i])) by {
            assert forall|i: int| e <= i < k implies is_digit(#[trigger] d[i]) by {
                assert(is_digit(t[i]));
            }
        }
        lemma_digit_end_at(d, e + 1, k);
    } else {
        assert(c == d.len() || (d[c] != 101 && d[c] != 69));
    }
}

/// What an accepted exponent stage ends with: no exponent and the end at `c`, or an exponent
/// mark at `c` with its digits running to the end of the token, and no digit after it.
proof fn lemma_exponent_stage(
    d: Seq<u8>,
    max_len: i32,
    neg: bool,
    int_end: int,
    has_frac: bool,
    frac_start: int,
    c: int,
)
    requires
        0 <= c <= d.len(),
        c == d.len() || !is_digit(d[c]),
    ensures
        scan_exponent(d, true, max_len, neg, int_end, has_frac, frac_start, c) matches NumScan::Done {
            len,
            ..
        } ==> ({
            let k = len as int;
            let e = if c + 1 < d.len() && (d[c + 1] == 43 || d[c + 1] == 45) { c + 2 } else { c + 1 };
            &&& (k == c && (c == d.len() || (d[c] != 101 && d[c] != 69))) || (c < d.len() && (d[c]
                == 101 || d[c] == 69) && e < k <= d.len() && digits(d, e, k))
            &&& (k == d.len() || !is_digit(d[k]))
            &&& c <= k <= d.len()
        }),
{
    let e = if c + 1 < d.len() && (d[c + 1] == 43 || d[c + 1] == 45) { c + 2 } else { c + 1 };
    if c < d.len() && (d[c] == 101 || d[c] == 69) && c + 1 < d.len() && e < d.len() && is_digit(d[e]) {
        lemma_digit_end(d, e + 1);
    }
}

/// What an accepted fraction stage starting at `b` goes through: no fraction, or a decimal
/// point at `b` with its digits up to where the exponent stage starts.
proof fn lemma_fraction_stage(d: Seq<u8>, max_len: i32, neg: bool, b: int)
    requires
        0 <= b <= d.len(),
    ensures
        scan_fraction(d, true, max_len, neg, b) matches NumScan::Done { .. } ==> {
            ||| !(b < d.len() && d[b] == 46) && scan_fraction(d, true, max_len, neg, b) == scan_exponent(
                d,
                true,
                max_len,
                neg,
                b,
                false,
                b,
                b,
            )
            ||| b < d.len() && d[b] == 46 && b + 1 < digit_end(d, b + 2) && digits(d, b + 1, digit_end(d, b + 2))
                && scan_fraction(d, true, max_len, neg, b) == scan_exponent(
                d,
                true,
                max_len,
                neg,
                b,
                true,
                b + 1,
                digit_end(d, b + 2),
            ) && digit_end(d, b + 2) <= d.len()
        },
{
    if b < d.len() && d[b] == 46 && b + 1 < d.len() && is_digit(d[b + 1]) {
        lemma_digit_end(d, b + 2);
    }
}

/// Every number token the scanner accepts is a number in the syntax of RFC 8259, and no digit
/// follows it.
#[verifier::rlimit(40)]
pub proof fn law_number_scanned_syntax(d: Seq<u8>, max_len: i32)
    requires
        d.len() > 0,
    ensures
        scan_number(d, true, max_len) matches NumScan::Done { len, .. } ==> json_number(
            d.subrange(0, len as int),
        ) && (len == d.len() || !is_digit(d[len as int])),
{
    let neg = d[0] == 45;
    let a: int = if neg { 1 } else { 0 };
    let r = scan_number(d, true, max_len);
    if r is Done {
        let k = r->len as int;
        assert(!(neg && d.len() < 2));
        let c0 = d[a];
        assert(is_digit(c0));
        let b: int = if c0 == 48 {
            a + 1
        } else {
            digit_end(d, a + 1)
        };
        if c0 != 48 {
            lemma_digit_end(d, a + 1);
        }
        assert(digits(d, a, b));
        assert(r == scan_fraction(d, true, max_len, neg, b));
        assert(b == d.len() || !is_digit(d[b]));
        lemma_fraction_stage(d, max_len, neg, b);
        let has_frac = b < d.len() && d[b] == 46;
        let c: int = if has_frac {
            digit_end(d, b + 2)
        } else {
            b
        };
        if has_frac {
            lemma_digit_end(d, b + 2);
        }
        lemma_exponent_stage(d, max_len, neg, b, has_frac, if has_frac { b + 1 } else { b }, c);
        let t = d.subrange(0, k);
        assert(forall|i: int| 0 <= i < k ==> t[i] == d[i]);
        assert(int_start(t) == a);
        assert(digits(t, a, b));
        assert(has_frac ==> digits(t, b + 1, c));
        if c < k {
            let e = exp_digits_start(t, c);
            assert(digits(t, e, k));
        }
        assert(number_parts(t, b, c));
    }
}

/// A byte that may follow a backslash on its own: `"` `\` `/` `b` `f` `n` `r` `t`.
pub open spec fn simple_escape(b: u8) -> bool {
    b == 34 || b == 92 || b == 47 || b == 98 || b == 102 || b == 110 || b == 114 || b == 116
}

/// A hexadecimal digit.
pub open spec fn is_hex(b: u8) -> bool {
    (48 <= b <= 57) || (65 <= b <= 70) || (97 <= b <= 102)
}

/// `x` is a sequence of string characters in the syntax of RFC 8259: escapes (`\` with a
/// simple escape letter, or `\u` with four hexadecimal digits) and UTF-8 encoded scalars other
/// than control characters, `"` and `\`.
pub open spec fn string_chars(x: Seq<u8>) -> bool
    decreases x.len(),
{
    if x.len() == 0 {
        true
    } else if x[0] == 92 {
        if x.len() >= 2 && simple_escape(x[1]) {
            string_chars(x.subrange(2, x.len() as int))
        } else if x.len() >= 6 && x[1] == 117 && is_hex(x[2]) && is_hex(x[3]) && is_hex(x[4]) && is_hex(x[5]) {
            string_chars(x.subrange(6, x.len() as int))
        } else {
            false
        }
    } else if valid_first_scalar(x) {
        let v = decode_first_scalar(x);
        &&& v >= 0x20
        &&& v != 0x22
        &&& v != 0x5C
        &&& string_chars(x.subrange(length_of_first_scalar(x), x.len() as int))
    } else {
        false
    }
}

/// The bytes of `c` from `i` up to `j` may stand unescaped in a string.
pub open spec fn raw_bytes(c: Seq<u8>, i: int, j: int) -> bool {
    forall|k: int| i <= k < j ==> #[trigger] c[k] >= 32 && c[k] != 34 && c[k] != 92
}

/// Unescaped bytes are string characters exactly when they are well-formed UTF-8.
proof fn lemma_raw_chars(x: Seq<u8>)
    requires
        raw_bytes(x, 0, x.len() as int),
    ensures
        string_chars(x) == valid_utf8(x),
    decreases x.len(),
{
    if x.len() > 0 {
        assert(x[0] >= 32 && x[0] != 34 && x[0] != 92);
        if valid_first_scalar(x) {
            let w = length_of_first_scalar(x);
            let rest = x.subrange(w, x.len() as int);
            assert(forall|k: int| 0 <= k < rest.len() ==> rest[k] == x[w + k]);
            lemma_raw_chars(rest);
            let b = x[0];
            if b <= 0x7f {
                assert(b & 0x7F == b) by (bit_vector)
                    requires
                        b <= 0x7f,
                ;
            }
        }
    }
}

/// A run of unescaped bytes followed by bytes that cannot continue a UTF-8 scalar: the whole is
/// string characters exactly when both parts are.
proof fn lemma_chars_split(x: Seq<u8>, y: Seq<u8>)
    requires
        raw_bytes(x, 0, x.len() as int),
        y.len() == 0 || !is_continuation_byte(y[0]),
    ensures
        string_chars(x + y) == (string_chars(x) && string_chars(y)),
    decreases x.len(),
{
    if x.len() == 0 {
        assert(x + y =~= y);
    } else {
        let z = x + y;
        assert(z[0] == x[0]);
        assert(x[0] >= 32 && x[0] != 34 && x[0] != 92);
        assert(forall|k: int| 0 <= k < x.len() ==> z[k] == x[k]);
        if x.len() < 4 {
            assert(x.len() < z.len() ==> z[x.len() as int] == y[0]);
        }
        if valid_first_scalar(x) {
            assert(valid_first_scalar(z));
            let w = length_of_first_scalar(x);
            assert(length_of_first_scalar(z) == w);
            assert(decode_first_scalar(z) == decode_first_scalar(x));
            let rx = x.subrange(w, x.len() as int);
            assert(z.subrange(w, z.len() as int) =~= rx + y);
            assert(forall|k: int| 0 <= k < rx.len() ==> rx[k] == x[w + k]);
            lemma_chars_split(rx, y);
        } else {
            assert(!valid_first_scalar(z));
        }
    }
}

/// A `\u` escape at the end of the input reads its hexadecimal digits exactly when they are all there.
proof fn lemma_scan_hex_closed(c: Seq<u8>, p: int, left: nat, acc: u32)
    requires
        0 <= p <= c.len(),
    ensures
        (scan_hex(c, true, p, left, acc) is Unit) == (p + left <= c.len() && forall|k: int|
            p <= k < p + left ==> is_hex(#[trigger] c[k])),
        scan_hex(c, true, p, left, acc) matches EscScan::Unit { end, .. } ==> end == p + left,
    decreases left,
{
    if left > 0 && p < c.len() {
        assert(hex_value(c[p]) is Some == is_hex(c[p]));
        if let Some(dg) = hex_value(c[p]) {
            lemma_scan_hex_closed(c, p + 1, (left - 1) as nat, ((acc * 16) + dg) as u32);
            assert((forall|k: int| p <= k < p + left ==> is_hex(#[trigger] c[k])) == (forall|k: int|
                p + 1 <= k < p + 1 + (left - 1) ==> is_hex(#[trigger] c[k])));
        } else {
            assert(!is_hex(c[p]));
        }
    } else if left > 0 {
        assert(!(p + left <= c.len()));
    }
}

/// A backslash at `i` starts string characters up to `j` exactly when the escape reads and the
/// characters after it run up to `j`.
proof fn lemma_escape_chars(c: Seq<u8>, i: int, j: int)
    requires
        0 <= i < j <= c.len(),
        c[i] == 92,
    ensures
        string_chars(c.subrange(i, j)) == (scan_escape(c, true, i + 1) matches EscScan::Unit { end, .. }
            && end <= j && string_chars(c.subrange(end, j))),
        scan_escape(c, true, i + 1) matches EscScan::Unit { end, .. } ==> i < end <= c.len(),
{
    let x = c.subrange(i, j);
    assert(x[0] == 92);
    if i + 1 < c.len() && c[i + 1] == 117 {
        lemma_scan_hex_closed(c, i + 2, 4, 0);
        assert(scan_escape(c, true, i + 1) == scan_hex(c, true, i + 2, 4, 0));
        if i + 6 <= c.len() {
            assert(forall|k: int| 2 <= k < 6 && k < x.len() ==> x[k] == c[i + k]);
            if j >= i + 6 {
                assert(x.subrange(6, x.len() as int) =~= c.subrange(i + 6, j));
                assert((forall|k: int| i + 2 <= k < i + 6 ==> is_hex(#[trigger] c[k])) == (is_hex(x[2])
                    && is_hex(x[3]) && is_hex(x[4]) && is_hex(x[5])));
            }
        }
    }
    if x.len() >= 2 {
        assert(x[1] == c[i + 1]);
        if simple_escape(x[1]) {
            assert(x.subrange(2, x.len() as int) =~= c.subrange(i + 2, j));
        }
    }
}

/// String characters cannot start with an unescaped quote or control character.
proof fn lemma_chars_bad_start(y: Seq<u8>)
    requires
        y.len() > 0,
        y[0] == 34 || y[0] < 32,
    ensures
        !string_chars(y),
{
    let b = y[0];
    assert(b & 0x7F == b) by (bit_vector)
        requires
            b < 0x80,
    ;
}

/// A quote at `j` closes the string characters that start at `s0`.
pub open spec fn closes_at(c: Seq<u8>, s0: int, j: int) -> bool {
    &&& 0 <= s0 <= j < c.len()
    &&& c[j] == 34
    &&& string_chars(c.subrange(s0, j))
}

/// Splitting the characters from `s0` up to `j` at `i`, where unescaped bytes end and a byte that
/// cannot continue a scalar stands.
proof fn lemma_split_at(c: Seq<u8>, s0: int, i: int, j: int)
    requires
        0 <= s0 <= i < j <= c.len(),
        raw_bytes(c, s0, i),
        !is_continuation_byte(c[i]),
    ensures
        string_chars(c.subrange(s0, j)) == (string_chars(c.subrange(s0, i)) && string_chars(c.subrange(i, j))),
{
    let x = c.subrange(s0, i);
    let y = c.subrange(i, j);
    assert(c.subrange(s0, j) =~= x + y);
    assert(forall|k: int| 0 <= k < x.len() ==> x[k] == c[s0 + k]);
    assert(raw_bytes(x, 0, x.len() as int));
    assert(y[0] == c[i]);
    lemma_chars_split(x, y);
}

/// The scan from index `i` accepts exactly when a quote closes the string characters that start
/// where the characters since the last escape start, and ends at that quote.
spec fn scan_agrees(
    c: Seq<u8>,
    is_key: bool,
    limit: i32,
    i: int,
    esc: bool,
    span: int,
    units: Seq<u16>,
    cols: nat,
) -> bool {
    let s0 = if esc { span } else { 0int };
    let r = scan_from(c, true, is_key, limit, i, esc, span, units, cols);
    &&& (r is Done) == closes_from(c, s0, i)
    &&& r matches StrScan::Done { len, .. } ==> i + 1 <= len && closes_at(c, s0, len - 1)
}

/// A quote at or after `i` closes the string characters that start at `s0`.
pub open spec fn closes_from(c: Seq<u8>, s0: int, i: int) -> bool {
    exists|j: int| i <= j && #[trigger] closes_at(c, s0, j)
}

/// The string scanner, from index `i` with the characters since `s0` not escaped, accepts
/// exactly when a quote closes string characters that start at `s0`, and ends at that quote.
#[verifier::rlimit(40)]
proof fn lemma_scan_from_syntax(
    c: Seq<u8>,
    is_key: bool,
    limit: i32,
    i: int,
    esc: bool,
    span: int,
    units: Seq<u16>,
    cols: nat,
)
    requires
        limit <= 0,
        0 <= (if esc { span } else { 0int }) <= i <= c.len(),
        raw_bytes(c, if esc { span } else { 0int }, i),
    ensures
        scan_agrees(c, is_key, limit, i, esc, span, units, cols),
    decreases c.len() - i,
{
    let s0 = if esc { span } else { 0int };
    let r = scan_from(c, true, is_key, limit, i, esc, span, units, cols);
    if i < c.len() {
        let b = c[i];
        let x = c.subrange(s0, i);
        assert(forall|k: int| 0 <= k < x.len() ==> x[k] == c[s0 + k]);
        assert(raw_bytes(x, 0, x.len() as int));
        lemma_raw_chars(x);
        assert(!is_continuation_byte(b) ==> forall|j: int| i < j <= c.len() ==> string_chars(c.subrange(s0, j)) == (
            string_chars(x) && string_chars(c.subrange(i, j)))) by {
            if !is_continuation_byte(b) {
                assert forall|j: int| i < j <= c.len() implies string_chars(c.subrange(s0, j)) == (
                    string_chars(x) && string_chars(c.subrange(i, j))) by {
                    lemma_split_at(c, s0, i, j);
                }
            }
        }
        if b == 34 {
            assert(esc && i == span ==> x =~= Seq::<u8>::empty());
            assert forall|j: int| i < j && #[trigger] closes_at(c, s0, j) implies false by {
                let y = c.subrange(i, j);
                assert(y[0] == 34);
                lemma_chars_bad_start(y);
            }
            if esc && i == span {
                assert(r is Done);
            } else {
                assert(x == c.subrange(if esc { span } else { 0int }, i));
                assert((r is Done) == (spec_decode(x) is Some));
            }
            assert((r is Done) == string_chars(x));
            assert(r is Done ==> r->len == i + 1);
            if string_chars(x) {
                assert(closes_at(c, s0, i));
            }
            assert(closes_from(c, s0, i) == string_chars(x));
            assert(r matches StrScan::Done { len, .. } ==> i + 1 <= len && closes_at(c, s0, len - 1));
            assert((r is Done) == (closes_from(c, s0, i)));
            assert(scan_agrees(c, is_key, limit, i, esc, span, units, cols));
        } else if b == 92 {
            if !valid_utf8(x) {
                assert(esc ==> i > span);
                assert(spec_decode(x) is None);
                assert(scan_agrees(c, is_key, limit, i, esc, span, units, cols));
            } else {
                assert(spec_decode(x) is Some || (esc && i <= span));
                lemma_escape_chars(c, i, c.len() as int);
                match scan_escape(c, true, i + 1) {
                    EscScan::Unit { unit, end } => {
                        assert(i < end <= c.len());
                        let span0 = if esc { span } else { 0int };
                        let units0 = if esc { units } else { Seq::<u16>::empty() };
                        let h = if i > span0 { spec_decode(c.subrange(span0, i))->0 } else { Seq::<char>::empty() };
                        let units1 = units0 + utf16_of(h);
                        let cols1 = cols + utf16_of(h).len();
                        let u2 = units1.push(unit);
                        let c2 = (cols1 + (end - i)) as nat;
                        assert(r == scan_from(c, true, is_key, limit, end, true, end, u2, c2));
                        lemma_scan_from_syntax(c, is_key, limit, end, true, end, u2, c2);
                        if closes_from(c, s0, i) {
                            let j = choose|j: int| i <= j && #[trigger] closes_at(c, s0, j);
                            lemma_escape_chars(c, i, j);
                            assert(closes_at(c, end, j));
                            assert(closes_from(c, end, end));
                        }
                        if closes_from(c, end, end) {
                            let j = choose|j: int| end <= j && #[trigger] closes_at(c, end, j);
                            lemma_escape_chars(c, i, j);
                            assert(closes_at(c, s0, j));
                        }
                        if r is Done {
                            lemma_escape_chars(c, i, r->len - 1);
                        }
                        assert(scan_agrees(c, is_key, limit, i, esc, span, units, cols));
                    },
                    _ => {
                        assert forall|j: int| i <= j && #[trigger] closes_at(c, s0, j) implies false by {
                            lemma_escape_chars(c, i, j);
                        }
                    },
                }
            }
        } else if b < 32 {
            assert forall|j: int| i <= j && #[trigger] closes_at(c, s0, j) implies false by {
                let y = c.subrange(i, j);
                assert(y[0] == b);
                lemma_chars_bad_start(y);
            }
        } else {
            lemma_scan_from_syntax(c, is_key, limit, i + 1, esc, span, units, cols);
            assert forall|j: int| i <= j && #[trigger] closes_at(c, s0, j) implies i + 1 <= j by {
                assert(c[j] == 34);
            }
            assert(r == scan_from(c, true, is_key, limit, i + 1, esc, span, units, cols));
            assert(scan_agrees(c, is_key, limit, i, esc, span, units, cols));
        }
    }
}

/// When a quote at `j` closes the string characters, the scan from `i` ends at that quote.
proof fn lemma_scan_from_closes(
    c: Seq<u8>,
    is_key: bool,
    limit: i32,
    i: int,
    esc: bool,
    span: int,
    units: Seq<u16>,
    cols: nat,
    j: int,
)
    requires
        limit <= 0,
        0 <= (if esc { span } else { 0int }) <= i <= j,
        raw_bytes(c, if esc { span } else { 0int }, i),
        closes_at(c, if esc { span } else { 0int }, j),
    ensures
        scan_from(c, true, is_key, limit, i, esc, span, units, cols) is Done,
        scan_from(c, true, is_key, limit, i, esc, span, units, cols)->len == j + 1,
    decreases c.len() - i,
{
    let s0 = if esc { span } else { 0int };
    let r = scan_from(c, true, is_key, limit, i, esc, span, units, cols);
    lemma_scan_from_syntax(c, is_key, limit, i, esc, span, units, cols);
    let b = c[i];
    let x = c.subrange(s0, i);
    assert(forall|k: int| 0 <= k < x.len() ==> x[k] == c[s0 + k]);
    assert(raw_bytes(x, 0, x.len() as int));
    lemma_raw_chars(x);
    if b == 34 {
        if j > i {
            lemma_split_at(c, s0, i, j);
            let y = c.subrange(i, j);
            assert(y[0] == 34);
            lemma_chars_bad_start(y);
        }
    } else if b == 92 {
        assert(j != i);
        lemma_split_at(c, s0, i, j);
        lemma_escape_chars(c, i, j);
        match scan_escape(c, true, i + 1) {
            EscScan::Unit { unit, end } => {
                let span0 = if esc { span } else { 0int };
                let units0 = if esc { units } else { Seq::<u16>::empty() };
                let h = if i > span0 { spec_decode(c.subrange(span0, i))->0 } else { Seq::<char>::empty() };
                let units1 = units0 + utf16_of(h);
                let cols1 = cols + utf16_of(h).len();
                let u2 = units1.push(unit);
                let c2 = (cols1 + (end - i)) as nat;
                assert(spec_decode(x) is Some || (esc && i <= span));
                assert(r == scan_from(c, true, is_key, limit, end, true, end, u2, c2));
                lemma_scan_from_closes(c, is_key, limit, end, true, end, u2, c2, j);
            },
            _ => {},
        }
    } else if b < 32 {
        assert(j != i);
        lemma_split_at(c, s0, i, j);
        let y = c.subrange(i, j);
        assert(y[0] == b);
        lemma_chars_bad_start(y);
    } else {
        assert(j != i);
        lemma_scan_from_closes(c, is_key, limit, i + 1, esc, span, units, cols, j);
    }
}

/// The string scanner (the end of the input being signaled, no length limit) accepts the bytes
/// after an opening quote exactly when a quote closes string characters in the syntax of
/// RFC 8259 that start right after the opening quote, and the token then ends at that quote.
pub proof fn law_string_syntax(c: Seq<u8>, is_key: bool, limit: i32)
    requires
        limit <= 0,
    ensures
        (scan_string(c, true, is_key, limit) is Done) == closes_from(c, 0, 0),
        forall|j: int| #[trigger] closes_at(c, 0, j) ==> (scan_string(c, true, is_key, limit) is Done
            && scan_string(c, true, is_key, limit)->len == j + 1),
        scan_string(c, true, is_key, limit) matches StrScan::Done { len, .. } ==> 1 <= len && closes_at(
            c,
            0,
            len - 1,
        ),
{
    lemma_scan_from_syntax(c, is_key, limit, 0, false, 0, seq![], 0);
    assert forall|j: int| #[trigger] closes_at(c, 0, j) implies (scan_string(c, true, is_key, limit) is Done
        && scan_string(c, true, is_key, limit)->len == j + 1) by {
        lemma_scan_from_closes(c, is_key, limit, 0, false, 0, seq![], 0, j);
    }
}

/// An accepted exponent stage that starts at an exponent mark gives a number with an exponent,
/// negative exactly when a minus sign follows the mark.
proof fn lemma_exponent_stage_sign(
    d: Seq<u8>,
    max_len: i32,
    neg: bool,
    int_end: int,
    has_frac: bool,
    frac_start: int,
    c: int,
)
    requires
        0 <= c < d.len(),
        d[c] == 101 || d[c] == 69,
    ensures
        scan_exponent(d, true, max_len, neg, int_end, has_frac, frac_start, c) matches NumScan::Done {
            num,
            ..
        } ==> (num matches NumberView::Float(f) && f.has_exponent && f.exp_negative == (c + 1 < d.len()
            && d[c + 1] == 45)),
{
}

/// The exponent of a number token is negative exactly when a minus sign follows its exponent
/// mark, whichever case the mark (`e` or `E`) has: any `e` or `E` inside an accepted number token
/// is its exponent mark, and the number is reported with an exponent whose sign is that of the
/// byte after the mark.
pub proof fn law_exponent_sign(d: Seq<u8>, closed: bool, max_len: i32, q: int)
    requires
        d.len() > 0,
        0 <= q,
        scan_number(d, closed, max_len) matches NumScan::Done { len, .. } && q < len,
        d[q] == 101 || d[q] == 69,
    ensures
        q + 1 < d.len(),
        scan_number(d, closed, max_len) matches NumScan::Done { num, .. } && (num matches NumberView::Float(
            f,
        ) && f.has_exponent && f.exp_negative == (d[q + 1] == 45)),
{
    if !closed {
        crate::acceptance::lemma_number_closing(d, max_len);
    }
    assert(scan_number(d, true, max_len) == scan_number(d, closed, max_len));
    lemma_exponent_sign_closed(d, max_len, q);
}

/// The exponent sign of a number token scanned at the end of the input.
#[verifier::rlimit(50)]
proof fn lemma_exponent_sign_closed(d: Seq<u8>, max_len: i32, q: int)
    requires
        d.len() > 0,
        0 <= q,
        scan_number(d, true, max_len) matches NumScan::Done { len, .. } && q < len,
        d[q] == 101 || d[q] == 69,
    ensures
        q + 1 < d.len(),
        scan_number(d, true, max_len) matches NumScan::Done { num, .. } && (num matches NumberView::Float(
            f,
        ) && f.has_exponent && f.exp_negative == (d[q + 1] == 45)),
{
    let r = scan_number(d, true, max_len);
    let k = r->len as int;
    let neg = d[0] == 45;
    let a: int = if neg { 1 } else { 0 };
    assert(!(neg && d.len() < 2));
    let c0 = d[a];
    assert(is_digit(c0));
    let b: int = if c0 == 48 { a + 1 } else { digit_end(d, a + 1) };
    if c0 != 48 {
        lemma_digit_end(d, a + 1);
    }
    assert(digits(d, a, b));
    assert(r == scan_fraction(d, true, max_len, neg, b));
    assert(b == d.len() || !is_digit(d[b]));
    lemma_fraction_stage(d, max_len, neg, b);
    let has_frac = b < d.len() && d[b] == 46;
    let c: int = if has_frac { digit_end(d, b + 2) } else { b };
    if has_frac {
        lemma_digit_end(d, b + 2);
    }
    let fs = if has_frac { b + 1 } else { b };
    assert(r == scan_exponent(d, true, max_len, neg, b, has_frac, fs, c));
    lemma_exponent_stage(d, max_len, neg, b, has_frac, fs, c);
    // Every byte of the token before `c` is a digit, the minus sign, or the decimal point.
    if q < c {
        if q < a {
            assert(d[q] == 45);
        } else if q < b {
            assert(is_digit(d[q]));
        } else if q == b {
            assert(d[q] == 46);
        } else {
            assert(is_digit(d[q]));
        }
        assert(false);
    }
    let e = if c + 1 < d.len() && (d[c + 1] == 43 || d[c + 1] == 45) { c + 2 } else { c + 1 };
    if q > c {
        if q >= e {
            assert(is_digit(d[q]));
        } else {
            assert(d[q] == 43 || d[q] == 45);
        }
        assert(false);
    }
    assert(q == c);
    lemma_exponent_stage_sign(d, max_len, neg, b, has_frac, fs, c);
}

} // verus!
