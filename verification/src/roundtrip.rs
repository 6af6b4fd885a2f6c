//! Writing then reading: what the writer writes for a string is read back by the tokenizer
//! as the same string.

use vstd::prelude::*;
use vstd::utf8::{encode_scalar, encode_utf8, has_width_1_encoding};
use crate::grammar::{
    compose_number, digit_end, digits_value, hex_value, is_digit, law_integer_kind, scan_escape, scan_from, scan_hex,
    scan_number, scan_string, EscScan, NumScan, StrScan,
};
use crate::number::{nat_digits, spec_decimal, NumberView};
use crate::text::{spec_decode, is_high_surrogate, is_low_surrogate, pair_scalar, utf16_lossy, utf16_of, utf16_of_char};
use crate::writer::{escape_byte, escape_bytes, hex_digit};

verus! {

/// A byte that the writer copies as it is and the tokenizer passes over inside a string.
pub open spec fn plain_byte(b: u8) -> bool {
    b >= 32 && b != 34 && b != 92
}

/// A character that the writer escapes: a control character, a quote or a backslash.
pub open spec fn escaped_char(c: char) -> bool {
    (c as u32) < 32 || c as u32 == 34 || c as u32 == 92
}

/// The bytes the writer writes for one character of a string.
pub open spec fn written_char(c: char) -> Seq<u8> {
    if escaped_char(c) {
        escape_byte(c as u32 as u8)
    } else {
        encode_scalar(c as u32)
    }
}

/// The bytes the writer writes for the characters of a string (between the quotes).
pub open spec fn written_chars(x: Seq<char>) -> Seq<u8>
    decreases x.len(),
{
    if x.len() == 0 {
        seq![]
    } else {
        written_chars(x.drop_last()) + written_char(x.last())
    }
}

proof fn lemma_escape_bytes_add(a: Seq<u8>, b: Seq<u8>)
    ensures
        escape_bytes(a + b) == escape_bytes(a) + escape_bytes(b),
    decreases b.len(),
{
    if b.len() == 0 {
        assert(a + b =~= a);
        assert(escape_bytes(a) + escape_bytes(b) =~= escape_bytes(a));
    } else {
        assert((a + b).drop_last() =~= a + b.drop_last());
        lemma_escape_bytes_add(a, b.drop_last());
        assert(escape_bytes(a) + escape_bytes(b.drop_last()) + escape_byte(b.last()) =~= escape_bytes(a)
            + (escape_bytes(b.drop_last()) + escape_byte(b.last())));
    }
}

proof fn lemma_escape_plain(b: Seq<u8>)
    requires
        forall|k: int| 0 <= k < b.len() ==> plain_byte(#[trigger] b[k]),
    ensures
        escape_bytes(b) == b,
    decreases b.len(),
{
    if b.len() > 0 {
        assert(forall|k: int| 0 <= k < b.drop_last().len() ==> b.drop_last()[k] == b[k]);
        lemma_escape_plain(b.drop_last());
        assert(plain_byte(b[b.len() - 1]));
        assert(b.drop_last() + seq![b.last()] =~= b);
    }
}

proof fn lemma_encode_utf8_add(a: Seq<char>, b: Seq<char>)
    ensures
        encode_utf8(a + b) == encode_utf8(a) + encode_utf8(b),
    decreases a.len(),
{
    if a.len() > 0 {
        assert((a + b).drop_first() =~= a.drop_first() + b);
        assert((a + b)[0] == a[0]);
        lemma_encode_utf8_add(a.drop_first(), b);
        assert(encode_scalar(a[0] as u32) + (encode_utf8(a.drop_first()) + encode_utf8(b)) =~= (
        encode_scalar(a[0] as u32) + encode_utf8(a.drop_first())) + encode_utf8(b));
    } else {
        assert(a + b =~= b);
        assert(encode_utf8(a) + encode_utf8(b) =~= encode_utf8(b));
    }
}

/// The encoding of the last character comes last.
proof fn lemma_encode_utf8_last(x: Seq<char>)
    requires
        x.len() > 0,
    ensures
        encode_utf8(x) == encode_utf8(x.drop_last()) + encode_scalar(x.last() as u32),
{
    assert(x.drop_last() + seq![x.last()] =~= x);
    lemma_encode_utf8_add(x.drop_last(), seq![x.last()]);
    let one = seq![x.last()];
    assert(one.drop_first() =~= Seq::<char>::empty());
    assert(encode_utf8(one.drop_first()) =~= Seq::<u8>::empty());
    assert(one[0] == x.last());
    assert(encode_utf8(one) =~= encode_scalar(x.last() as u32));
}

/// The bytes of the UTF-8 encoding of a character that needs two or more bytes are at least
/// `0x80`; a one-byte encoding is the character's value.
proof fn lemma_encode_scalar_bytes(c: char)
    ensures
        has_width_1_encoding(c as u32) ==> encode_scalar(c as u32) == seq![c as u32 as u8],
        !has_width_1_encoding(c as u32) ==> forall|k: int|
            0 <= k < encode_scalar(c as u32).len() ==> #[trigger] encode_scalar(c as u32)[k] >= 0x80,
{
    let v = c as u32;
    if has_width_1_encoding(v) {
        assert(v <= 0x7F ==> (v & 0x7F) as u8 == v as u8) by (bit_vector);
    } else {
        assert(forall|y: u8| #![trigger (0xC0u8 | y)] (0xC0u8 | y) >= 0x80) by (bit_vector);
        assert(forall|y: u8| #![trigger (0xE0u8 | y)] (0xE0u8 | y) >= 0x80) by (bit_vector);
        assert(forall|y: u8| #![trigger (0xF0u8 | y)] (0xF0u8 | y) >= 0x80) by (bit_vector);
        assert(forall|y: u8| #![trigger (0x80u8 | y)] (0x80u8 | y) >= 0x80) by (bit_vector);
    }
}

/// Escaping the encoding of a character gives what the writer writes for it.
proof fn lemma_escape_char(c: char)
    ensures
        escape_bytes(encode_scalar(c as u32)) == written_char(c),
{
    lemma_encode_scalar_bytes(c);
    let v = c as u32;
    if has_width_1_encoding(v) {
        let one = seq![v as u8];
        assert(one.drop_last() =~= Seq::<u8>::empty());
        assert(escape_bytes(one.drop_last()) =~= Seq::<u8>::empty());
        assert(one.last() == v as u8);
        assert(escape_bytes(one) =~= escape_byte(v as u8));
    } else {
        lemma_escape_plain(encode_scalar(v));
    }
}

/// The writer's escaping of the UTF-8 encoding of a string, character by character.
pub proof fn lemma_escape_encoding(x: Seq<char>)
    ensures
        escape_bytes(encode_utf8(x)) == written_chars(x),
    decreases x.len(),
{
    if x.len() > 0 {
        lemma_encode_utf8_last(x);
        lemma_escape_bytes_add(encode_utf8(x.drop_last()), encode_scalar(x.last() as u32));
        lemma_escape_encoding(x.drop_last());
        lemma_escape_char(x.last());
    } else {
        assert(encode_utf8(x) =~= Seq::<u8>::empty());
    }
}

proof fn lemma_utf16_add(a: Seq<char>, b: Seq<char>)
    ensures
        utf16_of(a + b) == utf16_of(a) + utf16_of(b),
    decreases b.len(),
{
    if b.len() == 0 {
        assert(a + b =~= a);
        assert(utf16_of(a) + utf16_of(b) =~= utf16_of(a));
    } else {
        assert((a + b).drop_last() =~= a + b.drop_last());
        lemma_utf16_add(a, b.drop_last());
        assert(utf16_of(a) + utf16_of(b.drop_last()) + utf16_of_char(b.last()) =~= utf16_of(a) + (
        utf16_of(b.drop_last()) + utf16_of_char(b.last())));
    }
}

proof fn lemma_utf16_one(c: char)
    ensures
        utf16_of(seq![c]) == utf16_of_char(c),
{
    let one = seq![c];
    assert(one.drop_last() =~= Seq::<char>::empty());
    assert(utf16_of(one.drop_last()) =~= Seq::<u16>::empty());
    assert(utf16_of(one) =~= utf16_of_char(c));
}

/// Decoding the UTF-16 encoding of a string gives the string back.
pub proof fn lemma_utf16_roundtrip(x: Seq<char>)
    ensures
        utf16_lossy(utf16_of(x)) == x,
    decreases x.len(),
{
    if x.len() == 0 {
        assert(utf16_of(x) =~= Seq::<u16>::empty());
    } else {
        let c = x[0];
        let rest = x.drop_first();
        assert(seq![c] + rest =~= x);
        lemma_utf16_add(seq![c], rest);
        lemma_utf16_one(c);
        lemma_utf16_roundtrip(rest);
        let units = utf16_of(x);
        let tail = utf16_of(rest);
        let v = c as u32;
        vstd::utf8::char_is_scalar(c);
        if v < 0x10000 {
            let u = v as u16;
            assert(u as u32 == v);
            assert(units == seq![u] + tail);
            assert(units[0] == u);
            assert(!(0xD800 <= u <= 0xDFFF));
            assert(units.subrange(1, units.len() as int) =~= tail);
            vstd::utf8::char_u32_cast(c, v);
            assert(utf16_lossy(units) =~= seq![c] + rest);
        } else {
            let w = (v - 0x10000) as int;
            assert(0 <= w <= 0xFFFFF);
            assert(w / 1024 <= 1023 && w % 1024 <= 1023 && (w / 1024) * 1024 + w % 1024 == w) by (nonlinear_arith)
                requires
                    0 <= w <= 0xFFFFF,
            ;
            let hi = (0xD800 + w / 1024) as u16;
            let lo = (0xDC00 + w % 1024) as u16;
            assert(units == seq![hi, lo] + tail);
            assert(units[0] == hi && units[1] == lo);
            assert(is_high_surrogate(hi) && is_low_surrogate(lo));
            assert(pair_scalar(hi, lo) == v);
            assert(units.subrange(2, units.len() as int) =~= tail);
            vstd::utf8::char_u32_cast(c, v);
            assert(utf16_lossy(units) =~= seq![c] + rest);
        }
    }
}

proof fn lemma_written_add(a: Seq<char>, b: Seq<char>)
    ensures
        written_chars(a + b) == written_chars(a) + written_chars(b),
    decreases b.len(),
{
    if b.len() == 0 {
        assert(a + b =~= a);
        assert(written_chars(a) + written_chars(b) =~= written_chars(a));
    } else {
        assert((a + b).drop_last() =~= a + b.drop_last());
        lemma_written_add(a, b.drop_last());
        assert(written_chars(a) + written_chars(b.drop_last()) + written_char(b.last()) =~= written_chars(a)
            + (written_chars(b.drop_last()) + written_char(b.last())));
    }
}

/// Characters that are not escaped are written as their UTF-8 encoding.
proof fn lemma_written_unescaped(y: Seq<char>)
    requires
        forall|k: int| 0 <= k < y.len() ==> !escaped_char(#[trigger] y[k]),
    ensures
        written_chars(y) == encode_utf8(y),
    decreases y.len(),
{
    if y.len() == 0 {
        assert(encode_utf8(y) =~= Seq::<u8>::empty());
    } else {
        assert(forall|k: int| 0 <= k < y.drop_last().len() ==> y.drop_last()[k] == y[k]);
        lemma_written_unescaped(y.drop_last());
        lemma_encode_utf8_last(y);
        assert(!escaped_char(y[y.len() - 1]));
    }
}

/// The bytes written for a character that is not escaped are plain.
proof fn lemma_unescaped_plain(c: char)
    requires
        !escaped_char(c),
    ensures
        forall|k: int| 0 <= k < written_char(c).len() ==> plain_byte(#[trigger] written_char(c)[k]),
{
    lemma_encode_scalar_bytes(c);
    let v = c as u32;
    if has_width_1_encoding(v) {
        assert((v as u8) as u32 == v);
    }
}

/// The length of the prefix of `p` up to and including its last escaped character.
pub open spec fn esc_prefix(p: Seq<char>) -> nat
    decreases p.len(),
{
    if p.len() == 0 {
        0
    } else if escaped_char(p.last()) {
        p.len()
    } else {
        esc_prefix(p.drop_last())
    }
}

proof fn lemma_esc_prefix(p: Seq<char>)
    ensures
        esc_prefix(p) <= p.len(),
        forall|k: int| esc_prefix(p) <= k < p.len() ==> !escaped_char(#[trigger] p[k]),
    decreases p.len(),
{
    if p.len() > 0 && !escaped_char(p.last()) {
        lemma_esc_prefix(p.drop_last());
        assert(forall|k: int| 0 <= k < p.drop_last().len() ==> p.drop_last()[k] == p[k]);
    }
}

/// Scanning passes over plain bytes.
proof fn lemma_scan_plain(
    c: Seq<u8>,
    closed: bool,
    is_key: bool,
    limit: i32,
    i: int,
    j: int,
    esc: bool,
    span: int,
    units: Seq<u16>,
    cols: nat,
)
    requires
        0 <= i <= j <= c.len(),
        forall|k: int| i <= k < j ==> plain_byte(#[trigger] c[k]),
    ensures
        scan_from(c, closed, is_key, limit, i, esc, span, units, cols) == scan_from(
            c,
            closed,
            is_key,
            limit,
            j,
            esc,
            span,
            units,
            cols,
        ),
    decreases j - i,
{
    if i < j {
        assert(plain_byte(c[i]));
        lemma_scan_plain(c, closed, is_key, limit, i + 1, j, esc, span, units, cols);
    }
}

proof fn lemma_hex_digit(n: u8)
    requires
        n < 16,
    ensures
        hex_value(hex_digit(n)) == Some(n as u32),
{
}

/// An escape the writer writes is read as the escaped character's value.
proof fn lemma_scan_written_escape(c: Seq<u8>, closed: bool, i: int, ch: char)
    requires
        escaped_char(ch),
        0 <= i,
        i + written_char(ch).len() <= c.len(),
        c.subrange(i, i + written_char(ch).len()) == written_char(ch),
    ensures
        c[i] == 92,
        scan_escape(c, closed, i + 1) == (EscScan::Unit {
            unit: ch as u32 as u16,
            end: i + written_char(ch).len(),
        }),
{
    let w = written_char(ch);
    let b = ch as u32 as u8;
    assert(b as u32 == ch as u32);
    assert(forall|k: int| 0 <= k < w.len() ==> c[i + k] == #[trigger] w[k]) by {
        assert forall|k: int| 0 <= k < w.len() implies c[i + k] == #[trigger] w[k] by {
            assert(c.subrange(i, i + w.len())[k] == c[i + k]);
        }
    }
    assert(c[i] == w[0]);
    assert(c[i + 1] == w[1]);
    if !(b == 34 || b == 92 || b == 8 || b == 12 || b == 10 || b == 13 || b == 9) {
        assert(c[i + 2] == w[2]);
        assert(c[i + 3] == w[3]);
        assert(c[i + 4] == w[4]);
        assert(c[i + 5] == w[5]);
        lemma_hex_digit(0);
        lemma_hex_digit(b / 16);
        lemma_hex_digit(b % 16);
        let hi = (b / 16) as u32;
        let v = b as u32;
        assert(hi * 16 + (b % 16) as u32 == v);
        assert(scan_hex(c, closed, i + 6, 0, v) == (EscScan::Unit { unit: v as u16, end: i + 6 }));
        assert(scan_hex(c, closed, i + 5, 1, hi) == scan_hex(c, closed, i + 6, 0, v));
        assert(scan_hex(c, closed, i + 4, 2, 0) == scan_hex(c, closed, i + 5, 1, hi));
        assert(scan_hex(c, closed, i + 3, 3, 0) == scan_hex(c, closed, i + 4, 2, 0));
        assert(scan_hex(c, closed, i + 2, 4, 0) == scan_hex(c, closed, i + 3, 3, 0));
        assert((b / 16) as u32 * 16 + (b % 16) as u32 == b as u32);
    }
}

proof fn lemma_written_len(y: Seq<char>)
    ensures
        written_chars(y).len() >= y.len(),
    decreases y.len(),
{
    if y.len() > 0 {
        lemma_written_len(y.drop_last());
        vstd::utf8::char_is_scalar(y.last());
    }
}

/// The scan of the written form of `x` (followed by a quote and `rest`), from the point where
/// the characters of `x` before index `k` have been read.
spec fn walk(x: Seq<char>, k: int, rest: Seq<u8>, closed: bool, is_key: bool, limit: i32, cols: nat) -> StrScan {
    let c = written_chars(x) + seq![34u8] + rest;
    let p = x.subrange(0, k);
    let e = esc_prefix(p) as int;
    let esc = e > 0;
    let span = if esc {
        written_chars(p.subrange(0, e)).len() as int
    } else {
        0
    };
    let units = if esc {
        utf16_of(p.subrange(0, e))
    } else {
        Seq::<u16>::empty()
    };
    scan_from(c, closed, is_key, limit, written_chars(p).len() as int, esc, span, units, cols)
}

/// Where the scan stands after the characters of `x` before index `k`: the bytes since the last
/// escape decode to the characters since the last escape, and the units gathered so far
/// together with those characters make the UTF-16 form of what was read.
proof fn lemma_walk_head(x: Seq<char>, k: int, rest: Seq<u8>)
    requires
        0 <= k <= x.len(),
    ensures
        ({
            let c = written_chars(x) + seq![34u8] + rest;
            let p = x.subrange(0, k);
            let e = esc_prefix(p) as int;
            let esc = e > 0;
            let i = written_chars(p).len() as int;
            let span0 = if esc {
                written_chars(p.subrange(0, e)).len() as int
            } else {
                0
            };
            let units0 = if esc {
                utf16_of(p.subrange(0, e))
            } else {
                Seq::<u16>::empty()
            };
            let post = p.subrange(e, p.len() as int);
            &&& 0 <= span0 <= i <= written_chars(x).len()
            &&& (if i > span0 {
                spec_decode(c.subrange(span0, i))
            } else {
                Some(Seq::<char>::empty())
            }) == Some(post)
            &&& units0 + utf16_of(post) == utf16_of(p)
            &&& written_chars(x) == written_chars(p) + written_chars(x.subrange(k, x.len() as int))
        }),
{
    let c = written_chars(x) + seq![34u8] + rest;
    let p = x.subrange(0, k);
    let post_x = x.subrange(k, x.len() as int);
    assert(p + post_x =~= x);
    lemma_written_add(p, post_x);
    lemma_esc_prefix(p);
    let e = esc_prefix(p) as int;
    let esc = e > 0;
    let i = written_chars(p).len() as int;
    let pre = p.subrange(0, e);
    let post = p.subrange(e, p.len() as int);
    assert(pre + post =~= p);
    lemma_written_add(pre, post);
    lemma_utf16_add(pre, post);
    assert(forall|j: int| 0 <= j < post.len() ==> post[j] == p[e + j]);
    lemma_written_unescaped(post);
    lemma_written_len(post);
    let span0 = if esc {
        written_chars(pre).len() as int
    } else {
        0
    };
    if !esc {
        assert(pre =~= Seq::<char>::empty());
        assert(written_chars(pre) =~= Seq::<u8>::empty());
        assert(utf16_of(pre) =~= Seq::<u16>::empty());
        assert(Seq::<u16>::empty() + utf16_of(post) =~= utf16_of(post));
    }
    assert(c.subrange(span0, i) =~= encode_utf8(post));
    vstd::utf8::encode_utf8_valid_utf8(post);
    vstd::utf8::encode_utf8_decode_utf8(post);
    if i == span0 {
        assert(post =~= Seq::<char>::empty());
    }
}

/// At the closing quote the scan gives the whole string.
proof fn lemma_walk_end(x: Seq<char>, rest: Seq<u8>, closed: bool, is_key: bool, limit: i32, cols: nat)
    requires
        limit <= 0 || x.len() <= limit,
    ensures
        walk(x, x.len() as int, rest, closed, is_key, limit, cols) matches StrScan::Done { len, value, .. }
            && len == written_chars(x).len() + 1 && value == x,
{
    lemma_walk_head(x, x.len() as int, rest);
    let c = written_chars(x) + seq![34u8] + rest;
    let big_l = written_chars(x).len() as int;
    let p = x.subrange(0, x.len() as int);
    assert(p =~= x);
    assert(c[big_l] == 34);
    lemma_esc_prefix(p);
    let e = esc_prefix(p) as int;
    if e == 0 {
        let post = p.subrange(0, p.len() as int);
        assert(post =~= x);
    } else {
        lemma_utf16_roundtrip(x);
    }
}

/// A character that is not escaped is passed over.
proof fn lemma_walk_plain(x: Seq<char>, k: int, rest: Seq<u8>, closed: bool, is_key: bool, limit: i32, cols: nat)
    requires
        0 <= k < x.len(),
        !escaped_char(x[k]),
        limit <= 0 || x.len() <= limit,
    ensures
        walk(x, k, rest, closed, is_key, limit, cols) == walk(x, k + 1, rest, closed, is_key, limit, cols),
{
    lemma_walk_head(x, k + 1, rest);
    let c = written_chars(x) + seq![34u8] + rest;
    let p = x.subrange(0, k);
    let ch = x[k];
    let p1 = x.subrange(0, k + 1);
    assert(p1 =~= p.push(ch));
    assert(p1.drop_last() =~= p);
    let w = written_char(ch);
    let i = written_chars(p).len() as int;
    assert(written_chars(p1) == written_chars(p) + w);
    assert(c.subrange(i, i + w.len()) =~= w);
    lemma_unescaped_plain(ch);
    assert forall|j: int| i <= j < i + w.len() implies plain_byte(#[trigger] c[j]) by {
        assert(c.subrange(i, i + w.len())[j - i] == c[j]);
    }
    lemma_esc_prefix(p);
    let e = esc_prefix(p) as int;
    let esc = e > 0;
    let span = if esc {
        written_chars(p.subrange(0, e)).len() as int
    } else {
        0
    };
    let units = if esc {
        utf16_of(p.subrange(0, e))
    } else {
        Seq::<u16>::empty()
    };
    lemma_scan_plain(c, closed, is_key, limit, i, i + w.len(), esc, span, units, cols);
    assert(esc_prefix(p1) == esc_prefix(p));
    assert(p1.subrange(0, e) =~= p.subrange(0, e));
}

/// An escaped character is read through its escape.
proof fn lemma_walk_escape(x: Seq<char>, k: int, rest: Seq<u8>, closed: bool, is_key: bool, limit: i32, cols: nat) -> (cols2: nat)
    requires
        0 <= k < x.len(),
        escaped_char(x[k]),
        limit <= 0 || x.len() <= limit,
    ensures
        walk(x, k, rest, closed, is_key, limit, cols) == walk(x, k + 1, rest, closed, is_key, limit, cols2),
{
    lemma_walk_head(x, k, rest);
    lemma_walk_head(x, k + 1, rest);
    let c = written_chars(x) + seq![34u8] + rest;
    let p = x.subrange(0, k);
    let ch = x[k];
    let p1 = x.subrange(0, k + 1);
    assert(p1 =~= p.push(ch));
    assert(p1.drop_last() =~= p);
    let w = written_char(ch);
    let i = written_chars(p).len() as int;
    assert(written_chars(p1) == written_chars(p) + w);
    assert(c.subrange(i, i + w.len()) =~= w);
    lemma_scan_written_escape(c, closed, i, ch);
    lemma_esc_prefix(p);
    let e = esc_prefix(p) as int;
    let post = p.subrange(e, p.len() as int);
    assert(esc_prefix(p1) == k + 1);
    assert(p1.subrange(0, k + 1) =~= p1);
    lemma_utf16_add(p, seq![ch]);
    lemma_utf16_one(ch);
    assert(p + seq![ch] =~= p1);
    assert((ch as u32) < 0x10000);
    assert(utf16_of_char(ch) =~= seq![ch as u32 as u16]);
    assert(utf16_of(p).push(ch as u32 as u16) =~= utf16_of(p1));
    (cols + utf16_of(post).len() + w.len()) as nat
}

/// The scan of a written string, from the point where the characters of `x` before index `k`
/// have been read, ends at the closing quote with the whole string as its value.
proof fn lemma_scan_walk(x: Seq<char>, k: int, rest: Seq<u8>, closed: bool, is_key: bool, limit: i32, cols: nat)
    requires
        0 <= k <= x.len(),
        limit <= 0 || x.len() <= limit,
    ensures
        walk(x, k, rest, closed, is_key, limit, cols) matches StrScan::Done { len, value, .. }
            && len == written_chars(x).len() + 1 && value == x,
    decreases x.len() - k,
{
    if k == x.len() {
        lemma_walk_end(x, rest, closed, is_key, limit, cols);
    } else if !escaped_char(x[k]) {
        lemma_walk_plain(x, k, rest, closed, is_key, limit, cols);
        lemma_scan_walk(x, k + 1, rest, closed, is_key, limit, cols);
    } else {
        let cols2 = lemma_walk_escape(x, k, rest, closed, is_key, limit, cols);
        lemma_scan_walk(x, k + 1, rest, closed, is_key, limit, cols2);
    }
}

/// What the writer writes for a string is read back as the same string: scanning the escaped
/// UTF-8 bytes of `x` followed by a closing quote (and anything after it) ends at that quote
/// with `x` as its value, when `x` has no more characters than the length limit.
pub proof fn law_string_read_back(x: Seq<char>, rest: Seq<u8>, closed: bool, is_key: bool, limit: i32)
    requires
        limit <= 0 || x.len() <= limit,
    ensures
        scan_string(escape_bytes(encode_utf8(x)) + seq![34u8] + rest, closed, is_key, limit) matches StrScan::Done {
            len,
            value,
            ..
        } && len == escape_bytes(encode_utf8(x)).len() + 1 && value == x,
{
    lemma_escape_encoding(x);
    lemma_scan_walk(x, 0, rest, closed, is_key, limit, 0);
    let p = x.subrange(0, 0);
    assert(p =~= Seq::<char>::empty());
    assert(written_chars(p) =~= Seq::<u8>::empty());
    assert(esc_prefix(p) == 0);
}

/// The decimal digits of a natural number are digits, the first one is `0` only for zero, and
/// their value is the number.
pub(crate) proof fn lemma_nat_digits(n: nat)
    ensures
        nat_digits(n).len() >= 1,
        forall|k: int| 0 <= k < nat_digits(n).len() ==> is_digit(#[trigger] nat_digits(n)[k]),
        n > 0 ==> nat_digits(n)[0] != 48,
        digits_value(nat_digits(n)) == n,
    decreases n,
{
    let ds = nat_digits(n);
    if n < 10 {
        assert(ds.drop_last() =~= Seq::<u8>::empty());
        assert(digits_value(ds.drop_last()) == 0);
    } else {
        lemma_nat_digits(n / 10);
        assert(ds.drop_last() =~= nat_digits(n / 10));
        assert(ds[0] == nat_digits(n / 10)[0]);
        assert forall|k: int| 0 <= k < ds.len() implies is_digit(#[trigger] ds[k]) by {
            if k < ds.len() - 1 {
                assert(ds[k] == nat_digits(n / 10)[k]);
            }
        }
        assert((n / 10) * 10 + n % 10 == n);
    }
}

pub(crate) proof fn lemma_digit_block(d: Seq<u8>, i: int, end: int)
    requires
        0 <= i <= end <= d.len(),
        forall|k: int| i <= k < end ==> is_digit(#[trigger] d[k]),
        end == d.len() || !is_digit(d[end]),
    ensures
        digit_end(d, i) == end,
    decreases end - i,
{
    if i < end {
        lemma_digit_block(d, i + 1, end);
    }
}

/// What the writer writes for an integer is read back as the same number: the decimal text of
/// `v`, ended by a byte that cannot continue a number (or by the end of the input once the end
/// is signaled), is scanned as `I32` when `v` fits in an `i32` and as `I64` otherwise.
pub proof fn law_integer_read_back(v: i64, rest: Seq<u8>, closed: bool, max_len: i32)
    requires
        rest.len() == 0 ==> closed,
        rest.len() > 0 ==> !is_digit(rest[0]) && rest[0] != 46 && rest[0] != 101 && rest[0] != 69,
        max_len <= 0 || spec_decimal(v as int).len() <= max_len,
    ensures
        scan_number(spec_decimal(v as int) + rest, closed, max_len) == (NumScan::Done {
            len: spec_decimal(v as int).len(),
            num: if i32::MIN <= v <= i32::MAX {
                NumberView::I32(v as i32)
            } else {
                NumberView::I64(v)
            },
        }),
{
    let t = spec_decimal(v as int);
    let d = t + rest;
    let neg = v < 0;
    let p0: int = if neg {
        1
    } else {
        0
    };
    let m: nat = if neg {
        (-(v as int)) as nat
    } else {
        v as nat
    };
    lemma_nat_digits(m);
    let ds = nat_digits(m);
    assert(t == (if neg {
        seq![45u8] + ds
    } else {
        ds
    }));
    let end = t.len() as int;
    assert(end == p0 + ds.len());
    assert(forall|k: int| p0 <= k < end ==> d[k] == ds[k - p0]);
    assert(forall|k: int| p0 <= k < end ==> is_digit(#[trigger] d[k])) by {
        assert forall|k: int| p0 <= k < end implies is_digit(#[trigger] d[k]) by {
            assert(d[k] == ds[k - p0]);
        }
    }
    if end < d.len() {
        assert(d[end] == rest[0]);
    }
    assert(d[0] == t[0]);
    assert(neg <==> d[0] == 45);
    assert(d[p0] == ds[0]);
    lemma_digit_block(d, p0 + 1, end);
    assert(d.subrange(p0, end) =~= ds);
    law_integer_kind(d, end, neg);
    let k1 = compose_number(d, end, neg, p0, end, false, 0, 0, false, false, 0);
    let k2 = compose_number(d, end, neg, p0, end, false, end, end, false, false, end);
    assert(k1 == k2);
}

} // verus!
