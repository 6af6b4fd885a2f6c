//! UTF-8 decoding, UTF-16 encoding and lossy UTF-16 decoding used by the tokenizer.

use vstd::prelude::*;
use vstd::utf8::*;

verus! {

/// `String::push`: appends one `char` to the end of the string.
/// Trusted to append exactly the given character, as std documents.
#[verifier::external_body]
pub(crate) fn push_char(s: &mut String, c: char)
    ensures
        final(s)@ == old(s)@.push(c),
{
    s.push(c);
}

/// `char::from_u32`: the `char` whose scalar value is `v`, or `None` when `v` is a
/// surrogate or above `0x10FFFF` (as std documents).
#[verifier::external_body]
pub(crate) fn char_from_u32(v: u32) -> (c: Option<char>)
    ensures
        is_scalar(v) ==> c == Some(v as char),
        !is_scalar(v) ==> c is None,
        c matches Some(ch) ==> ch as u32 == v,
{
    char::from_u32(v)
}

/// The decoding of a byte span: its characters when it is well-formed UTF-8.
pub open spec fn spec_decode(bytes: Seq<u8>) -> Option<Seq<char>> {
    if valid_utf8(bytes) {
        Some(decode_utf8(bytes))
    } else {
        None
    }
}

/// The UTF-16 code units of one character.
pub open spec fn utf16_of_char(c: char) -> Seq<u16> {
    let v = c as u32;
    if v < 0x10000 {
        seq![v as u16]
    } else {
        let w = (v - 0x10000) as int;
        seq![(0xD800 + w / 1024) as u16, (0xDC00 + w % 1024) as u16]
    }
}

/// The UTF-16 encoding of a character sequence.
pub open spec fn utf16_of(chars: Seq<char>) -> Seq<u16>
    decreases chars.len(),
{
    if chars.len() == 0 {
        seq![]
    } else {
        utf16_of(chars.drop_last()) + utf16_of_char(chars.last())
    }
}

pub open spec fn is_high_surrogate(u: u16) -> bool {
    0xD800 <= u <= 0xDBFF
}

pub open spec fn is_low_surrogate(u: u16) -> bool {
    0xDC00 <= u <= 0xDFFF
}

/// The character of a surrogate pair.
pub open spec fn pair_scalar(hi: u16, lo: u16) -> u32 {
    (0x10000 + (hi - 0xD800) * 1024 + (lo - 0xDC00)) as u32
}

/// Lossy UTF-16 decoding: a well-formed surrogate pair gives its character, any other
/// surrogate gives U+FFFD, and every other unit gives the character of its value.
pub open spec fn utf16_lossy(units: Seq<u16>) -> Seq<char>
    decreases units.len(),
{
    if units.len() == 0 {
        seq![]
    } else if units.len() >= 2 && is_high_surrogate(units[0]) && is_low_surrogate(units[1]) {
        seq![pair_scalar(units[0], units[1]) as char] + utf16_lossy(units.subrange(2, units.len() as int))
    } else if 0xD800 <= units[0] <= 0xDFFF {
        seq!['\u{FFFD}'] + utf16_lossy(units.subrange(1, units.len() as int))
    } else {
        seq![units[0] as u32 as char] + utf16_lossy(units.subrange(1, units.len() as int))
    }
}

proof fn lemma_scalar_width2(b0: u8, b1: u8)
    requires
        0xc0 <= b0 <= 0xdf,
    ensures
        codepoint_width_2(b0, b1) <= 0x7FF,
{
    assert((((b0 & 0x1F) as u32) << 6u32) | ((b1 & 0x3F) as u32) <= 0x7FF) by (bit_vector);
}

proof fn lemma_scalar_width3(b0: u8, b1: u8, b2: u8)
    requires
        0xe0 <= b0 <= 0xef,
    ensures
        codepoint_width_3(b0, b1, b2) <= 0xFFFF,
{
    assert((((b0 & 0x0F) as u32) << 12u32) | (((b1 & 0x3F) as u32) << 6u32) | ((b2 & 0x3F) as u32)
        <= 0xFFFF) by (bit_vector);
}

/// Decodes the first scalar of `data[i..end]`: its character and encoded length, or `None`
/// when the span does not begin with a well-formed scalar encoding.
pub(crate) fn decode_first(data: &[u8], i: usize, end: usize) -> (r: Option<(char, usize)>)
    requires
        i < end <= data@.len(),
    ensures
        ({
            let rest = data@.subrange(i as int, end as int);
            match r {
                Some((c, n)) => valid_first_scalar(rest) && c == decode_first_scalar(rest) as char
                    && n == length_of_first_scalar(rest) && 1 <= n <= 4 && ((c as u32) < 0x10000
                    || n == 4),
                None => !valid_first_scalar(rest),
            }
        }),
{
    let ghost rest = data@.subrange(i as int, end as int);
    let b0 = data[i];
    assert(rest[0] == b0);
    if b0 <= 0x7f {
        let cp = (b0 & 0x7F) as u32;
        assert(cp <= 0x7F) by (bit_vector)
            requires
                cp == (b0 & 0x7F) as u32,
        ;
        match char_from_u32(cp) {
            Some(c) => Some((c, 1)),
            None => None,
        }
    } else if 0xc0 <= b0 && b0 <= 0xdf {
        if end - i < 2 {
            return None;
        }
        let b1 = data[i + 1];
        assert(rest[1] == b1);
        if !(0x80 <= b1 && b1 <= 0xbf) {
            return None;
        }
        let cp = (((b0 & 0x1F) as u32) << 6u32) | ((b1 & 0x3F) as u32);
        proof {
            lemma_scalar_width2(b0, b1);
        }
        if cp < 0x80 {
            return None;
        }
        match char_from_u32(cp) {
            Some(c) => Some((c, 2)),
            None => None,
        }
    } else if 0xe0 <= b0 && b0 <= 0xef {
        if end - i < 3 {
            return None;
        }
        let b1 = data[i + 1];
        let b2 = data[i + 2];
        assert(rest[1] == b1 && rest[2] == b2);
        if !(0x80 <= b1 && b1 <= 0xbf) || !(0x80 <= b2 && b2 <= 0xbf) {
            return None;
        }
        let cp = (((b0 & 0x0F) as u32) << 12u32) | (((b1 & 0x3F) as u32) << 6u32) | ((b2
            & 0x3F) as u32);
        proof {
            lemma_scalar_width3(b0, b1, b2);
        }
        if cp < 0x800 || (0xD800 <= cp && cp <= 0xDFFF) {
            return None;
        }
        match char_from_u32(cp) {
            Some(c) => Some((c, 3)),
            None => None,
        }
    } else if 0xf0 <= b0 && b0 <= 0xf7 {
        if end - i < 4 {
            return None;
        }
        let b1 = data[i + 1];
        let b2 = data[i + 2];
        let b3 = data[i + 3];
        assert(rest[1] == b1 && rest[2] == b2 && rest[3] == b3);
        if !(0x80 <= b1 && b1 <= 0xbf) || !(0x80 <= b2 && b2 <= 0xbf) || !(0x80 <= b3 && b3
            <= 0xbf) {
            return None;
        }
        let cp = (((b0 & 0x07) as u32) << 18u32) | (((b1 & 0x3F) as u32) << 12u32) | (((b2
            & 0x3F) as u32) << 6u32) | ((b3 & 0x3F) as u32);
        if cp < 0x10000 || cp > 0x10ffff {
            return None;
        }
        match char_from_u32(cp) {
            Some(c) => Some((c, 4)),
            None => None,
        }
    } else {
        None
    }
}

/// Decodes `data[start..end]` as UTF-8 into a new string; `None` when malformed.
pub(crate) fn decode_span(data: &[u8], start: usize, end: usize) -> (r: Option<String>)
    requires
        start <= end <= data@.len(),
    ensures
        match r {
            Some(s) => spec_decode(data@.subrange(start as int, end as int)) == Some(s@),
            None => spec_decode(data@.subrange(start as int, end as int)) is None,
        },
{
    let mut out = String::new();
    let mut i = start;
    let ghost whole = data@.subrange(start as int, end as int);
    while i < end
        invariant
            start <= i <= end <= data@.len(),
            whole == data@.subrange(start as int, end as int),
            valid_utf8(whole) == valid_utf8(data@.subrange(i as int, end as int)),
            valid_utf8(data@.subrange(i as int, end as int)) ==> decode_utf8(whole) == out@
                + decode_utf8(data@.subrange(i as int, end as int)),
        decreases end - i,
    {
        let ghost rest = data@.subrange(i as int, end as int);
        match decode_first(data, i, end) {
            None => {
                return None;
            },
            Some((c, n)) => {
                let ghost tail = data@.subrange(i + n, end as int);
                assert(pop_first_scalar(rest) =~= tail);
                push_char(&mut out, c);
                i = i + n;
                assert(out@ + decode_utf8(tail) =~= out@.drop_last() + (seq![c] + decode_utf8(
                    tail,
                ))) by {
                    assert(out@.drop_last() + seq![c] =~= out@);
                }
            },
        }
    }
    assert(data@.subrange(i as int, end as int) =~= Seq::<u8>::empty());
    assert(out@ + Seq::<char>::empty() =~= out@);
    Some(out)
}

/// Appends the UTF-16 code units of `c` to `units`; returns how many were appended.
pub(crate) fn push_utf16(units: &mut Vec<u16>, c: char) -> (n: usize)
    ensures
        final(units)@ == old(units)@ + utf16_of_char(c),
        n == utf16_of_char(c).len(),
        1 <= n <= 2,
{
    let v = c as u32;
    if v < 0x10000 {
        units.push(v as u16);
        assert(units@ =~= old(units)@ + utf16_of_char(c));
        1
    } else {
        proof {
            vstd::utf8::char_is_scalar(c);
        }
        let w = v - 0x10000;
        units.push((0xD800 + w / 1024) as u16);
        units.push((0xDC00 + w % 1024) as u16);
        assert(units@ =~= old(units)@ + utf16_of_char(c));
        2
    }
}

/// Decodes `data[start..end]` as UTF-8 and appends the UTF-16 units of the characters to
/// `units`; returns the number of units appended, or `None` when the span is malformed.
pub(crate) fn decode_span_utf16(data: &[u8], start: usize, end: usize, units: &mut Vec<u16>) -> (r:
    Option<usize>)
    requires
        start <= end <= data@.len(),
    ensures
        match r {
            Some(n) => {
                &&& spec_decode(data@.subrange(start as int, end as int)) is Some
                &&& final(units)@ == old(units)@ + utf16_of(
                    decode_utf8(data@.subrange(start as int, end as int)),
                )
                &&& n == utf16_of(decode_utf8(data@.subrange(start as int, end as int))).len()
                &&& n <= end - start
            },
            None => spec_decode(data@.subrange(start as int, end as int)) is None,
        },
{
    let mut i = start;
    let mut count: usize = 0;
    let ghost whole = data@.subrange(start as int, end as int);
    let ghost mut done: Seq<char> = seq![];
    while i < end
        invariant
            start <= i <= end <= data@.len(),
            whole == data@.subrange(start as int, end as int),
            valid_utf8(whole) == valid_utf8(data@.subrange(i as int, end as int)),
            valid_utf8(data@.subrange(i as int, end as int)) ==> decode_utf8(whole) == done
                + decode_utf8(data@.subrange(i as int, end as int)),
            units@ == old(units)@ + utf16_of(done),
            count == utf16_of(done).len(),
            count <= i - start,
        decreases end - i,
    {
        let ghost rest = data@.subrange(i as int, end as int);
        match decode_first(data, i, end) {
            None => {
                return None;
            },
            Some((c, n)) => {
                let ghost tail = data@.subrange(i + n, end as int);
                assert(pop_first_scalar(rest) =~= tail);
                let k = push_utf16(units, c);
                proof {
                    let nd = done.push(c);
                    assert(nd.drop_last() =~= done);
                    assert(nd + decode_utf8(tail) =~= done + (seq![c] + decode_utf8(tail)));
                    done = nd;
                }
                count = count + k;
                i = i + n;
            },
        }
    }
    assert(data@.subrange(i as int, end as int) =~= Seq::<u8>::empty());
    assert(done + Seq::<char>::empty() =~= done);
    Some(count)
}

/// The number of UTF-16 units of the characters that `data[start..end]` encodes in UTF-8, or
/// `None` when the span is malformed.
pub(crate) fn utf16_len(data: &[u8], start: usize, end: usize) -> (r: Option<usize>)
    requires
        start <= end <= data@.len(),
    ensures
        match r {
            Some(n) => {
                &&& spec_decode(data@.subrange(start as int, end as int)) is Some
                &&& n == utf16_of(decode_utf8(data@.subrange(start as int, end as int))).len()
                &&& n <= end - start
            },
            None => spec_decode(data@.subrange(start as int, end as int)) is None,
        },
{
    let mut i = start;
    let mut count: usize = 0;
    let ghost whole = data@.subrange(start as int, end as int);
    let ghost mut done: Seq<char> = seq![];
    while i < end
        invariant
            start <= i <= end <= data@.len(),
            whole == data@.subrange(start as int, end as int),
            valid_utf8(whole) == valid_utf8(data@.subrange(i as int, end as int)),
            valid_utf8(data@.subrange(i as int, end as int)) ==> decode_utf8(whole) == done
                + decode_utf8(data@.subrange(i as int, end as int)),
            count == utf16_of(done).len(),
            count <= i - start,
        decreases end - i,
    {
        let ghost rest = data@.subrange(i as int, end as int);
        match decode_first(data, i, end) {
            None => {
                return None;
            },
            Some((c, n)) => {
                let ghost tail = data@.subrange(i + n, end as int);
                assert(pop_first_scalar(rest) =~= tail);
                let k: usize = if (c as u32) < 0x10000 {
                    1
                } else {
                    2
                };
                proof {
                    let nd = done.push(c);
                    assert(nd.drop_last() =~= done);
                    assert(nd + decode_utf8(tail) =~= done + (seq![c] + decode_utf8(tail)));
                    assert(utf16_of(nd).len() == utf16_of(done).len() + k);
                    done = nd;
                }
                count = count + k;
                i = i + n;
            },
        }
    }
    assert(data@.subrange(i as int, end as int) =~= Seq::<u8>::empty());
    assert(done + Seq::<char>::empty() =~= done);
    Some(count)
}

/// Decodes UTF-16 code units into a string, replacing unpaired surrogates by U+FFFD.
pub(crate) fn utf16_to_string_lossy(units: &Vec<u16>) -> (s: String)
    ensures
        s@ == utf16_lossy(units@),
{
    let mut out = String::new();
    let mut i: usize = 0;
    let n = units.len();
    assert(units@.subrange(0, n as int) =~= units@);
    while i < n
        invariant
            i <= n == units@.len(),
            utf16_lossy(units@) == out@ + utf16_lossy(units@.subrange(i as int, n as int)),
        decreases n - i,
    {
        let ghost rest = units@.subrange(i as int, n as int);
        let u = units[i];
        assert(rest[0] == u);
        if 0xD800 <= u && u <= 0xDBFF && i + 1 < n && 0xDC00 <= units[i + 1] && units[i + 1]
            <= 0xDFFF {
            let lo = units[i + 1];
            assert(rest[1] == lo);
            let v: u32 = 0x10000 + ((u - 0xD800) as u32) * 1024 + ((lo - 0xDC00) as u32);
            assert(v == pair_scalar(u, lo));
            let c = char_from_u32(v);
            assert(rest.subrange(2, rest.len() as int) =~= units@.subrange(i + 2, n as int));
            let ghost before = out@;
            push_char(&mut out, c.unwrap());
            assert(before + utf16_lossy(rest) =~= out@ + utf16_lossy(
                units@.subrange(i + 2, n as int),
            ));
            i = i + 2;
        } else {
            assert(rest.subrange(1, rest.len() as int) =~= units@.subrange(i + 1, n as int));
            let ghost before = out@;
            if 0xD800 <= u && u <= 0xDFFF {
                push_char(&mut out, '\u{FFFD}');
            } else {
                let c = char_from_u32(u as u32);
                push_char(&mut out, c.unwrap());
            }
            assert(before + utf16_lossy(rest) =~= out@ + utf16_lossy(
                units@.subrange(i + 1, n as int),
            ));
            i = i + 1;
        }
    }
    assert(out@ + utf16_lossy(units@.subrange(i as int, n as int)) =~= out@);
    out
}

} // verus!
