//! JSON numbers, and decimal formatting of integers.

use vstd::prelude::*;

verus! {

/// The decimal digits of a natural number, most significant first, as ASCII bytes.
pub open spec fn nat_digits(n: nat) -> Seq<u8>
    decreases n,
{
    if n < 10 {
        seq![(n + 48) as u8]
    } else {
        nat_digits(n / 10).push((n % 10 + 48) as u8)
    }
}

/// The decimal text of an integer as ASCII bytes (a leading `-` when negative).
pub open spec fn spec_decimal(v: int) -> Seq<u8> {
    if v < 0 {
        seq![45u8] + nat_digits((-v) as nat)
    } else {
        nat_digits(v as nat)
    }
}

/// The characters of ASCII bytes.
pub open spec fn ascii_chars(bytes: Seq<u8>) -> Seq<char> {
    bytes.map_values(|b: u8| b as char)
}

fn push_nat_digits(out: &mut Vec<u8>, n: u64)
    ensures
        final(out)@ == old(out)@ + nat_digits(n as nat),
    decreases n,
{
    if n >= 10 {
        push_nat_digits(out, n / 10);
    }
    out.push((n % 10 + 48) as u8);
    assert(out@ =~= old(out)@ + nat_digits(n as nat));
}

/// Appends the decimal text of `v` to `out`.
pub fn push_decimal(out: &mut Vec<u8>, v: i64)
    ensures
        final(out)@ == old(out)@ + spec_decimal(v as int),
{
    if v < 0 {
        out.push(45u8);
        let m: u64 = (-(v as i128)) as u64;
        push_nat_digits(out, m);
        assert(out@ =~= old(out)@ + spec_decimal(v as int));
    } else {
        push_nat_digits(out, v as u64);
    }
}

/// Appends the characters of ASCII bytes to a string.
pub(crate) fn push_ascii(s: &mut String, bytes: &Vec<u8>)
    ensures
        final(s)@ == old(s)@ + ascii_chars(bytes@),
{
    let mut i: usize = 0;
    while i < bytes.len()
        invariant
            i <= bytes@.len(),
            s@ == old(s)@ + ascii_chars(bytes@.subrange(0, i as int)),
        decreases bytes.len() - i,
    {
        crate::text::push_char(s, bytes[i] as char);
        assert(ascii_chars(bytes@.subrange(0, i + 1)) =~= ascii_chars(bytes@.subrange(0, i as int)).push(
            bytes@[i as int] as char,
        ));
        i = i + 1;
    }
    assert(bytes@.subrange(0, i as int) =~= bytes@);
}

/// The decimal text of an integer as a string.
pub fn decimal_string(v: i64) -> (s: String)
    ensures
        s@ == ascii_chars(spec_decimal(v as int)),
{
    let mut digits: Vec<u8> = Vec::new();
    push_decimal(&mut digits, v);
    let mut s = String::new();
    push_ascii(&mut s, &digits);
    assert(s@ =~= ascii_chars(spec_decimal(v as int)));
    s
}

/// A number written with a fraction or an exponent, kept as the parts the tokenizer read.
///
/// `int_value` holds the integer digits, `frac_value / frac_scale` the fraction digits and
/// `exponent` the exponent digits; each `*_overflow` flag is set when the digits did not fit
/// (the integer part above `i64::MAX`, the fraction past 18 digits, the exponent above 100000),
/// in which case the digits read before the overflow are kept.
#[derive(Debug, Clone, PartialEq)]
pub struct FloatLiteral {
    /// The number as written in the document.
    pub text: String,
    pub negative: bool,
    pub int_value: i64,
    pub int_overflow: bool,
    pub has_fraction: bool,
    pub frac_value: i64,
    pub frac_scale: i64,
    pub frac_overflow: bool,
    pub has_exponent: bool,
    pub exp_negative: bool,
    pub exponent: i32,
    pub exp_overflow: bool,
}

/// A JSON number: `I32` when the integer fits in an `i32`, else `I64` when it fits in an
/// `i64`, `BigInt` (the digits as written) for a larger integer, and `Float` for any number
/// with a fraction or an exponent.
#[derive(Debug, Clone, PartialEq)]
pub enum Number {
    I32(i32),
    I64(i64),
    Float(FloatLiteral),
    BigInt(String),
}

/// The mathematical content of a [`FloatLiteral`].
pub struct FloatView {
    pub text: Seq<char>,
    pub negative: bool,
    pub int_value: i64,
    pub int_overflow: bool,
    pub has_fraction: bool,
    pub frac_value: i64,
    pub frac_scale: i64,
    pub frac_overflow: bool,
    pub has_exponent: bool,
    pub exp_negative: bool,
    pub exponent: i32,
    pub exp_overflow: bool,
}

/// The mathematical content of a [`Number`].
pub enum NumberView {
    I32(i32),
    I64(i64),
    Float(FloatView),
    BigInt(Seq<char>),
}

impl View for FloatLiteral {
    type V = FloatView;

    open spec fn view(&self) -> FloatView {
        FloatView {
            text: self.text@,
            negative: self.negative,
            int_value: self.int_value,
            int_overflow: self.int_overflow,
            has_fraction: self.has_fraction,
            frac_value: self.frac_value,
            frac_scale: self.frac_scale,
            frac_overflow: self.frac_overflow,
            has_exponent: self.has_exponent,
            exp_negative: self.exp_negative,
            exponent: self.exponent,
            exp_overflow: self.exp_overflow,
        }
    }
}

impl View for Number {
    type V = NumberView;

    open spec fn view(&self) -> NumberView {
        match self {
            Number::I32(v) => NumberView::I32(*v),
            Number::I64(v) => NumberView::I64(*v),
            Number::Float(f) => NumberView::Float(f@),
            Number::BigInt(s) => NumberView::BigInt(s@),
        }
    }
}

impl Number {
    /// The value when it is an `I32`.
    pub fn as_i32(&self) -> (r: Option<i32>)
        ensures
            r == (match self@ {
                NumberView::I32(v) => Some(v),
                _ => None::<i32>,
            }),
    {
        match self {
            Number::I32(v) => Some(*v),
            _ => None,
        }
    }

    /// The value when it is an `I32` or an `I64`.
    pub fn as_i64(&self) -> (r: Option<i64>)
        ensures
            r == (match self@ {
                NumberView::I32(v) => Some(v as i64),
                NumberView::I64(v) => Some(v),
                _ => None::<i64>,
            }),
    {
        match self {
            Number::I32(v) => Some(*v as i64),
            Number::I64(v) => Some(*v),
            _ => None,
        }
    }

    /// The text of the number: the decimal form of an integer, the digits of a `BigInt`, and
    /// the literal as written for a `Float`.
    pub fn to_text(&self) -> (s: String)
        ensures
            s@ == (match self@ {
                NumberView::I32(v) => ascii_chars(spec_decimal(v as int)),
                NumberView::I64(v) => ascii_chars(spec_decimal(v as int)),
                NumberView::Float(f) => f.text,
                NumberView::BigInt(t) => t,
            }),
    {
        match self {
            Number::I32(v) => decimal_string(*v as i64),
            Number::I64(v) => decimal_string(*v),
            Number::Float(f) => f.text.clone(),
            Number::BigInt(t) => t.clone(),
        }
    }
}

} // verus!
