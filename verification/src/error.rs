//! Parse and write errors, and the causes of the errors the parser raises.

use vstd::prelude::*;
use crate::number::{ascii_chars, decimal_string, spec_decimal};
use crate::text::push_char;

verus! {

/// An error raised while parsing, or by a content handler.
#[derive(Debug, Clone, PartialEq)]
pub struct ParseError {
    message: String,
}

/// An error raised while writing.
#[derive(Debug, Clone, PartialEq)]
pub struct WriteError {
    message: String,
}

pub type ParseResult<T> = Result<T, ParseError>;

pub type WriteResult<T> = Result<T, WriteError>;

impl ParseError {
    /// The text of the error.
    pub closed spec fn text(&self) -> Seq<char> {
        self.message@
    }

    /// An error with the given message.
    pub fn new(message: &str) -> (e: ParseError)
        ensures
            e.text() == message@,
    {
        ParseError { message: message.to_owned() }
    }

    /// The message of the error.
    pub fn message(&self) -> (m: &str)
        ensures
            m@ == self.text(),
    {
        self.message.as_str()
    }

    /// The message of the error as an owned string.
    pub fn to_string(&self) -> (m: String)
        ensures
            m@ == self.text(),
    {
        self.message.clone()
    }
}

impl WriteError {
    pub closed spec fn text(&self) -> Seq<char> {
        self.message@
    }

    /// An error with the given message.
    pub fn new(message: &str) -> (e: WriteError)
        ensures
            e.text() == message@,
    {
        WriteError { message: message.to_owned() }
    }

    /// The message of the error.
    pub fn message(&self) -> (m: &str)
        ensures
            m@ == self.text(),
    {
        self.message.as_str()
    }

    /// The message of the error as an owned string.
    pub fn to_string(&self) -> (m: String)
        ensures
            m@ == self.text(),
    {
        self.message.clone()
    }
}

/// The cause of an error that the parser raises itself.
pub enum Fault {
    AfterClose,
    DocumentLength(i64),
    Utf16Be,
    Utf16Le,
    Utf32Le,
    Utf32Be,
    NoData,
    IncompleteAtEnd,
    UnclosedObject,
    UnclosedArray,
    UnexpectedString,
    UnexpectedComma,
    CommaAtRoot,
    UnexpectedColon,
    UnexpectedOpenBrace,
    UnexpectedCloseBrace,
    UnexpectedOpenBracket,
    UnexpectedCloseBracket,
    TrailingCommaObject,
    TrailingCommaArray,
    NestingDepth(i32),
    UnexpectedTrue,
    UnexpectedFalse,
    UnexpectedNull,
    UnexpectedNumber,
    UnexpectedCharacter(u8),
    TokenCount(i64),
    UnclosedString,
    KeyLength(i32),
    StringLength(i32),
    DuplicateKey(Seq<char>),
    ControlCharacter,
    EofInEscape,
    InvalidEscape(u8),
    IncompleteUnicode,
    InvalidHex(u8),
    MalformedUtf8,
    IncompleteLiteral,
    InvalidLiteral,
    JustMinus,
    LeadingZeros,
    InvalidNumber,
    DecimalPoint,
    IncompleteExponent,
    ExponentDigit,
    NumberLength(i32),
}

/// The message of the error raised for a fault.
pub open spec fn fault_message(f: Fault) -> Seq<char> {
    match f {
        Fault::AfterClose => "Cannot receive data after close()"@,
        Fault::DocumentLength(n) => "Maximum document length exceeded: "@ + ascii_chars(
            spec_decimal(n as int),
        ),
        Fault::Utf16Be => "UTF-16 BE encoding not supported"@,
        Fault::Utf16Le => "UTF-16 LE encoding not supported"@,
        Fault::Utf32Le => "UTF-32 LE encoding not supported"@,
        Fault::Utf32Be => "UTF-32 BE encoding not supported"@,
        Fault::NoData => "No data"@,
        Fault::IncompleteAtEnd => "Unclosed string or incomplete token at end of input"@,
        Fault::UnclosedObject => "Unclosed object"@,
        Fault::UnclosedArray => "Unclosed array"@,
        Fault::UnexpectedString => "Unexpected string"@,
        Fault::UnexpectedComma => "Unexpected ','"@,
        Fault::CommaAtRoot => "Unexpected comma at root level"@,
        Fault::UnexpectedColon => "Unexpected ':'"@,
        Fault::UnexpectedOpenBrace => "Unexpected '{'"@,
        Fault::UnexpectedCloseBrace => "Unexpected '}'"@,
        Fault::UnexpectedOpenBracket => "Unexpected '['"@,
        Fault::UnexpectedCloseBracket => "Unexpected ']'"@,
        Fault::TrailingCommaObject => "Trailing comma before '}'"@,
        Fault::TrailingCommaArray => "Trailing comma before ']'"@,
        Fault::NestingDepth(n) => "Maximum nesting depth exceeded: "@ + ascii_chars(
            spec_decimal(n as int),
        ),
        Fault::UnexpectedTrue => "Unexpected 'true'"@,
        Fault::UnexpectedFalse => "Unexpected 'false'"@,
        Fault::UnexpectedNull => "Unexpected 'null'"@,
        Fault::UnexpectedNumber => "Unexpected number"@,
        Fault::UnexpectedCharacter(b) => "Unexpected character: "@.push(b as char),
        Fault::TokenCount(n) => "Maximum token count exceeded: "@ + ascii_chars(
            spec_decimal(n as int),
        ),
        Fault::UnclosedString => "Unclosed string"@,
        Fault::KeyLength(n) => "Maximum key length exceeded: "@ + ascii_chars(
            spec_decimal(n as int),
        ),
        Fault::StringLength(n) => "Maximum string length exceeded: "@ + ascii_chars(
            spec_decimal(n as int),
        ),
        Fault::DuplicateKey(k) => "Duplicate key: "@ + k,
        Fault::ControlCharacter => "Unescaped control character in string"@,
        Fault::EofInEscape => "Unexpected EOF in escape sequence"@,
        Fault::InvalidEscape(b) => "Invalid escape sequence: \\"@.push(b as char),
        Fault::IncompleteUnicode => "Incomplete Unicode escape"@,
        Fault::InvalidHex(b) => "Invalid hex digit: "@.push(b as char),
        Fault::MalformedUtf8 => "Malformed UTF-8"@,
        Fault::IncompleteLiteral => "Incomplete literal"@,
        Fault::InvalidLiteral => "Invalid literal"@,
        Fault::JustMinus => "Invalid number: just '-'"@,
        Fault::LeadingZeros => "Numbers cannot have leading zeros"@,
        Fault::InvalidNumber => "Invalid number format"@,
        Fault::DecimalPoint => "Decimal point must be followed by digit"@,
        Fault::IncompleteExponent => "Incomplete exponent"@,
        Fault::ExponentDigit => "Exponent must have digit"@,
        Fault::NumberLength(n) => "Maximum number length exceeded: "@ + ascii_chars(
            spec_decimal(n as int),
        ),
    }
}

/// An error whose message is a literal followed by a decimal number.
pub(crate) fn err_with_number(prefix: &str, n: i64) -> (e: ParseError)
    ensures
        e.text() == prefix@ + ascii_chars(spec_decimal(n as int)),
{
    let mut s = prefix.to_owned();
    let d = decimal_string(n);
    s.append(d.as_str());
    ParseError { message: s }
}

/// An error whose message is a literal followed by one character.
pub(crate) fn err_with_char(prefix: &str, c: char) -> (e: ParseError)
    ensures
        e.text() == prefix@.push(c),
{
    let mut s = prefix.to_owned();
    push_char(&mut s, c);
    ParseError { message: s }
}

/// An error whose message is a literal followed by a string.
pub(crate) fn err_with_text(prefix: &str, t: &str) -> (e: ParseError)
    ensures
        e.text() == prefix@ + t@,
{
    let mut s = prefix.to_owned();
    s.append(t);
    ParseError { message: s }
}

} // verus!
