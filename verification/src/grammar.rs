//! The specification of the tokenizer: what one token does to the tokenizer state, which
//! event it reports, and what a run over a byte sequence produces.

use vstd::prelude::*;
use crate::error::Fault;
use crate::number::{ascii_chars, FloatView, NumberView};
use crate::text::{spec_decode, utf16_lossy, utf16_of};

verus! {

/// What the tokenizer expects next.
#[derive(Debug, Clone, Copy, PartialEq, Eq, Structural)]
pub enum State {
    ExpectValue,
    ExpectKey,
    ExpectColon,
    AfterValue,
}

/// The kind of an open container.
#[derive(Debug, Clone, Copy, PartialEq, Eq, Structural)]
pub enum Context {
    Array,
    Object,
}

/// The content of an event, as a handler receives it.
pub enum EventKindView {
    StartObject,
    EndObject,
    StartArray,
    EndArray,
    Key(Seq<char>),
    Str(Seq<char>),
    Number(NumberView),
    Bool(bool),
    Null,
    Whitespace(Seq<char>),
}

/// An event together with the position reported to the handler with it.
pub struct EventView {
    pub kind: EventKindView,
    pub line: usize,
    pub column: usize,
}

/// The tokenizer state that determines what the rest of a document does.
pub struct TokView {
    pub state: State,
    pub stack: Seq<Context>,
    pub after_comma: bool,
    pub seen_any: bool,
    pub tokens: i64,
    pub dups: Seq<Seq<Seq<char>>>,
    pub line: usize,
    pub column: usize,
}

/// The settings a tokenizer runs with.
pub struct Cfg {
    pub reject_dup: bool,
    pub needs_ws: bool,
    pub closed: bool,
    pub max_depth: i32,
    pub max_number: i32,
    pub max_string: i32,
    pub max_name: i32,
    pub max_tokens: i64,
}

/// What one token does: it needs more input, it is consumed (`n` bytes) with an optional
/// event, or it fails, possibly after reporting an event.
pub enum Step {
    NeedMore,
    Advance { n: nat, event: Option<EventView>, next: TokView },
    /// `after` is the state the failed token leaves.
    Fail { event: Option<EventView>, fault: Fault, after: TokView },
}

pub open spec fn is_ws(b: u8) -> bool {
    b == 32 || b == 10 || b == 9 || b == 13
}

pub open spec fn is_digit(b: u8) -> bool {
    48 <= b <= 57
}

pub open spec fn sat_add(a: usize, b: int) -> usize {
    if a + b > usize::MAX {
        usize::MAX
    } else {
        (a + b) as usize
    }
}

/// The initial tokenizer state of a document.
pub open spec fn initial_view() -> TokView {
    TokView {
        state: State::ExpectValue,
        stack: seq![],
        after_comma: false,
        seen_any: false,
        tokens: 0,
        dups: seq![],
        line: 1,
        column: 1,
    }
}

/// The token counter after one more token, or `None` when the token limit is exceeded.
pub open spec fn count_token(cfg: Cfg, s: TokView) -> Option<i64> {
    if cfg.max_tokens > 0 {
        if s.tokens >= cfg.max_tokens {
            None
        } else {
            Some((s.tokens + 1) as i64)
        }
    } else {
        Some(s.tokens)
    }
}

pub open spec fn event_at(kind: EventKindView, s: TokView) -> EventView {
    EventView { kind, line: s.line, column: s.column }
}

/// A token that is `n` bytes long: the state changes to `next` (before counting the token),
/// the event is reported, then the token is counted.
pub open spec fn finish_token(
    cfg: Cfg,
    s: TokView,
    n: nat,
    event: Option<EventView>,
    next: TokView,
) -> Step {
    match count_token(cfg, s) {
        None => Step::Fail { event, fault: Fault::TokenCount(cfg.max_tokens), after: next },
        Some(t) => Step::Advance { n, event, next: TokView { tokens: t, seen_any: true, ..next } },
    }
}

/// The position after a token `n` bytes long that is not a string.
pub open spec fn moved(s: TokView, n: nat) -> TokView {
    TokView { column: sat_add(s.column, n as int), ..s }
}

// ---------------------------------------------------------------------------------------
// Strings

pub enum StrScan {
    NeedMore,
    Fail(Fault),
    /// `len` bytes after the opening quote, the closing quote included.
    Done { len: nat, value: Seq<char>, cols: nat },
}

pub enum EscScan {
    NeedMore,
    Fail(Fault),
    Unit { unit: u16, end: int },
}

pub open spec fn hex_value(b: u8) -> Option<u32> {
    if 48 <= b <= 57 {
        Some((b - 48) as u32)
    } else if 65 <= b <= 70 {
        Some((b - 65 + 10) as u32)
    } else if 97 <= b <= 102 {
        Some((b - 97 + 10) as u32)
    } else {
        None
    }
}

/// Reads the hex digits of a `\u` escape from index `p`, `left` of them still to read.
pub open spec fn scan_hex(c: Seq<u8>, closed: bool, p: int, left: nat, acc: u32) -> EscScan
    decreases left,
{
    if left == 0 {
        EscScan::Unit { unit: acc as u16, end: p }
    } else if p >= c.len() {
        if closed {
            EscScan::Fail(Fault::IncompleteUnicode)
        } else {
            EscScan::NeedMore
        }
    } else {
        match hex_value(c[p]) {
            None => EscScan::Fail(Fault::InvalidHex(c[p])),
            Some(d) => scan_hex(c, closed, p + 1, (left - 1) as nat, ((acc * 16) + d) as u32),
        }
    }
}

/// Reads the escape whose letter is at index `j` (just after the backslash).
pub open spec fn scan_escape(c: Seq<u8>, closed: bool, j: int) -> EscScan {
    if j >= c.len() {
        if closed {
            EscScan::Fail(Fault::EofInEscape)
        } else {
            EscScan::NeedMore
        }
    } else {
        let e = c[j];
        if e == 34 {
            EscScan::Unit { unit: 34, end: j + 1 }
        } else if e == 92 {
            EscScan::Unit { unit: 92, end: j + 1 }
        } else if e == 47 {
            EscScan::Unit { unit: 47, end: j + 1 }
        } else if e == 98 {
            EscScan::Unit { unit: 8, end: j + 1 }
        } else if e == 102 {
            EscScan::Unit { unit: 12, end: j + 1 }
        } else if e == 110 {
            EscScan::Unit { unit: 10, end: j + 1 }
        } else if e == 114 {
            EscScan::Unit { unit: 13, end: j + 1 }
        } else if e == 116 {
            EscScan::Unit { unit: 9, end: j + 1 }
        } else if e == 117 {
            scan_hex(c, closed, j + 1, 4, 0)
        } else {
            EscScan::Fail(Fault::InvalidEscape(e))
        }
    }
}

pub open spec fn length_fault(is_key: bool, limit: i32) -> Fault {
    if is_key {
        Fault::KeyLength(limit)
    } else {
        Fault::StringLength(limit)
    }
}

/// Scans the content of a string from index `i` of `c` (the bytes after the opening quote).
/// `esc` tells whether an escape was met; then `units` holds the UTF-16 units of the content
/// up to `span`, and `cols` the number of source characters they stand for.
pub open spec fn scan_from(
    c: Seq<u8>,
    closed: bool,
    is_key: bool,
    limit: i32,
    i: int,
    esc: bool,
    span: int,
    units: Seq<u16>,
    cols: nat,
) -> StrScan
    decreases c.len() - i,
{
    if i < 0 || i >= c.len() {
        if closed {
            StrScan::Fail(Fault::UnclosedString)
        } else {
            StrScan::NeedMore
        }
    } else {
        let b = c[i];
        if b == 34 {
            if !esc {
                match spec_decode(c.subrange(0, i)) {
                    None => StrScan::Fail(Fault::MalformedUtf8),
                    Some(v) => if limit > 0 && v.len() > limit {
                        StrScan::Fail(length_fault(is_key, limit))
                    } else {
                        StrScan::Done { len: (i + 1) as nat, value: v, cols: utf16_of(v).len() }
                    },
                }
            } else {
                let tail = if i > span {
                    spec_decode(c.subrange(span, i))
                } else {
                    Some(Seq::<char>::empty())
                };
                match tail {
                    None => StrScan::Fail(Fault::MalformedUtf8),
                    Some(t) => {
                        let v = utf16_lossy(units + utf16_of(t));
                        if limit > 0 && v.len() > limit {
                            StrScan::Fail(length_fault(is_key, limit))
                        } else {
                            StrScan::Done { len: (i + 1) as nat, value: v, cols: cols + utf16_of(t).len() }
                        }
                    },
                }
            }
        } else if b == 92 {
            let span0 = if esc {
                span
            } else {
                0
            };
            let units0 = if esc {
                units
            } else {
                Seq::<u16>::empty()
            };
            let head = if i > span0 {
                spec_decode(c.subrange(span0, i))
            } else {
                Some(Seq::<char>::empty())
            };
            match head {
                None => StrScan::Fail(Fault::MalformedUtf8),
                Some(h) => {
                    let units1 = units0 + utf16_of(h);
                    let cols1 = cols + utf16_of(h).len();
                    match scan_escape(c, closed, i + 1) {
                        EscScan::NeedMore => StrScan::NeedMore,
                        EscScan::Fail(f) => StrScan::Fail(f),
                        EscScan::Unit { unit, end } => if i < end <= c.len() {
                            scan_from(
                                c,
                                closed,
                                is_key,
                                limit,
                                end,
                                true,
                                end,
                                units1.push(unit),
                                (cols1 + (end - i)) as nat,
                            )
                        } else {
                            StrScan::NeedMore
                        },
                    }
                },
            }
        } else if b < 32 {
            StrScan::Fail(Fault::ControlCharacter)
        } else {
            scan_from(c, closed, is_key, limit, i + 1, esc, span, units, cols)
        }
    }
}

/// Scans a string whose opening quote precedes `c`.
pub open spec fn scan_string(c: Seq<u8>, closed: bool, is_key: bool, limit: i32) -> StrScan {
    scan_from(c, closed, is_key, limit, 0, false, 0, seq![], 0)
}

pub open spec fn step_string(cfg: Cfg, s: TokView, d: Seq<u8>) -> Step {
    if s.state == State::ExpectColon || s.state == State::AfterValue {
        Step::Fail { after: s, event: None, fault: Fault::UnexpectedString }
    } else {
        let is_key = s.state == State::ExpectKey;
        let limit = if is_key {
            cfg.max_name
        } else {
            cfg.max_string
        };
        match scan_string(d.subrange(1, d.len() as int), cfg.closed, is_key, limit) {
            StrScan::NeedMore => Step::NeedMore,
            StrScan::Fail(f) => Step::Fail { after: s, event: None, fault: f },
            StrScan::Done { len, value, cols } => {
                if is_key && cfg.reject_dup && s.dups.len() > 0 && s.dups.last().contains(value) {
                    Step::Fail { after: s, event: None, fault: Fault::DuplicateKey(value) }
                } else {
                    let dups = if is_key && cfg.reject_dup && s.dups.len() > 0 {
                        s.dups.drop_last().push(s.dups.last().push(value))
                    } else {
                        s.dups
                    };
                    let kind = if is_key {
                        EventKindView::Key(value)
                    } else {
                        EventKindView::Str(value)
                    };
                    let next = TokView {
                        state: if is_key {
                            State::ExpectColon
                        } else {
                            State::AfterValue
                        },
                        after_comma: false,
                        dups,
                        column: sat_add(s.column, (2 + cols) as int),
                        ..s
                    };
                    finish_token(cfg, s, len + 1, Some(event_at(kind, s)), next)
                }
            },
        }
    }
}

// ---------------------------------------------------------------------------------------
// Punctuation

pub open spec fn step_comma(cfg: Cfg, s: TokView) -> Step {
    if s.state != State::AfterValue {
        Step::Fail { after: s, event: None, fault: Fault::UnexpectedComma }
    } else if s.stack.len() == 0 {
        Step::Fail { after: s, event: None, fault: Fault::CommaAtRoot }
    } else {
        let next = TokView {
            after_comma: true,
            state: if s.stack.last() == Context::Object {
                State::ExpectKey
            } else {
                State::ExpectValue
            },
            ..moved(s, 1)
        };
        finish_token(cfg, s, 1, None, next)
    }
}

pub open spec fn step_colon(cfg: Cfg, s: TokView) -> Step {
    if s.state != State::ExpectColon {
        Step::Fail { after: s, event: None, fault: Fault::UnexpectedColon }
    } else {
        let next = TokView { after_comma: false, state: State::ExpectValue, ..moved(s, 1) };
        finish_token(cfg, s, 1, None, next)
    }
}

pub open spec fn step_open(cfg: Cfg, s: TokView, object: bool) -> Step {
    if s.state != State::ExpectValue {
        Step::Fail { after: s,
            event: None,
            fault: if object {
                Fault::UnexpectedOpenBrace
            } else {
                Fault::UnexpectedOpenBracket
            },
        }
    } else if cfg.max_depth > 0 && s.stack.len() >= cfg.max_depth {
        Step::Fail { after: s, event: None, fault: Fault::NestingDepth(cfg.max_depth) }
    } else {
        let kind = if object {
            EventKindView::StartObject
        } else {
            EventKindView::StartArray
        };
        let next = TokView {
            stack: s.stack.push(
                if object {
                    Context::Object
                } else {
                    Context::Array
                },
            ),
            dups: if object && cfg.reject_dup {
                s.dups.push(seq![])
            } else {
                s.dups
            },
            after_comma: false,
            state: if object {
                State::ExpectKey
            } else {
                State::ExpectValue
            },
            ..moved(s, 1)
        };
        finish_token(cfg, s, 1, Some(event_at(kind, s)), next)
    }
}

pub open spec fn step_close(cfg: Cfg, s: TokView, object: bool) -> Step {
    let ctx = if object {
        Context::Object
    } else {
        Context::Array
    };
    let unexpected = if object {
        Fault::UnexpectedCloseBrace
    } else {
        Fault::UnexpectedCloseBracket
    };
    let allowed = if object {
        State::ExpectKey
    } else {
        State::ExpectValue
    };
    if s.stack.len() == 0 || s.stack.last() != ctx {
        Step::Fail { after: s, event: None, fault: unexpected }
    } else if s.state != allowed && s.state != State::AfterValue {
        Step::Fail { after: s, event: None, fault: unexpected }
    } else if s.after_comma {
        Step::Fail { after: s,
            event: None,
            fault: if object {
                Fault::TrailingCommaObject
            } else {
                Fault::TrailingCommaArray
            },
        }
    } else {
        let kind = if object {
            EventKindView::EndObject
        } else {
            EventKindView::EndArray
        };
        let next = TokView {
            stack: s.stack.drop_last(),
            dups: if object && cfg.reject_dup && s.dups.len() > 0 {
                s.dups.drop_last()
            } else {
                s.dups
            },
            after_comma: false,
            state: State::AfterValue,
            ..moved(s, 1)
        };
        finish_token(cfg, s, 1, Some(event_at(kind, s)), next)
    }
}

// ---------------------------------------------------------------------------------------
// Literals

/// The bytes after the first letter of `true`, `false` and `null`.
pub open spec fn literal_rest(b: u8) -> Seq<u8> {
    if b == 116 {
        seq![114u8, 117u8, 101u8]
    } else if b == 102 {
        seq![97u8, 108u8, 115u8, 101u8]
    } else {
        seq![117u8, 108u8, 108u8]
    }
}

pub open spec fn step_literal(cfg: Cfg, s: TokView, d: Seq<u8>) -> Step {
    let b = d[0];
    let rem = literal_rest(b);
    if s.state != State::ExpectValue {
        Step::Fail { after: s,
            event: None,
            fault: if b == 116 {
                Fault::UnexpectedTrue
            } else if b == 102 {
                Fault::UnexpectedFalse
            } else {
                Fault::UnexpectedNull
            },
        }
    } else if d.len() - 1 < rem.len() {
        if cfg.closed {
            Step::Fail { after: s, event: None, fault: Fault::IncompleteLiteral }
        } else {
            Step::NeedMore
        }
    } else if d.subrange(1, 1 + rem.len() as int) != rem {
        Step::Fail { after: s, event: None, fault: Fault::InvalidLiteral }
    } else {
        let kind = if b == 116 {
            EventKindView::Bool(true)
        } else if b == 102 {
            EventKindView::Bool(false)
        } else {
            EventKindView::Null
        };
        let n = (1 + rem.len()) as nat;
        let next = TokView { after_comma: false, state: State::AfterValue, ..moved(s, n) };
        finish_token(cfg, s, n, Some(event_at(kind, s)), next)
    }
}

// ---------------------------------------------------------------------------------------
// Numbers

/// The index of the first non-digit at or after `i`, or the length.
pub open spec fn digit_end(d: Seq<u8>, i: int) -> int
    decreases d.len() - i,
{
    if i >= d.len() || i < 0 {
        if i < 0 {
            0
        } else {
            i
        }
    } else if is_digit(d[i]) {
        digit_end(d, i + 1)
    } else {
        i
    }
}

/// Accumulates integer digits into an `i64`, stopping (and flagging) at overflow.
pub open spec fn acc_int(ds: Seq<u8>) -> (i64, bool)
    decreases ds.len(),
{
    if ds.len() == 0 {
        (0, false)
    } else {
        let (v, o) = acc_int(ds.drop_last());
        let dg = (ds.last() - 48) as i64;
        if o {
            (v, true)
        } else if v > (i64::MAX - dg) / 10 {
            (v, true)
        } else {
            ((v * 10 + dg) as i64, false)
        }
    }
}

/// Accumulates the magnitude of an integer into a `u64`, stopping (and flagging) at overflow.
pub open spec fn acc_mag(ds: Seq<u8>) -> (u64, bool)
    decreases ds.len(),
{
    if ds.len() == 0 {
        (0, false)
    } else {
        let (v, o) = acc_mag(ds.drop_last());
        let dg = (ds.last() - 48) as u64;
        if o {
            (v, true)
        } else if v > (u64::MAX - dg) / 10 {
            (v, true)
        } else {
            ((v * 10 + dg) as u64, false)
        }
    }
}

/// The largest magnitude an `i64` of the given sign holds.
pub open spec fn i64_limit(neg: bool) -> int {
    if neg {
        0x8000_0000_0000_0000
    } else {
        i64::MAX as int
    }
}

/// Accumulates fraction digits into a value and a scale, stopping (and flagging) at overflow.
pub open spec fn acc_frac(ds: Seq<u8>) -> (i64, i64, bool)
    decreases ds.len(),
{
    if ds.len() == 0 {
        (0, 1, false)
    } else {
        let (v, m, o) = acc_frac(ds.drop_last());
        let dg = (ds.last() - 48) as i64;
        if o {
            (v, m, true)
        } else if m > i64::MAX / 10 || v > (i64::MAX - dg) / 10 {
            (v, m, true)
        } else {
            ((v * 10 + dg) as i64, (m * 10) as i64, false)
        }
    }
}

/// Accumulates exponent digits, flagging an exponent above 100000 (digits after it are ignored).
pub open spec fn acc_exp(ds: Seq<u8>) -> (i32, bool)
    decreases ds.len(),
{
    if ds.len() == 0 {
        (0, false)
    } else {
        let (v, o) = acc_exp(ds.drop_last());
        let dg = (ds.last() - 48) as i32;
        if o {
            (v, true)
        } else {
            let nv = (v * 10 + dg) as i32;
            (nv, nv > 100000)
        }
    }
}

pub enum NumScan {
    NeedMore,
    Fail(Fault),
    /// The number is `len` bytes long (its first byte included).
    Done { len: nat, num: NumberView },
}

/// The number a token denotes, from its text and the index ranges of its parts.
pub open spec fn compose_number(
    d: Seq<u8>,
    end: int,
    neg: bool,
    int_start: int,
    int_end: int,
    has_frac: bool,
    frac_start: int,
    frac_end: int,
    has_exp: bool,
    exp_neg: bool,
    exp_start: int,
) -> NumberView {
    let text = ascii_chars(d.subrange(0, end));
    let (ival, int_overflow) = acc_int(d.subrange(int_start, int_end));
    if !has_frac && !has_exp {
        let (mag, mag_overflow) = acc_mag(d.subrange(int_start, int_end));
        if mag_overflow || mag > i64_limit(neg) {
            NumberView::BigInt(text)
        } else {
            let value: int = if neg {
                -mag
            } else {
                mag as int
            };
            if i32::MIN <= value <= i32::MAX {
                NumberView::I32(value as i32)
            } else {
                NumberView::I64(value as i64)
            }
        }
    } else {
        let (dval, mul, frac_overflow) = if has_frac {
            acc_frac(d.subrange(frac_start, frac_end))
        } else {
            (0i64, 1i64, false)
        };
        let (exponent, exp_overflow) = if has_exp {
            acc_exp(d.subrange(exp_start, end))
        } else {
            (0i32, false)
        };
        NumberView::Float(
            FloatView {
                text,
                negative: neg,
                int_value: ival,
                int_overflow,
                has_fraction: has_frac,
                frac_value: dval,
                frac_scale: mul,
                frac_overflow,
                has_exponent: has_exp,
                exp_negative: exp_neg,
                exponent,
                exp_overflow,
            },
        )
    }
}

/// The value of a sequence of decimal digits.
pub open spec fn digits_value(ds: Seq<u8>) -> nat
    decreases ds.len(),
{
    if ds.len() == 0 {
        0
    } else {
        digits_value(ds.drop_last()) * 10 + (ds.last() - 48) as nat
    }
}

/// Accumulating a magnitude flags an overflow exactly when the digits' value exceeds
/// `u64::MAX`, and otherwise gives their value.
pub proof fn lemma_acc_mag_value(ds: Seq<u8>)
    requires
        forall|k: int| 0 <= k < ds.len() ==> is_digit(#[trigger] ds[k]),
    ensures
        acc_mag(ds).1 == (digits_value(ds) > u64::MAX),
        !acc_mag(ds).1 ==> acc_mag(ds).0 == digits_value(ds),
    decreases ds.len(),
{
    if ds.len() > 0 {
        let prev = ds.drop_last();
        assert(forall|k: int| 0 <= k < prev.len() ==> prev[k] == ds[k]);
        lemma_acc_mag_value(prev);
        assert(is_digit(ds[ds.len() - 1]));
        let dg = (ds.last() - 48) as int;
        let m = digits_value(prev) as int;
        let v = acc_mag(prev).0 as int;
        if !acc_mag(prev).1 {
            let q = (u64::MAX - dg) / 10;
            assert(v > q <==> v * 10 + dg > u64::MAX) by (nonlinear_arith)
                requires
                    q == (u64::MAX - dg) / 10,
                    0 <= dg <= 9,
                    v >= 0,
            ;
        } else {
            assert(m * 10 + dg > u64::MAX) by (nonlinear_arith)
                requires
                    m > u64::MAX,
                    dg >= 0,
            ;
        }
    }
}

/// An integer token is reported as `I32` when its value fits in an `i32`, as `I64` when it
/// fits in an `i64` but not in an `i32`, and as `BigInt` (its text) when it does not fit in an
/// `i64`.
pub proof fn law_integer_kind(d: Seq<u8>, end: int, neg: bool)
    requires
        (if neg { 1int } else { 0int }) < end <= d.len(),
        forall|k: int| (if neg { 1int } else { 0int }) <= k < end ==> is_digit(#[trigger] d[k]),
    ensures
        ({
            let start: int = if neg { 1 } else { 0 };
            let m = digits_value(d.subrange(start, end)) as int;
            let v = if neg { -m } else { m };
            compose_number(d, end, neg, start, end, false, 0, 0, false, false, 0) == if v < i64::MIN
                || v > i64::MAX {
                NumberView::BigInt(ascii_chars(d.subrange(0, end)))
            } else if i32::MIN <= v <= i32::MAX {
                NumberView::I32(v as i32)
            } else {
                NumberView::I64(v as i64)
            }
        }),
{
    let start: int = if neg {
        1
    } else {
        0
    };
    let ds = d.subrange(start, end);
    assert(forall|k: int| 0 <= k < ds.len() ==> ds[k] == d[start + k]);
    lemma_acc_mag_value(ds);
}

/// The exponent part, read from index `p` (where the fraction ended).
pub open spec fn scan_exponent(
    d: Seq<u8>,
    closed: bool,
    max_len: i32,
    neg: bool,
    int_end: int,
    has_frac: bool,
    frac_start: int,
    p: int,
) -> NumScan {
    if p < d.len() && (d[p] == 101 || d[p] == 69) {
        if p + 1 >= d.len() {
            if closed {
                NumScan::Fail(Fault::IncompleteExponent)
            } else {
                NumScan::NeedMore
            }
        } else {
            let signed = d[p + 1] == 43 || d[p + 1] == 45;
            let first = if signed {
                p + 2
            } else {
                p + 1
            };
            if first >= d.len() {
                if closed {
                    NumScan::Fail(Fault::ExponentDigit)
                } else {
                    NumScan::NeedMore
                }
            } else if !is_digit(d[first]) {
                NumScan::Fail(Fault::ExponentDigit)
            } else {
                let q = digit_end(d, first + 1);
                if q == d.len() && !closed {
                    NumScan::NeedMore
                } else {
                    finish_number(
                        d,
                        max_len,
                        q,
                        neg,
                        int_end,
                        has_frac,
                        frac_start,
                        p,
                        true,
                        signed && d[p + 1] == 45,
                        first,
                    )
                }
            }
        }
    } else if p >= d.len() && !closed {
        NumScan::NeedMore
    } else {
        finish_number(d, max_len, p, neg, int_end, has_frac, frac_start, p, false, false, p)
    }
}

pub open spec fn finish_number(
    d: Seq<u8>,
    max_len: i32,
    end: int,
    neg: bool,
    int_end: int,
    has_frac: bool,
    frac_start: int,
    frac_end: int,
    has_exp: bool,
    exp_neg: bool,
    exp_start: int,
) -> NumScan {
    if max_len > 0 && end > max_len {
        NumScan::Fail(Fault::NumberLength(max_len))
    } else {
        let int_start = if neg {
            1int
        } else {
            0int
        };
        NumScan::Done {
            len: end as nat,
            num: compose_number(
                d,
                end,
                neg,
                int_start,
                int_end,
                has_frac,
                frac_start,
                frac_end,
                has_exp,
                exp_neg,
                exp_start,
            ),
        }
    }
}

/// The fraction part, read from index `p` (where the integer part ended).
pub open spec fn scan_fraction(d: Seq<u8>, closed: bool, max_len: i32, neg: bool, p: int) -> NumScan {
    if p < d.len() && d[p] == 46 {
        if p + 1 >= d.len() {
            if closed {
                NumScan::Fail(Fault::DecimalPoint)
            } else {
                NumScan::NeedMore
            }
        } else if !is_digit(d[p + 1]) {
            NumScan::Fail(Fault::DecimalPoint)
        } else {
            let q = digit_end(d, p + 2);
            if q == d.len() && !closed {
                NumScan::NeedMore
            } else {
                scan_exponent(d, closed, max_len, neg, p, true, p + 1, q)
            }
        }
    } else if p >= d.len() && !closed {
        NumScan::NeedMore
    } else {
        scan_exponent(d, closed, max_len, neg, p, false, p, p)
    }
}

/// Scans a number whose first byte (`-` or a digit) is `d[0]`.
pub open spec fn scan_number(d: Seq<u8>, closed: bool, max_len: i32) -> NumScan {
    let neg = d[0] == 45;
    let p0: int = if neg {
        1
    } else {
        0
    };
    if neg && d.len() < 2 {
        if closed {
            NumScan::Fail(Fault::JustMinus)
        } else {
            NumScan::NeedMore
        }
    } else {
        let c = d[p0];
        if c == 48 {
            if p0 + 1 < d.len() {
                if is_digit(d[p0 + 1]) {
                    NumScan::Fail(Fault::LeadingZeros)
                } else {
                    scan_fraction(d, closed, max_len, neg, p0 + 1)
                }
            } else if !closed {
                NumScan::NeedMore
            } else {
                scan_fraction(d, closed, max_len, neg, p0 + 1)
            }
        } else if 49 <= c <= 57 {
            let q = digit_end(d, p0 + 1);
            if q == d.len() && !closed {
                NumScan::NeedMore
            } else {
                scan_fraction(d, closed, max_len, neg, q)
            }
        } else {
            NumScan::Fail(Fault::InvalidNumber)
        }
    }
}

pub open spec fn step_number(cfg: Cfg, s: TokView, d: Seq<u8>) -> Step {
    if s.state != State::ExpectValue {
        Step::Fail { after: s, event: None, fault: Fault::UnexpectedNumber }
    } else {
        match scan_number(d, cfg.closed, cfg.max_number) {
            NumScan::NeedMore => Step::NeedMore,
            NumScan::Fail(f) => Step::Fail { after: s, event: None, fault: f },
            NumScan::Done { len, num } => {
                let next = TokView { after_comma: false, state: State::AfterValue, ..moved(s, len) };
                finish_token(
                    cfg,
                    s,
                    len,
                    Some(event_at(EventKindView::Number(num), s)),
                    next,
                )
            },
        }
    }
}

// ---------------------------------------------------------------------------------------
// Whitespace

/// The index of the first non-whitespace byte at or after `i`, or the length.
pub open spec fn ws_end(d: Seq<u8>, i: int) -> int
    decreases d.len() - i,
{
    if i >= d.len() || i < 0 {
        if i < 0 {
            0
        } else {
            i
        }
    } else if is_ws(d[i]) {
        ws_end(d, i + 1)
    } else {
        i
    }
}

/// The position after the whitespace bytes `w` (a newline starts a line at its first column;
/// a space or a tab advances the column).
pub open spec fn ws_position(line: usize, column: usize, w: Seq<u8>) -> (usize, usize)
    decreases w.len(),
{
    if w.len() == 0 {
        (line, column)
    } else {
        let (l, c) = ws_position(line, column, w.drop_last());
        if w.last() == 10 || w.last() == 13 {
            (sat_add(l, 1), 1)
        } else {
            (l, sat_add(c, 1))
        }
    }
}

/// A whitespace run: the position moves over each of its bytes.
pub open spec fn step_ws(cfg: Cfg, s: TokView, d: Seq<u8>) -> Step {
    let e = ws_end(d, 1);
    let (l, c) = ws_position(s.line, s.column, d.subrange(0, e));
    let next = TokView { line: l, column: c, ..s };
    let event = if cfg.needs_ws {
        Some(EventView { kind: EventKindView::Whitespace(ascii_chars(d.subrange(0, e))), line: l, column: c })
    } else {
        None
    };
    Step::Advance { n: e as nat, event, next }
}

// ---------------------------------------------------------------------------------------
// One token

/// What the token at the start of `d` does.
#[verifier::opaque]
pub open spec fn spec_step(cfg: Cfg, s: TokView, d: Seq<u8>) -> Step {
    if d.len() == 0 {
        Step::NeedMore
    } else {
        let b = d[0];
        if b == 34 {
            step_string(cfg, s, d)
        } else if b == 44 {
            step_comma(cfg, s)
        } else if b == 58 {
            step_colon(cfg, s)
        } else if b == 123 {
            step_open(cfg, s, true)
        } else if b == 125 {
            step_close(cfg, s, true)
        } else if b == 91 {
            step_open(cfg, s, false)
        } else if b == 93 {
            step_close(cfg, s, false)
        } else if is_ws(b) {
            step_ws(cfg, s, d)
        } else if b == 116 || b == 102 || b == 110 {
            step_literal(cfg, s, d)
        } else if b == 45 || is_digit(b) {
            step_number(cfg, s, d)
        } else {
            Step::Fail { after: s, event: None, fault: Fault::UnexpectedCharacter(b) }
        }
    }
}

/// The result of running the tokenizer over a byte sequence.
pub struct Run {
    pub events: Seq<EventView>,
    pub consumed: nat,
    pub end: TokView,
    pub fault: Option<Fault>,
}

pub open spec fn opt_seq(e: Option<EventView>) -> Seq<EventView> {
    match e {
        Some(x) => seq![x],
        None => seq![],
    }
}

/// Runs the tokenizer token by token until the input ends, a token needs more input, or a
/// token fails. `consumed` counts the bytes of the tokens that completed.
pub open spec fn spec_run(cfg: Cfg, s: TokView, d: Seq<u8>) -> Run
    decreases d.len(),
{
    match spec_step(cfg, s, d) {
        Step::NeedMore => Run { events: seq![], consumed: 0, end: s, fault: None },
        Step::Fail { event, fault, after } => Run {
            events: opt_seq(event),
            consumed: 0,
            end: after,
            fault: Some(fault),
        },
        Step::Advance { n, event, next } => if 0 < n <= d.len() {
            let r = spec_run(cfg, next, d.subrange(n as int, d.len() as int));
            Run {
                events: opt_seq(event) + r.events,
                consumed: n + r.consumed,
                end: r.end,
                fault: r.fault,
            }
        } else {
            Run { events: seq![], consumed: 0, end: s, fault: None }
        },
    }
}

/// The number of objects among the open containers.
pub open spec fn open_objects(st: Seq<Context>) -> nat
    decreases st.len(),
{
    if st.len() == 0 {
        0
    } else {
        open_objects(st.drop_last()) + if st.last() == Context::Object {
            1nat
        } else {
            0nat
        }
    }
}

proof fn lemma_open_objects_push(st: Seq<Context>, x: Context)
    ensures
        open_objects(st.push(x)) == open_objects(st) + if x == Context::Object {
            1nat
        } else {
            0nat
        },
{
    assert(st.push(x).drop_last() =~= st);
}

/// With repeated keys rejected, the tokenizer keeps one set of keys for each open object: every
/// token, whether it is read or fails, leaves as many key sets as there are open objects, so the
/// key set checked for a new key (the last one) belongs to the innermost open object.
pub proof fn law_key_sets_follow_objects(cfg: Cfg, s: TokView, d: Seq<u8>)
    requires
        cfg.reject_dup,
        s.dups.len() == open_objects(s.stack),
    ensures
        match spec_step(cfg, s, d) {
            Step::Advance { next, .. } => next.dups.len() == open_objects(next.stack),
            Step::Fail { after, .. } => after.dups.len() == open_objects(after.stack),
            Step::NeedMore => true,
        },
{
    reveal(spec_step);
    if s.stack.len() > 0 {
        lemma_open_objects_push(s.stack.drop_last(), s.stack.last());
        assert(s.stack.drop_last().push(s.stack.last()) =~= s.stack);
    }
    lemma_open_objects_push(s.stack, Context::Object);
    lemma_open_objects_push(s.stack, Context::Array);
}

/// With repeated keys rejected, every run ends with one key set for each open object.
pub proof fn law_key_sets_follow_objects_run(cfg: Cfg, s: TokView, d: Seq<u8>)
    requires
        cfg.reject_dup,
        s.dups.len() == open_objects(s.stack),
    ensures
        spec_run(cfg, s, d).end.dups.len() == open_objects(spec_run(cfg, s, d).end.stack),
    decreases d.len(),
{
    law_key_sets_follow_objects(cfg, s, d);
    if let Step::Advance { n, next, .. } = spec_step(cfg, s, d) {
        if 0 < n <= d.len() {
            law_key_sets_follow_objects_run(cfg, next, d.subrange(n as int, d.len() as int));
        }
    }
}

/// With repeated keys rejected, the keys of an object are forgotten when it closes: an object
/// opened and closed right away leaves the key sets as they were before it, so a key of the
/// enclosing object is checked against that object's keys only.
pub proof fn law_closed_object_keys_dropped(cfg: Cfg, s: TokView, d1: Seq<u8>, d2: Seq<u8>)
    requires
        cfg.reject_dup,
        d1.len() > 0 && d1[0] == 123,
        d2.len() > 0 && d2[0] == 125,
        spec_step(cfg, s, d1) is Advance,
        spec_step(cfg, spec_step(cfg, s, d1)->next, d2) is Advance,
    ensures
        spec_step(cfg, spec_step(cfg, s, d1)->next, d2)->next.dups == s.dups,
{
    reveal(spec_step);
    assert(s.dups.push(seq![]).drop_last() =~= s.dups);
}

/// With repeated keys rejected, a key read in an object is rejected when it comes again in that
/// object: after the key `v` is read, a key that reads as `v` from any state that expects a key
/// and has the same key sets fails as a repeated key.
pub proof fn law_repeated_key_rejected(cfg: Cfg, s: TokView, d1: Seq<u8>, t: TokView, d2: Seq<u8>, v: Seq<char>)
    requires
        cfg.reject_dup,
        s.state == State::ExpectKey,
        s.dups.len() > 0,
        spec_step(cfg, s, d1) matches Step::Advance { event: Some(e), .. } && e.kind == EventKindView::Key(v),
        t.state == State::ExpectKey,
        t.dups == spec_step(cfg, s, d1)->next.dups,
        d2.len() > 0 && d2[0] == 34,
        scan_string(d2.subrange(1, d2.len() as int), cfg.closed, true, cfg.max_name) matches StrScan::Done {
            value,
            ..
        } && value == v,
    ensures
        spec_step(cfg, t, d2) == (Step::Fail { after: t, event: None, fault: Fault::DuplicateKey(v) }),
{
    reveal(spec_step);
    assert(s.dups.last().push(v).contains(v)) by {
        assert(s.dups.last().push(v)[s.dups.last().len() as int] == v);
    }
    assert(s.dups.drop_last().push(s.dups.last().push(v)).last() == s.dups.last().push(v));
}

} // verus!
