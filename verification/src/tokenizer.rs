//! Streaming JSON tokenizer: recognizes one token at a time from the front of a byte
//! sequence and reports the event of the token.

use vstd::prelude::*;
use vstd::string::StrSliceExecFns;
use crate::error::{err_with_char, err_with_number, err_with_text, fault_message, Fault, ParseError, ParseResult};
use crate::grammar::{length_fault, opt_seq, spec_run, Run, spec_step, step_number, step_string, event_at, finish_token, is_ws, literal_rest, sat_add, step_close, step_colon, step_comma, step_literal, step_open, step_ws, ws_end, ws_position, EventView, Step, acc_exp, acc_frac, acc_int, acc_mag, i64_limit, compose_number, digit_end, finish_number, is_digit, scan_exponent, scan_fraction, scan_number, NumScan, hex_value, initial_view, scan_escape, scan_from, scan_hex, scan_string, Cfg, Context, EscScan, State, StrScan, TokView};
use crate::handler::{call_chain, chain_through, deliver, lemma_chain_push, lemma_chain_start, opt_view, ContentHandler, Event, EventKind};
use crate::keys::{spec_hash, KeySymbolTable};
use crate::limits::ParserLimits;
use crate::number::{ascii_chars, push_ascii, FloatLiteral, Number};
use crate::text::{decode_span, decode_span_utf16, spec_decode, utf16_len, utf16_of, utf16_to_string_lossy};

verus! {

/// After this many key lookups without a hit, keys are no longer interned.
pub const KEY_INTERN_DISABLE_THRESHOLD: i32 = 64;

/// Every key the table holds is interned as its decoding.
pub open spec fn table_ok(t: KeySymbolTable) -> bool {
    &&& t.wf()
    &&& forall|k: Seq<u8>, h: u32, v: Seq<char>| #[trigger] t.contains(k, h, v) ==> spec_decode(k) == Some(v)
}

/// Streaming JSON tokenizer.
pub struct Tokenizer {
    reject_duplicate_keys: bool,
    needs_whitespace: bool,
    closed: bool,
    stack: Vec<Context>,
    state: State,
    seen_any_token: bool,
    after_comma: bool,
    key_intern_attempts: i32,
    key_intern_hits: i32,
    key_intern_disabled: bool,
    duplicate_keys: Vec<Vec<String>>,
    token_count: i64,
    line: usize,
    column: usize,
    /// The events handed to the handler so far in this document, each with the handler's answer.
    log: Ghost<Seq<(EventView, ParseResult<()>)>>,
}

pub(crate) enum StrResult {
    NeedMore,
    Fail(ParseError),
    Done { len: usize, value: String, cols: usize },
}

pub(crate) open spec fn str_matches(r: StrResult, s: StrScan) -> bool {
    match (r, s) {
        (StrResult::NeedMore, StrScan::NeedMore) => true,
        (StrResult::Fail(e), StrScan::Fail(f)) => e.text() == fault_message(f),
        (StrResult::Done { len, value, cols }, StrScan::Done { len: l2, value: v2, cols: c2 }) => len
            == l2 && value@ == v2 && cols == c2,
        _ => false,
    }
}

pub(crate) enum EscResult {
    NeedMore,
    Fail(ParseError),
    Unit { unit: u16, end: usize },
}

pub(crate) open spec fn esc_matches(r: EscResult, s: EscScan) -> bool {
    match (r, s) {
        (EscResult::NeedMore, EscScan::NeedMore) => true,
        (EscResult::Fail(e), EscScan::Fail(f)) => e.text() == fault_message(f),
        (EscResult::Unit { unit, end }, EscScan::Unit { unit: u2, end: e2 }) => unit == u2 && end
            == e2,
        _ => false,
    }
}

/// The value of a hex digit.
pub fn unhex(b: u8) -> (r: ParseResult<u32>)
    ensures
        match r {
            Ok(v) => hex_value(b) == Some(v),
            Err(e) => hex_value(b) is None && e.text() == fault_message(Fault::InvalidHex(b)),
        },
{
    if b >= 48 && b <= 57 {
        Ok((b - 48) as u32)
    } else if b >= 65 && b <= 70 {
        Ok((b - 65 + 10) as u32)
    } else if b >= 97 && b <= 102 {
        Ok((b - 97 + 10) as u32)
    } else {
        Err(err_with_char("Invalid hex digit: ", b as char))
    }
}

proof fn lemma_scan_hex_bound(c: Seq<u8>, closed: bool, p: int, left: nat, acc: u32)
    requires
        acc < pow16((4 - left) as nat),
        left <= 4,
    ensures
        scan_hex(c, closed, p, left, acc) matches EscScan::Unit { end, .. } ==> end == p + left,
    decreases left,
{
    if left > 0 && p < c.len() {
        if let Some(d) = hex_value(c[p]) {
            assert(pow16((4 - (left - 1)) as nat) == 16 * pow16((4 - left) as nat));
            lemma_scan_hex_bound(c, closed, p + 1, (left - 1) as nat, ((acc * 16) + d) as u32);
        }
    }
}

pub open spec fn pow16(k: nat) -> nat
    decreases k,
{
    if k == 0 {
        1
    } else {
        16 * pow16((k - 1) as nat)
    }
}

impl Tokenizer {
    /// The state of the tokenizer.
    pub closed spec fn view(&self) -> TokView {
        TokView {
            state: self.state,
            stack: self.stack@,
            after_comma: self.after_comma,
            seen_any: self.seen_any_token,
            tokens: self.token_count,
            dups: self.duplicate_keys@.map_values(|v: Vec<String>| v@.map_values(|s: String| s@)),
            line: self.line,
            column: self.column,
        }
    }

    /// The settings the tokenizer runs with under the given limits.
    pub closed spec fn cfg(&self, limits: ParserLimits) -> Cfg {
        Cfg {
            reject_dup: self.reject_duplicate_keys,
            needs_ws: self.needs_whitespace,
            closed: self.closed,
            max_depth: limits.max_nesting_depth,
            max_number: limits.max_number_length,
            max_string: limits.max_string_length,
            max_name: limits.max_name_length,
            max_tokens: limits.max_token_count,
        }
    }

    /// The handler calls made so far in this document: each event with the handler's answer.
    pub closed spec fn calls(&self) -> Seq<(EventView, ParseResult<()>)> {
        self.log@
    }

    /// The events handed to the handler so far in this document.
    pub closed spec fn delivered(&self) -> Seq<EventView> {
        events_of(self.log@)
    }

    /// The handler's answers to the events handed to it so far in this document, in order.
    pub closed spec fn answers(&self) -> Seq<ParseResult<()>> {
        answers_of(self.log@)
    }

    pub closed spec fn is_closed(&self) -> bool {
        self.closed
    }

    pub closed spec fn rejects_duplicates(&self) -> bool {
        self.reject_duplicate_keys
    }

    pub closed spec fn reports_whitespace(&self) -> bool {
        self.needs_whitespace
    }

    /// Whether any token of the document was recognized.
    pub fn seen_any_token(&self) -> (r: bool)
        ensures
            r == self.view().seen_any,
    {
        self.seen_any_token
    }

    /// The innermost open container.
    pub fn innermost(&self) -> (r: Option<Context>)
        ensures
            r == (if self.view().stack.len() == 0 {
                None::<Context>
            } else {
                Some(self.view().stack.last())
            }),
    {
        if self.stack.len() == 0 {
            None
        } else {
            Some(self.stack[self.stack.len() - 1])
        }
    }

    /// A tokenizer at the start of a document.
    pub fn new(reject_duplicate_keys: bool, needs_whitespace: bool) -> (t: Tokenizer)
        ensures
            t.view() == initial_view(),
            t.delivered() == Seq::<EventView>::empty(),
            t.answers() == Seq::<ParseResult<()>>::empty(),
            !t.is_closed(),
            forall|l: ParserLimits|
                #![trigger t.cfg(l)]
                t.cfg(l) == (Cfg {
                    reject_dup: reject_duplicate_keys,
                    needs_ws: needs_whitespace,
                    closed: false,
                    max_depth: l.max_nesting_depth,
                    max_number: l.max_number_length,
                    max_string: l.max_string_length,
                    max_name: l.max_name_length,
                    max_tokens: l.max_token_count,
                }),
            t.rejects_duplicates() == reject_duplicate_keys,
            t.reports_whitespace() == needs_whitespace,
    {
        let t = Tokenizer {
            reject_duplicate_keys,
            needs_whitespace,
            closed: false,
            stack: Vec::new(),
            state: State::ExpectValue,
            seen_any_token: false,
            after_comma: false,
            key_intern_attempts: 0,
            key_intern_hits: 0,
            key_intern_disabled: false,
            duplicate_keys: Vec::new(),
            token_count: 0,
            line: 1,
            column: 1,
            log: Ghost(Seq::empty()),
        };
        assert(t.view().stack =~= Seq::<Context>::empty());
        assert(t.view().dups =~= Seq::<Seq<Seq<char>>>::empty());
        t
    }

    /// Marks the end of the input: tokens that stop at the end of the input complete or fail.
    pub fn set_closed(&mut self, closed: bool)
        ensures
            final(self).view() == old(self).view(),
            final(self).delivered() == old(self).delivered(),
            final(self).answers() == old(self).answers(),
            final(self).is_closed() == closed,
            forall|l: ParserLimits|
                #![trigger final(self).cfg(l)]
                final(self).cfg(l) == (Cfg { closed, ..old(self).cfg(l) }),
            final(self).rejects_duplicates() == old(self).rejects_duplicates(),
            final(self).reports_whitespace() == old(self).reports_whitespace(),
    {
        self.closed = closed;
    }

    fn scan_hex_exec(&self, c: &[u8], p: usize) -> (r: EscResult)
        requires
            p <= c@.len(),
        ensures
            esc_matches(r, scan_hex(c@, self.closed, p as int, 4, 0)),
            r matches EscResult::Unit { end, .. } ==> end == p + 4,
    {
        let mut value: u32 = 0;
        let mut k: usize = 0;
        // Reading the length records that it fits in a usize.
        let _len = c.len();
        proof {
            lemma_scan_hex_bound(c@, self.closed, p as int, 4, 0);
        }
        while k < 4
            invariant
                p <= c@.len(),
                k <= 4,
                p + k <= c@.len(),
                value < pow16(k as nat),
                pow16(k as nat) <= 65536,
                scan_hex(c@, self.closed, (p + k) as int, (4 - k) as nat, value) == scan_hex(
                    c@,
                    self.closed,
                    p as int,
                    4,
                    0,
                ),
            decreases 4 - k,
        {
            if k >= c.len() - p {
                if !self.closed {
                    return EscResult::NeedMore;
                }
                return EscResult::Fail(ParseError::new("Incomplete Unicode escape"));
            }
            let b = c[p + k];
            match unhex(b) {
                Err(e) => {
                    return EscResult::Fail(e);
                },
                Ok(d) => {
                    assert(pow16((k + 1) as nat) == 16 * pow16(k as nat));
                    proof {
                        reveal_with_fuel(pow16, 5);
                    }
                    assert(k < 4 ==> pow16((k + 1) as nat) <= 65536);
                    value = value * 16 + d;
                },
            }
            k = k + 1;
        }
        EscResult::Unit { unit: value as u16, end: p + 4 }
    }

    fn scan_escape_exec(&self, c: &[u8], j: usize) -> (r: EscResult)
        requires
            j <= c@.len(),
        ensures
            esc_matches(r, scan_escape(c@, self.closed, j as int)),
            r matches EscResult::Unit { end, .. } ==> j < end <= c@.len(),
    {
        if j >= c.len() {
            if !self.closed {
                return EscResult::NeedMore;
            }
            return EscResult::Fail(ParseError::new("Unexpected EOF in escape sequence"));
        }
        let e = c[j];
        if e == 34 {
            EscResult::Unit { unit: 34, end: j + 1 }
        } else if e == 92 {
            EscResult::Unit { unit: 92, end: j + 1 }
        } else if e == 47 {
            EscResult::Unit { unit: 47, end: j + 1 }
        } else if e == 98 {
            EscResult::Unit { unit: 8, end: j + 1 }
        } else if e == 102 {
            EscResult::Unit { unit: 12, end: j + 1 }
        } else if e == 110 {
            EscResult::Unit { unit: 10, end: j + 1 }
        } else if e == 114 {
            EscResult::Unit { unit: 13, end: j + 1 }
        } else if e == 116 {
            EscResult::Unit { unit: 9, end: j + 1 }
        } else if e == 117 {
            let r = self.scan_hex_exec(c, j + 1);
            proof {
                lemma_scan_hex_bound(c@, self.closed, j + 1, 4, 0);
                if let EscScan::Unit { end, .. } = scan_hex(c@, self.closed, j + 1, 4, 0) {
                    assert(end <= c@.len()) by {
                        lemma_scan_hex_in_bounds(c@, self.closed, j + 1, 4, 0);
                    }
                }
            }
            r
        } else {
            EscResult::Fail(err_with_char("Invalid escape sequence: \\", e as char))
        }
    }
}

/// The error for a string or key longer than the limit.
fn length_error(is_key: bool, limit: i32) -> (r: StrResult)
    requires
        limit > 0,
    ensures
        r matches StrResult::Fail(e) && e.text() == fault_message(length_fault(is_key, limit)),
{
    if is_key {
        StrResult::Fail(err_with_number("Maximum key length exceeded: ", limit as i64))
    } else {
        StrResult::Fail(err_with_number("Maximum string length exceeded: ", limit as i64))
    }
}

impl Tokenizer {
    /// The end of a string: `c[i]` is the closing quote.
    fn string_close(
        &mut self,
        table: &mut KeySymbolTable,
        c: &[u8],
        is_key: bool,
        limit: i32,
        i: usize,
        esc: bool,
        span: usize,
        units: &mut Vec<u16>,
        cols: usize,
        hash: u32,
        try_intern: bool,
    ) -> (r: StrResult)
        requires
            table_ok(*old(table)),
            i < c@.len(),
            c@[i as int] == 34,
            span <= i,
            cols <= span,
            try_intern ==> is_key,
            try_intern && !esc ==> hash == spec_hash(c@.subrange(0, i as int)),
        ensures
            table_ok(*final(table)),
            final(self).view() == old(self).view(),
            final(self).closed == old(self).closed,
            final(self).reject_duplicate_keys == old(self).reject_duplicate_keys,
            final(self).needs_whitespace == old(self).needs_whitespace,
            final(self).log == old(self).log,
            str_matches(
                r,
                scan_from(
                    c@,
                    old(self).closed,
                    is_key,
                    limit,
                    i as int,
                    esc,
                    span as int,
                    old(units)@,
                    cols as nat,
                ),
            ),
            r matches StrResult::Done { len, .. } ==> len == i + 1,
    {
        // Reading the length records that it fits in a usize.
        let _len = c.len();
        if !esc {
            let value: String;
            let mut found = false;
            if try_intern {
                if self.key_intern_attempts < i32::MAX {
                    self.key_intern_attempts = self.key_intern_attempts + 1;
                }
                let key_bytes = c.split_at(i).0;
                match table.lookup(key_bytes, hash) {
                    Some(v) => {
                        if self.key_intern_hits < i32::MAX {
                            self.key_intern_hits = self.key_intern_hits + 1;
                        }
                        value = v.to_owned();
                        found = true;
                    },
                    None => {
                        value = String::new();
                    },
                }
            } else {
                value = String::new();
            }
            let value = if found {
                value
            } else {
                match decode_span(c, 0, i) {
                    None => {
                        return StrResult::Fail(ParseError::new("Malformed UTF-8"));
                    },
                    Some(v) => {
                        if try_intern {
                            let key_bytes = c.split_at(i).0;
                            table.put(key_bytes, hash, v.clone());
                        }
                        v
                    },
                }
            };
            if try_intern && self.key_intern_hits == 0 && self.key_intern_attempts
                >= KEY_INTERN_DISABLE_THRESHOLD {
                self.key_intern_disabled = true;
            }
            if limit > 0 && value.as_str().unicode_len() > limit as usize {
                return length_error(is_key, limit);
            }
            let count = match utf16_len(c, 0, i) {
                Some(k) => k,
                None => 0,
            };
            StrResult::Done { len: i + 1, value, cols: count }
        } else {
            let mut total = cols;
            if i > span {
                match decode_span_utf16(c, span, i, units) {
                    None => {
                        return StrResult::Fail(ParseError::new("Malformed UTF-8"));
                    },
                    Some(k) => {
                        total = cols + k;
                    },
                }
            } else {
                assert(units@ + utf16_of(Seq::<char>::empty()) =~= units@);
            }
            let value = utf16_to_string_lossy(units);
            if limit > 0 && value.as_str().unicode_len() > limit as usize {
                return length_error(is_key, limit);
            }
            StrResult::Done { len: i + 1, value, cols: total }
        }
    }

    /// An escape sequence: `c[i]` is the backslash. On success, gives the index after the
    /// escape and the new character count.
    fn string_escape(
        &self,
        c: &[u8],
        is_key: bool,
        limit: i32,
        i: usize,
        esc: bool,
        span: usize,
        units: &mut Vec<u16>,
        cols: usize,
    ) -> (r: Result<(usize, usize), StrResult>)
        requires
            i < c@.len(),
            c@[i as int] == 92,
            span <= i,
            cols <= span,
            !esc ==> cols == 0,
        ensures
            r matches Err(x) ==> !(x is Done),
            match r {
                Err(x) => str_matches(
                    x,
                    scan_from(
                        c@,
                        self.closed,
                        is_key,
                        limit,
                        i as int,
                        esc,
                        span as int,
                        old(units)@,
                        cols as nat,
                    ),
                ),
                Ok((end, cols2)) => {
                    &&& i < end <= c@.len()
                    &&& cols2 <= end
                    &&& scan_from(
                        c@,
                        self.closed,
                        is_key,
                        limit,
                        end as int,
                        true,
                        end as int,
                        final(units)@,
                        cols2 as nat,
                    ) == scan_from(
                        c@,
                        self.closed,
                        is_key,
                        limit,
                        i as int,
                        esc,
                        span as int,
                        old(units)@,
                        cols as nat,
                    )
                },
            },
    {
        // Reading the length records that it fits in a usize.
        let _len = c.len();
        let mut span = span;
        if !esc {
            span = 0;
            units.clear();
        }
        let mut cols = cols;
        if i > span {
            match decode_span_utf16(c, span, i, units) {
                None => {
                    return Err(StrResult::Fail(ParseError::new("Malformed UTF-8")));
                },
                Some(k) => {
                    cols = cols + k;
                },
            }
        } else {
            assert(units@ + utf16_of(Seq::<char>::empty()) =~= units@);
        }
        match self.scan_escape_exec(c, i + 1) {
            EscResult::NeedMore => Err(StrResult::NeedMore),
            EscResult::Fail(e) => Err(StrResult::Fail(e)),
            EscResult::Unit { unit, end } => {
                units.push(unit);
                Ok((end, cols + (end - i)))
            },
        }
    }

    /// Scans the content of a string; `c` holds the bytes after the opening quote.
    fn scan_string_exec(
        &mut self,
        table: &mut KeySymbolTable,
        c: &[u8],
        is_key: bool,
        limit: i32,
    ) -> (r: StrResult)
        requires
            table_ok(*old(table)),
        ensures
            table_ok(*final(table)),
            final(self).view() == old(self).view(),
            final(self).closed == old(self).closed,
            final(self).reject_duplicate_keys == old(self).reject_duplicate_keys,
            final(self).needs_whitespace == old(self).needs_whitespace,
            final(self).log == old(self).log,
            str_matches(r, scan_string(c@, old(self).closed, is_key, limit)),
            r matches StrResult::Done { len, .. } ==> 1 <= len <= c@.len(),
    {
        let n = c.len();
        let closed = self.closed;
        let try_intern = is_key && !self.key_intern_disabled;
        let mut hash: u32 = KeySymbolTable::initial_hash();
        let mut i: usize = 0;
        let mut esc = false;
        let mut span: usize = 0;
        let mut units: Vec<u16> = Vec::new();
        let mut cols: usize = 0;
        assert(c@.subrange(0, 0) =~= Seq::<u8>::empty());
        loop
            invariant
                n == c@.len(),
                closed == self.closed,
                self.view() == old(self).view(),
                self.closed == old(self).closed,
                self.reject_duplicate_keys == old(self).reject_duplicate_keys,
                self.needs_whitespace == old(self).needs_whitespace,
                self.log == old(self).log,
                try_intern ==> is_key,
                table_ok(*table),
                i <= n,
                span <= i,
                cols <= span,
                try_intern && !esc ==> hash == spec_hash(c@.subrange(0, i as int)),
                !esc ==> cols == 0,
                scan_from(c@, closed, is_key, limit, i as int, esc, span as int, units@, cols as nat)
                    == scan_string(c@, closed, is_key, limit),
            decreases n - i,
        {
            if i >= n {
                if !closed {
                    return StrResult::NeedMore;
                }
                return StrResult::Fail(ParseError::new("Unclosed string"));
            }
            let b = c[i];
            if b == 34 {
                return self.string_close(
                    table,
                    c,
                    is_key,
                    limit,
                    i,
                    esc,
                    span,
                    &mut units,
                    cols,
                    hash,
                    try_intern,
                );
            }
            if try_intern {
                proof {
                    assert(c@.subrange(0, i + 1).drop_last() =~= c@.subrange(0, i as int));
                }
                hash = KeySymbolTable::hash_byte(hash, b);
            }
            if b == 92 {
                assert(!esc ==> cols == 0);
                match self.string_escape(c, is_key, limit, i, esc, span, &mut units, cols) {
                    Err(x) => {
                        return x;
                    },
                    Ok((end, cols2)) => {
                        esc = true;
                        span = end;
                        cols = cols2;
                        i = end;
                    },
                }
            } else if b < 32 {
                return StrResult::Fail(ParseError::new("Unescaped control character in string"));
            } else {
                i = i + 1;
            }
        }
    }
}

pub(crate) enum NumResult {
    NeedMore,
    Fail(ParseError),
    Done { len: usize, num: Number },
}

pub(crate) open spec fn num_matches(r: NumResult, s: NumScan) -> bool {
    match (r, s) {
        (NumResult::NeedMore, NumScan::NeedMore) => true,
        (NumResult::Fail(e), NumScan::Fail(f)) => e.text() == fault_message(f),
        (NumResult::Done { len, num }, NumScan::Done { len: l2, num: n2 }) => len == l2 && num@ == n2,
        _ => false,
    }
}

pub(crate) proof fn lemma_digit_end(d: Seq<u8>, i: int)
    requires
        0 <= i <= d.len(),
    ensures
        i <= digit_end(d, i) <= d.len(),
        forall|k: int| i <= k < digit_end(d, i) ==> is_digit(#[trigger] d[k]),
        digit_end(d, i) < d.len() ==> !is_digit(d[digit_end(d, i)]),
    decreases d.len() - i,
{
    if i < d.len() && is_digit(d[i]) {
        lemma_digit_end(d, i + 1);
    }
}

fn digit_end_exec(d: &[u8], i: usize) -> (q: usize)
    requires
        i <= d@.len(),
    ensures
        q == digit_end(d@, i as int),
        i <= q <= d@.len(),
        forall|k: int| i <= k < q ==> is_digit(#[trigger] d@[k]),
        q < d@.len() ==> !is_digit(d@[q as int]),
{
    proof {
        lemma_digit_end(d@, i as int);
    }
    let mut q = i;
    while q < d.len() && d[q] >= 48 && d[q] <= 57
        invariant
            i <= q <= d@.len(),
            digit_end(d@, q as int) == digit_end(d@, i as int),
        decreases d@.len() - q,
    {
        q = q + 1;
    }
    q
}

fn acc_int_exec(d: &[u8], a: usize, b: usize) -> (r: (i64, bool))
    requires
        a <= b <= d@.len(),
        forall|k: int| a <= k < b ==> is_digit(#[trigger] d@[k]),
    ensures
        r == acc_int(d@.subrange(a as int, b as int)),
{
    let mut v: i64 = 0;
    let mut o = false;
    let mut k = a;
    assert(d@.subrange(a as int, a as int) =~= Seq::<u8>::empty());
    while k < b
        invariant
            a <= k <= b <= d@.len(),
            forall|j: int| a <= j < b ==> is_digit(#[trigger] d@[j]),
            (v, o) == acc_int(d@.subrange(a as int, k as int)),
            v >= 0,
        decreases b - k,
    {
        assert(d@.subrange(a as int, k + 1).drop_last() =~= d@.subrange(a as int, k as int));
        assert(is_digit(d@[k as int]));
        let dg = (d[k] - 48) as i64;
        if !o {
            if v > (i64::MAX - dg) / 10 {
                o = true;
            } else {
                v = v * 10 + dg;
            }
        }
        k = k + 1;
    }
    (v, o)
}

fn acc_mag_exec(d: &[u8], a: usize, b: usize) -> (r: (u64, bool))
    requires
        a <= b <= d@.len(),
        forall|k: int| a <= k < b ==> is_digit(#[trigger] d@[k]),
    ensures
        r == acc_mag(d@.subrange(a as int, b as int)),
{
    let mut v: u64 = 0;
    let mut o = false;
    let mut k = a;
    assert(d@.subrange(a as int, a as int) =~= Seq::<u8>::empty());
    while k < b
        invariant
            a <= k <= b <= d@.len(),
            forall|j: int| a <= j < b ==> is_digit(#[trigger] d@[j]),
            (v, o) == acc_mag(d@.subrange(a as int, k as int)),
        decreases b - k,
    {
        assert(d@.subrange(a as int, k + 1).drop_last() =~= d@.subrange(a as int, k as int));
        assert(is_digit(d@[k as int]));
        let dg = (d[k] - 48) as u64;
        if !o {
            if v > (u64::MAX - dg) / 10 {
                o = true;
            } else {
                v = v * 10 + dg;
            }
        }
        k = k + 1;
    }
    (v, o)
}

fn acc_frac_exec(d: &[u8], a: usize, b: usize) -> (r: (i64, i64, bool))
    requires
        a <= b <= d@.len(),
        forall|k: int| a <= k < b ==> is_digit(#[trigger] d@[k]),
    ensures
        r == acc_frac(d@.subrange(a as int, b as int)),
{
    let mut v: i64 = 0;
    let mut m: i64 = 1;
    let mut o = false;
    let mut k = a;
    assert(d@.subrange(a as int, a as int) =~= Seq::<u8>::empty());
    while k < b
        invariant
            a <= k <= b <= d@.len(),
            forall|j: int| a <= j < b ==> is_digit(#[trigger] d@[j]),
            (v, m, o) == acc_frac(d@.subrange(a as int, k as int)),
            v >= 0,
            m >= 1,
        decreases b - k,
    {
        assert(d@.subrange(a as int, k + 1).drop_last() =~= d@.subrange(a as int, k as int));
        assert(is_digit(d@[k as int]));
        let dg = (d[k] - 48) as i64;
        if !o {
            if m > i64::MAX / 10 || v > (i64::MAX - dg) / 10 {
                o = true;
            } else {
                v = v * 10 + dg;
                m = m * 10;
            }
        }
        k = k + 1;
    }
    (v, m, o)
}

fn acc_exp_exec(d: &[u8], a: usize, b: usize) -> (r: (i32, bool))
    requires
        a <= b <= d@.len(),
        forall|k: int| a <= k < b ==> is_digit(#[trigger] d@[k]),
    ensures
        r == acc_exp(d@.subrange(a as int, b as int)),
{
    let mut v: i32 = 0;
    let mut o = false;
    let mut k = a;
    assert(d@.subrange(a as int, a as int) =~= Seq::<u8>::empty());
    while k < b
        invariant
            a <= k <= b <= d@.len(),
            forall|j: int| a <= j < b ==> is_digit(#[trigger] d@[j]),
            (v, o) == acc_exp(d@.subrange(a as int, k as int)),
            0 <= v,
            !o ==> v <= 100000,
        decreases b - k,
    {
        assert(d@.subrange(a as int, k + 1).drop_last() =~= d@.subrange(a as int, k as int));
        assert(is_digit(d@[k as int]));
        let dg = (d[k] - 48) as i32;
        if !o {
            v = v * 10 + dg;
            if v > 100000 {
                o = true;
            }
        }
        k = k + 1;
    }
    (v, o)
}

/// The text of `d[0..end]` as a string.
fn ascii_text(d: &[u8], end: usize) -> (s: String)
    requires
        end <= d@.len(),
    ensures
        s@ == ascii_chars(d@.subrange(0, end as int)),
{
    let bytes = vstd::slice::slice_to_vec(d.split_at(end).0);
    let mut s = String::new();
    push_ascii(&mut s, &bytes);
    assert(s@ =~= ascii_chars(d@.subrange(0, end as int)));
    s
}

fn compose_number_exec(
    d: &[u8],
    end: usize,
    neg: bool,
    int_start: usize,
    int_end: usize,
    has_frac: bool,
    frac_start: usize,
    frac_end: usize,
    has_exp: bool,
    exp_neg: bool,
    exp_start: usize,
) -> (n: Number)
    requires
        end <= d@.len(),
        int_start <= int_end <= d@.len(),
        forall|k: int| int_start <= k < int_end ==> is_digit(#[trigger] d@[k]),
        has_frac ==> frac_start <= frac_end <= d@.len(),
        has_frac ==> forall|k: int| frac_start <= k < frac_end ==> is_digit(#[trigger] d@[k]),
        has_exp ==> exp_start <= end,
        has_exp ==> forall|k: int| exp_start <= k < end ==> is_digit(#[trigger] d@[k]),
    ensures
        n@ == compose_number(
            d@,
            end as int,
            neg,
            int_start as int,
            int_end as int,
            has_frac,
            frac_start as int,
            frac_end as int,
            has_exp,
            exp_neg,
            exp_start as int,
        ),
{
    let text = ascii_text(d, end);
    let (ival, int_overflow) = acc_int_exec(d, int_start, int_end);
    proof {
        let ds = d@.subrange(int_start as int, int_end as int);
        assert forall|k: int| 0 <= k < ds.len() implies is_digit(#[trigger] ds[k]) by {
            assert(ds[k] == d@[int_start + k]);
        }
        lemma_acc_int_nonneg(ds);
    }
    if !has_frac && !has_exp {
        let (mag, mag_overflow) = acc_mag_exec(d, int_start, int_end);
        let limit: u64 = if neg {
            0x8000_0000_0000_0000
        } else {
            0x7fff_ffff_ffff_ffff
        };
        assert(limit == i64_limit(neg));
        if mag_overflow || mag > limit {
            return Number::BigInt(text);
        }
        let value: i64 = if mag == 0x8000_0000_0000_0000 {
            i64::MIN
        } else if neg {
            -(mag as i64)
        } else {
            mag as i64
        };
        if value >= i32::MIN as i64 && value <= i32::MAX as i64 {
            return Number::I32(value as i32);
        }
        return Number::I64(value);
    }
    let (dval, mul, frac_overflow) = if has_frac {
        acc_frac_exec(d, frac_start, frac_end)
    } else {
        (0i64, 1i64, false)
    };
    let (exponent, exp_overflow) = if has_exp {
        acc_exp_exec(d, exp_start, end)
    } else {
        (0i32, false)
    };
    Number::Float(
        FloatLiteral {
            text,
            negative: neg,
            int_value: ival,
            int_overflow,
            has_fraction: has_frac,
            frac_value: dval,
            frac_scale: mul,
            frac_overflow,
            has_exponent: has_exp,
            exp_negative: exp_neg,
            exponent,
            exp_overflow,
        },
    )
}

proof fn lemma_acc_int_nonneg(ds: Seq<u8>)
    requires
        forall|k: int| 0 <= k < ds.len() ==> is_digit(#[trigger] ds[k]),
    ensures
        acc_int(ds).0 >= 0,
    decreases ds.len(),
{
    if ds.len() > 0 {
        assert(forall|k: int| 0 <= k < ds.drop_last().len() ==> ds.drop_last()[k] == ds[k]);
        lemma_acc_int_nonneg(ds.drop_last());
        assert(is_digit(ds[ds.len() - 1]));
    }
}

impl Tokenizer {
    fn finish_number_exec(
        &self,
        d: &[u8],
        max_len: i32,
        end: usize,
        neg: bool,
        int_end: usize,
        has_frac: bool,
        frac_start: usize,
        frac_end: usize,
        has_exp: bool,
        exp_neg: bool,
        exp_start: usize,
    ) -> (r: NumResult)
        requires
            1 <= end <= d@.len(),
            (if neg {
                1int
            } else {
                0int
            }) <= int_end <= d@.len(),
            forall|k: int|
                (if neg {
                    1int
                } else {
                    0int
                }) <= k < int_end ==> is_digit(#[trigger] d@[k]),
            has_frac ==> frac_start <= frac_end <= d@.len(),
            has_frac ==> forall|k: int| frac_start <= k < frac_end ==> is_digit(#[trigger] d@[k]),
            has_exp ==> exp_start <= end,
            has_exp ==> forall|k: int| exp_start <= k < end ==> is_digit(#[trigger] d@[k]),
        ensures
            num_matches(
                r,
                finish_number(
                    d@,
                    max_len,
                    end as int,
                    neg,
                    int_end as int,
                    has_frac,
                    frac_start as int,
                    frac_end as int,
                    has_exp,
                    exp_neg,
                    exp_start as int,
                ),
            ),
            r matches NumResult::Done { len, .. } ==> len == end,
    {
        if max_len > 0 && end > max_len as usize {
            return NumResult::Fail(err_with_number("Maximum number length exceeded: ", max_len as i64));
        }
        let int_start: usize = if neg {
            1
        } else {
            0
        };
        let num = compose_number_exec(
            d,
            end,
            neg,
            int_start,
            int_end,
            has_frac,
            frac_start,
            frac_end,
            has_exp,
            exp_neg,
            exp_start,
        );
        NumResult::Done { len: end, num }
    }

    fn scan_exponent_exec(
        &self,
        d: &[u8],
        max_len: i32,
        neg: bool,
        int_end: usize,
        has_frac: bool,
        frac_start: usize,
        p: usize,
    ) -> (r: NumResult)
        requires
            1 <= p <= d@.len(),
            (if neg {
                1int
            } else {
                0int
            }) <= int_end <= p,
            forall|k: int|
                (if neg {
                    1int
                } else {
                    0int
                }) <= k < int_end ==> is_digit(#[trigger] d@[k]),
            has_frac ==> frac_start <= p,
            has_frac ==> forall|k: int| frac_start <= k < p ==> is_digit(#[trigger] d@[k]),
        ensures
            num_matches(
                r,
                scan_exponent(
                    d@,
                    self.closed,
                    max_len,
                    neg,
                    int_end as int,
                    has_frac,
                    frac_start as int,
                    p as int,
                ),
            ),
            r matches NumResult::Done { len, .. } ==> p <= len <= d@.len(),
    {
        let n = d.len();
        if p < n && (d[p] == 101 || d[p] == 69) {
            if p + 1 >= n {
                if self.closed {
                    return NumResult::Fail(ParseError::new("Incomplete exponent"));
                }
                return NumResult::NeedMore;
            }
            let signed = d[p + 1] == 43 || d[p + 1] == 45;
            let first = if signed {
                p + 2
            } else {
                p + 1
            };
            if first >= n {
                if self.closed {
                    return NumResult::Fail(ParseError::new("Exponent must have digit"));
                }
                return NumResult::NeedMore;
            }
            if !(d[first] >= 48 && d[first] <= 57) {
                return NumResult::Fail(ParseError::new("Exponent must have digit"));
            }
            let q = digit_end_exec(d, first + 1);
            if q == n && !self.closed {
                return NumResult::NeedMore;
            }
            let exp_neg = signed && d[p + 1] == 45;
            self.finish_number_exec(
                d,
                max_len,
                q,
                neg,
                int_end,
                has_frac,
                frac_start,
                p,
                true,
                exp_neg,
                first,
            )
        } else if p >= n && !self.closed {
            NumResult::NeedMore
        } else {
            self.finish_number_exec(d, max_len, p, neg, int_end, has_frac, frac_start, p, false, false, p)
        }
    }

    fn scan_fraction_exec(&self, d: &[u8], max_len: i32, neg: bool, p: usize) -> (r: NumResult)
        requires
            1 <= p <= d@.len(),
            (if neg {
                1int
            } else {
                0int
            }) <= p,
            forall|k: int|
                (if neg {
                    1int
                } else {
                    0int
                }) <= k < p ==> is_digit(#[trigger] d@[k]),
        ensures
            num_matches(r, scan_fraction(d@, self.closed, max_len, neg, p as int)),
            r matches NumResult::Done { len, .. } ==> p <= len <= d@.len(),
    {
        let n = d.len();
        if p < n && d[p] == 46 {
            if p + 1 >= n {
                if self.closed {
                    return NumResult::Fail(ParseError::new("Decimal point must be followed by digit"));
                }
                return NumResult::NeedMore;
            }
            if !(d[p + 1] >= 48 && d[p + 1] <= 57) {
                return NumResult::Fail(ParseError::new("Decimal point must be followed by digit"));
            }
            let q = digit_end_exec(d, p + 2);
            if q == n && !self.closed {
                return NumResult::NeedMore;
            }
            self.scan_exponent_exec(d, max_len, neg, p, true, p + 1, q)
        } else if p >= n && !self.closed {
            NumResult::NeedMore
        } else {
            self.scan_exponent_exec(d, max_len, neg, p, false, p, p)
        }
    }

    /// Scans a number whose first byte is `d[0]`.
    fn scan_number_exec(&self, d: &[u8], max_len: i32) -> (r: NumResult)
        requires
            d@.len() >= 1,
            d@[0] == 45 || is_digit(d@[0]),
        ensures
            num_matches(r, scan_number(d@, self.closed, max_len)),
            r matches NumResult::Done { len, .. } ==> 1 <= len <= d@.len(),
    {
        let n = d.len();
        let neg = d[0] == 45;
        let p0: usize = if neg {
            1
        } else {
            0
        };
        if neg && n < 2 {
            if self.closed {
                return NumResult::Fail(ParseError::new("Invalid number: just '-'"));
            }
            return NumResult::NeedMore;
        }
        let c = d[p0];
        if c == 48 {
            if p0 + 1 < n {
                if d[p0 + 1] >= 48 && d[p0 + 1] <= 57 {
                    return NumResult::Fail(ParseError::new("Numbers cannot have leading zeros"));
                }
                self.scan_fraction_exec(d, max_len, neg, p0 + 1)
            } else if !self.closed {
                NumResult::NeedMore
            } else {
                self.scan_fraction_exec(d, max_len, neg, p0 + 1)
            }
        } else if c >= 49 && c <= 57 {
            let q = digit_end_exec(d, p0 + 1);
            if q == n && !self.closed {
                return NumResult::NeedMore;
            }
            self.scan_fraction_exec(d, max_len, neg, q)
        } else {
            NumResult::Fail(ParseError::new("Invalid number format"))
        }
    }
}

/// What one call of [`Tokenizer::step`] did.
pub enum StepResult {
    /// The token needs more input; nothing was consumed.
    NeedMore,
    /// A token of `len` bytes was consumed, with its event if it has one.
    Token { len: usize, event: Option<Event> },
    /// The token failed, after reporting `event` if there is one.
    Error { event: Option<Event>, error: ParseError },
}

pub open spec fn step_matches(r: StepResult, st: Step, before: TokView, after: TokView) -> bool {
    match (r, st) {
        (StepResult::NeedMore, Step::NeedMore) => after == before,
        (StepResult::Token { len, event }, Step::Advance { n, event: e2, next }) => len == n
            && opt_view(event) == e2 && after == next,
        (StepResult::Error { event, error }, Step::Fail { event: e2, fault, after: a2 }) => opt_view(event)
            == e2 && error.text() == fault_message(fault) && after == a2,
        _ => false,
    }
}

fn sat_add_exec(a: usize, b: usize) -> (r: usize)
    ensures
        r == sat_add(a, b as int),
{
    if usize::MAX - a < b {
        usize::MAX
    } else {
        a + b
    }
}

impl Tokenizer {
    /// Counts the token and completes it.
    fn finish(&mut self, limits: &ParserLimits, len: usize, event: Option<Event>) -> (r: StepResult)
        ensures
            step_matches(
                r,
                finish_token(
                    old(self).cfg(*limits),
                    old(self).view(),
                    len as nat,
                    opt_view(event),
                    old(self).view(),
                ),
                old(self).view(),
                final(self).view(),
            ),
            final(self).closed == old(self).closed,
            final(self).reject_duplicate_keys == old(self).reject_duplicate_keys,
            final(self).needs_whitespace == old(self).needs_whitespace,
            final(self).log == old(self).log,
    {
        let max = limits.max_token_count;
        if max > 0 {
            if self.token_count >= max {
                return StepResult::Error {
                    event,
                    error: err_with_number("Maximum token count exceeded: ", max),
                };
            }
            self.token_count = self.token_count + 1;
        }
        self.seen_any_token = true;
        StepResult::Token { len, event }
    }

    fn event_here(&self, kind: EventKind) -> (e: Event)
        ensures
            e@ == event_at(kind@, self.view()),
    {
        Event { kind, line: self.line, column: self.column }
    }

    fn step_comma_exec(&mut self, limits: &ParserLimits) -> (r: StepResult)
        ensures
            step_matches(r, step_comma(old(self).cfg(*limits), old(self).view()), old(self).view(), final(self).view()),
            final(self).closed == old(self).closed,
            final(self).reject_duplicate_keys == old(self).reject_duplicate_keys,
            final(self).needs_whitespace == old(self).needs_whitespace,
            final(self).log == old(self).log,
    {
        if self.state != State::AfterValue {
            return StepResult::Error { event: None, error: ParseError::new("Unexpected ','") };
        }
        if self.stack.len() == 0 {
            return StepResult::Error {
                event: None,
                error: ParseError::new("Unexpected comma at root level"),
            };
        }
        let top = self.stack[self.stack.len() - 1];
        self.after_comma = true;
        self.state = if top == Context::Object {
            State::ExpectKey
        } else {
            State::ExpectValue
        };
        self.column = sat_add_exec(self.column, 1);
        self.finish(limits, 1, None)
    }

    fn step_colon_exec(&mut self, limits: &ParserLimits) -> (r: StepResult)
        ensures
            step_matches(r, step_colon(old(self).cfg(*limits), old(self).view()), old(self).view(), final(self).view()),
            final(self).closed == old(self).closed,
            final(self).reject_duplicate_keys == old(self).reject_duplicate_keys,
            final(self).needs_whitespace == old(self).needs_whitespace,
            final(self).log == old(self).log,
    {
        if self.state != State::ExpectColon {
            return StepResult::Error { event: None, error: ParseError::new("Unexpected ':'") };
        }
        self.after_comma = false;
        self.state = State::ExpectValue;
        self.column = sat_add_exec(self.column, 1);
        self.finish(limits, 1, None)
    }

    fn step_open_exec(&mut self, limits: &ParserLimits, object: bool) -> (r: StepResult)
        ensures
            step_matches(r, step_open(old(self).cfg(*limits), old(self).view(), object), old(self).view(), final(self).view()),
            final(self).closed == old(self).closed,
            final(self).reject_duplicate_keys == old(self).reject_duplicate_keys,
            final(self).needs_whitespace == old(self).needs_whitespace,
            final(self).log == old(self).log,
    {
        if self.state != State::ExpectValue {
            if object {
                return StepResult::Error { event: None, error: ParseError::new("Unexpected '{'") };
            } else {
                return StepResult::Error { event: None, error: ParseError::new("Unexpected '['") };
            }
        }
        let max_depth = limits.max_nesting_depth;
        if max_depth > 0 && self.stack.len() >= max_depth as usize {
            return StepResult::Error {
                event: None,
                error: err_with_number("Maximum nesting depth exceeded: ", max_depth as i64),
            };
        }
        let event = if object {
            self.event_here(EventKind::StartObject)
        } else {
            self.event_here(EventKind::StartArray)
        };
        let ghost before = self.duplicate_keys@;
        if object {
            self.stack.push(Context::Object);
            if self.reject_duplicate_keys {
                let fresh: Vec<String> = Vec::new();
                let ghost fv = fresh;
                self.duplicate_keys.push(fresh);
                proof {
                    let f = |v: Vec<String>| v@.map_values(|s: String| s@);
                    assert(self.duplicate_keys@ == before.push(fv));
                    assert(f(fv) =~= Seq::<Seq<char>>::empty());
                    assert(self.duplicate_keys@.map_values(f) =~= before.map_values(f).push(
                        seq![],
                    ));
                }
            }
        } else {
            self.stack.push(Context::Array);
        }
        self.after_comma = false;
        self.state = if object {
            State::ExpectKey
        } else {
            State::ExpectValue
        };
        self.column = sat_add_exec(self.column, 1);
        self.finish(limits, 1, Some(event))
    }

    fn step_close_exec(&mut self, limits: &ParserLimits, object: bool) -> (r: StepResult)
        ensures
            step_matches(r, step_close(old(self).cfg(*limits), old(self).view(), object), old(self).view(), final(self).view()),
            final(self).closed == old(self).closed,
            final(self).reject_duplicate_keys == old(self).reject_duplicate_keys,
            final(self).needs_whitespace == old(self).needs_whitespace,
            final(self).log == old(self).log,
    {
        let ctx = if object {
            Context::Object
        } else {
            Context::Array
        };
        let allowed = if object {
            State::ExpectKey
        } else {
            State::ExpectValue
        };
        if self.stack.len() == 0 || self.stack[self.stack.len() - 1] != ctx || (self.state != allowed
            && self.state != State::AfterValue) {
            if object {
                return StepResult::Error { event: None, error: ParseError::new("Unexpected '}'") };
            } else {
                return StepResult::Error { event: None, error: ParseError::new("Unexpected ']'") };
            }
        }
        if self.after_comma {
            if object {
                return StepResult::Error {
                    event: None,
                    error: ParseError::new("Trailing comma before '}'"),
                };
            } else {
                return StepResult::Error {
                    event: None,
                    error: ParseError::new("Trailing comma before ']'"),
                };
            }
        }
        let event = if object {
            self.event_here(EventKind::EndObject)
        } else {
            self.event_here(EventKind::EndArray)
        };
        let ghost before = self.duplicate_keys@;
        self.stack.pop();
        if object && self.reject_duplicate_keys && self.duplicate_keys.len() > 0 {
            self.duplicate_keys.pop();
        }
        proof {
            let f = |v: Vec<String>| v@.map_values(|s: String| s@);
            if object && self.reject_duplicate_keys && before.len() > 0 {
                assert(self.duplicate_keys@.map_values(f) =~= before.map_values(f).drop_last());
            }
        }
        self.after_comma = false;
        self.state = State::AfterValue;
        self.column = sat_add_exec(self.column, 1);
        self.finish(limits, 1, Some(event))
    }

    fn step_literal_exec(&mut self, limits: &ParserLimits, d: &[u8]) -> (r: StepResult)
        requires
            d@.len() >= 1,
            d@[0] == 116 || d@[0] == 102 || d@[0] == 110,
        ensures
            step_matches(r, step_literal(old(self).cfg(*limits), old(self).view(), d@), old(self).view(), final(self).view()),
            final(self).closed == old(self).closed,
            final(self).reject_duplicate_keys == old(self).reject_duplicate_keys,
            final(self).needs_whitespace == old(self).needs_whitespace,
            final(self).log == old(self).log,
    {
        let b = d[0];
        if self.state != State::ExpectValue {
            if b == 116 {
                return StepResult::Error { event: None, error: ParseError::new("Unexpected 'true'") };
            } else if b == 102 {
                return StepResult::Error { event: None, error: ParseError::new("Unexpected 'false'") };
            } else {
                return StepResult::Error { event: None, error: ParseError::new("Unexpected 'null'") };
            }
        }
        let rem: Vec<u8> = if b == 116 {
            vec![114u8, 117u8, 101u8]
        } else if b == 102 {
            vec![97u8, 108u8, 115u8, 101u8]
        } else {
            vec![117u8, 108u8, 108u8]
        };
        assert(rem@ =~= literal_rest(b));
        let k = rem.len();
        if d.len() - 1 < k {
            if self.closed {
                return StepResult::Error { event: None, error: ParseError::new("Incomplete literal") };
            }
            return StepResult::NeedMore;
        }
        let mut i: usize = 0;
        while i < k
            invariant
                *self == *old(self),
                self.state == State::ExpectValue,
                rem@ == literal_rest(b),
                b == d@[0],
                k == rem@.len(),
                k + 1 <= d@.len(),
                i <= k,
                forall|j: int| 0 <= j < i ==> d@[1 + j] == rem@[j],
            decreases k - i,
        {
            if d[1 + i] != rem[i] {
                assert(d@.subrange(1, 1 + k as int)[i as int] != rem@[i as int]);
                return StepResult::Error { event: None, error: ParseError::new("Invalid literal") };
            }
            i = i + 1;
        }
        assert(d@.subrange(1, 1 + k as int) =~= rem@);
        let kind = if b == 116 {
            EventKind::Bool(true)
        } else if b == 102 {
            EventKind::Bool(false)
        } else {
            EventKind::Null
        };
        let event = self.event_here(kind);
        self.after_comma = false;
        self.state = State::AfterValue;
        self.column = sat_add_exec(self.column, k + 1);
        self.finish(limits, k + 1, Some(event))
    }

    fn step_ws_exec(&mut self, limits: &ParserLimits, d: &[u8]) -> (r: StepResult)
        requires
            d@.len() >= 1,
            is_ws(d@[0]),
        ensures
            step_matches(r, step_ws(old(self).cfg(*limits), old(self).view(), d@), old(self).view(), final(self).view()),
            final(self).closed == old(self).closed,
            final(self).reject_duplicate_keys == old(self).reject_duplicate_keys,
            final(self).needs_whitespace == old(self).needs_whitespace,
            final(self).log == old(self).log,
    {
        let n = d.len();
        let ghost l0 = self.line;
        let ghost c0 = self.column;
        let mut i: usize = 0;
        assert(d@.subrange(0, 0) =~= Seq::<u8>::empty());
        while i < n && (d[i] == 32 || d[i] == 10 || d[i] == 9 || d[i] == 13)
            invariant
                0 <= i <= n == d@.len(),
                is_ws(d@[0]),
                i >= 1 ==> ws_end(d@, i as int) == ws_end(d@, 1),
                (self.line, self.column) == ws_position(l0, c0, d@.subrange(0, i as int)),
                self.view().state == old(self).view().state,
                self.view().stack == old(self).view().stack,
                self.view().after_comma == old(self).view().after_comma,
                self.view().seen_any == old(self).view().seen_any,
                self.view().tokens == old(self).view().tokens,
                self.view().dups == old(self).view().dups,
                l0 == old(self).line,
                c0 == old(self).column,
                self.closed == old(self).closed,
                self.reject_duplicate_keys == old(self).reject_duplicate_keys,
                self.needs_whitespace == old(self).needs_whitespace,
                self.log == old(self).log,
            decreases n - i,
        {
            assert(d@.subrange(0, i + 1).drop_last() =~= d@.subrange(0, i as int));
            if d[i] == 10 || d[i] == 13 {
                self.line = sat_add_exec(self.line, 1);
                self.column = 1;
            } else {
                self.column = sat_add_exec(self.column, 1);
            }
            i = i + 1;
        }
        let event = if self.needs_whitespace {
            let text = ascii_text(d, i);
            Some(Event { kind: EventKind::Whitespace(text), line: self.line, column: self.column })
        } else {
            None
        };
        StepResult::Token { len: i, event }
    }
}

/// The decoded keys of an object's key list.
pub open spec fn key_list(v: Vec<String>) -> Seq<Seq<char>> {
    v@.map_values(|s: String| s@)
}

fn list_contains(list: &Vec<String>, v: &String) -> (r: bool)
    ensures
        r == key_list(*list).contains(v@),
{
    let mut i: usize = 0;
    while i < list.len()
        invariant
            i <= list@.len(),
            forall|j: int| 0 <= j < i ==> list@[j]@ != v@,
        decreases list.len() - i,
    {
        if list[i] == *v {
            assert(key_list(*list)[i as int] == v@);
            return true;
        }
        i = i + 1;
    }
    assert forall|j: int| 0 <= j < key_list(*list).len() implies key_list(*list)[j] != v@ by {
        assert(key_list(*list)[j] == list@[j]@);
    }
    false
}

impl Tokenizer {
    fn step_string_exec(&mut self, table: &mut KeySymbolTable, limits: &ParserLimits, d: &[u8]) -> (r: StepResult)
        requires
            table_ok(*old(table)),
            d@.len() >= 1,
            d@[0] == 34,
        ensures
            table_ok(*final(table)),
            step_matches(r, step_string(old(self).cfg(*limits), old(self).view(), d@), old(self).view(), final(self).view()),
            final(self).closed == old(self).closed,
            final(self).reject_duplicate_keys == old(self).reject_duplicate_keys,
            final(self).needs_whitespace == old(self).needs_whitespace,
            final(self).log == old(self).log,
            r matches StepResult::Token { len, .. } ==> 1 <= len <= d@.len(),
    {
        if self.state == State::ExpectColon || self.state == State::AfterValue {
            return StepResult::Error { event: None, error: ParseError::new("Unexpected string") };
        }
        let is_key = self.state == State::ExpectKey;
        let limit = if is_key {
            limits.max_name_length
        } else {
            limits.max_string_length
        };
        // Reading the length records that it fits in a usize.
        let _n = d.len();
        let c = d.split_at(1).1;
        assert(c@ == d@.subrange(1, d@.len() as int));
        match self.scan_string_exec(table, c, is_key, limit) {
            StrResult::NeedMore => StepResult::NeedMore,
            StrResult::Fail(e) => StepResult::Error { event: None, error: e },
            StrResult::Done { len, value, cols } => {
                let ghost before = self.duplicate_keys@;
                let ghost f = |v: Vec<String>| v@.map_values(|s: String| s@);
                if is_key && self.reject_duplicate_keys && self.duplicate_keys.len() > 0 {
                    let last = self.duplicate_keys.len() - 1;
                    assert(self.view().dups.last() == key_list(self.duplicate_keys@[last as int]));
                    if list_contains(&self.duplicate_keys[last], &value) {
                        return StepResult::Error {
                            event: None,
                            error: err_with_text("Duplicate key: ", value.as_str()),
                        };
                    }
                    let mut top = self.duplicate_keys.pop().unwrap();
                    let ghost top0 = top;
                    top.push(value.clone());
                    let ghost top1 = top;
                    self.duplicate_keys.push(top);
                    proof {
                        assert(self.duplicate_keys@ == before.drop_last().push(top1));
                        assert(key_list(top1) =~= key_list(top0).push(value@));
                        assert(self.duplicate_keys@.map_values(f) =~= before.map_values(f).drop_last().push(
                            before.map_values(f).last().push(value@),
                        ));
                    }
                }
                let kind = if is_key {
                    EventKind::Key(value)
                } else {
                    EventKind::Str(value)
                };
                let event = self.event_here(kind);
                self.state = if is_key {
                    State::ExpectColon
                } else {
                    State::AfterValue
                };
                self.after_comma = false;
                self.column = sat_add_exec(sat_add_exec(self.column, 2), cols);
                self.finish(limits, len + 1, Some(event))
            },
        }
    }

    fn step_number_exec(&mut self, limits: &ParserLimits, d: &[u8]) -> (r: StepResult)
        requires
            d@.len() >= 1,
            d@[0] == 45 || is_digit(d@[0]),
        ensures
            step_matches(r, step_number(old(self).cfg(*limits), old(self).view(), d@), old(self).view(), final(self).view()),
            final(self).closed == old(self).closed,
            final(self).reject_duplicate_keys == old(self).reject_duplicate_keys,
            final(self).needs_whitespace == old(self).needs_whitespace,
            final(self).log == old(self).log,
            r matches StepResult::Token { len, .. } ==> 1 <= len <= d@.len(),
    {
        if self.state != State::ExpectValue {
            return StepResult::Error { event: None, error: ParseError::new("Unexpected number") };
        }
        match self.scan_number_exec(d, limits.max_number_length) {
            NumResult::NeedMore => StepResult::NeedMore,
            NumResult::Fail(e) => StepResult::Error { event: None, error: e },
            NumResult::Done { len, num } => {
                let event = self.event_here(EventKind::Number(num));
                self.after_comma = false;
                self.state = State::AfterValue;
                self.column = sat_add_exec(self.column, len);
                self.finish(limits, len, Some(event))
            },
        }
    }

    /// Recognizes the token at the start of `d`.
    pub fn step(&mut self, table: &mut KeySymbolTable, limits: &ParserLimits, d: &[u8]) -> (r: StepResult)
        requires
            table_ok(*old(table)),
        ensures
            table_ok(*final(table)),
            step_matches(r, spec_step(old(self).cfg(*limits), old(self).view(), d@), old(self).view(), final(self).view()),
            final(self).delivered() == old(self).delivered(),
            final(self).answers() == old(self).answers(),
            final(self).calls() == old(self).calls(),
            final(self).is_closed() == old(self).is_closed(),
            final(self).rejects_duplicates() == old(self).rejects_duplicates(),
            final(self).reports_whitespace() == old(self).reports_whitespace(),
            r matches StepResult::Token { len, .. } ==> 1 <= len <= d@.len(),
    {
        reveal(spec_step);
        if d.len() == 0 {
            return StepResult::NeedMore;
        }
        let b = d[0];
        if b == 34 {
            self.step_string_exec(table, limits, d)
        } else if b == 44 {
            self.step_comma_exec(limits)
        } else if b == 58 {
            self.step_colon_exec(limits)
        } else if b == 123 {
            self.step_open_exec(limits, true)
        } else if b == 125 {
            self.step_close_exec(limits, true)
        } else if b == 91 {
            self.step_open_exec(limits, false)
        } else if b == 93 {
            self.step_close_exec(limits, false)
        } else if b == 32 || b == 10 || b == 9 || b == 13 {
            let r = self.step_ws_exec(limits, d);
            proof {
                lemma_ws_end_bounds(d@, 1);
            }
            r
        } else if b == 116 || b == 102 || b == 110 {
            self.step_literal_exec(limits, d)
        } else if b == 45 || (b >= 48 && b <= 57) {
            self.step_number_exec(limits, d)
        } else {
            StepResult::Error {
                event: None,
                error: err_with_char("Unexpected character: ", b as char),
            }
        }
    }
}

pub(crate) proof fn lemma_ws_end_bounds(d: Seq<u8>, i: int)
    requires
        0 <= i <= d.len(),
    ensures
        i <= ws_end(d, i) <= d.len(),
    decreases d.len() - i,
{
    if i < d.len() && is_ws(d[i]) {
        lemma_ws_end_bounds(d, i + 1);
    }
}

/// The events of a log of handler calls.
pub open spec fn events_of(log: Seq<(EventView, ParseResult<()>)>) -> Seq<EventView> {
    log.map_values(|p: (EventView, ParseResult<()>)| p.0)
}

/// The handler's answers in a log of handler calls.
pub open spec fn answers_of(log: Seq<(EventView, ParseResult<()>)>) -> Seq<ParseResult<()>> {
    log.map_values(|p: (EventView, ParseResult<()>)| p.1)
}

/// The result that matches an optional fault: the fault's error, or success.
pub open spec fn fault_result(f: Option<Fault>, r: ParseResult<()>) -> bool {
    match f {
        Some(f) => r matches Err(e) && e.text() == fault_message(f),
        None => r is Ok,
    }
}

/// Whether every answer in `s` is `Ok`.
pub open spec fn all_ok(s: Seq<ParseResult<()>>) -> bool {
    forall|i: int| 0 <= i < s.len() ==> (#[trigger] s[i]) is Ok
}

/// The answers given after the first `n`.
pub open spec fn answers_since(said: Seq<ParseResult<()>>, n: nat) -> Seq<ParseResult<()>> {
    said.subrange(n as int, said.len() as int)
}

/// The handler calls of a run, and its result. The events handed over are the first events of
/// the run, each answered by the handler; every answer but the last is `Ok`. When the handler
/// answered every event with `Ok`, all of the run's events were handed over and the result is
/// the run's own (its fault's error, or success); when it answered with an error, that error is
/// the result and no later event was handed over.
pub open spec fn delivers(
    run: Run,
    before: Seq<EventView>,
    after: Seq<EventView>,
    said_before: Seq<ParseResult<()>>,
    said_after: Seq<ParseResult<()>>,
    res: ParseResult<()>,
) -> bool {
    let fresh = after.subrange(before.len() as int, after.len() as int);
    let said = answers_since(said_after, said_before.len());
    &&& after.len() >= before.len()
    &&& after.subrange(0, before.len() as int) == before
    &&& said_after.len() >= said_before.len()
    &&& said_after.subrange(0, said_before.len() as int) == said_before
    &&& said.len() == fresh.len()
    &&& fresh.len() <= run.events.len()
    &&& fresh == run.events.subrange(0, fresh.len() as int)
    &&& forall|i: int| 0 <= i < said.len() - 1 ==> (#[trigger] said[i]) is Ok
    &&& all_ok(said) ==> fresh == run.events && fault_result(run.fault, res)
    &&& !all_ok(said) ==> said.last() is Err && res == said.last()
}

proof fn lemma_delivers(run: Run, log0: Seq<(EventView, ParseResult<()>)>, done: Seq<(EventView, ParseResult<()>)>, res: ParseResult<()>)
    requires
        events_of(done).len() <= run.events.len(),
        events_of(done) == run.events.subrange(0, done.len() as int),
        forall|i: int| 0 <= i < done.len() - 1 ==> (#[trigger] done[i]).1 is Ok,
        (done.len() == 0 || done.last().1 is Ok) ==> events_of(done) == run.events && fault_result(run.fault, res),
        (done.len() > 0 && done.last().1 is Err) ==> res == done.last().1,
    ensures
        delivers(run, events_of(log0), events_of(log0 + done), answers_of(log0), answers_of(log0 + done), res),
{
    let l1 = log0 + done;
    assert(events_of(l1) =~= events_of(log0) + events_of(done));
    assert(answers_of(l1) =~= answers_of(log0) + answers_of(done));
    assert(events_of(l1).subrange(0, log0.len() as int) =~= events_of(log0));
    assert(events_of(l1).subrange(log0.len() as int, l1.len() as int) =~= events_of(done));
    assert(answers_of(l1).subrange(0, log0.len() as int) =~= answers_of(log0));
    let said = answers_since(answers_of(l1), answers_of(log0).len());
    assert(said =~= answers_of(done));
    assert(run.events.subrange(0, run.events.len() as int) =~= run.events);
    if done.len() > 0 {
        assert(said.last() == done.last().1);
        if done.last().1 is Ok {
            assert forall|i: int| 0 <= i < said.len() implies (#[trigger] said[i]) is Ok by {
                assert(said[i] == done[i].1);
            }
        } else {
            assert(!(said[said.len() - 1] is Ok));
        }
    }
}

/// What follows the handler's answer to an event: the handler's error when it answered with
/// one, and otherwise `then`, the outcome of the token that reported the event.
pub fn after_answer(answer: ParseResult<()>, then: ParseResult<()>) -> (r: ParseResult<()>)
    ensures
        r == (if answer is Err {
            answer
        } else {
            then
        }),
{
    match answer {
        Err(e) => Err(e),
        Ok(()) => then,
    }
}

/// The calls recorded after `log0` in the log `log0 + done` make the chain of handler calls.
proof fn lemma_chain_log<H: ContentHandler>(
    log0: Seq<(EventView, ParseResult<()>)>,
    done: Seq<(EventView, ParseResult<()>)>,
    hs: Seq<H>,
    h0: H,
    h1: H,
)
    requires
        chain_through(hs, h0, h1, events_of(done), answers_of(done)),
    ensures
        call_chain(
            h0,
            h1,
            events_of(log0 + done).subrange(events_of(log0).len() as int, events_of(log0 + done).len() as int),
            answers_since(answers_of(log0 + done), answers_of(log0).len()),
        ),
{
    let l = log0 + done;
    assert(events_of(l).subrange(events_of(log0).len() as int, events_of(l).len() as int) =~= events_of(done));
    assert(answers_since(answers_of(l), answers_of(log0).len()) =~= answers_of(done));
}

/// The result of running the tokenizer after some tokens were already recognized.
pub open spec fn run_after(done: Seq<EventView>, pos: nat, r: Run) -> Run {
    Run { events: done + r.events, consumed: pos + r.consumed, end: r.end, fault: r.fault }
}

impl Tokenizer {
    /// Recognizes as many complete tokens as possible from the front of `data`, handing each
    /// event to the handler. Returns the number of bytes consumed, and the first error: the
    /// error of a failing token, or the error a callback returned. Each event handed over is
    /// recorded with the handler's answer (see [`Self::calls`]); the contract states the
    /// result for every sequence of answers.
    #[verifier::rlimit(40)]
    pub fn receive<H: ContentHandler>(
        &mut self,
        handler: &mut H,
        table: &mut KeySymbolTable,
        limits: &ParserLimits,
        data: &[u8],
    ) -> (r: (usize, ParseResult<()>))
        requires
            table_ok(*old(table)),
        ensures
            table_ok(*final(table)),
            final(self).is_closed() == old(self).is_closed(),
            final(self).rejects_duplicates() == old(self).rejects_duplicates(),
            final(self).reports_whitespace() == old(self).reports_whitespace(),
            forall|l: ParserLimits| #![trigger final(self).cfg(l)] final(self).cfg(l) == old(self).cfg(l),
            ({
                let run = spec_run(old(self).cfg(*limits), old(self).view(), data@);
                &&& delivers(run, old(self).delivered(), final(self).delivered(), old(self).answers(), final(self).answers(), r.1)
                &&& r.1 is Ok ==> r.0 == run.consumed && final(self).view() == run.end
                &&& all_ok(answers_since(final(self).answers(), old(self).answers().len()))
                    && run.fault is Some ==> r.0 == run.consumed && final(self).view() == run.end
            }),
            call_chain(
                *old(handler),
                *final(handler),
                final(self).delivered().subrange(old(self).delivered().len() as int, final(self).delivered().len() as int),
                answers_since(final(self).answers(), old(self).answers().len()),
            ),
            r.0 <= data@.len(),
    {
        let n = data.len();
        let mut pos: usize = 0;
        let ghost cfg = old(self).cfg(*limits);
        let ghost done: Seq<(EventView, ParseResult<()>)> = Seq::empty();
        let ghost log0 = self.log@;
        let ghost run = spec_run(cfg, old(self).view(), data@);
        assert(data@.subrange(0, n as int) =~= data@);
        assert(events_of(done) =~= Seq::<EventView>::empty());
        assert(log0 + done =~= log0);
        let ghost mut hs: Seq<H> = seq![*handler];
        proof {
            lemma_chain_start(*handler);
            assert(answers_of(done) =~= Seq::<ParseResult<()>>::empty());
        }
        loop
            invariant
                chain_through(hs, *old(handler), *handler, events_of(done), answers_of(done)),
                n == data@.len(),
                pos <= n,
                table_ok(*table),
                cfg == self.cfg(*limits),
                self.closed == old(self).closed,
                self.reject_duplicate_keys == old(self).reject_duplicate_keys,
                self.needs_whitespace == old(self).needs_whitespace,
                self.log@ == log0 + done,
                log0 == old(self).log@,
                forall|i: int| 0 <= i < done.len() ==> (#[trigger] done[i]).1 is Ok,
                run == spec_run(cfg, old(self).view(), data@),
                run == run_after(
                    events_of(done),
                    pos as nat,
                    spec_run(cfg, self.view(), data@.subrange(pos as int, n as int)),
                ),
            decreases n - pos,
        {
            let ghost before = self.view();
            let ghost done0 = done;
            let ghost rest = data@.subrange(pos as int, n as int);
            let ghost r0 = spec_run(cfg, before, rest);
            let d = data.split_at(pos).1;
            assert(d@ == rest);
            let r = self.step(table, limits, d);
            assert(events_of(done) + Seq::<EventView>::empty() =~= events_of(done));
            match r {
                StepResult::NeedMore => {
                    proof {
                        assert(run.events =~= events_of(done));
                        assert(run.events.subrange(0, done.len() as int) =~= events_of(done));
                        lemma_delivers(run, log0, done, Ok(()));
                    }
                    proof {
                        lemma_chain_log(log0, done, hs, *old(handler), *handler);
                    }
                    return (pos, Ok(()));
                },
                StepResult::Error { event, error } => {
                    let ghost ev = opt_seq(opt_view(event));
                    assert(r0.events == ev);
                    match event {
                        Some(e) => {
                            let ghost h_before = *handler;
                            let res = deliver(handler, &e);
                            proof {
                                let done1 = done.push((e@, res));
                                lemma_chain_push(hs, *old(handler), h_before, *handler, events_of(done), answers_of(done), e@, res);
                                assert(events_of(done1) =~= events_of(done).push(e@));
                                assert(answers_of(done1) =~= answers_of(done).push(res));
                                hs = hs.push(*handler);
                                assert(events_of(done1) =~= events_of(done) + ev);
                                assert(run.events == events_of(done) + ev);
                                assert(run.events.subrange(0, done1.len() as int) =~= events_of(done1));
                                self.log = Ghost(self.log@.push((e@, res)));
                                assert(self.log@ =~= log0 + done1);
                                done = done1;
                            }
                            let out = after_answer(res, Err(error));
                            proof {
                                assert(run.events.subrange(0, done.len() as int) =~= events_of(done));
                                lemma_delivers(run, log0, done, out);
                            }
                            proof {
                                lemma_chain_log(log0, done, hs, *old(handler), *handler);
                            }
                            return (pos, out);
                        },
                        None => {
                            assert(run.events =~= events_of(done));
                        },
                    }
                    proof {
                        assert(run.events.subrange(0, done.len() as int) =~= events_of(done));
                        lemma_delivers(run, log0, done, Err(error));
                    }
                    proof {
                        lemma_chain_log(log0, done, hs, *old(handler), *handler);
                    }
                    return (pos, Err(error));
                },
                StepResult::Token { len, event } => {
                    let ghost ev = opt_seq(opt_view(event));
                    let ghost r1 = spec_run(cfg, self.view(), rest.subrange(len as int, rest.len() as int));
                    assert(r0.events == ev + r1.events);
                    assert(run.events == events_of(done) + (ev + r1.events));
                    match event {
                        Some(e) => {
                            let ghost h_before = *handler;
                            let res = deliver(handler, &e);
                            proof {
                                let done1 = done.push((e@, res));
                                lemma_chain_push(hs, *old(handler), h_before, *handler, events_of(done), answers_of(done), e@, res);
                                assert(events_of(done1) =~= events_of(done).push(e@));
                                assert(answers_of(done1) =~= answers_of(done).push(res));
                                hs = hs.push(*handler);
                                assert(events_of(done1) =~= events_of(done) + ev);
                                assert(run.events.subrange(0, done1.len() as int) =~= events_of(done1));
                                self.log = Ghost(self.log@.push((e@, res)));
                                assert(self.log@ =~= log0 + done1);
                                done = done1;
                            }
                            let out = after_answer(res, Ok(()));
                            if out.is_err() {
                                proof {
                                    lemma_delivers(run, log0, done, out);
                                }
                                proof {
                                    lemma_chain_log(log0, done, hs, *old(handler), *handler);
                                }
                                return (pos, out);
                            }
                        },
                        None => {},
                    }
                    proof {
                        assert(rest.subrange(len as int, rest.len() as int) =~= data@.subrange(
                            pos + len,
                            n as int,
                        ));
                        assert(events_of(done) =~= events_of(done0) + ev);
                        assert(events_of(done) + r1.events =~= events_of(done0) + (ev + r1.events));
                    }
                    pos = pos + len;
                },
            }
        }
    }
}

proof fn lemma_scan_hex_in_bounds(c: Seq<u8>, closed: bool, p: int, left: nat, acc: u32)
    ensures
        scan_hex(c, closed, p, left, acc) matches EscScan::Unit { end, .. } ==> (left > 0 ==> end
            <= c.len()) && (left == 0 ==> end == p),
    decreases left,
{
    if left > 0 && p < c.len() {
        if let Some(d) = hex_value(c[p]) {
            lemma_scan_hex_in_bounds(c, closed, p + 1, (left - 1) as nat, ((acc * 16) + d) as u32);
        }
    }
}

} // verus!
