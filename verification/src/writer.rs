//! Streaming JSON writer.

use vstd::prelude::*;
use vstd::string::StringSliceAdditionalSpecFns;
use crate::error::WriteResult;
use crate::number::{push_decimal, spec_decimal, Number, NumberView};
use crate::roundtrip::{lemma_escape_encoding, written_char, written_chars};
use crate::text::decode_first;
use vstd::utf8::{
    char_is_scalar, char_u32_cast, decode_first_scalar, encode_scalar, encode_utf8,
    encode_utf8_first_scalar, is_scalar,
};

verus! {

pub const DEFAULT_CAPACITY: usize = 4096;

/// Configuration for JSON output indentation.
#[derive(Debug, Clone, Copy, PartialEq, Eq)]
pub struct IndentConfig {
    indent_char: u8,
    indent_count: usize,
}

impl IndentConfig {
    /// The byte written once per indentation step.
    pub closed spec fn indent_byte(&self) -> u8 {
        self.indent_char
    }

    /// The number of indentation bytes per nesting level.
    pub closed spec fn width(&self) -> usize {
        self.indent_count
    }

    /// Creates an indent configuration: `indent_char` must be space or tab, and
    /// `indent_count` must be positive.
    pub fn new(indent_char: char, indent_count: usize) -> (c: Self)
        requires
            indent_char == ' ' || indent_char == '\t',
            indent_count > 0,
        ensures
            c.indent_byte() == (if indent_char == ' ' { 32u8 } else { 9u8 }),
            c.width() == indent_count,
    {
        let b: u8 = if indent_char == ' ' { 32 } else { 9 };
        IndentConfig { indent_char: b, indent_count }
    }

    pub fn indent_char(&self) -> (c: char)
        ensures
            c as u32 == self.indent_byte() as u32,
    {
        self.indent_char as char
    }

    pub fn indent_count(&self) -> (n: usize)
        ensures
            n == self.width(),
    {
        self.indent_count
    }

    /// Single tab per level.
    pub fn tabs() -> (c: Self)
        ensures
            c.indent_byte() == 9,
            c.width() == 1,
    {
        Self::new('\t', 1)
    }

    /// Two spaces per level.
    pub fn spaces2() -> (c: Self)
        ensures
            c.indent_byte() == 32,
            c.width() == 2,
    {
        Self::new(' ', 2)
    }

    /// Four spaces per level.
    pub fn spaces4() -> (c: Self)
        ensures
            c.indent_byte() == 32,
            c.width() == 4,
    {
        Self::new(' ', 4)
    }

    /// The specified (positive) number of spaces per level.
    pub fn spaces(count: usize) -> (c: Self)
        requires
            count > 0,
        ensures
            c.indent_byte() == 32,
            c.width() == count,
    {
        Self::new(' ', count)
    }
}

/// Where the writer stands in the output.
#[derive(Debug, Clone, Copy, PartialEq, Eq, Structural)]
pub enum WriteState {
    /// Nothing written yet.
    Init0,
    /// Just after an opening brace or bracket.
    Init,
    /// Just after a key and its colon.
    AfterKey,
    /// Just after a value.
    AfterValue,
}

/// A newline followed by the indentation of the given nesting level.
pub open spec fn newline_indent(ic: IndentConfig, depth: int) -> Seq<u8> {
    seq![10u8] + Seq::new((ic.width() * depth) as nat, |i: int| ic.indent_byte())
}

/// What is written before a key or a value.
pub open spec fn value_lead(indent: Option<IndentConfig>, state: WriteState, depth: int) -> Seq<u8> {
    match indent {
        Some(ic) => match state {
            WriteState::AfterKey => seq![32u8],
            WriteState::AfterValue => seq![44u8] + newline_indent(ic, depth),
            WriteState::Init => newline_indent(ic, depth),
            WriteState::Init0 => Seq::empty(),
        },
        None => if state == WriteState::AfterValue {
            seq![44u8]
        } else {
            Seq::empty()
        },
    }
}

/// What is written before the closing brace or bracket of a container whose contents were
/// at nesting level `depth + 1`.
pub open spec fn close_lead(indent: Option<IndentConfig>, depth: int) -> Seq<u8> {
    match indent {
        Some(ic) => newline_indent(ic, depth),
        None => Seq::empty(),
    }
}

/// The lowercase hex digit of a value below 16.
pub open spec fn hex_digit(n: u8) -> u8 {
    if n < 10 {
        (48 + n) as u8
    } else {
        (97 + n - 10) as u8
    }
}

/// The escaped form of one byte of a string: quote, backslash and control characters are
/// escaped, every other byte (including the bytes of multi-byte UTF-8 sequences) is kept.
pub open spec fn escape_byte(b: u8) -> Seq<u8> {
    if b == 34 {
        seq![92u8, 34u8]
    } else if b == 92 {
        seq![92u8, 92u8]
    } else if b == 8 {
        seq![92u8, 98u8]
    } else if b == 12 {
        seq![92u8, 102u8]
    } else if b == 10 {
        seq![92u8, 110u8]
    } else if b == 13 {
        seq![92u8, 114u8]
    } else if b == 9 {
        seq![92u8, 116u8]
    } else if b < 32 {
        seq![92u8, 117u8, 48u8, 48u8, hex_digit(b / 16), hex_digit(b % 16)]
    } else {
        seq![b]
    }
}

/// The escaped form of the bytes of a string.
pub open spec fn escape_bytes(s: Seq<u8>) -> Seq<u8>
    decreases s.len(),
{
    if s.len() == 0 {
        Seq::empty()
    } else {
        escape_bytes(s.drop_last()) + escape_byte(s.last())
    }
}

/// A JSON string literal with the given content bytes.
pub open spec fn quoted(s: Seq<u8>) -> Seq<u8> {
    seq![34u8] + escape_bytes(s) + seq![34u8]
}

/// The text of a number as it is written.
pub open spec fn number_bytes(n: NumberView) -> Seq<u8> {
    match n {
        NumberView::I32(v) => spec_decimal(v as int),
        NumberView::I64(v) => spec_decimal(v as int),
        NumberView::Float(f) => vstd::utf8::encode_utf8(f.text),
        NumberView::BigInt(t) => vstd::utf8::encode_utf8(t),
    }
}

/// Three quarters of the buffer capacity: the buffer is handed to the sink when it holds at
/// least this many bytes.
pub open spec fn threshold_of(capacity: usize) -> usize {
    (capacity as int * 3 / 4) as usize
}

/// Streaming JSON writer with internal buffering, writing into a byte vector.
///
/// The writer does not check that its input is well formed: the caller must supply events in
/// the correct order and close the objects and arrays it opens.
pub struct Writer {
    inner: Vec<u8>,
    buffer: Vec<u8>,
    send_threshold: usize,
    indent: Option<IndentConfig>,
    state: WriteState,
    depth: usize,
}

fn hex_char(n: u8) -> (c: u8)
    requires
        n < 16,
    ensures
        c == hex_digit(n),
{
    if n < 10 {
        48 + n
    } else {
        97 + (n - 10)
    }
}

impl Writer {
    /// Everything written so far: the bytes handed to the sink, then the buffered bytes.
    pub closed spec fn output(&self) -> Seq<u8> {
        self.inner@ + self.buffer@
    }

    /// The bytes handed to the sink so far.
    pub closed spec fn sent(&self) -> Seq<u8> {
        self.inner@
    }

    /// The bytes written but not yet handed to the sink.
    pub closed spec fn buffered(&self) -> Seq<u8> {
        self.buffer@
    }

    pub closed spec fn state(&self) -> WriteState {
        self.state
    }

    /// The number of open objects and arrays.
    pub closed spec fn depth(&self) -> usize {
        self.depth
    }

    pub closed spec fn indent(&self) -> Option<IndentConfig> {
        self.indent
    }

    /// The number of buffered bytes at which the buffer is handed to the sink.
    pub closed spec fn threshold(&self) -> usize {
        self.send_threshold
    }

    /// Between calls, the buffer holds fewer bytes than the threshold.
    pub closed spec fn wf(&self) -> bool {
        self.buffer@.len() == 0 || self.buffer@.len() < self.send_threshold
    }

    /// What the next key or value is preceded by.
    pub open spec fn lead(&self) -> Seq<u8> {
        value_lead(self.indent(), self.state(), self.depth() as int)
    }

    /// The indentation of nesting level `depth` fits in memory.
    pub open spec fn indent_fits(&self, depth: int) -> bool {
        self.indent() matches Some(ic) ==> ic.width() * depth < usize::MAX
    }

    /// The writer is unchanged apart from the bytes written and where it stands.
    pub open spec fn same_config(&self, other: &Self) -> bool {
        &&& self.indent() == other.indent()
        &&& self.threshold() == other.threshold()
    }

    /// Creates a JSON writer with the default capacity (4KB) and no indentation, writing
    /// after the bytes already in `inner`.
    pub fn new(inner: Vec<u8>) -> (w: Self)
        ensures
            w.wf(),
            w.output() == inner@,
            w.sent() == inner@,
            w.state() == WriteState::Init0,
            w.depth() == 0,
            w.indent() is None,
            w.threshold() == threshold_of(DEFAULT_CAPACITY),
    {
        Self::with_capacity(inner, DEFAULT_CAPACITY, None)
    }

    /// Creates a JSON writer with the given indentation.
    pub fn with_indent(inner: Vec<u8>, indent: IndentConfig) -> (w: Self)
        ensures
            w.wf(),
            w.output() == inner@,
            w.sent() == inner@,
            w.state() == WriteState::Init0,
            w.depth() == 0,
            w.indent() == Some(indent),
            w.threshold() == threshold_of(DEFAULT_CAPACITY),
    {
        Self::with_capacity(inner, DEFAULT_CAPACITY, Some(indent))
    }

    fn with_capacity(inner: Vec<u8>, buffer_capacity: usize, indent: Option<IndentConfig>) -> (w: Self)
        ensures
            w.wf(),
            w.output() == inner@,
            w.sent() == inner@,
            w.state() == WriteState::Init0,
            w.depth() == 0,
            w.indent() == indent,
            w.threshold() == threshold_of(buffer_capacity),
    {
        let threshold: usize = buffer_capacity / 4 * 3 + buffer_capacity % 4 * 3 / 4;
        assert(threshold == threshold_of(buffer_capacity)) by (nonlinear_arith)
            requires
                threshold == buffer_capacity / 4 * 3 + buffer_capacity % 4 * 3 / 4,
        {
        }
        let w = Writer {
            inner,
            buffer: Vec::with_capacity(buffer_capacity),
            send_threshold: threshold,
            indent,
            state: WriteState::Init0,
            depth: 0,
        };
        assert(w.output() =~= inner@);
        w
    }

    /// Creates a writer that accumulates into an internal vector.
    pub fn buffer(capacity: usize) -> (w: Self)
        ensures
            w.wf(),
            w.output() == Seq::<u8>::empty(),
            w.sent() == Seq::<u8>::empty(),
            w.state() == WriteState::Init0,
            w.depth() == 0,
            w.indent() is None,
            w.threshold() == threshold_of(capacity),
    {
        Writer::with_capacity(Vec::with_capacity(capacity), capacity, None)
    }

    /// The underlying byte vector: the bytes handed to the sink so far.
    pub fn inner(&self) -> (v: &Vec<u8>)
        ensures
            v@ == self.sent(),
    {
        &self.inner
    }

    /// A mutable reference to the underlying byte vector.
    pub fn inner_mut(&mut self) -> (v: &mut Vec<u8>)
        ensures
            v@ == old(self).sent(),
            final(self).sent() == final(v)@,
            final(self).output() == final(v)@ + old(self).buffered(),
            final(self).buffered() == old(self).buffered(),
            final(self).wf() == old(self).wf(),
            final(self).same_config(old(self)),
            final(self).state() == old(self).state(),
            final(self).depth() == old(self).depth(),
    {
        &mut self.inner
    }

    fn ensure_capacity(&mut self, needed: usize)
        ensures
            final(self).buffer@ == old(self).buffer@,
            final(self).inner == old(self).inner,
            final(self).send_threshold == old(self).send_threshold,
            final(self).indent == old(self).indent,
            final(self).state == old(self).state,
            final(self).depth == old(self).depth,
    {
        self.buffer.reserve(needed);
    }

    fn push_byte(&mut self, b: u8)
        ensures
            final(self).buffer@ == old(self).buffer@.push(b),
            final(self).inner == old(self).inner,
            final(self).send_threshold == old(self).send_threshold,
            final(self).indent == old(self).indent,
            final(self).state == old(self).state,
            final(self).depth == old(self).depth,
    {
        self.buffer.push(b);
    }

    fn push_bytes(&mut self, bytes: &[u8])
        ensures
            final(self).buffer@ == old(self).buffer@ + bytes@,
            final(self).inner == old(self).inner,
            final(self).send_threshold == old(self).send_threshold,
            final(self).indent == old(self).indent,
            final(self).state == old(self).state,
            final(self).depth == old(self).depth,
    {
        self.buffer.extend_from_slice(bytes);
        assert(self.buffer@ =~= old(self).buffer@ + bytes@);
    }

    fn write_value_separator_if_needed(&mut self)
        ensures
            final(self).buffer@ == old(self).buffer@ + (if old(self).state == WriteState::AfterValue {
                seq![44u8]
            } else {
                Seq::<u8>::empty()
            }),
            final(self).inner == old(self).inner,
            final(self).send_threshold == old(self).send_threshold,
            final(self).indent == old(self).indent,
            final(self).state == old(self).state,
            final(self).depth == old(self).depth,
    {
        if self.state == WriteState::AfterValue {
            self.ensure_capacity(1);
            self.push_byte(44);
        } else {
            assert(self.buffer@ =~= old(self).buffer@ + Seq::<u8>::empty());
        }
    }

    fn write_indent(&mut self)
        requires
            old(self).indent is Some,
            old(self).indent_fits(old(self).depth as int),
        ensures
            final(self).buffer@ == old(self).buffer@ + newline_indent(old(self).indent.unwrap(), old(self).depth as int),
            final(self).inner == old(self).inner,
            final(self).send_threshold == old(self).send_threshold,
            final(self).indent == old(self).indent,
            final(self).state == old(self).state,
            final(self).depth == old(self).depth,
    {
        let indent = match self.indent {
            Some(ic) => ic,
            None => IndentConfig { indent_char: 32, indent_count: 1 },
        };
        let size: usize = match indent.indent_count.checked_mul(self.depth) {
            Some(n) => n,
            None => 0,
        };
        assert(size == indent.width() * self.depth);
        self.ensure_capacity(1 + size);
        self.push_byte(10);
        let ghost start = self.buffer@;
        let mut k: usize = 0;
        while k < size
            invariant
                k <= size,
                self.buffer@ == start + Seq::new(k as nat, |i: int| indent.indent_char),
                self.inner == old(self).inner,
                self.send_threshold == old(self).send_threshold,
                self.indent == old(self).indent,
                self.state == old(self).state,
                self.depth == old(self).depth,
            decreases size - k,
        {
            self.push_byte(indent.indent_char);
            assert(start + Seq::new((k + 1) as nat, |i: int| indent.indent_char) =~= (start + Seq::new(
                k as nat,
                |i: int| indent.indent_char,
            )).push(indent.indent_char));
            k = k + 1;
        }
        assert(self.buffer@ =~= old(self).buffer@ + newline_indent(indent, old(self).depth as int));
    }

    fn write_indented_value_start(&mut self)
        requires
            old(self).indent is Some,
            old(self).indent_fits(old(self).depth as int),
        ensures
            final(self).buffer@ == old(self).buffer@ + old(self).lead(),
            final(self).inner == old(self).inner,
            final(self).send_threshold == old(self).send_threshold,
            final(self).indent == old(self).indent,
            final(self).state == old(self).state,
            final(self).depth == old(self).depth,
    {
        match self.state {
            WriteState::AfterKey => {
                self.ensure_capacity(1);
                self.push_byte(32);
            },
            WriteState::AfterValue => {
                self.ensure_capacity(1);
                self.push_byte(44);
                self.write_indent();
                assert(self.buffer@ =~= old(self).buffer@ + old(self).lead());
            },
            WriteState::Init => {
                self.write_indent();
            },
            WriteState::Init0 => {
                assert(self.buffer@ =~= old(self).buffer@ + old(self).lead());
            },
        }
    }

    /// Writes what precedes a key or a value.
    fn write_lead(&mut self)
        requires
            old(self).indent_fits(old(self).depth as int),
        ensures
            final(self).buffer@ == old(self).buffer@ + old(self).lead(),
            final(self).inner == old(self).inner,
            final(self).send_threshold == old(self).send_threshold,
            final(self).indent == old(self).indent,
            final(self).state == old(self).state,
            final(self).depth == old(self).depth,
    {
        if self.indent.is_some() {
            self.write_indented_value_start();
        } else {
            self.write_value_separator_if_needed();
        }
    }

    /// Appends the UTF-8 encoding of a character.
    fn write_utf8_code_point(&mut self, code_point: u32)
        requires
            is_scalar(code_point),
        ensures
            final(self).buffer@ == old(self).buffer@ + encode_scalar(code_point),
            final(self).inner == old(self).inner,
            final(self).send_threshold == old(self).send_threshold,
            final(self).indent == old(self).indent,
            final(self).state == old(self).state,
            final(self).depth == old(self).depth,
    {
        let cp = code_point;
        if cp < 0x80 {
            assert(cp < 0x80 ==> (cp & 0x7F) as u8 == cp as u8) by (bit_vector);
            self.push_byte(cp as u8);
        } else if cp < 0x800 {
            assert(cp < 0x800 ==> 0xC0u8 | ((cp >> 6u32) as u8) == 0xC0u8 | (((cp >> 6u32) & 0x1F) as u8))
                by (bit_vector);
            self.push_byte(0xC0 | ((cp >> 6) as u8));
            self.push_byte(0x80 | ((cp & 0x3F) as u8));
        } else if cp < 0x1_0000 {
            assert(cp < 0x10000 ==> 0xE0u8 | ((cp >> 12u32) as u8) == 0xE0u8 | (((cp >> 12u32) & 0x0F) as u8))
                by (bit_vector);
            self.push_byte(0xE0 | ((cp >> 12) as u8));
            self.push_byte(0x80 | (((cp >> 6) & 0x3F) as u8));
            self.push_byte(0x80 | ((cp & 0x3F) as u8));
        } else {
            assert(cp <= 0x10FFFF ==> 0xF0u8 | ((cp >> 18u32) as u8) == 0xF0u8 | (((cp >> 18u32) & 0x7) as u8))
                by (bit_vector);
            self.push_byte(0xF0 | ((cp >> 18) as u8));
            self.push_byte(0x80 | (((cp >> 12) & 0x3F) as u8));
            self.push_byte(0x80 | (((cp >> 6) & 0x3F) as u8));
            self.push_byte(0x80 | ((cp & 0x3F) as u8));
        }
        assert(self.buffer@ =~= old(self).buffer@ + encode_scalar(code_point));
    }

    /// Appends a string in quotes, character by character: quote, backslash and control
    /// characters are escaped, every other character is written in UTF-8.
    fn write_quoted_string(&mut self, s: &str)
        ensures
            final(self).buffer@ == old(self).buffer@ + quoted(s.spec_bytes()),
            final(self).inner == old(self).inner,
            final(self).send_threshold == old(self).send_threshold,
            final(self).indent == old(self).indent,
            final(self).state == old(self).state,
            final(self).depth == old(self).depth,
    {
        let bytes = s.as_bytes();
        let n = bytes.len();
        let extra = n / 10;
        if n < usize::MAX - extra - 2 {
            self.ensure_capacity(2 + n + extra);
        }
        self.push_byte(34);
        let ghost start = self.buffer@;
        let ghost chars = s@;
        let mut i: usize = 0;
        let ghost mut k: int = 0;
        assert(bytes@.subrange(0, n as int) =~= bytes@);
        assert(chars.subrange(0, chars.len() as int) =~= chars);
        assert(chars.subrange(0, 0) =~= Seq::<char>::empty());
        assert(written_chars(chars.subrange(0, 0)) =~= Seq::<u8>::empty());
        while i < n
            invariant
                n == bytes@.len(),
                bytes@ == encode_utf8(chars),
                i <= n,
                0 <= k <= chars.len(),
                bytes@.subrange(i as int, n as int) == encode_utf8(chars.subrange(k, chars.len() as int)),
                self.buffer@ == start + written_chars(chars.subrange(0, k)),
                self.inner == old(self).inner,
                self.send_threshold == old(self).send_threshold,
                self.indent == old(self).indent,
                self.state == old(self).state,
                self.depth == old(self).depth,
            decreases n - i,
        {
            let ghost x = chars.subrange(k, chars.len() as int);
            let ghost rest = bytes@.subrange(i as int, n as int);
            proof {
                if x.len() == 0 {
                    assert(encode_utf8(x) =~= Seq::<u8>::empty());
                }
                encode_utf8_first_scalar(x);
                char_u32_cast(x[0], decode_first_scalar(encode_utf8(x)));
                char_is_scalar(x[0]);
            }
            let (ch, len) = match decode_first(bytes, i, n) {
                Some(r) => r,
                None => (' ', 1),
            };
            assert(ch == x[0]);
            assert(len == encode_scalar(x[0] as u32).len());
            let ghost before = self.buffer@;
            self.ensure_capacity(12);
            let cp = ch as u32;
            if ch == '"' {
                self.push_byte(92);
                self.push_byte(34);
            } else if ch == '\\' {
                self.push_byte(92);
                self.push_byte(92);
            } else if ch == '\u{8}' {
                self.push_byte(92);
                self.push_byte(98);
            } else if ch == '\u{c}' {
                self.push_byte(92);
                self.push_byte(102);
            } else if ch == '\n' {
                self.push_byte(92);
                self.push_byte(110);
            } else if ch == '\r' {
                self.push_byte(92);
                self.push_byte(114);
            } else if ch == '\t' {
                self.push_byte(92);
                self.push_byte(116);
            } else if cp < 0x20 {
                let b = cp as u8;
                self.push_byte(92);
                self.push_byte(117);
                self.push_byte(48);
                self.push_byte(48);
                self.push_byte(hex_char(b / 16));
                self.push_byte(hex_char(b % 16));
            } else if cp < 0x80 {
                assert(cp < 0x80 ==> (cp & 0x7F) as u8 == cp as u8) by (bit_vector);
                self.push_byte(cp as u8);
            } else {
                self.write_utf8_code_point(cp);
            }
            assert(self.buffer@ =~= before + written_char(ch));
            proof {
                let p1 = chars.subrange(0, k + 1);
                assert(p1.drop_last() =~= chars.subrange(0, k));
                assert(p1.last() == ch);
                assert(encode_utf8(x) == encode_scalar(x[0] as u32) + encode_utf8(x.drop_first()));
                assert(x.drop_first() =~= chars.subrange(k + 1, chars.len() as int));
                assert(bytes@.subrange(i + len, n as int) =~= rest.subrange(len as int, rest.len() as int));
                assert(rest.subrange(len as int, rest.len() as int) =~= encode_utf8(x.drop_first()));
                k = k + 1;
            }
            i = i + len;
        }
        proof {
            let x = chars.subrange(k, chars.len() as int);
            if x.len() > 0 {
                encode_utf8_first_scalar(x);
            }
            assert(chars.subrange(0, k) =~= chars);
            lemma_escape_encoding(chars);
        }
        self.push_byte(34);
        assert(self.buffer@ =~= old(self).buffer@ + quoted(s.spec_bytes()));
    }

    fn send(&mut self)
        ensures
            final(self).inner@ == old(self).inner@ + old(self).buffer@,
            final(self).buffer@ == Seq::<u8>::empty(),
            final(self).send_threshold == old(self).send_threshold,
            final(self).indent == old(self).indent,
            final(self).state == old(self).state,
            final(self).depth == old(self).depth,
    {
        self.inner.append(&mut self.buffer);
    }

    fn send_if_needed(&mut self) -> (r: WriteResult<()>)
        ensures
            r is Ok,
            final(self).wf(),
            final(self).output() == old(self).output(),
            final(self).send_threshold == old(self).send_threshold,
            final(self).indent == old(self).indent,
            final(self).state == old(self).state,
            final(self).depth == old(self).depth,
    {
        if self.buffer.len() >= self.send_threshold {
            self.send();
            assert(self.output() =~= old(self).output());
        }
        Ok(())
    }

    pub fn write_start_object(&mut self) -> (r: WriteResult<()>)
        requires
            old(self).depth() < usize::MAX,
            old(self).indent_fits(old(self).depth() as int),
        ensures
            r is Ok,
            final(self).wf(),
            final(self).same_config(old(self)),
            final(self).output() == old(self).output() + old(self).lead() + seq![123u8],
            final(self).state() == WriteState::Init,
            final(self).depth() == old(self).depth() + 1,
    {
        self.write_lead();
        self.ensure_capacity(1);
        self.push_byte(123);
        self.state = WriteState::Init;
        self.depth = self.depth + 1;
        assert(self.output() =~= old(self).output() + old(self).lead() + seq![123u8]);
        self.send_if_needed()
    }

    pub fn write_end_object(&mut self) -> (r: WriteResult<()>)
        requires
            old(self).depth() > 0,
            old(self).indent_fits(old(self).depth() - 1),
        ensures
            r is Ok,
            final(self).wf(),
            final(self).same_config(old(self)),
            final(self).output() == old(self).output() + close_lead(old(self).indent(), old(self).depth() - 1)
                + seq![125u8],
            final(self).state() == WriteState::AfterValue,
            final(self).depth() == old(self).depth() - 1,
    {
        self.depth = self.depth - 1;
        if self.indent.is_some() {
            self.write_indent();
        } else {
            assert(self.buffer@ =~= old(self).buffer@ + close_lead(old(self).indent, self.depth as int));
        }
        self.ensure_capacity(1);
        self.push_byte(125);
        self.state = WriteState::AfterValue;
        assert(self.output() =~= old(self).output() + close_lead(old(self).indent(), old(self).depth() - 1)
            + seq![125u8]);
        self.send_if_needed()
    }

    pub fn write_start_array(&mut self) -> (r: WriteResult<()>)
        requires
            old(self).depth() < usize::MAX,
            old(self).indent_fits(old(self).depth() as int),
        ensures
            r is Ok,
            final(self).wf(),
            final(self).same_config(old(self)),
            final(self).output() == old(self).output() + old(self).lead() + seq![91u8],
            final(self).state() == WriteState::Init,
            final(self).depth() == old(self).depth() + 1,
    {
        self.write_lead();
        self.ensure_capacity(1);
        self.push_byte(91);
        self.state = WriteState::Init;
        self.depth = self.depth + 1;
        assert(self.output() =~= old(self).output() + old(self).lead() + seq![91u8]);
        self.send_if_needed()
    }

    pub fn write_end_array(&mut self) -> (r: WriteResult<()>)
        requires
            old(self).depth() > 0,
            old(self).indent_fits(old(self).depth() - 1),
        ensures
            r is Ok,
            final(self).wf(),
            final(self).same_config(old(self)),
            final(self).output() == old(self).output() + close_lead(old(self).indent(), old(self).depth() - 1)
                + seq![93u8],
            final(self).state() == WriteState::AfterValue,
            final(self).depth() == old(self).depth() - 1,
    {
        self.depth = self.depth - 1;
        if self.indent.is_some() {
            self.write_indent();
        } else {
            assert(self.buffer@ =~= old(self).buffer@ + close_lead(old(self).indent, self.depth as int));
        }
        self.ensure_capacity(1);
        self.push_byte(93);
        self.state = WriteState::AfterValue;
        assert(self.output() =~= old(self).output() + close_lead(old(self).indent(), old(self).depth() - 1)
            + seq![93u8]);
        self.send_if_needed()
    }

    pub fn write_key(&mut self, key: &str) -> (r: WriteResult<()>)
        requires
            old(self).indent_fits(old(self).depth() as int),
        ensures
            r is Ok,
            final(self).wf(),
            final(self).same_config(old(self)),
            final(self).output() == old(self).output() + old(self).lead() + quoted(key.spec_bytes())
                + seq![58u8],
            final(self).state() == WriteState::AfterKey,
            final(self).depth() == old(self).depth(),
    {
        self.write_lead();
        self.write_quoted_string(key);
        self.ensure_capacity(1);
        self.push_byte(58);
        self.state = WriteState::AfterKey;
        assert(self.output() =~= old(self).output() + old(self).lead() + quoted(key.spec_bytes())
            + seq![58u8]);
        self.send_if_needed()
    }

    pub fn write_string(&mut self, value: &str) -> (r: WriteResult<()>)
        requires
            old(self).indent_fits(old(self).depth() as int),
        ensures
            r is Ok,
            final(self).wf(),
            final(self).same_config(old(self)),
            final(self).output() == old(self).output() + old(self).lead() + quoted(value.spec_bytes()),
            final(self).state() == WriteState::AfterValue,
            final(self).depth() == old(self).depth(),
    {
        self.write_lead();
        self.write_quoted_string(value);
        self.state = WriteState::AfterValue;
        assert(self.output() =~= old(self).output() + old(self).lead() + quoted(value.spec_bytes()));
        self.send_if_needed()
    }

    /// Writes a value given as its bytes.
    fn write_raw_value(&mut self, bytes: &[u8]) -> (r: WriteResult<()>)
        requires
            old(self).indent_fits(old(self).depth() as int),
        ensures
            r is Ok,
            final(self).wf(),
            final(self).same_config(old(self)),
            final(self).output() == old(self).output() + old(self).lead() + bytes@,
            final(self).state() == WriteState::AfterValue,
            final(self).depth() == old(self).depth(),
    {
        self.write_lead();
        self.ensure_capacity(bytes.len());
        self.push_bytes(bytes);
        self.state = WriteState::AfterValue;
        assert(self.output() =~= old(self).output() + old(self).lead() + bytes@);
        self.send_if_needed()
    }

    /// Writes a number: an integer in decimal, a big integer as its text, and a number with a
    /// fraction or an exponent as the literal text it holds (its `f64` display form needs
    /// floating point, which is not computed here).
    pub fn write_number(&mut self, value: &Number) -> (r: WriteResult<()>)
        requires
            old(self).indent_fits(old(self).depth() as int),
        ensures
            r is Ok,
            final(self).wf(),
            final(self).same_config(old(self)),
            final(self).output() == old(self).output() + old(self).lead() + number_bytes(value@),
            final(self).state() == WriteState::AfterValue,
            final(self).depth() == old(self).depth(),
    {
        match value {
            Number::I32(v) => self.write_i64(*v as i64),
            Number::I64(v) => self.write_i64(*v),
            Number::Float(f) => self.write_number_str(f.text.as_str()),
            Number::BigInt(t) => self.write_number_str(t.as_str()),
        }
    }

    /// Writes a number given as text, as it is.
    pub fn write_number_str(&mut self, value: &str) -> (r: WriteResult<()>)
        requires
            old(self).indent_fits(old(self).depth() as int),
        ensures
            r is Ok,
            final(self).wf(),
            final(self).same_config(old(self)),
            final(self).output() == old(self).output() + old(self).lead() + value.spec_bytes(),
            final(self).state() == WriteState::AfterValue,
            final(self).depth() == old(self).depth(),
    {
        self.write_raw_value(value.as_bytes())
    }

    pub fn write_i32(&mut self, value: i32) -> (r: WriteResult<()>)
        requires
            old(self).indent_fits(old(self).depth() as int),
        ensures
            r is Ok,
            final(self).wf(),
            final(self).same_config(old(self)),
            final(self).output() == old(self).output() + old(self).lead() + spec_decimal(value as int),
            final(self).state() == WriteState::AfterValue,
            final(self).depth() == old(self).depth(),
    {
        self.write_i64(value as i64)
    }

    pub fn write_i64(&mut self, value: i64) -> (r: WriteResult<()>)
        requires
            old(self).indent_fits(old(self).depth() as int),
        ensures
            r is Ok,
            final(self).wf(),
            final(self).same_config(old(self)),
            final(self).output() == old(self).output() + old(self).lead() + spec_decimal(value as int),
            final(self).state() == WriteState::AfterValue,
            final(self).depth() == old(self).depth(),
    {
        let mut digits: Vec<u8> = Vec::new();
        push_decimal(&mut digits, value);
        assert(digits@ =~= spec_decimal(value as int));
        self.write_raw_value(digits.as_slice())
    }

    pub fn write_boolean(&mut self, value: bool) -> (r: WriteResult<()>)
        requires
            old(self).indent_fits(old(self).depth() as int),
        ensures
            r is Ok,
            final(self).wf(),
            final(self).same_config(old(self)),
            final(self).output() == old(self).output() + old(self).lead() + (if value {
                seq![116u8, 114u8, 117u8, 101u8]
            } else {
                seq![102u8, 97u8, 108u8, 115u8, 101u8]
            }),
            final(self).state() == WriteState::AfterValue,
            final(self).depth() == old(self).depth(),
    {
        if value {
            let word: [u8; 4] = [116, 114, 117, 101];
            assert(word@ =~= seq![116u8, 114u8, 117u8, 101u8]);
            self.write_raw_value(&word)
        } else {
            let word: [u8; 5] = [102, 97, 108, 115, 101];
            assert(word@ =~= seq![102u8, 97u8, 108u8, 115u8, 101u8]);
            self.write_raw_value(&word)
        }
    }

    pub fn write_null(&mut self) -> (r: WriteResult<()>)
        requires
            old(self).indent_fits(old(self).depth() as int),
        ensures
            r is Ok,
            final(self).wf(),
            final(self).same_config(old(self)),
            final(self).output() == old(self).output() + old(self).lead() + seq![110u8, 117u8, 108u8, 108u8],
            final(self).state() == WriteState::AfterValue,
            final(self).depth() == old(self).depth(),
    {
        let word: [u8; 4] = [110, 117, 108, 108];
        assert(word@ =~= seq![110u8, 117u8, 108u8, 108u8]);
        self.write_raw_value(&word)
    }

    /// Hands any buffered bytes to the underlying vector.
    pub fn flush(&mut self) -> (r: WriteResult<()>)
        ensures
            r is Ok,
            final(self).wf(),
            final(self).same_config(old(self)),
            final(self).output() == old(self).output(),
            final(self).sent() == old(self).output(),
            final(self).state() == old(self).state(),
            final(self).depth() == old(self).depth(),
    {
        if self.buffer.len() > 0 {
            self.send();
        }
        assert(self.inner@ =~= old(self).output());
        assert(self.output() =~= old(self).output());
        Ok(())
    }

    /// Flushes buffered data and ends the writer.
    pub fn close(self) -> (r: WriteResult<()>)
        ensures
            r is Ok,
    {
        let mut w = self;
        w.flush()
    }

    /// Flushes the buffer and returns the accumulated bytes.
    pub fn finish(self) -> (r: WriteResult<Vec<u8>>)
        ensures
            r matches Ok(v) && v@ == self.output(),
    {
        let mut w = self;
        let _ = w.flush();
        Ok(w.inner)
    }
}

} // verus!
