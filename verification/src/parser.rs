//! Streaming JSON parser using the push (`receive`) model.

use vstd::prelude::*;
use crate::error::{err_with_number, fault_message, Fault, ParseError, ParseResult};
use crate::grammar::{initial_view, spec_run, Cfg, Context, EventView, Run, TokView};
use crate::handler::{call_chain, lemma_chain_start, ContentHandler};
use crate::keys::KeySymbolTable;
use crate::limits::ParserLimits;
use crate::tokenizer::{all_ok, answers_since, delivers, fault_result, table_ok, Tokenizer};
use crate::streaming::lemma_run_empty;

verus! {

pub const DEFAULT_BUFFER_SIZE: usize = 8192;

/// What the byte order mark check decides about the start of a document.
pub enum Bom {
    /// More bytes are needed to decide.
    NeedMore,
    /// The document is UTF-8; its first `n` bytes are a byte order mark to skip.
    Skip(nat),
    /// The document uses an encoding that is not supported.
    Fail(Fault),
}

/// The byte order mark check on the first bytes of a document.
pub open spec fn spec_bom(d: Seq<u8>) -> Bom {
    if d.len() == 0 {
        Bom::NeedMore
    } else {
        let b1 = d[0];
        if b1 == 0xEF {
            if d.len() < 3 {
                if d.len() == 1 || d[1] == 0xBB {
                    Bom::NeedMore
                } else {
                    Bom::Skip(0)
                }
            } else if d[1] == 0xBB && d[2] == 0xBF {
                Bom::Skip(3)
            } else {
                Bom::Skip(0)
            }
        } else if b1 == 0xFE {
            if d.len() < 2 {
                Bom::NeedMore
            } else if d[1] == 0xFF {
                Bom::Fail(Fault::Utf16Be)
            } else {
                Bom::Skip(0)
            }
        } else if b1 == 0xFF {
            if d.len() < 2 {
                Bom::NeedMore
            } else if d[1] == 0xFE {
                if d.len() < 4 {
                    Bom::NeedMore
                } else if d[2] == 0 && d[3] == 0 {
                    Bom::Fail(Fault::Utf32Le)
                } else {
                    Bom::Fail(Fault::Utf16Le)
                }
            } else {
                Bom::Skip(0)
            }
        } else if b1 == 0 {
            if d.len() < 2 {
                Bom::NeedMore
            } else if d[1] == 0 {
                if d.len() < 4 {
                    Bom::NeedMore
                } else if d[2] == 0xFE && d[3] == 0xFF {
                    Bom::Fail(Fault::Utf32Be)
                } else {
                    Bom::Skip(0)
                }
            } else {
                Bom::Skip(0)
            }
        } else {
            Bom::Skip(0)
        }
    }
}

pub(crate) enum BomCheck {
    NeedMore,
    Done(usize),
}

/// Checks for a byte order mark at the start of a document.
pub(crate) fn check_bom(data: &[u8]) -> (r: ParseResult<BomCheck>)
    ensures
        match (r, spec_bom(data@)) {
            (Ok(BomCheck::NeedMore), Bom::NeedMore) => true,
            (Ok(BomCheck::Done(n)), Bom::Skip(m)) => n == m,
            (Err(e), Bom::Fail(f)) => e.text() == fault_message(f),
            _ => false,
        },
{
    let remaining = data.len();
    if remaining == 0 {
        return Ok(BomCheck::NeedMore);
    }
    let b1 = data[0];
    if b1 == 0xEF {
        if remaining < 3 {
            if remaining >= 2 && data[1] == 0xBB {
                return Ok(BomCheck::NeedMore);
            }
            if remaining == 1 {
                return Ok(BomCheck::NeedMore);
            }
        } else if data[1] == 0xBB && data[2] == 0xBF {
            return Ok(BomCheck::Done(3));
        }
        return Ok(BomCheck::Done(0));
    }
    if b1 == 0xFE {
        if remaining < 2 {
            return Ok(BomCheck::NeedMore);
        }
        if data[1] == 0xFF {
            return Err(ParseError::new("UTF-16 BE encoding not supported"));
        }
        return Ok(BomCheck::Done(0));
    }
    if b1 == 0xFF {
        if remaining < 2 {
            return Ok(BomCheck::NeedMore);
        }
        if data[1] == 0xFE {
            if remaining < 4 {
                return Ok(BomCheck::NeedMore);
            }
            if data[2] == 0x00 && data[3] == 0x00 {
                return Err(ParseError::new("UTF-32 LE encoding not supported"));
            }
            return Err(ParseError::new("UTF-16 LE encoding not supported"));
        }
        return Ok(BomCheck::Done(0));
    }
    if b1 == 0x00 {
        if remaining < 2 {
            return Ok(BomCheck::NeedMore);
        }
        if data[1] == 0x00 {
            if remaining < 4 {
                return Ok(BomCheck::NeedMore);
            }
            if data[2] == 0xFE && data[3] == 0xFF {
                return Err(ParseError::new("UTF-32 BE encoding not supported"));
            }
        }
        return Ok(BomCheck::Done(0));
    }
    Ok(BomCheck::Done(0))
}

/// A streaming JSON parser using the push (`receive`) model.
///
/// Parsing events are delivered to the [`ContentHandler`] as tokens are recognized.
/// The parser handles byte order mark detection, then delegates to a tokenizer.
pub struct Parser<'a, H: ContentHandler> {
    handler: &'a mut H,
    leftover: Vec<u8>,
    key_symbol_table: KeySymbolTable,
    limits: ParserLimits,
    reject_duplicate_keys: bool,
    checked_bom: bool,
    closed: bool,
    document_length: i64,
    buffer_size: usize,
    underflow: bool,
    tokenizer: Option<Tokenizer>,
}

impl<'a, H: ContentHandler> Parser<'a, H> {
    /// The well-formedness of the parser.
    pub closed spec fn wf(&self) -> bool {
        &&& table_ok(self.key_symbol_table)
        &&& self.tokenizer is Some ==> self.checked_bom
        &&& (self.tokenizer matches Some(t) ==> t.is_closed() == self.closed)
        &&& self.buffer_size > 0
        &&& self.document_length >= 0
    }

    pub closed spec fn is_closed(&self) -> bool {
        self.closed
    }

    pub closed spec fn bom_checked(&self) -> bool {
        self.checked_bom
    }

    /// The bytes received but not yet consumed.
    pub closed spec fn pending(&self) -> Seq<u8> {
        self.leftover@
    }

    pub closed spec fn doc_length(&self) -> i64 {
        self.document_length
    }

    pub closed spec fn limits(&self) -> ParserLimits {
        self.limits
    }

    pub closed spec fn rejects_duplicates(&self) -> bool {
        self.reject_duplicate_keys
    }

    pub closed spec fn underflow_flag(&self) -> bool {
        self.underflow
    }

    pub closed spec fn buffer_len(&self) -> usize {
        self.buffer_size
    }

    /// Whether the document has begun: the byte order mark check is done and the
    /// tokenizer exists.
    pub closed spec fn started(&self) -> bool {
        self.tokenizer is Some
    }

    /// The state of the tokenizer, or the initial state when the document has not begun.
    pub closed spec fn tok_view(&self) -> TokView {
        match self.tokenizer {
            Some(t) => t.view(),
            None => initial_view(),
        }
    }

    /// The settings the tokenizer runs with.
    pub closed spec fn tok_cfg(&self) -> Cfg {
        match self.tokenizer {
            Some(t) => t.cfg(self.limits),
            None => Cfg {
                reject_dup: self.reject_duplicate_keys,
                needs_ws: false,
                closed: false,
                max_depth: self.limits.max_nesting_depth,
                max_number: self.limits.max_number_length,
                max_string: self.limits.max_string_length,
                max_name: self.limits.max_name_length,
                max_tokens: self.limits.max_token_count,
            },
        }
    }

    /// The events handed to the handler in this document.
    pub closed spec fn delivered(&self) -> Seq<EventView> {
        match self.tokenizer {
            Some(t) => t.delivered(),
            None => Seq::empty(),
        }
    }

    /// The handler the parser hands its events to, as it now stands.
    pub closed spec fn handler_state(&self) -> H {
        *self.handler
    }

    /// The handler calls made from this parser's state to `later`: one for each event handed
    /// over in between, in order, each by the callback of the event's kind, with the answer
    /// recorded for it.
    pub open spec fn calls_until(&self, later: &Self) -> bool {
        call_chain(
            self.handler_state(),
            later.handler_state(),
            later.delivered().subrange(self.delivered().len() as int, later.delivered().len() as int),
            answers_since(later.answers(), self.answers().len()),
        )
    }

    /// When the handler, the events and the answers stand as they were, no call was made.
    proof fn lemma_calls_none(a: &Self, b: &Self)
        requires
            a.handler_state() == b.handler_state(),
            a.delivered() == b.delivered(),
            a.answers() == b.answers(),
        ensures
            a.calls_until(b),
    {
        lemma_chain_start(a.handler_state());
        assert(b.delivered().subrange(a.delivered().len() as int, b.delivered().len() as int)
            =~= Seq::<EventView>::empty());
        assert(answers_since(b.answers(), a.answers().len()) =~= Seq::<ParseResult<()>>::empty());
    }

    /// The handler's answers to the events handed to it in this document, in order.
    pub closed spec fn answers(&self) -> Seq<ParseResult<()>> {
        match self.tokenizer {
            Some(t) => t.answers(),
            None => Seq::empty(),
        }
    }

    /// Creates a new JSON parser with a default buffer size of 8KB.
    pub fn new(handler: &'a mut H) -> (p: Self)
        ensures
            p.wf(),
            !p.is_closed(),
            !p.bom_checked(),
            !p.started(),
            p.pending() == Seq::<u8>::empty(),
            p.doc_length() == 0,
            !p.underflow_flag(),
            !p.rejects_duplicates(),
            p.limits() == ParserLimits::default_spec(),
            p.buffer_len() == DEFAULT_BUFFER_SIZE,
            p.tok_view() == initial_view(),
            p.delivered() == Seq::<EventView>::empty(),
            p.answers() == Seq::<ParseResult<()>>::empty(),
    {
        Self::with_buffer_size(handler, DEFAULT_BUFFER_SIZE)
    }

    /// Creates a new JSON parser with the specified buffer size, which must be positive.
    pub fn with_buffer_size(handler: &'a mut H, buffer_size: usize) -> (p: Self)
        requires
            buffer_size > 0,
        ensures
            p.wf(),
            !p.is_closed(),
            !p.bom_checked(),
            !p.started(),
            p.pending() == Seq::<u8>::empty(),
            p.doc_length() == 0,
            !p.underflow_flag(),
            !p.rejects_duplicates(),
            p.limits() == ParserLimits::default_spec(),
            p.buffer_len() == buffer_size,
            p.tok_view() == initial_view(),
            p.delivered() == Seq::<EventView>::empty(),
            p.answers() == Seq::<ParseResult<()>>::empty(),
    {
        let table = KeySymbolTable::new();
        Parser {
            handler,
            leftover: Vec::new(),
            key_symbol_table: table,
            limits: ParserLimits::default(),
            reject_duplicate_keys: false,
            checked_bom: false,
            closed: false,
            document_length: 0,
            buffer_size,
            underflow: false,
            tokenizer: None,
        }
    }

    /// The buffer size used when reading from a stream.
    pub fn buffer_size(&self) -> (n: usize)
        ensures
            n == self.buffer_len(),
    {
        self.buffer_size
    }
}

/// The document length after receiving `d` (counted only when the limit is set).
pub open spec fn doc_after(doc: i64, max: i64, d: Seq<u8>) -> i64 {
    if max > 0 && d.len() > 0 {
        if doc + d.len() > i64::MAX {
            i64::MAX
        } else {
            (doc + d.len()) as i64
        }
    } else {
        doc
    }
}

/// The error `close` raises after running the tokenizer over the pending bytes, if any.
pub open spec fn close_fault(run: Run, pending_len: nat) -> Option<Fault> {
    if run.consumed < pending_len {
        Some(Fault::IncompleteAtEnd)
    } else if !run.end.seen_any {
        Some(Fault::NoData)
    } else if run.end.stack.len() > 0 {
        if run.end.stack.last() == Context::Object {
            Some(Fault::UnclosedObject)
        } else {
            Some(Fault::UnclosedArray)
        }
    } else {
        None
    }
}

/// The fault `close` reports: the run's own, or else the one found at the end of the input.
pub open spec fn close_outcome(run: Run, pending_len: nat) -> Option<Fault> {
    if run.fault is Some {
        run.fault
    } else {
        close_fault(run, pending_len)
    }
}

/// A run whose events were all handed over and answered with `Ok`, and which ended without a
/// fault, delivers with any result that matches the fault found after it.
proof fn lemma_outcome(
    run: Run,
    f: Option<Fault>,
    before: Seq<EventView>,
    after: Seq<EventView>,
    said_before: Seq<ParseResult<()>>,
    said_after: Seq<ParseResult<()>>,
    r: ParseResult<()>,
)
    requires
        delivers(run, before, after, said_before, said_after, Ok(())),
        fault_result(f, r),
    ensures
        delivers(Run { fault: f, ..run }, before, after, said_before, said_after, r),
{
}

/// The tokenizer settings for the end of the input.
pub open spec fn closing(cfg: Cfg) -> Cfg {
    Cfg { closed: true, ..cfg }
}

impl<'a, H: ContentHandler> Parser<'a, H> {
    /// The parser is the same apart from its limits and duplicate key setting.
    pub closed spec fn same_document(&self, other: &Self) -> bool {
        &&& self.leftover == other.leftover
        &&& self.key_symbol_table == other.key_symbol_table
        &&& self.checked_bom == other.checked_bom
        &&& self.closed == other.closed
        &&& self.document_length == other.document_length
        &&& self.buffer_size == other.buffer_size
        &&& self.underflow == other.underflow
        &&& self.tokenizer == other.tokenizer
    }

    /// What two parsers that hold the same document agree on.
    pub proof fn lemma_same_document(&self, other: &Self)
        requires
            self.same_document(other),
        ensures
            self.is_closed() == other.is_closed(),
            self.bom_checked() == other.bom_checked(),
            self.pending() == other.pending(),
            self.doc_length() == other.doc_length(),
            self.buffer_len() == other.buffer_len(),
            self.underflow_flag() == other.underflow_flag(),
            self.started() == other.started(),
            self.tok_view() == other.tok_view(),
            self.delivered() == other.delivered(),
            self.answers() == other.answers(),
    {
    }

    /// Sets whether a repeated key within the same object is a parse error (for documents
    /// that have not begun).
    pub fn set_reject_duplicate_keys(&mut self, reject_duplicate_keys: bool)
        requires
            old(self).wf(),
        ensures
            final(self).wf(),
            final(self).same_document(old(self)),
            final(self).limits() == old(self).limits(),
            final(self).rejects_duplicates() == reject_duplicate_keys,
    {
        self.reject_duplicate_keys = reject_duplicate_keys;
    }

    /// Sets the maximum object/array nesting depth.
    pub fn set_max_nesting_depth(&mut self, max_nesting_depth: i32)
        requires
            old(self).wf(),
        ensures
            final(self).wf(),
            final(self).same_document(old(self)),
            final(self).rejects_duplicates() == old(self).rejects_duplicates(),
            final(self).limits() == (ParserLimits { max_nesting_depth, ..old(self).limits() }),
    {
        self.limits.max_nesting_depth = max_nesting_depth;
    }

    /// Sets the maximum number of characters in a single number token.
    pub fn set_max_number_length(&mut self, max_number_length: i32)
        requires
            old(self).wf(),
        ensures
            final(self).wf(),
            final(self).same_document(old(self)),
            final(self).rejects_duplicates() == old(self).rejects_duplicates(),
            final(self).limits() == (ParserLimits { max_number_length, ..old(self).limits() }),
    {
        self.limits.max_number_length = max_number_length;
    }

    /// Sets the maximum number of characters in a single string value.
    pub fn set_max_string_length(&mut self, max_string_length: i32)
        requires
            old(self).wf(),
        ensures
            final(self).wf(),
            final(self).same_document(old(self)),
            final(self).rejects_duplicates() == old(self).rejects_duplicates(),
            final(self).limits() == (ParserLimits { max_string_length, ..old(self).limits() }),
    {
        self.limits.max_string_length = max_string_length;
    }

    /// Sets the maximum number of characters in a single object key.
    pub fn set_max_name_length(&mut self, max_name_length: i32)
        requires
            old(self).wf(),
        ensures
            final(self).wf(),
            final(self).same_document(old(self)),
            final(self).rejects_duplicates() == old(self).rejects_duplicates(),
            final(self).limits() == (ParserLimits { max_name_length, ..old(self).limits() }),
    {
        self.limits.max_name_length = max_name_length;
    }

    /// Sets the maximum total number of bytes in one document.
    pub fn set_max_document_length(&mut self, max_document_length: i64)
        requires
            old(self).wf(),
        ensures
            final(self).wf(),
            final(self).same_document(old(self)),
            final(self).rejects_duplicates() == old(self).rejects_duplicates(),
            final(self).limits() == (ParserLimits { max_document_length, ..old(self).limits() }),
    {
        self.limits.max_document_length = max_document_length;
    }

    /// Sets the maximum total number of tokens in one document.
    pub fn set_max_token_count(&mut self, max_token_count: i64)
        requires
            old(self).wf(),
        ensures
            final(self).wf(),
            final(self).same_document(old(self)),
            final(self).rejects_duplicates() == old(self).rejects_duplicates(),
            final(self).limits() == (ParserLimits { max_token_count, ..old(self).limits() }),
    {
        self.limits.max_token_count = max_token_count;
    }

    /// Disables every configurable limit in one call.
    pub fn disable_all_limits(&mut self)
        requires
            old(self).wf(),
        ensures
            final(self).wf(),
            final(self).same_document(old(self)),
            final(self).rejects_duplicates() == old(self).rejects_duplicates(),
            final(self).limits() == (ParserLimits {
                max_nesting_depth: 0,
                max_number_length: 0,
                max_string_length: 0,
                max_name_length: 0,
                max_document_length: 0,
                max_token_count: 0,
            }),
    {
        self.limits.disable_all();
    }

    /// Returns true when the previous `receive` left an incomplete trailing token.
    pub fn is_underflow(&self) -> (r: bool)
        ensures
            r == self.underflow_flag(),
    {
        self.underflow
    }

    /// Checks the byte order mark if needed, creates the tokenizer if needed, and runs it
    /// over `work`. Returns how many bytes of `work` were consumed.
    fn process_chunk(&mut self, work: &[u8]) -> (r: (usize, ParseResult<()>))
        requires
            old(self).wf(),
            !old(self).closed,
        ensures
            final(self).wf(),
            !final(self).closed,
            final(self).leftover == old(self).leftover,
            final(self).document_length == old(self).document_length,
            final(self).limits == old(self).limits,
            final(self).reject_duplicate_keys == old(self).reject_duplicate_keys,
            final(self).buffer_size == old(self).buffer_size,
            final(self).underflow == old(self).underflow,
            old(self).calls_until(&*final(self)),
            r.0 <= work@.len(),
            ({
                let bom = if old(self).checked_bom {
                    Bom::Skip(0)
                } else {
                    spec_bom(work@)
                };
                match bom {
                    Bom::Fail(f) => r.1 matches Err(e) && e.text() == fault_message(f)
                        && final(self).tokenizer == old(self).tokenizer
                        && final(self).checked_bom == old(self).checked_bom,
                    Bom::NeedMore => r.0 == 0 && r.1 is Ok && final(self).tokenizer
                        == old(self).tokenizer && final(self).checked_bom == old(self).checked_bom,
                    Bom::Skip(k) => {
                        let cfg = final(self).tok_cfg();
                        let run = spec_run(cfg, old(self).tok_view(), work@.subrange(k as int, work@.len() as int));
                        &&& k <= work@.len()
                        &&& final(self).checked_bom
                        &&& final(self).tokenizer is Some
                        &&& (old(self).tokenizer is Some ==> cfg == old(self).tok_cfg())
                        &&& (old(self).tokenizer is None ==> cfg.reject_dup
                            == old(self).reject_duplicate_keys && !cfg.closed && cfg.max_depth
                            == old(self).limits.max_nesting_depth && cfg.max_number
                            == old(self).limits.max_number_length && cfg.max_string
                            == old(self).limits.max_string_length && cfg.max_name
                            == old(self).limits.max_name_length && cfg.max_tokens
                            == old(self).limits.max_token_count)
                        &&& delivers(run, old(self).delivered(), final(self).delivered(), old(self).answers(), final(self).answers(), r.1)
                        &&& r.1 is Ok ==> r.0 == k + run.consumed && final(self).tok_view() == run.end
                        &&& all_ok(answers_since(final(self).answers(), old(self).answers().len()))
                            && run.fault is Some ==> final(self).tok_view()
                            == run.end
                    },
                }
            }),
    {
        let mut skip: usize = 0;
        if !self.checked_bom {
            match check_bom(work) {
                Err(e) => {
                    proof {
                        Self::lemma_calls_none(&*old(self), &*self);
                    }
                    return (0, Err(e));
                },
                Ok(BomCheck::NeedMore) => {
                    proof {
                        Self::lemma_calls_none(&*old(self), &*self);
                    }
                    return (0, Ok(()));
                },
                Ok(BomCheck::Done(k)) => {
                    self.checked_bom = true;
                    skip = k;
                },
            }
        }
        let mut tok = match self.tokenizer.take() {
            Some(t) => t,
            None => {
                let needs_whitespace = self.handler.needs_whitespace();
                Tokenizer::new(self.reject_duplicate_keys, needs_whitespace)
            },
        };
        // Reading the length records that it fits in a usize.
        let _n = work.len();
        let rest = work.split_at(skip).1;
        let (consumed, res) = tok.receive(self.handler, &mut self.key_symbol_table, &self.limits, rest);
        self.tokenizer = Some(tok);
        (skip + consumed, res)
    }

    /// Receives bytes into the parser.
    ///
    /// After this method returns, `*data` is advanced to the first unconsumed byte, and the
    /// unconsumed bytes are kept for the next call and for [`Self::close`]. Bytes pending from
    /// an earlier call are read before `*data`. On an error `*data` is left as it was when no
    /// bytes were pending, and is taken in whole (left empty) when some were.
    pub fn receive(&mut self, data: &mut &[u8]) -> (r: ParseResult<()>)
        requires
            old(self).wf(),
        ensures
            final(self).wf(),
            final(self).limits() == old(self).limits(),
            final(self).rejects_duplicates() == old(self).rejects_duplicates(),
            final(self).buffer_len() == old(self).buffer_len(),
            old(self).calls_until(&*final(self)),
            old(self).is_closed() ==> (r matches Err(e) && e.text() == fault_message(Fault::AfterClose)
                && final(self).same_document(old(self)) && final(data)@ == old(data)@),
            !old(self).is_closed() ==> !final(self).is_closed(),
            !old(self).is_closed() && old(data)@.len() == 0 && old(self).pending().len() == 0 ==> r
                is Ok && final(self).same_document(old(self)) && final(data)@ == old(data)@,
            ({
                let d = old(data)@;
                let max = old(self).limits().max_document_length;
                let doc = doc_after(old(self).doc_length(), max, d);
                let buf = old(self).pending() + d;
                let bom = if old(self).bom_checked() {
                    Bom::Skip(0)
                } else {
                    spec_bom(buf)
                };
                !old(self).is_closed() && !(d.len() == 0 && old(self).pending().len() == 0) ==> {
                    &&& final(self).doc_length() == doc
                    &&& max > 0 && d.len() > 0 && doc > max ==> (r matches Err(e) && e.text() == fault_message(
                        Fault::DocumentLength(max),
                    ) && final(self).pending() == old(self).pending() && final(data)@ == d
                        && final(self).started() == old(self).started())
                    &&& !(max > 0 && d.len() > 0 && doc > max) ==> match bom {
                        Bom::Fail(f) => r matches Err(e) && e.text() == fault_message(f),
                        Bom::NeedMore => r is Ok && final(self).pending() == buf
                            && !final(self).started() && !final(self).bom_checked(),
                        Bom::Skip(k) => {
                            let cfg = final(self).tok_cfg();
                            let run = spec_run(cfg, old(self).tok_view(), buf.subrange(k as int, buf.len() as int));
                            &&& final(self).bom_checked()
                            &&& final(self).started()
                            &&& (old(self).started() ==> cfg == old(self).tok_cfg())
                            &&& (!old(self).started() ==> cfg.reject_dup == old(self).rejects_duplicates()
                                && !cfg.closed && cfg.max_depth == old(self).limits().max_nesting_depth
                                && cfg.max_number == old(self).limits().max_number_length
                                && cfg.max_string == old(self).limits().max_string_length
                                && cfg.max_name == old(self).limits().max_name_length
                                && cfg.max_tokens == old(self).limits().max_token_count)
                            &&& delivers(run, old(self).delivered(), final(self).delivered(), old(self).answers(), final(self).answers(), r)
                            &&& all_ok(answers_since(final(self).answers(), old(self).answers().len()))
                                && run.fault is Some ==> final(self).tok_view()
                                == run.end
                            &&& r is Ok ==> final(self).tok_view() == run.end && final(self).pending()
                                == buf.subrange((k + run.consumed) as int, buf.len() as int)
                        },
                    }
                    &&& !(max > 0 && d.len() > 0 && doc > max) && r is Err ==> final(self).pending().len() == 0
                        && final(data)@ == (if old(self).pending().len() > 0 {
                        Seq::<u8>::empty()
                    } else {
                        d
                    })
                    &&& r is Ok ==> final(self).underflow_flag() == (final(self).pending().len() > 0)
                        && final(data)@ == (if final(self).pending().len() < d.len() {
                        final(self).pending()
                    } else {
                        d
                    })
                }
            }),
    {
        if self.closed {
            proof {
                Self::lemma_calls_none(&*old(self), &*self);
            }
            return Err(ParseError::new("Cannot receive data after close()"));
        }
        if data.len() == 0 && self.leftover.len() == 0 {
            proof {
                Self::lemma_calls_none(&*old(self), &*self);
            }
            return Ok(());
        }
        let cur: &[u8] = *data;
        if self.limits.max_document_length > 0 && cur.len() > 0 {
            let room = (i64::MAX - self.document_length) as u64;
            if cur.len() as u64 > room {
                self.document_length = i64::MAX;
            } else {
                self.document_length = self.document_length + cur.len() as i64;
            }
            assert(self.document_length == doc_after(old(self).document_length, self.limits.max_document_length, cur@));
            if self.document_length > self.limits.max_document_length {
                proof {
                    Self::lemma_calls_none(&*old(self), &*self);
                }
                return Err(err_with_number("Maximum document length exceeded: ", self.limits.max_document_length));
            }
        }
        assert(self.document_length == doc_after(old(self).document_length, self.limits.max_document_length, cur@));
        let merged = self.leftover.len() > 0;
        if merged {
            let ghost old_left = self.leftover@;
            let plen = self.leftover.len();
            self.leftover.extend_from_slice(cur);
            assert(self.leftover@ =~= old_left + cur@);
            let mut buf: Vec<u8> = Vec::new();
            std::mem::swap(&mut buf, &mut self.leftover);
            let (consumed, res) = self.process_chunk(buf.as_slice());
            match res {
                Err(e) => {
                    *data = cur.split_at(cur.len()).1;
                    return Err(e);
                },
                Ok(()) => {},
            }
            self.leftover = vstd::slice::slice_to_vec(buf.as_slice().split_at(consumed).1);
            if consumed > plen {
                let rest = cur.split_at(consumed - plen).1;
                assert(rest@ =~= self.leftover@);
                *data = rest;
            } else {
                assert(self.leftover@.len() >= cur@.len());
            }
        } else {
            let (consumed, res) = self.process_chunk(cur);
            match res {
                Err(e) => {
                    return Err(e);
                },
                Ok(()) => {},
            }
            let rest = cur.split_at(consumed).1;
            *data = rest;
            self.leftover.clear();
            self.leftover = vstd::slice::slice_to_vec(rest);
        }
        self.underflow = self.leftover.len() > 0;
        Ok(())
    }
}


impl<'a, H: ContentHandler> Parser<'a, H> {
    /// Closes the parser, signaling the end of the input.
    ///
    /// Runs the tokenizer over the pending bytes as the end of the input and checks that the
    /// document is complete. After closing, [`Self::receive`] fails until [`Self::reset`].
    pub fn close(&mut self) -> (r: ParseResult<()>)
        requires
            old(self).wf(),
        ensures
            final(self).wf(),
            final(self).is_closed(),
            final(self).limits() == old(self).limits(),
            final(self).rejects_duplicates() == old(self).rejects_duplicates(),
            final(self).buffer_len() == old(self).buffer_len(),
            final(self).doc_length() == old(self).doc_length(),
            final(self).underflow_flag() == old(self).underflow_flag(),
            final(self).bom_checked() == old(self).bom_checked(),
            final(self).started() == old(self).started(),
            old(self).calls_until(&*final(self)),
            old(self).is_closed() ==> r is Ok && final(self).same_document(old(self)),
            !old(self).is_closed() && !old(self).started() ==> (r matches Err(e) && e.text()
                == fault_message(Fault::NoData) && final(self).pending() == old(self).pending()),
            ({
                let run = spec_run(closing(old(self).tok_cfg()), old(self).tok_view(), old(self).pending());
                let n = old(self).pending().len();
                let said = answers_since(final(self).answers(), old(self).answers().len());
                !old(self).is_closed() && old(self).started() ==> {
                    &&& final(self).tok_cfg() == closing(old(self).tok_cfg())
                    &&& delivers(
                        Run { fault: close_outcome(run, n), ..run },
                        old(self).delivered(),
                        final(self).delivered(),
                        old(self).answers(),
                        final(self).answers(),
                        r,
                    )
                    &&& all_ok(said) && run.fault is None ==> final(self).tok_view() == run.end
                        && final(self).pending() == (if run.consumed == n {
                        Seq::<u8>::empty()
                    } else {
                        old(self).pending()
                    })
                    &&& !(all_ok(said) && run.fault is None) ==> final(self).pending() == old(self).pending()
                }
            }),
    {
        if self.closed {
            proof {
                Self::lemma_calls_none(&*old(self), &*self);
            }
            return Ok(());
        }
        self.closed = true;
        let mut tok = match self.tokenizer.take() {
            Some(t) => t,
            None => {
                proof {
                    Self::lemma_calls_none(&*old(self), &*self);
                }
                return Err(ParseError::new("No data"));
            },
        };
        let ghost cfg0 = tok.cfg(self.limits);
        let ghost s0 = tok.view();
        let ghost log0 = tok.delivered();
        let ghost said0 = tok.answers();
        tok.set_closed(true);
        let ghost cfg = tok.cfg(self.limits);
        assert(cfg == closing(cfg0));
        let ghost run = spec_run(cfg, s0, self.leftover@);
        if self.leftover.len() > 0 {
            let (consumed, res) = tok.receive(self.handler, &mut self.key_symbol_table, &self.limits, self.leftover.as_slice());
            match res {
                Err(e) => {
                    self.tokenizer = Some(tok);
                    return Err(e);
                },
                Ok(()) => {},
            }
            assert(all_ok(answers_since(tok.answers(), said0.len())));
            assert(tok.delivered() == log0 + run.events) by {
                assert(tok.delivered().subrange(0, log0.len() as int) == log0);
                assert(tok.delivered() =~= tok.delivered().subrange(0, log0.len() as int)
                    + tok.delivered().subrange(log0.len() as int, tok.delivered().len() as int));
            }
            if consumed < self.leftover.len() {
                self.tokenizer = Some(tok);
                return Err(ParseError::new("Unclosed string or incomplete token at end of input"));
            }
            self.leftover.clear();
        } else {
            proof {
                lemma_run_empty(cfg, s0);
                assert(self.leftover@ =~= Seq::<u8>::empty());
                assert(log0 + run.events =~= log0);
                assert(answers_since(said0, said0.len()) =~= Seq::<ParseResult<()>>::empty());
                assert(log0.subrange(0, log0.len() as int) =~= log0);
                assert(said0.subrange(0, said0.len() as int) =~= said0);
                assert(log0.subrange(log0.len() as int, log0.len() as int) =~= Seq::<EventView>::empty());
                assert(run.events.subrange(0, 0) =~= Seq::<EventView>::empty());
                assert(answers_since(tok.answers(), said0.len()) =~= Seq::<ParseResult<()>>::empty());
                assert(delivers(run, log0, tok.delivered(), said0, tok.answers(), Ok(())));
            }
        }
        let seen = tok.seen_any_token();
        let inner = tok.innermost();
        self.tokenizer = Some(tok);
        proof {
            if old(self).leftover@.len() == 0 {
                Self::lemma_calls_none(&*old(self), &*self);
            }
        }
        let r = if !seen {
            Err(ParseError::new("No data"))
        } else {
            match inner {
                Some(Context::Object) => Err(ParseError::new("Unclosed object")),
                Some(Context::Array) => Err(ParseError::new("Unclosed array")),
                None => Ok(()),
            }
        };
        proof {
            lemma_outcome(run, close_outcome(run, run.consumed), log0, tok.delivered(), said0, tok.answers(), r);
        }
        r
    }

    /// Resets the parser to parse a new document. The key symbol table is kept warm.
    pub fn reset(&mut self)
        requires
            old(self).wf(),
        ensures
            final(self).wf(),
            !final(self).is_closed(),
            !final(self).bom_checked(),
            !final(self).started(),
            final(self).pending() == Seq::<u8>::empty(),
            final(self).doc_length() == 0,
            !final(self).underflow_flag(),
            final(self).delivered() == Seq::<EventView>::empty(),
            final(self).answers() == Seq::<ParseResult<()>>::empty(),
            final(self).tok_view() == initial_view(),
            final(self).limits() == old(self).limits(),
            final(self).rejects_duplicates() == old(self).rejects_duplicates(),
            final(self).buffer_len() == old(self).buffer_len(),
    {
        self.leftover.clear();
        self.tokenizer = None;
        self.checked_bom = false;
        self.closed = false;
        self.document_length = 0;
        self.underflow = false;
    }
}

} // verus!
