//! Writing a document then reading it: the events the tokenizer reads from what the writer
//! wrote are the events written.

use vstd::prelude::*;
use vstd::utf8::encode_utf8;
use crate::grammar::{
    count_token, initial_view, is_digit, is_ws, opt_seq, ws_end, scan_number, spec_run, spec_step, Cfg, Context,
    EventKindView, EventView, Run, State, Step, TokView,
};
use crate::number::{nat_digits, spec_decimal, NumberView};
use crate::streaming::{content, kinds, lemma_content_add, lemma_content_ws_event, lemma_kinds_add, lemma_run_empty};
use crate::roundtrip::{law_integer_read_back, law_string_read_back, lemma_digit_block, lemma_nat_digits};
use crate::writer::{close_lead, escape_bytes, newline_indent, quoted, value_lead, IndentConfig, WriteState};

verus! {

/// One call of the writer: a container boundary, a key, or a value.
pub enum WriteOp {
    StartObject,
    EndObject,
    StartArray,
    EndArray,
    Key(Seq<char>),
    Str(Seq<char>),
    Int(i64),
    Bool(bool),
    Null,
}

pub open spec fn is_close(op: WriteOp) -> bool {
    op is EndObject || op is EndArray
}

/// The bytes of the token a call writes.
pub open spec fn op_token(op: WriteOp) -> Seq<u8> {
    match op {
        WriteOp::StartObject => seq![123u8],
        WriteOp::EndObject => seq![125u8],
        WriteOp::StartArray => seq![91u8],
        WriteOp::EndArray => seq![93u8],
        WriteOp::Key(x) => quoted(encode_utf8(x)) + seq![58u8],
        WriteOp::Str(x) => quoted(encode_utf8(x)),
        WriteOp::Int(v) => spec_decimal(v as int),
        WriteOp::Bool(b) => if b {
            seq![116u8, 114u8, 117u8, 101u8]
        } else {
            seq![102u8, 97u8, 108u8, 115u8, 101u8]
        },
        WriteOp::Null => seq![110u8, 117u8, 108u8, 108u8],
    }
}

/// The bytes a writer with the indentation `indent` writes for a call in state `ws` with the
/// containers `st` open.
pub open spec fn op_output(op: WriteOp, ws: WriteState, st: Seq<Context>, indent: Option<IndentConfig>) -> Seq<u8> {
    if is_close(op) {
        close_lead(indent, st.len() - 1) + op_token(op)
    } else {
        value_lead(indent, ws, st.len() as int) + op_token(op)
    }
}

/// The writer state after a call.
pub open spec fn op_next_state(op: WriteOp) -> WriteState {
    match op {
        WriteOp::StartObject => WriteState::Init,
        WriteOp::StartArray => WriteState::Init,
        WriteOp::Key(_) => WriteState::AfterKey,
        _ => WriteState::AfterValue,
    }
}

/// The open containers after a call.
pub open spec fn op_next_stack(op: WriteOp, st: Seq<Context>) -> Seq<Context> {
    match op {
        WriteOp::StartObject => st.push(Context::Object),
        WriteOp::StartArray => st.push(Context::Array),
        WriteOp::EndObject => st.drop_last(),
        WriteOp::EndArray => st.drop_last(),
        _ => st,
    }
}

/// A call that makes a well-formed document: a key or the end of an object inside an object
/// at its start or after a value, the end of an array likewise, and a value at the start of
/// the document, after a key, or inside an array at its start or after a value.
pub open spec fn op_allowed(op: WriteOp, ws: WriteState, st: Seq<Context>) -> bool {
    let after = ws == WriteState::Init || ws == WriteState::AfterValue;
    match op {
        WriteOp::Key(_) => st.len() > 0 && st.last() == Context::Object && after,
        WriteOp::EndObject => st.len() > 0 && st.last() == Context::Object && after,
        WriteOp::EndArray => st.len() > 0 && st.last() == Context::Array && after,
        _ => ws == WriteState::Init0 || ws == WriteState::AfterKey || (st.len() > 0 && st.last()
            == Context::Array && after),
    }
}

/// The event a call is read back as.
pub open spec fn op_event(op: WriteOp) -> EventKindView {
    match op {
        WriteOp::StartObject => EventKindView::StartObject,
        WriteOp::EndObject => EventKindView::EndObject,
        WriteOp::StartArray => EventKindView::StartArray,
        WriteOp::EndArray => EventKindView::EndArray,
        WriteOp::Key(x) => EventKindView::Key(x),
        WriteOp::Str(x) => EventKindView::Str(x),
        WriteOp::Int(v) => EventKindView::Number(
            if i32::MIN <= v <= i32::MAX {
                NumberView::I32(v as i32)
            } else {
                NumberView::I64(v)
            },
        ),
        WriteOp::Bool(b) => EventKindView::Bool(b),
        WriteOp::Null => EventKindView::Null,
    }
}

/// A sequence of calls that the writer accepts from state `ws` with the containers `st` open.
pub open spec fn ops_valid(ops: Seq<WriteOp>, ws: WriteState, st: Seq<Context>) -> bool
    decreases ops.len(),
{
    ops.len() == 0 || (op_allowed(ops[0], ws, st) && ops_valid(
        ops.drop_first(),
        op_next_state(ops[0]),
        op_next_stack(ops[0], st),
    ))
}

/// The bytes written for a sequence of calls from state `ws` with the containers `st` open.
pub open spec fn ops_output(ops: Seq<WriteOp>, ws: WriteState, st: Seq<Context>, indent: Option<IndentConfig>) -> Seq<u8>
    decreases ops.len(),
{
    if ops.len() == 0 {
        seq![]
    } else {
        op_output(ops[0], ws, st, indent) + ops_output(
            ops.drop_first(),
            op_next_state(ops[0]),
            op_next_stack(ops[0], st),
            indent,
        )
    }
}

/// Indentation with spaces or tabs.
pub open spec fn indent_ok(indent: Option<IndentConfig>) -> bool {
    indent matches Some(ic) ==> (ic.indent_byte() == 32 || ic.indent_byte() == 9)
}

/// The writer state after a sequence of calls.
pub open spec fn ops_state(ops: Seq<WriteOp>, ws: WriteState) -> WriteState
    decreases ops.len(),
{
    if ops.len() == 0 {
        ws
    } else {
        ops_state(ops.drop_first(), op_next_state(ops[0]))
    }
}

/// The open containers after a sequence of calls.
pub open spec fn ops_stack(ops: Seq<WriteOp>, st: Seq<Context>) -> Seq<Context>
    decreases ops.len(),
{
    if ops.len() == 0 {
        st
    } else {
        ops_stack(ops.drop_first(), op_next_stack(ops[0], st))
    }
}

/// The events a sequence of calls is read back as.
pub open spec fn ops_events(ops: Seq<WriteOp>) -> Seq<EventKindView> {
    ops.map_values(|op: WriteOp| op_event(op))
}

/// A complete document: one value, all containers closed.
pub open spec fn is_document(ops: Seq<WriteOp>) -> bool {
    &&& ops.len() > 0
    &&& ops_valid(ops, WriteState::Init0, seq![])
    &&& ops_stack(ops, seq![]).len() == 0
    &&& ops_state(ops, WriteState::Init0) == WriteState::AfterValue
}

/// Settings under which the tokenizer reads everything a compact writer writes: no limit, no
/// duplicate key check, no whitespace events.
pub open spec fn reads_all(cfg: Cfg) -> bool {
    &&& !cfg.reject_dup
    &&& cfg.max_depth <= 0
    &&& cfg.max_number <= 0
    &&& cfg.max_string <= 0
    &&& cfg.max_name <= 0
    &&& cfg.max_tokens <= 0
}

/// The tokenizer state that goes with a writer state and the open containers.
pub open spec fn corresponds(ws: WriteState, st: Seq<Context>, s: TokView) -> bool {
    &&& s.stack == st
    &&& !s.after_comma
    &&& ws != WriteState::Init0 ==> s.seen_any
    &&& match ws {
        WriteState::Init0 => s.state == State::ExpectValue && st.len() == 0,
        WriteState::Init => st.len() > 0 && s.state == (if st.last() == Context::Object {
            State::ExpectKey
        } else {
            State::ExpectValue
        }),
        WriteState::AfterKey => s.state == State::ExpectValue,
        WriteState::AfterValue => s.state == State::AfterValue,
    }
}

/// The run over bytes whose first token advances.
proof fn lemma_run_advance(cfg: Cfg, s: TokView, d: Seq<u8>)
    requires
        spec_step(cfg, s, d) matches Step::Advance { n, .. } && 0 < n <= d.len(),
    ensures
        ({
            let st = spec_step(cfg, s, d);
            let r = spec_run(cfg, st->next, d.subrange(st->n as int, d.len() as int));
            spec_run(cfg, s, d) == Run {
                events: opt_seq(st->Advance_event) + r.events,
                consumed: st->n + r.consumed,
                end: r.end,
                fault: r.fault,
            }
        }),
{
}

/// The tokenizer state after reading a value call's token from `t`.
pub open spec fn value_next_ok(op: WriteOp, t: TokView, next: TokView) -> bool {
    &&& next.stack == op_next_stack(op, t.stack)
    &&& !next.after_comma
    &&& next.seen_any
    &&& next.state == match op {
        WriteOp::StartObject => State::ExpectKey,
        WriteOp::StartArray => State::ExpectValue,
        _ => State::AfterValue,
    }
}

/// A byte that ends a number without being part of it and that a writer writes after a value.
pub open spec fn value_end(b: u8) -> bool {
    b == 44 || b == 93 || b == 125 || b == 10
}

/// The token of a value call is read as one token with the call's event.
proof fn lemma_step_value(cfg: Cfg, t: TokView, op: WriteOp, rest: Seq<u8>)
    requires
        reads_all(cfg),
        !cfg.closed,
        t.state == State::ExpectValue,
        !(op is Key || is_close(op)),
        op is Int ==> rest.len() > 0 && value_end(rest[0]),
    ensures
        spec_step(cfg, t, op_token(op) + rest) matches Step::Advance { n, event: Some(e), next } && n
            == op_token(op).len() && e.kind == op_event(op) && value_next_ok(op, t, next),
{
    reveal(spec_step);
    let d = op_token(op) + rest;
    assert(count_token(cfg, t) == Some(t.tokens));
    match op {
        WriteOp::Str(x) => {
            let b = encode_utf8(x);
            assert(d[0] == 34);
            assert(d.subrange(1, d.len() as int) =~= escape_bytes(b) + seq![34u8] + rest);
            law_string_read_back(x, rest, false, false, cfg.max_string);
        },
        WriteOp::Int(v) => {
            law_integer_read_back(v, rest, false, cfg.max_number);
            let t0 = spec_decimal(v as int);
            assert(d[0] == t0[0]);
            if v < 0 {
                assert(t0[0] == 45);
            } else {
                lemma_nat_digits(v as nat);
                assert(is_digit(t0[0]));
            }
        },
        WriteOp::Bool(bv) => {
            if bv {
                assert(d.subrange(1, 4) =~= seq![114u8, 117u8, 101u8]);
            } else {
                assert(d.subrange(1, 5) =~= seq![97u8, 108u8, 115u8, 101u8]);
            }
        },
        WriteOp::Null => {
            assert(d.subrange(1, 4) =~= seq![117u8, 108u8, 108u8]);
        },
        _ => {},
    }
}

/// The token of a key call: the key string, then the colon.
proof fn lemma_run_key(cfg: Cfg, t: TokView, x: Seq<char>, rest: Seq<u8>) -> (r: (TokView, EventView))
    requires
        reads_all(cfg),
        !cfg.closed,
        t.state == State::ExpectKey,
    ensures
        ({
            let (t2, e) = r;
            let d = op_token(WriteOp::Key(x)) + rest;
            let rr = spec_run(cfg, t2, rest);
            &&& spec_run(cfg, t, d) == Run {
                events: seq![e] + rr.events,
                consumed: op_token(WriteOp::Key(x)).len() + rr.consumed,
                end: rr.end,
                fault: rr.fault,
            }
            &&& e.kind == EventKindView::Key(x)
            &&& t2.state == State::ExpectValue
            &&& t2.stack == t.stack
            &&& !t2.after_comma
            &&& t2.seen_any
        }),
{
    reveal(spec_step);
    let b = encode_utf8(x);
    let q = quoted(b);
    let d = op_token(WriteOp::Key(x)) + rest;
    let rest1 = seq![58u8] + rest;
    assert(d =~= q + rest1);
    assert(d[0] == 34);
    assert(d.subrange(1, d.len() as int) =~= escape_bytes(b) + seq![34u8] + rest1);
    law_string_read_back(x, rest1, false, true, cfg.max_name);
    assert(count_token(cfg, t) == Some(t.tokens));
    let st1 = spec_step(cfg, t, d);
    assert(st1 matches Step::Advance { n, .. } && n == q.len());
    lemma_run_advance(cfg, t, d);
    let t1 = st1->next;
    assert(d.subrange(q.len() as int, d.len() as int) =~= rest1);
    assert(t1.state == State::ExpectColon);
    assert(count_token(cfg, t1) == Some(t1.tokens));
    let st2 = spec_step(cfg, t1, rest1);
    assert(rest1[0] == 58);
    lemma_run_advance(cfg, t1, rest1);
    assert(rest1.subrange(1, rest1.len() as int) =~= rest);
    let t2 = st2->next;
    let e = st1->Advance_event.unwrap();
    let rr = spec_run(cfg, t2, rest);
    assert(opt_seq(st1->Advance_event) == seq![e]);
    assert(opt_seq(st2->Advance_event) =~= Seq::<EventView>::empty());
    assert(seq![e] + (Seq::<EventView>::empty() + rr.events) =~= seq![e] + rr.events);
    assert(q.len() + 1 == op_token(WriteOp::Key(x)).len());
    (t2, e)
}

/// The comma before a key or a value inside a container: it is read without an event.
proof fn lemma_run_comma(cfg: Cfg, s: TokView, x: Seq<u8>) -> (c: TokView)
    requires
        reads_all(cfg),
        s.state == State::AfterValue,
        s.stack.len() > 0,
    ensures
        spec_run(cfg, s, seq![44u8] + x) == (Run {
            events: spec_run(cfg, c, x).events,
            consumed: 1 + spec_run(cfg, c, x).consumed,
            end: spec_run(cfg, c, x).end,
            fault: spec_run(cfg, c, x).fault,
        }),
        c.stack == s.stack,
        c.seen_any,
        c.state == (if s.stack.last() == Context::Object {
            State::ExpectKey
        } else {
            State::ExpectValue
        }),
{
    reveal(spec_step);
    let d = seq![44u8] + x;
    assert(d[0] == 44);
    assert(count_token(cfg, s) == Some(s.tokens));
    lemma_run_advance(cfg, s, d);
    assert(d.subrange(1, d.len() as int) =~= x);
    let stp = spec_step(cfg, s, d);
    assert(opt_seq(stp->Advance_event) =~= Seq::<EventView>::empty());
    assert(Seq::<EventView>::empty() + spec_run(cfg, stp->next, x).events =~= spec_run(cfg, stp->next, x).events);
    stp->next
}

/// The token of a call other than a key is read as one token with the call's event.
proof fn lemma_run_token(cfg: Cfg, c: TokView, op: WriteOp, rest: Seq<u8>) -> (r: (TokView, EventView))
    requires
        reads_all(cfg),
        !cfg.closed,
        !(op is Key),
        is_close(op) ==> c.stack.len() > 0 && !c.after_comma && (c.stack.last() == (if op is EndObject {
            Context::Object
        } else {
            Context::Array
        })) && (c.state == State::AfterValue || c.state == (if op is EndObject {
            State::ExpectKey
        } else {
            State::ExpectValue
        })),
        !is_close(op) ==> c.state == State::ExpectValue,
        op is Int ==> rest.len() > 0 && value_end(rest[0]),
    ensures
        ({
            let (s2, e) = r;
            let d = op_token(op) + rest;
            let rr = spec_run(cfg, s2, rest);
            &&& spec_run(cfg, c, d) == Run {
                events: seq![e] + rr.events,
                consumed: op_token(op).len() + rr.consumed,
                end: rr.end,
                fault: rr.fault,
            }
            &&& e.kind == op_event(op)
            &&& s2.stack == op_next_stack(op, c.stack)
            &&& !s2.after_comma
            &&& s2.seen_any
            &&& s2.state == match op {
                WriteOp::StartObject => State::ExpectKey,
                WriteOp::StartArray => State::ExpectValue,
                _ => State::AfterValue,
            }
        }),
{
    let d = op_token(op) + rest;
    let tok = op_token(op);
    if is_close(op) {
        reveal(spec_step);
        assert(count_token(cfg, c) == Some(c.tokens));
    } else {
        lemma_step_value(cfg, c, op, rest);
    }
    lemma_run_advance(cfg, c, d);
    let stp = spec_step(cfg, c, d);
    assert(d.subrange(tok.len() as int, d.len() as int) =~= rest);
    let e = stp->Advance_event.unwrap();
    assert(opt_seq(stp->Advance_event) == seq![e]);
    (stp->next, e)
}

proof fn lemma_ws_block(d: Seq<u8>, i: int, end: int)
    requires
        0 <= i <= end <= d.len(),
        forall|k: int| i <= k < end ==> is_ws(#[trigger] d[k]),
        end == d.len() || !is_ws(d[end]),
    ensures
        ws_end(d, i) == end,
    decreases end - i,
{
    if i < end {
        lemma_ws_block(d, i + 1, end);
    }
}

/// A run of whitespace before a token is read as one whitespace token, whose event (if the
/// handler asks for whitespace) has no content, and which moves only the position.
proof fn lemma_run_ws(cfg: Cfg, s: TokView, w: Seq<u8>, x: Seq<u8>) -> (r: (TokView, Seq<EventView>))
    requires
        forall|k: int| 0 <= k < w.len() ==> is_ws(#[trigger] w[k]),
        x.len() > 0,
        !is_ws(x[0]),
    ensures
        ({
            let (c, extra) = r;
            let rr = spec_run(cfg, c, x);
            &&& spec_run(cfg, s, w + x) == Run {
                events: extra + rr.events,
                consumed: w.len() + rr.consumed,
                end: rr.end,
                fault: rr.fault,
            }
            &&& content(kinds(extra)) == Seq::<EventKindView>::empty()
            &&& w.len() == 0 ==> extra == Seq::<EventView>::empty()
            &&& c.state == s.state
            &&& c.stack == s.stack
            &&& c.after_comma == s.after_comma
            &&& c.seen_any == s.seen_any
        }),
{
    let d = w + x;
    if w.len() == 0 {
        assert(d =~= x);
        assert(kinds(Seq::<EventView>::empty()) =~= Seq::<EventKindView>::empty());
        assert(Seq::<EventView>::empty() + spec_run(cfg, s, x).events =~= spec_run(cfg, s, x).events);
        (s, Seq::<EventView>::empty())
    } else {
        reveal(spec_step);
        assert(d[0] == w[0]);
        assert(forall|k: int| 1 <= k < w.len() ==> is_ws(#[trigger] d[k])) by {
            assert forall|k: int| 1 <= k < w.len() implies is_ws(#[trigger] d[k]) by {
                assert(d[k] == w[k]);
            }
        }
        assert(d[w.len() as int] == x[0]);
        lemma_ws_block(d, 1, w.len() as int);
        lemma_run_advance(cfg, s, d);
        assert(d.subrange(w.len() as int, d.len() as int) =~= x);
        let stp = spec_step(cfg, s, d);
        lemma_content_ws_event(stp->Advance_event);
        (stp->next, opt_seq(stp->Advance_event))
    }
}

/// The whitespace a writer with indentation `indent` writes before a key or a value.
pub open spec fn lead_ws(indent: Option<IndentConfig>, ws: WriteState, depth: int) -> Seq<u8> {
    match indent {
        None => Seq::empty(),
        Some(ic) => match ws {
            WriteState::AfterKey => seq![32u8],
            WriteState::AfterValue => newline_indent(ic, depth),
            WriteState::Init => newline_indent(ic, depth),
            WriteState::Init0 => Seq::empty(),
        },
    }
}

proof fn lemma_newline_indent_ws(ic: IndentConfig, depth: int)
    requires
        ic.indent_byte() == 32 || ic.indent_byte() == 9,
    ensures
        forall|k: int| 0 <= k < newline_indent(ic, depth).len() ==> is_ws(#[trigger] newline_indent(ic, depth)[k]),
{
    let nl = newline_indent(ic, depth);
    assert forall|k: int| 0 <= k < nl.len() implies is_ws(#[trigger] nl[k]) by {
        if k > 0 {
            assert(nl[k] == ic.indent_byte());
        }
    }
}

/// The lead of a key or a value: a comma after a value, then whitespace; both leads are all
/// whitespace but for the comma.
proof fn lemma_leads(indent: Option<IndentConfig>, ws: WriteState, depth: int)
    requires
        indent_ok(indent),
    ensures
        value_lead(indent, ws, depth) == (if ws == WriteState::AfterValue {
            seq![44u8]
        } else {
            Seq::<u8>::empty()
        }) + lead_ws(indent, ws, depth),
        forall|k: int| 0 <= k < lead_ws(indent, ws, depth).len() ==> is_ws(#[trigger] lead_ws(indent, ws, depth)[k]),
        forall|k: int| 0 <= k < close_lead(indent, depth).len() ==> is_ws(#[trigger] close_lead(indent, depth)[k]),
        indent is None ==> lead_ws(indent, ws, depth) == Seq::<u8>::empty() && close_lead(indent, depth) == Seq::<u8>::empty(),
{
    match indent {
        Some(ic) => {
            lemma_newline_indent_ws(ic, depth);
            assert(value_lead(indent, ws, depth) =~= (if ws == WriteState::AfterValue {
                seq![44u8]
            } else {
                Seq::<u8>::empty()
            }) + lead_ws(indent, ws, depth));
        },
        None => {
            assert(value_lead(indent, ws, depth) =~= (if ws == WriteState::AfterValue {
                seq![44u8]
            } else {
                Seq::<u8>::empty()
            }) + lead_ws(indent, ws, depth));
        },
    }
}

/// A token starts with a byte that is not whitespace.
proof fn lemma_token_start(op: WriteOp)
    ensures
        op_token(op).len() > 0,
        !is_ws(op_token(op)[0]),
{
    if let WriteOp::Int(v) = op {
        let t = spec_decimal(v as int);
        if v < 0 {
            assert(t[0] == 45);
        } else {
            lemma_nat_digits(v as nat);
            assert(is_digit(t[0]));
        }
    }
}

/// The token of a call, read from a state ready for it.
proof fn lemma_run_call_token(cfg: Cfg, c: TokView, op: WriteOp, rest: Seq<u8>) -> (r: (TokView, EventView))
    requires
        reads_all(cfg),
        !cfg.closed,
        op is Key ==> c.state == State::ExpectKey,
        !(op is Key) ==> (is_close(op) ==> c.stack.len() > 0 && !c.after_comma && (c.stack.last() == (
        if op is EndObject {
            Context::Object
        } else {
            Context::Array
        })) && (c.state == State::AfterValue || c.state == (if op is EndObject {
            State::ExpectKey
        } else {
            State::ExpectValue
        }))),
        !(op is Key) && !is_close(op) ==> c.state == State::ExpectValue,
        op is Int ==> rest.len() > 0 && value_end(rest[0]),
    ensures
        ({
            let (s2, e) = r;
            let d = op_token(op) + rest;
            let rr = spec_run(cfg, s2, rest);
            &&& spec_run(cfg, c, d) == Run {
                events: seq![e] + rr.events,
                consumed: op_token(op).len() + rr.consumed,
                end: rr.end,
                fault: rr.fault,
            }
            &&& e.kind == op_event(op)
            &&& s2.stack == op_next_stack(op, c.stack)
            &&& !s2.after_comma
            &&& s2.seen_any
            &&& s2.state == match op {
                WriteOp::StartObject => State::ExpectKey,
                WriteOp::StartArray => State::ExpectValue,
                WriteOp::Key(_) => State::ExpectValue,
                _ => State::AfterValue,
            }
        }),
{
    if let WriteOp::Key(x) = op {
        lemma_run_key(cfg, c, x, rest)
    } else {
        lemma_run_token(cfg, c, op, rest)
    }
}

/// Reading the bytes a call writes, from a tokenizer state that goes with the writer state,
/// gives whitespace events (if the handler asks for whitespace), then the call's event, and
/// reaches a state that goes with the writer state after the call.
proof fn lemma_op_run(
    cfg: Cfg,
    s: TokView,
    ws: WriteState,
    st: Seq<Context>,
    op: WriteOp,
    rest: Seq<u8>,
    indent: Option<IndentConfig>,
) -> (r: (TokView, Seq<EventView>, EventView))
    requires
        reads_all(cfg),
        !cfg.closed,
        indent_ok(indent),
        corresponds(ws, st, s),
        op_allowed(op, ws, st),
        op is Int ==> rest.len() > 0 && value_end(rest[0]),
    ensures
        ({
            let (s2, extra, e) = r;
            let d = op_output(op, ws, st, indent) + rest;
            let rr = spec_run(cfg, s2, rest);
            &&& corresponds(op_next_state(op), op_next_stack(op, st), s2)
            &&& spec_run(cfg, s, d) == Run {
                events: extra + (seq![e] + rr.events),
                consumed: op_output(op, ws, st, indent).len() + rr.consumed,
                end: rr.end,
                fault: rr.fault,
            }
            &&& e.kind == op_event(op)
            &&& content(kinds(extra)) == Seq::<EventKindView>::empty()
            &&& indent is None ==> extra == Seq::<EventView>::empty()
        }),
{
    let tok = op_token(op);
    let x = tok + rest;
    lemma_token_start(op);
    assert(x[0] == tok[0]);
    let d = op_output(op, ws, st, indent) + rest;
    if is_close(op) {
        let lead = close_lead(indent, st.len() - 1);
        lemma_leads(indent, ws, st.len() - 1);
        assert(d =~= lead + x);
        let (c, extra) = lemma_run_ws(cfg, s, lead, x);
        let (s2, e) = lemma_run_call_token(cfg, c, op, rest);
        (s2, extra, e)
    } else {
        let depth = st.len() as int;
        let wsp = lead_ws(indent, ws, depth);
        lemma_leads(indent, ws, depth);
        let c0: TokView;
        if ws == WriteState::AfterValue {
            assert(d =~= seq![44u8] + (wsp + x));
            c0 = lemma_run_comma(cfg, s, wsp + x);
        } else {
            assert(d =~= wsp + x);
            c0 = s;
        }
        let (c, extra) = lemma_run_ws(cfg, c0, wsp, x);
        let (s2, e) = lemma_run_call_token(cfg, c, op, rest);
        (s2, extra, e)
    }
}

/// After a value, the next call of a valid sequence writes a comma, a newline or a closing
/// bracket first.
proof fn lemma_after_value_start(ops: Seq<WriteOp>, st: Seq<Context>, indent: Option<IndentConfig>)
    requires
        ops.len() > 0,
        ops_valid(ops, WriteState::AfterValue, st),
    ensures
        ops_output(ops, WriteState::AfterValue, st, indent).len() > 0,
        value_end(ops_output(ops, WriteState::AfterValue, st, indent)[0]),
{
    let o = op_output(ops[0], WriteState::AfterValue, st, indent);
    assert(ops_output(ops, WriteState::AfterValue, st, indent) == o + ops_output(
        ops.drop_first(),
        op_next_state(ops[0]),
        op_next_stack(ops[0], st),
        indent,
    ));
    if is_close(ops[0]) {
        match indent {
            Some(ic) => {
                assert(o[0] == 10);
            },
            None => {
                assert(o[0] == op_token(ops[0])[0]);
            },
        }
    } else {
        assert(o[0] == 44);
    }
}

/// Reading what a valid sequence of calls writes gives their events (and, if the handler asks
/// for whitespace, whitespace events around them), consumes every byte and fails nowhere, when
/// the last call is not a number (a number at the end of the input needs the end of the input
/// to be signaled).
proof fn lemma_ops_run(
    cfg: Cfg,
    s: TokView,
    ws: WriteState,
    st: Seq<Context>,
    ops: Seq<WriteOp>,
    indent: Option<IndentConfig>,
) -> (end: TokView)
    requires
        reads_all(cfg),
        !cfg.closed,
        indent_ok(indent),
        corresponds(ws, st, s),
        ops_valid(ops, ws, st),
        ops.len() > 0 ==> !(ops.last() is Int),
    ensures
        ({
            let r = spec_run(cfg, s, ops_output(ops, ws, st, indent));
            &&& content(kinds(r.events)) == ops_events(ops)
            &&& indent is None ==> kinds(r.events) == ops_events(ops)
            &&& r.consumed == ops_output(ops, ws, st, indent).len()
            &&& r.fault is None
            &&& r.end == end
            &&& corresponds(ops_state(ops, ws), ops_stack(ops, st), end)
        }),
    decreases ops.len(),
{
    if ops.len() == 0 {
        lemma_run_empty(cfg, s);
        assert(ops_output(ops, ws, st, indent) =~= Seq::<u8>::empty());
        assert(kinds(Seq::<EventView>::empty()) =~= ops_events(ops));
        assert(content(Seq::<EventKindView>::empty()) =~= ops_events(ops));
        s
    } else {
        let op = ops[0];
        let tail = ops.drop_first();
        let ws2 = op_next_state(op);
        let st2 = op_next_stack(op, st);
        let rest = ops_output(tail, ws2, st2, indent);
        if op is Int {
            assert(tail.len() > 0);
            lemma_after_value_start(tail, st2, indent);
        }
        let (s2, extra, e) = lemma_op_run(cfg, s, ws, st, op, rest, indent);
        if tail.len() > 0 {
            assert(tail.last() == ops.last());
        }
        let end = lemma_ops_run(cfg, s2, ws2, st2, tail, indent);
        let rr = spec_run(cfg, s2, rest);
        lemma_kinds_add(seq![e], rr.events);
        lemma_kinds_add(extra, seq![e] + rr.events);
        let ke = kinds(seq![e]);
        assert(ke =~= seq![op_event(op)]);
        lemma_content_add(kinds(extra), ke + kinds(rr.events));
        lemma_content_add(ke, kinds(rr.events));
        assert(ke.drop_last() =~= Seq::<EventKindView>::empty());
        assert(content(ke.drop_last()) =~= Seq::<EventKindView>::empty());
        assert(content(ke) =~= ke);
        assert(ops_events(ops) =~= seq![op_event(op)] + ops_events(tail));
        assert(Seq::<EventKindView>::empty() + (ke + ops_events(tail)) =~= ke + ops_events(tail));
        if indent is None {
            assert(kinds(Seq::<EventView>::empty()) =~= Seq::<EventKindView>::empty());
            assert(Seq::<EventKindView>::empty() + (ke + kinds(rr.events)) =~= ke + kinds(rr.events));
        }
        end
    }
}

/// The last call of a valid sequence is allowed where the calls before it leave the writer.
proof fn lemma_valid_last(ops: Seq<WriteOp>, ws: WriteState, st: Seq<Context>)
    requires
        ops.len() > 0,
        ops_valid(ops, ws, st),
    ensures
        ({
            let pre = ops.drop_last();
            &&& ops_valid(pre, ws, st)
            &&& op_allowed(ops.last(), ops_state(pre, ws), ops_stack(pre, st))
            &&& ops_stack(ops, st) == op_next_stack(ops.last(), ops_stack(pre, st))
        }),
    decreases ops.len(),
{
    let pre = ops.drop_last();
    let ns = op_next_state(ops[0]);
    let nst = op_next_stack(ops[0], st);
    let tail = ops.drop_first();
    if ops.len() > 1 {
        lemma_valid_last(tail, ns, nst);
        assert(pre.drop_first() =~= tail.drop_last());
        assert(pre[0] == ops[0]);
        assert(tail.last() == ops.last());
        assert(ops_valid(pre, ws, st) == (op_allowed(pre[0], ws, st) && ops_valid(pre.drop_first(), ns, nst)));
        assert(ops_state(pre, ws) == ops_state(pre.drop_first(), ns));
        assert(ops_stack(pre, st) == ops_stack(pre.drop_first(), nst));
        assert(ops_stack(ops, st) == ops_stack(tail, nst));
    } else {
        assert(pre =~= Seq::<WriteOp>::empty());
        assert(tail =~= Seq::<WriteOp>::empty());
        assert(ops.last() == ops[0]);
        assert(ops_stack(ops, st) == ops_stack(tail, nst));
    }
}

/// A key and an opening bracket leave a container open, and only the empty sequence leaves
/// the writer in its initial state.
proof fn lemma_valid_open(ops: Seq<WriteOp>, ws: WriteState, st: Seq<Context>)
    requires
        ops_valid(ops, ws, st),
        (ws == WriteState::AfterKey || ws == WriteState::Init) ==> st.len() > 0,
    ensures
        ({
            let ws2 = ops_state(ops, ws);
            (ws2 == WriteState::AfterKey || ws2 == WriteState::Init) ==> ops_stack(ops, st).len() > 0
        }),
        ops.len() > 0 ==> ops_state(ops, ws) != WriteState::Init0,
    decreases ops.len(),
{
    if ops.len() > 0 {
        lemma_valid_open(ops.drop_first(), op_next_state(ops[0]), op_next_stack(ops[0], st));
    }
}

/// The decimal text of an integer at the end of the input needs the end to be signaled.
proof fn lemma_integer_needs_end(v: i64, max_len: i32)
    ensures
        scan_number(spec_decimal(v as int), false, max_len) is NeedMore,
{
    let t = spec_decimal(v as int);
    let neg = v < 0;
    let p0: int = if neg {
        1
    } else {
        0
    };
    let m: nat = if neg {
        (-(v as int)) as nat
    } else {
        v as nat
    };
    lemma_nat_digits(m);
    let ds = nat_digits(m);
    assert(t == (if neg {
        seq![45u8] + ds
    } else {
        ds
    }));
    assert(forall|k: int| p0 <= k < t.len() ==> t[k] == ds[k - p0]);
    assert(forall|k: int| p0 <= k < t.len() ==> is_digit(#[trigger] t[k])) by {
        assert forall|k: int| p0 <= k < t.len() implies is_digit(#[trigger] t[k]) by {
            assert(t[k] == ds[k - p0]);
        }
    }
    assert(t[0] == 45 <==> neg);
    assert(t[p0] == ds[0]);
    lemma_digit_block(t, p0 + 1, t.len() as int);
    if m == 0 {
        assert(ds.len() == 1);
    }
}

/// Reading back a document: what the writer writes for a complete document, with or without
/// indentation, is read by the tokenizer (first as received, then, once the end of the input
/// is signaled, over the bytes it kept) as exactly the events written, apart from whitespace
/// events when the handler asks for whitespace; without indentation there are none. Nothing
/// fails, every byte is consumed, and all containers are closed.
pub proof fn law_document_read_back(ops: Seq<WriteOp>, cfg: Cfg, indent: Option<IndentConfig>)
    requires
        is_document(ops),
        reads_all(cfg),
        !cfg.closed,
        indent_ok(indent),
    ensures
        ({
            let w = ops_output(ops, WriteState::Init0, seq![], indent);
            let first = spec_run(cfg, initial_view(), w);
            let last = spec_run(Cfg { closed: true, ..cfg }, first.end, w.subrange(first.consumed as int, w.len() as int));
            &&& first.fault is None
            &&& last.fault is None
            &&& first.consumed + last.consumed == w.len()
            &&& content(kinds(first.events + last.events)) == ops_events(ops)
            &&& indent is None ==> kinds(first.events + last.events) == ops_events(ops)
            &&& last.end.stack.len() == 0
            &&& last.end.seen_any
        }),
{
    let empty_st = Seq::<Context>::empty();
    assert(empty_st =~= seq![]);
    let w = ops_output(ops, WriteState::Init0, empty_st, indent);
    let s0 = initial_view();
    let ccfg = Cfg { closed: true, ..cfg };
    if !(ops.last() is Int) {
        let end = lemma_ops_run(cfg, s0, WriteState::Init0, empty_st, ops, indent);
        let first = spec_run(cfg, s0, w);
        assert(w.subrange(first.consumed as int, w.len() as int) =~= Seq::<u8>::empty());
        lemma_run_empty(ccfg, end);
        assert(first.events + Seq::<EventView>::empty() =~= first.events);
    } else {
        // A document whose last call writes a number is that number alone.
        lemma_valid_last(ops, WriteState::Init0, empty_st);
        let pre = ops.drop_last();
        lemma_valid_open(pre, WriteState::Init0, empty_st);
        if pre.len() > 0 {
            assert(false);
        }
        assert(ops =~= seq![ops.last()]);
        let v = ops.last()->Int_0;
        assert(w =~= spec_decimal(v as int)) by {
            assert(ops.drop_first() =~= Seq::<WriteOp>::empty());
            assert(ops_output(ops.drop_first(), WriteState::AfterValue, empty_st, indent) =~= Seq::<u8>::empty());
            assert(value_lead(indent, WriteState::Init0, 0) =~= Seq::<u8>::empty());
        }
        reveal(spec_step);
        lemma_integer_needs_end(v, cfg.max_number);
        let t = spec_decimal(v as int);
        lemma_nat_digits(if v < 0 { (-(v as int)) as nat } else { v as nat });
        assert(t[0] == 45 || is_digit(t[0]));
        let first = spec_run(cfg, s0, w);
        assert(first.consumed == 0 && first.end == s0 && first.events =~= Seq::<EventView>::empty());
        assert(w.subrange(0, w.len() as int) =~= w);
        law_integer_read_back(v, Seq::<u8>::empty(), true, cfg.max_number);
        assert(t + Seq::<u8>::empty() =~= t);
        assert(count_token(ccfg, s0) == Some(s0.tokens));
        lemma_run_advance(ccfg, s0, w);
        let stp = spec_step(ccfg, s0, w);
        assert(w.subrange(w.len() as int, w.len() as int) =~= Seq::<u8>::empty());
        lemma_run_empty(ccfg, stp->next);
        let e = stp->Advance_event.unwrap();
        let ks = kinds(Seq::<EventView>::empty() + (seq![e] + Seq::<EventView>::empty()));
        assert(ks =~= seq![e.kind]);
        assert(ops_events(ops) =~= seq![op_event(ops[0])]);
        assert(ks.drop_last() =~= Seq::<EventKindView>::empty());
        assert(content(ks.drop_last()) =~= Seq::<EventKindView>::empty());
        assert(content(ks) =~= ks);
    }
}

} // verus!
