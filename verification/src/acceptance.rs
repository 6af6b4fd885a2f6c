//! The JSON texts of RFC 8259, as a grammar over bytes, and the tokenizer's acceptance of them.

use vstd::prelude::*;
use crate::grammar::{
    initial_view, is_digit, is_ws, literal_rest, scan_escape, scan_exponent, scan_fraction, scan_from,
    scan_hex, scan_number, spec_run, spec_step, ws_end, Cfg, Context, EscScan, Run, State, Step,
    TokView,
};
use crate::parser::{close_outcome, closing, spec_bom, Bom};
use crate::streaming::{lemma_run_consumed, lemma_run_empty, lemma_run_positions, same_but_position};
use crate::syntax::{
    closes_at, int_start, json_number, law_number_scanned_syntax, law_number_syntax_scanned,
    law_string_syntax, number_parts, string_chars,
};

verus! {

/// Every byte of `t` is JSON whitespace (space, tab, line feed, carriage return).
pub open spec fn all_ws(t: Seq<u8>) -> bool {
    forall|k: int| 0 <= k < t.len() ==> is_ws(#[trigger] t[k])
}

/// `t` is one of the literal names `true`, `false`, `null`.
pub open spec fn json_literal(t: Seq<u8>) -> bool {
    ||| t == seq![116u8, 114u8, 117u8, 101u8]
    ||| t == seq![102u8, 97u8, 108u8, 115u8, 101u8]
    ||| t == seq![110u8, 117u8, 108u8, 108u8]
}

/// `t` is a string: a quote, string characters, a quote.
pub open spec fn json_string(t: Seq<u8>) -> bool {
    &&& t.len() >= 2
    &&& t[0] == 34
    &&& t[t.len() - 1] == 34
    &&& string_chars(t.subrange(1, t.len() - 1))
}

/// The bytes strictly between the first and the last of `t`.
pub open spec fn inner(t: Seq<u8>) -> Seq<u8> {
    t.subrange(1, t.len() - 1)
}

/// `t` is a JSON value: a literal name, a number, a string, an array or an object.
pub open spec fn json_value(t: Seq<u8>) -> bool
    decreases t.len(), 0nat,
{
    ||| json_literal(t)
    ||| json_number(t)
    ||| json_string(t)
    ||| (t.len() >= 2 && t[0] == 91 && t[t.len() - 1] == 93 && (all_ws(inner(t)) || json_elements(inner(t))))
    ||| (t.len() >= 2 && t[0] == 123 && t[t.len() - 1] == 125 && (all_ws(inner(t)) || json_members(inner(t))))
}

/// `t` is a value with optional whitespace around it.
pub open spec fn json_padded(t: Seq<u8>) -> bool
    decreases t.len(), 1nat,
{
    exists|a: int, b: int|
        #![trigger t.subrange(a, b)]
        0 <= a < b <= t.len() && all_ws(t.subrange(0, a)) && json_value(t.subrange(a, b)) && all_ws(
            t.subrange(b, t.len() as int),
        )
}

/// `t` is the elements of a non-empty array: padded values separated by commas.
pub open spec fn json_elements(t: Seq<u8>) -> bool
    decreases t.len(), 2nat,
{
    ||| json_padded(t)
    ||| exists|k: int|
        #![trigger t.subrange(0, k)]
        0 <= k < t.len() && t[k] == 44 && json_padded(t.subrange(0, k)) && json_elements(
            t.subrange(k + 1, t.len() as int),
        )
}

/// `t` is one member of an object: a padded string, a colon and a padded value.
pub open spec fn json_member(t: Seq<u8>) -> bool
    decreases t.len(), 1nat,
{
    exists|a: int, b: int, c: int|
        #![trigger t.subrange(a, b), t.subrange(b, c)]
        0 <= a < b <= c < t.len() && all_ws(t.subrange(0, a)) && json_string(t.subrange(a, b)) && all_ws(
            t.subrange(b, c),
        ) && t[c] == 58 && json_padded(t.subrange(c + 1, t.len() as int))
}

/// `t` is the members of a non-empty object, separated by commas.
pub open spec fn json_members(t: Seq<u8>) -> bool
    decreases t.len(), 2nat,
{
    ||| json_member(t)
    ||| exists|k: int|
        #![trigger t.subrange(0, k)]
        0 <= k < t.len() && t[k] == 44 && json_member(t.subrange(0, k)) && json_members(
            t.subrange(k + 1, t.len() as int),
        )
}

/// `t` is a JSON text: one value with optional whitespace around it.
pub open spec fn json_text(t: Seq<u8>) -> bool {
    json_padded(t)
}

/// The settings under which acceptance is stated: the end of the input signaled, no limit set,
/// whitespace not reported, repeated keys allowed.
pub open spec fn plain(cfg: Cfg) -> bool {
    &&& cfg.closed
    &&& !cfg.needs_ws
    &&& !cfg.reject_dup
    &&& cfg.max_depth <= 0
    &&& cfg.max_number <= 0
    &&& cfg.max_string <= 0
    &&& cfg.max_name <= 0
    &&& cfg.max_tokens <= 0
}

/// The state after a value: a value was seen and a comma or the end of a container may come.
pub open spec fn after_value(s: TokView) -> TokView {
    TokView { state: State::AfterValue, after_comma: false, seen_any: true, ..s }
}

/// The first run goes on as the second after `n` bytes.
pub open spec fn follows(r1: Run, r2: Run, n: int) -> bool {
    &&& r1.fault == r2.fault
    &&& r1.consumed == n + r2.consumed
    &&& same_but_position(r1.end, r2.end)
}

/// Running from `s` over `x` passes the first `n` bytes and goes on as a run from `t` would
/// (positions aside).
pub open spec fn leads(cfg: Cfg, s: TokView, x: Seq<u8>, n: int, t: TokView) -> bool {
    &&& 0 <= n <= x.len()
    &&& follows(spec_run(cfg, s, x), spec_run(cfg, t, x.subrange(n, x.len() as int)), n)
}

proof fn lemma_leads_refl(cfg: Cfg, s: TokView, x: Seq<u8>)
    ensures
        leads(cfg, s, x, 0, s),
{
    assert(x.subrange(0, x.len() as int) =~= x);
}

proof fn lemma_leads_shift(cfg: Cfg, s: TokView, x: Seq<u8>, n: int, t: TokView, t2: TokView)
    requires
        leads(cfg, s, x, n, t),
        same_but_position(t, t2),
    ensures
        leads(cfg, s, x, n, t2),
{
    lemma_run_positions(cfg, t, t2, x.subrange(n, x.len() as int));
}

proof fn lemma_leads_trans(cfg: Cfg, s: TokView, x: Seq<u8>, n: int, t: TokView, m: int, u: TokView)
    requires
        leads(cfg, s, x, n, t),
        leads(cfg, t, x.subrange(n, x.len() as int), m, u),
    ensures
        leads(cfg, s, x, n + m, u),
{
    assert(x.subrange(n, x.len() as int).subrange(m, x.len() - n) =~= x.subrange(n + m, x.len() as int));
}

proof fn lemma_leads_step(cfg: Cfg, s: TokView, x: Seq<u8>)
    requires
        spec_step(cfg, s, x) matches Step::Advance { n, .. } && 0 < n <= x.len(),
    ensures
        leads(cfg, s, x, spec_step(cfg, s, x)->n as int, spec_step(cfg, s, x)->next),
{
}

/// A byte that may follow a value: whitespace, a comma, a closing bracket or brace.
pub open spec fn delim(rest: Seq<u8>) -> bool {
    rest.len() == 0 || is_ws(rest[0]) || rest[0] == 44 || rest[0] == 93 || rest[0] == 125
}

proof fn lemma_literal_leads(cfg: Cfg, s: TokView, t: Seq<u8>, rest: Seq<u8>)
    requires
        plain(cfg),
        s.state == State::ExpectValue,
        json_literal(t),
    ensures
        leads(cfg, s, t + rest, t.len() as int, after_value(s)),
{
    reveal(spec_step);
    let x = t + rest;
    assert(x[0] == t[0]);
    let rem = literal_rest(t[0]);
    assert(x.subrange(1, 1 + rem.len() as int) =~= rem);
    lemma_leads_step(cfg, s, x);
    lemma_leads_shift(cfg, s, x, t.len() as int, spec_step(cfg, s, x)->next, after_value(s));
}

proof fn lemma_number_leads(cfg: Cfg, s: TokView, t: Seq<u8>, rest: Seq<u8>)
    requires
        plain(cfg),
        s.state == State::ExpectValue,
        json_number(t),
        delim(rest),
    ensures
        leads(cfg, s, t + rest, t.len() as int, after_value(s)),
{
    reveal(spec_step);
    let x = t + rest;
    let (b, c) = choose|b: int, c: int| number_parts(t, b, c);
    assert(t.len() > 0);
    assert(x[0] == t[0]);
    assert(t[0] == 45 || is_digit(t[0])) by {
        if t[0] != 45 {
            assert(int_start(t) == 0);
        }
    }
    assert(x.subrange(0, t.len() as int) =~= t);
    if rest.len() > 0 {
        assert(x[t.len() as int] == rest[0]);
    }
    law_number_syntax_scanned(x, t.len() as int, cfg.max_number);
    lemma_leads_step(cfg, s, x);
    lemma_leads_shift(cfg, s, x, t.len() as int, spec_step(cfg, s, x)->next, after_value(s));
}

/// The state after a key: a colon must come.
pub open spec fn after_key(s: TokView) -> TokView {
    TokView { state: State::ExpectColon, after_comma: false, seen_any: true, ..s }
}

proof fn lemma_string_leads(cfg: Cfg, s: TokView, t: Seq<u8>, rest: Seq<u8>)
    requires
        plain(cfg),
        s.state == State::ExpectValue || s.state == State::ExpectKey,
        json_string(t),
    ensures
        leads(
            cfg,
            s,
            t + rest,
            t.len() as int,
            if s.state == State::ExpectKey {
                after_key(s)
            } else {
                after_value(s)
            },
        ),
{
    reveal(spec_step);
    let x = t + rest;
    assert(x[0] == 34);
    let c = x.subrange(1, x.len() as int);
    let j = t.len() - 2;
    assert(c[j] == 34);
    assert(c.subrange(0, j) =~= t.subrange(1, t.len() - 1));
    assert(closes_at(c, 0, j));
    let is_key = s.state == State::ExpectKey;
    let limit = if is_key { cfg.max_name } else { cfg.max_string };
    law_string_syntax(c, is_key, limit);
    lemma_leads_step(cfg, s, x);
    lemma_leads_shift(
        cfg,
        s,
        x,
        t.len() as int,
        spec_step(cfg, s, x)->next,
        if is_key { after_key(s) } else { after_value(s) },
    );
}

/// The whitespace run reaches exactly `j` when the bytes from `i` to `j` are whitespace and the
/// byte at `j` is not.
proof fn lemma_ws_end_at(d: Seq<u8>, i: int, j: int)
    requires
        0 <= i <= j <= d.len(),
        forall|k: int| i <= k < j ==> is_ws(#[trigger] d[k]),
        j == d.len() || !is_ws(d[j]),
    ensures
        ws_end(d, i) == j,
    decreases j - i,
{
    if i < j {
        assert(is_ws(d[i]));
        lemma_ws_end_at(d, i + 1, j);
    }
}

proof fn lemma_ws_leads(cfg: Cfg, s: TokView, w: Seq<u8>, rest: Seq<u8>)
    requires
        plain(cfg),
        all_ws(w),
        rest.len() == 0 || !is_ws(rest[0]),
    ensures
        leads(cfg, s, w + rest, w.len() as int, s),
{
    let x = w + rest;
    if w.len() == 0 {
        assert(x =~= rest);
        lemma_leads_refl(cfg, s, x);
    } else {
        reveal(spec_step);
        assert(forall|k: int| 0 <= k < w.len() ==> x[k] == w[k]);
        if rest.len() > 0 {
            assert(x[w.len() as int] == rest[0]);
        }
        assert(is_ws(x[0]));
        lemma_ws_end_at(x, 1, w.len() as int);
        lemma_leads_step(cfg, s, x);
        lemma_leads_shift(cfg, s, x, w.len() as int, spec_step(cfg, s, x)->next, s);
    }
}

/// The state after an opening bracket (`object` false) or brace (`object` true).
pub open spec fn opened(s: TokView, object: bool) -> TokView {
    TokView {
        stack: s.stack.push(if object { Context::Object } else { Context::Array }),
        after_comma: false,
        state: if object { State::ExpectKey } else { State::ExpectValue },
        seen_any: true,
        ..s
    }
}

/// The state after a comma.
pub open spec fn after_comma_state(s: TokView) -> TokView {
    TokView {
        after_comma: true,
        state: if s.stack.last() == Context::Object { State::ExpectKey } else { State::ExpectValue },
        seen_any: true,
        ..s
    }
}

/// The state after a colon.
pub open spec fn after_colon(s: TokView) -> TokView {
    TokView { after_comma: false, state: State::ExpectValue, seen_any: true, ..s }
}

/// The state after a closing bracket or brace.
pub open spec fn after_close(s: TokView) -> TokView {
    TokView { stack: s.stack.drop_last(), after_comma: false, state: State::AfterValue, seen_any: true, ..s }
}

proof fn lemma_open_leads(cfg: Cfg, s: TokView, x: Seq<u8>, object: bool)
    requires
        plain(cfg),
        s.state == State::ExpectValue,
        x.len() > 0,
        x[0] == (if object { 123u8 } else { 91u8 }),
    ensures
        leads(cfg, s, x, 1, opened(s, object)),
{
    reveal(spec_step);
    lemma_leads_step(cfg, s, x);
    lemma_leads_shift(cfg, s, x, 1, spec_step(cfg, s, x)->next, opened(s, object));
}

proof fn lemma_close_leads(cfg: Cfg, s: TokView, x: Seq<u8>, object: bool)
    requires
        plain(cfg),
        x.len() > 0,
        x[0] == (if object { 125u8 } else { 93u8 }),
        s.stack.len() > 0,
        s.stack.last() == (if object { Context::Object } else { Context::Array }),
        s.state == State::AfterValue || s.state == (if object { State::ExpectKey } else { State::ExpectValue }),
        !s.after_comma,
    ensures
        leads(cfg, s, x, 1, after_close(s)),
{
    reveal(spec_step);
    lemma_leads_step(cfg, s, x);
    lemma_leads_shift(cfg, s, x, 1, spec_step(cfg, s, x)->next, after_close(s));
}

proof fn lemma_comma_leads(cfg: Cfg, s: TokView, x: Seq<u8>)
    requires
        plain(cfg),
        x.len() > 0,
        x[0] == 44,
        s.state == State::AfterValue,
        s.stack.len() > 0,
    ensures
        leads(cfg, s, x, 1, after_comma_state(s)),
{
    reveal(spec_step);
    lemma_leads_step(cfg, s, x);
    lemma_leads_shift(cfg, s, x, 1, spec_step(cfg, s, x)->next, after_comma_state(s));
}

proof fn lemma_colon_leads(cfg: Cfg, s: TokView, x: Seq<u8>)
    requires
        plain(cfg),
        x.len() > 0,
        x[0] == 58,
        s.state == State::ExpectColon,
    ensures
        leads(cfg, s, x, 1, after_colon(s)),
{
    reveal(spec_step);
    lemma_leads_step(cfg, s, x);
    lemma_leads_shift(cfg, s, x, 1, spec_step(cfg, s, x)->next, after_colon(s));
}

/// A value starts with a byte that is not whitespace, a comma or a closing bracket or brace.
proof fn lemma_value_start(t: Seq<u8>)
    requires
        json_value(t),
    ensures
        t.len() > 0,
        !is_ws(t[0]),
        t[0] != 44 && t[0] != 93 && t[0] != 125 && t[0] != 58,
{
    if json_number(t) {
        let (b, c) = choose|b: int, c: int| number_parts(t, b, c);
        if t[0] != 45 {
            assert(int_start(t) == 0);
            assert(is_digit(t[0]));
        }
    }
}

/// A value is read as one value: from a state that expects a value, the tokenizer passes over
/// it, followed by a byte that may follow a value, to the state after a value.
proof fn lemma_value_leads(cfg: Cfg, s: TokView, t: Seq<u8>, rest: Seq<u8>)
    requires
        plain(cfg),
        s.state == State::ExpectValue,
        json_value(t),
        delim(rest),
    ensures
        leads(cfg, s, t + rest, t.len() as int, after_value(s)),
    decreases t.len(), 0nat,
{
    let x = t + rest;
    if json_literal(t) {
        lemma_literal_leads(cfg, s, t, rest);
    } else if json_number(t) {
        lemma_number_leads(cfg, s, t, rest);
    } else if json_string(t) {
        lemma_string_leads(cfg, s, t, rest);
    } else {
        let object = t[0] == 123;
        let m = inner(t);
        let close: u8 = if object { 125u8 } else { 93u8 };
        assert(t[t.len() - 1] == close);
        let s1 = opened(s, object);
        assert(x[0] == t[0]);
        lemma_open_leads(cfg, s, x, object);
        let x1 = x.subrange(1, x.len() as int);
        let tail = seq![close] + rest;
        assert(x1 =~= m + tail);
        let s2 = if all_ws(m) {
            lemma_ws_leads(cfg, s1, m, tail);
            s1
        } else if object {
            lemma_members_leads(cfg, s1, m, tail);
            after_value(s1)
        } else {
            lemma_elements_leads(cfg, s1, m, tail);
            after_value(s1)
        };
        lemma_leads_trans(cfg, s, x, 1, s1, m.len() as int, s2);
        let x2 = x.subrange(1 + m.len() as int, x.len() as int);
        assert(x2 =~= tail);
        lemma_close_leads(cfg, s2, x2, object);
        assert(s.stack.push(if object { Context::Object } else { Context::Array }).drop_last() =~= s.stack);
        assert(after_close(s2) == after_value(s));
        lemma_leads_trans(cfg, s, x, 1 + m.len() as int, s2, 1, after_value(s));
    }
}

/// A padded value followed by the end, a comma or a closing bracket or brace.
proof fn lemma_padded_leads(cfg: Cfg, s: TokView, t: Seq<u8>, rest: Seq<u8>)
    requires
        plain(cfg),
        s.state == State::ExpectValue,
        json_padded(t),
        rest.len() == 0 || rest[0] == 44 || rest[0] == 93 || rest[0] == 125,
    ensures
        leads(cfg, s, t + rest, t.len() as int, after_value(s)),
    decreases t.len(), 1nat,
{
    let (a, b) = choose|a: int, b: int|
        #![trigger t.subrange(a, b)]
        0 <= a < b <= t.len() && all_ws(t.subrange(0, a)) && json_value(t.subrange(a, b)) && all_ws(
            t.subrange(b, t.len() as int),
        );
    let w1 = t.subrange(0, a);
    let v = t.subrange(a, b);
    let w2 = t.subrange(b, t.len() as int);
    let x = t + rest;
    lemma_value_start(v);
    assert(x =~= w1 + (v + (w2 + rest)));
    lemma_ws_leads(cfg, s, w1, v + (w2 + rest));
    assert(x.subrange(a, x.len() as int) =~= v + (w2 + rest));
    if w2.len() > 0 {
        assert((w2 + rest)[0] == w2[0]);
    } else {
        assert(w2 + rest =~= rest);
    }
    lemma_value_leads(cfg, s, v, w2 + rest);
    lemma_leads_trans(cfg, s, x, a, s, b - a, after_value(s));
    assert(x.subrange(b, x.len() as int) =~= w2 + rest);
    lemma_ws_leads(cfg, after_value(s), w2, rest);
    lemma_leads_trans(cfg, s, x, b, after_value(s), t.len() - b, after_value(s));
}

/// The elements of an array followed by its closing bracket.
proof fn lemma_elements_leads(cfg: Cfg, s: TokView, t: Seq<u8>, rest: Seq<u8>)
    requires
        plain(cfg),
        s.state == State::ExpectValue,
        s.stack.len() > 0,
        s.stack.last() == Context::Array,
        json_elements(t),
        rest.len() > 0 && rest[0] == 93,
    ensures
        leads(cfg, s, t + rest, t.len() as int, after_value(s)),
    decreases t.len(), 2nat,
{
    if json_padded(t) {
        lemma_padded_leads(cfg, s, t, rest);
    } else {
        let k = choose|k: int|
            #![trigger t.subrange(0, k)]
            0 <= k < t.len() && t[k] == 44 && json_padded(t.subrange(0, k)) && json_elements(
                t.subrange(k + 1, t.len() as int),
            );
        let p = t.subrange(0, k);
        let e = t.subrange(k + 1, t.len() as int);
        let x = t + rest;
        assert(x =~= p + (seq![44u8] + (e + rest)));
        lemma_padded_leads(cfg, s, p, seq![44u8] + (e + rest));
        let sv = after_value(s);
        let x1 = x.subrange(k, x.len() as int);
        assert(x1 =~= seq![44u8] + (e + rest));
        lemma_comma_leads(cfg, sv, x1);
        lemma_leads_trans(cfg, s, x, k, sv, 1, after_comma_state(sv));
        let s2 = after_comma_state(sv);
        assert(x.subrange(k + 1, x.len() as int) =~= e + rest);
        lemma_elements_leads(cfg, s2, e, rest);
        assert(after_value(s2) == after_value(s));
        lemma_leads_trans(cfg, s, x, k + 1, s2, e.len() as int, after_value(s));
    }
}

/// One member of an object followed by a comma or the closing brace.
proof fn lemma_member_leads(cfg: Cfg, s: TokView, t: Seq<u8>, rest: Seq<u8>)
    requires
        plain(cfg),
        s.state == State::ExpectKey,
        json_member(t),
        rest.len() > 0 && (rest[0] == 44 || rest[0] == 125),
    ensures
        leads(cfg, s, t + rest, t.len() as int, after_value(s)),
    decreases t.len(), 1nat,
{
    let (a, b, c) = choose|a: int, b: int, c: int|
        #![trigger t.subrange(a, b), t.subrange(b, c)]
        0 <= a < b <= c < t.len() && all_ws(t.subrange(0, a)) && json_string(t.subrange(a, b)) && all_ws(
            t.subrange(b, c),
        ) && t[c] == 58 && json_padded(t.subrange(c + 1, t.len() as int));
    let w1 = t.subrange(0, a);
    let key = t.subrange(a, b);
    let w2 = t.subrange(b, c);
    let pv = t.subrange(c + 1, t.len() as int);
    let x = t + rest;
    let after1 = key + (w2 + (seq![58u8] + (pv + rest)));
    assert(x =~= w1 + after1);
    assert(after1[0] == 34);
    lemma_ws_leads(cfg, s, w1, after1);
    assert(x.subrange(a, x.len() as int) =~= key + (w2 + (seq![58u8] + (pv + rest))));
    lemma_string_leads(cfg, s, key, w2 + (seq![58u8] + (pv + rest)));
    let sk = after_key(s);
    lemma_leads_trans(cfg, s, x, a, s, b - a, sk);
    assert(x.subrange(b, x.len() as int) =~= w2 + (seq![58u8] + (pv + rest)));
    lemma_ws_leads(cfg, sk, w2, seq![58u8] + (pv + rest));
    lemma_leads_trans(cfg, s, x, b, sk, c - b, sk);
    let x3 = x.subrange(c, x.len() as int);
    assert(x3 =~= seq![58u8] + (pv + rest));
    lemma_colon_leads(cfg, sk, x3);
    let sc = after_colon(sk);
    lemma_leads_trans(cfg, s, x, c, sk, 1, sc);
    assert(x.subrange(c + 1, x.len() as int) =~= pv + rest);
    lemma_padded_leads(cfg, sc, pv, rest);
    assert(after_value(sc) == after_value(s));
    lemma_leads_trans(cfg, s, x, c + 1, sc, pv.len() as int, after_value(s));
}

/// The members of an object followed by its closing brace.
proof fn lemma_members_leads(cfg: Cfg, s: TokView, t: Seq<u8>, rest: Seq<u8>)
    requires
        plain(cfg),
        s.state == State::ExpectKey,
        s.stack.len() > 0,
        s.stack.last() == Context::Object,
        json_members(t),
        rest.len() > 0 && rest[0] == 125,
    ensures
        leads(cfg, s, t + rest, t.len() as int, after_value(s)),
    decreases t.len(), 2nat,
{
    if json_member(t) {
        lemma_member_leads(cfg, s, t, rest);
    } else {
        let k = choose|k: int|
            #![trigger t.subrange(0, k)]
            0 <= k < t.len() && t[k] == 44 && json_member(t.subrange(0, k)) && json_members(
                t.subrange(k + 1, t.len() as int),
            );
        let p = t.subrange(0, k);
        let e = t.subrange(k + 1, t.len() as int);
        let x = t + rest;
        assert(x =~= p + (seq![44u8] + (e + rest)));
        lemma_member_leads(cfg, s, p, seq![44u8] + (e + rest));
        let sv = after_value(s);
        let x1 = x.subrange(k, x.len() as int);
        assert(x1 =~= seq![44u8] + (e + rest));
        lemma_comma_leads(cfg, sv, x1);
        lemma_leads_trans(cfg, s, x, k, sv, 1, after_comma_state(sv));
        let s2 = after_comma_state(sv);
        assert(x.subrange(k + 1, x.len() as int) =~= e + rest);
        lemma_members_leads(cfg, s2, e, rest);
        assert(after_value(s2) == after_value(s));
        lemma_leads_trans(cfg, s, x, k + 1, s2, e.len() as int, after_value(s));
    }
}

/// Every JSON text is accepted: the tokenizer, with the end of the input signaled, no limit
/// set, whitespace not reported and repeated keys allowed, runs over the whole text without a
/// fault and ends having seen a value, with no container left open.
pub proof fn law_json_text_accepted(cfg: Cfg, t: Seq<u8>)
    requires
        plain(cfg),
        json_text(t),
    ensures
        ({
            let r = spec_run(cfg, initial_view(), t);
            &&& r.fault is None
            &&& r.consumed == t.len()
            &&& r.end.seen_any
            &&& r.end.stack.len() == 0
        }),
{
    let e = Seq::<u8>::empty();
    assert(t + e =~= t);
    lemma_padded_leads(cfg, initial_view(), t, e);
    assert(t.subrange(t.len() as int, t.len() as int) =~= e);
    lemma_run_empty(cfg, after_value(initial_view()));
}

/// The run from `s` over `x` has no fault, consumes all of `x` and ends with at most `depth`
/// containers open.
pub open spec fn run_ok(cfg: Cfg, s: TokView, x: Seq<u8>, depth: int) -> bool {
    let r = spec_run(cfg, s, x);
    &&& r.fault is None
    &&& r.consumed == x.len()
    &&& r.end.stack.len() <= depth
}

proof fn lemma_ok_after(cfg: Cfg, s: TokView, x: Seq<u8>, n: int, t: TokView, depth: int)
    requires
        leads(cfg, s, x, n, t),
        run_ok(cfg, s, x, depth),
    ensures
        run_ok(cfg, t, x.subrange(n, x.len() as int), depth),
{
}

/// A run that ends right away leaves the state as it was.
proof fn lemma_ok_empty(cfg: Cfg, t: TokView, x: Seq<u8>, depth: int)
    requires
        run_ok(cfg, t, x, depth),
        x.len() == 0,
    ensures
        t.stack.len() <= depth,
{
    assert(x =~= Seq::<u8>::empty());
    lemma_run_empty(cfg, t);
}

/// A run with no fault that consumes everything starts with a token that is consumed.
proof fn lemma_first_step(cfg: Cfg, s: TokView, x: Seq<u8>, depth: int)
    requires
        run_ok(cfg, s, x, depth),
        x.len() > 0,
    ensures
        spec_step(cfg, s, x) matches Step::Advance { n, .. } && 0 < n <= x.len(),
{
}

/// The whitespace at the front of the input is passed over.
proof fn lemma_skip_ws(cfg: Cfg, s: TokView, x: Seq<u8>, depth: int)
    requires
        plain(cfg),
        run_ok(cfg, s, x, depth),
    ensures
        0 <= ws_end(x, 0) <= x.len(),
        all_ws(x.subrange(0, ws_end(x, 0))),
        ws_end(x, 0) == x.len() || !is_ws(x[ws_end(x, 0)]),
        leads(cfg, s, x, ws_end(x, 0), s),
        run_ok(cfg, s, x.subrange(ws_end(x, 0), x.len() as int), depth),
{
    crate::tokenizer::lemma_ws_end_bounds(x, 0);
    let a = ws_end(x, 0);
    lemma_ws_run(x, 0);
    let w = x.subrange(0, a);
    let rest = x.subrange(a, x.len() as int);
    assert(x =~= w + rest);
    if rest.len() > 0 {
        assert(rest[0] == x[a]);
    }
    lemma_ws_leads(cfg, s, w, rest);
}

/// The bytes up to the end of a whitespace run are whitespace, and the run stops at a byte that
/// is not.
proof fn lemma_ws_run(x: Seq<u8>, i: int)
    requires
        0 <= i <= x.len(),
    ensures
        all_ws(x.subrange(i, ws_end(x, i))),
        ws_end(x, i) == x.len() || !is_ws(x[ws_end(x, i)]),
    decreases x.len() - i,
{
    crate::tokenizer::lemma_ws_end_bounds(x, i);
    if i < x.len() && is_ws(x[i]) {
        lemma_ws_run(x, i + 1);
        let e = ws_end(x, i);
        assert forall|k: int| 0 <= k < e - i implies is_ws(#[trigger] x.subrange(i, e)[k]) by {
            if k > 0 {
                assert(x.subrange(i, e)[k] == x.subrange(i + 1, e)[k - 1]);
            }
        }
    }
}

/// What may come where a value ended: whitespace, a comma inside a container, or the closing
/// bracket or brace of the innermost container.
proof fn lemma_after_value_byte(cfg: Cfg, s: TokView, x: Seq<u8>, depth: int)
    requires
        plain(cfg),
        s.state == State::AfterValue,
        run_ok(cfg, s, x, depth),
        x.len() > 0,
        !is_ws(x[0]),
    ensures
        x[0] == 44 || x[0] == 93 || x[0] == 125,
        x[0] == 44 ==> s.stack.len() > 0,
        x[0] == 93 ==> s.stack.len() > 0 && s.stack.last() == Context::Array,
        x[0] == 125 ==> s.stack.len() > 0 && s.stack.last() == Context::Object,
{
    lemma_first_step(cfg, s, x, depth);
    reveal(spec_step);
}

/// What may come where a value is expected.
proof fn lemma_value_byte(cfg: Cfg, s: TokView, x: Seq<u8>, depth: int)
    requires
        plain(cfg),
        s.state == State::ExpectValue,
        run_ok(cfg, s, x, depth),
        x.len() > 0,
        !is_ws(x[0]),
    ensures
        x[0] == 34 || x[0] == 123 || x[0] == 91 || x[0] == 116 || x[0] == 102 || x[0] == 110
            || x[0] == 45 || is_digit(x[0]) || (x[0] == 93 && s.stack.len() > 0 && s.stack.last()
            == Context::Array && !s.after_comma),
{
    lemma_first_step(cfg, s, x, depth);
    reveal(spec_step);
}

/// What may come where a key is expected.
proof fn lemma_key_byte(cfg: Cfg, s: TokView, x: Seq<u8>, depth: int)
    requires
        plain(cfg),
        s.state == State::ExpectKey,
        run_ok(cfg, s, x, depth),
        x.len() > 0,
        !is_ws(x[0]),
    ensures
        x[0] == 34 || (x[0] == 125 && s.stack.len() > 0 && s.stack.last() == Context::Object
            && !s.after_comma),
{
    lemma_first_step(cfg, s, x, depth);
    reveal(spec_step);
}

/// What may come after a key.
proof fn lemma_colon_byte(cfg: Cfg, s: TokView, x: Seq<u8>, depth: int)
    requires
        plain(cfg),
        s.state == State::ExpectColon,
        run_ok(cfg, s, x, depth),
        x.len() > 0,
        !is_ws(x[0]),
    ensures
        x[0] == 58,
{
    lemma_first_step(cfg, s, x, depth);
    reveal(spec_step);
}

/// An array or object that the tokenizer reads through, from its opening bracket or brace.
#[verifier::rlimit(50)]
proof fn lemma_container_sound(cfg: Cfg, s: TokView, x: Seq<u8>, depth: int) -> (n: int)
    requires
        plain(cfg),
        s.state == State::ExpectValue,
        run_ok(cfg, s, x, depth),
        depth <= s.stack.len(),
        x.len() > 0,
        x[0] == 123 || x[0] == 91,
    ensures
        0 < n <= x.len(),
        json_value(x.subrange(0, n)),
        leads(cfg, s, x, n, after_value(s)),
    decreases x.len(), 0nat,
{
    let b = x[0];
    let object = b == 123;
    lemma_open_leads(cfg, s, x, object);
    let s1 = opened(s, object);
    let x1 = x.subrange(1, x.len() as int);
    lemma_ok_after(cfg, s, x, 1, s1, depth);
    lemma_skip_ws(cfg, s1, x1, depth);
    let a = ws_end(x1, 0);
    let close: u8 = if object { 125u8 } else { 93u8 };
    if a == x1.len() {
        lemma_ok_after(cfg, s1, x1, a, s1, depth);
        lemma_ok_empty(cfg, s1, x1.subrange(a, x1.len() as int), depth);
        assert(false);
    }
    let x2 = x1.subrange(a, x1.len() as int);
    assert(x2[0] == x1[a]);
    let m: int;
    let s2: TokView;
    if x1[a] == close {
        m = a;
        s2 = s1;
    } else {
        if object {
            lemma_key_byte(cfg, s1, x2, depth);
            m = lemma_members_sound(cfg, s1, x1, depth);
        } else {
            lemma_value_byte(cfg, s1, x2, depth);
            m = lemma_elements_sound(cfg, s1, x1, depth);
        }
        s2 = after_value(s1);
    }
    assert(x1[m] == close);
    let x3 = x1.subrange(m, x1.len() as int);
    assert(x3[0] == close);
    lemma_close_leads(cfg, s2, x3, object);
    assert(x1.subrange(m, x1.len() as int) =~= x.subrange(1 + m, x.len() as int));
    lemma_leads_trans(cfg, s, x, 1, s1, m, s2);
    assert(s.stack.push(if object { Context::Object } else { Context::Array }).drop_last() =~= s.stack);
    assert(after_close(s2) == after_value(s));
    lemma_leads_trans(cfg, s, x, 1 + m, s2, 1, after_value(s));
    let n = m + 2;
    let t = x.subrange(0, n);
    assert(inner(t) =~= x1.subrange(0, m));
    if x1[a] == close {
        assert(all_ws(inner(t))) by {
            assert(x1.subrange(0, m) =~= x1.subrange(0, ws_end(x1, 0)));
        }
    }
    assert(t[0] == b && t[t.len() - 1] == close);
    n
}

/// A literal name, number or string that the tokenizer reads where a value is expected.
#[verifier::rlimit(50)]
proof fn lemma_scalar_sound(cfg: Cfg, s: TokView, x: Seq<u8>, depth: int) -> (n: int)
    requires
        plain(cfg),
        s.state == State::ExpectValue,
        run_ok(cfg, s, x, depth),
        x.len() > 0,
        x[0] == 34 || x[0] == 116 || x[0] == 102 || x[0] == 110 || x[0] == 45 || is_digit(x[0]),
    ensures
        0 < n <= x.len(),
        json_value(x.subrange(0, n)),
        leads(cfg, s, x, n, after_value(s)),
{
    lemma_first_step(cfg, s, x, depth);
    let b = x[0];
    reveal(spec_step);
    let n = spec_step(cfg, s, x)->n as int;
    lemma_leads_step(cfg, s, x);
    lemma_leads_shift(cfg, s, x, n, spec_step(cfg, s, x)->next, after_value(s));
    let t = x.subrange(0, n);
    if b == 34 {
        let c = x.subrange(1, x.len() as int);
        law_string_syntax(c, false, cfg.max_string);
        assert(inner(t) =~= c.subrange(0, n - 2));
        assert(json_string(t));
    } else if b == 116 || b == 102 || b == 110 {
        let rem = literal_rest(b);
        assert(t =~= seq![b] + rem);
        if b == 116 {
            assert(t =~= seq![116u8, 114u8, 117u8, 101u8]);
        } else if b == 102 {
            assert(t =~= seq![102u8, 97u8, 108u8, 115u8, 101u8]);
        } else {
            assert(t =~= seq![110u8, 117u8, 108u8, 108u8]);
        }
        assert(json_literal(t));
    } else {
        law_number_scanned_syntax(x, cfg.max_number);
        assert(json_number(t));
    }
    n
}

/// A token that the tokenizer reads where a value is expected, and after which it goes on, is
/// the start of a value: the value it begins is a JSON value, the tokenizer passes over it to
/// the state after a value, and a byte that may follow a value comes after it.
proof fn lemma_value_sound(cfg: Cfg, s: TokView, x: Seq<u8>, depth: int) -> (n: int)
    requires
        plain(cfg),
        s.state == State::ExpectValue,
        run_ok(cfg, s, x, depth),
        depth <= s.stack.len(),
        x.len() > 0,
        !is_ws(x[0]),
        x[0] != 93,
    ensures
        0 < n <= x.len(),
        json_value(x.subrange(0, n)),
        leads(cfg, s, x, n, after_value(s)),
        delim(x.subrange(n, x.len() as int)),
    decreases x.len(), 1nat,
{
    lemma_value_byte(cfg, s, x, depth);
    let n = if x[0] == 123 || x[0] == 91 {
        lemma_container_sound(cfg, s, x, depth)
    } else {
        lemma_scalar_sound(cfg, s, x, depth)
    };
    lemma_ok_after(cfg, s, x, n, after_value(s), depth);
    let rest = x.subrange(n, x.len() as int);
    if rest.len() > 0 && !is_ws(rest[0]) {
        lemma_after_value_byte(cfg, after_value(s), rest, depth);
    }
    n
}

/// A padded value where the first byte that is not whitespace is not a closing bracket.
proof fn lemma_padded_sound(cfg: Cfg, s: TokView, x: Seq<u8>, depth: int) -> (n: int)
    requires
        plain(cfg),
        s.state == State::ExpectValue,
        run_ok(cfg, s, x, depth),
        depth <= s.stack.len(),
        ws_end(x, 0) < x.len(),
        x[ws_end(x, 0)] != 93,
    ensures
        0 < n <= x.len(),
        json_padded(x.subrange(0, n)),
        leads(cfg, s, x, n, after_value(s)),
        n == x.len() || x[n] == 44 || x[n] == 93 || x[n] == 125,
    decreases x.len(), 2nat,
{
    lemma_skip_ws(cfg, s, x, depth);
    let a = ws_end(x, 0);
    let x1 = x.subrange(a, x.len() as int);
    assert(x1[0] == x[a]);
    let v = lemma_value_sound(cfg, s, x1, depth);
    lemma_leads_trans(cfg, s, x, a, s, v, after_value(s));
    let sv = after_value(s);
    lemma_ok_after(cfg, s, x, a + v, sv, depth);
    let x2 = x.subrange(a + v, x.len() as int);
    lemma_skip_ws(cfg, sv, x2, depth);
    let b2 = ws_end(x2, 0);
    lemma_leads_trans(cfg, s, x, a + v, sv, b2, sv);
    let n = a + v + b2;
    if n < x.len() {
        let x3 = x.subrange(n, x.len() as int);
        assert(x2.subrange(b2, x2.len() as int) =~= x3);
        assert(x3[0] == x[n]);
        lemma_ok_after(cfg, s, x, n, sv, depth);
        lemma_after_value_byte(cfg, sv, x3, depth);
    }
    let t = x.subrange(0, n);
    assert(t.subrange(0, a) =~= x.subrange(0, a));
    assert(t.subrange(a, a + v) =~= x1.subrange(0, v));
    assert(t.subrange(a + v, n) =~= x2.subrange(0, b2));
    assert(json_value(t.subrange(a, a + v)));
    n
}

/// The elements of an array, up to its closing bracket.
proof fn lemma_elements_sound(cfg: Cfg, s: TokView, x: Seq<u8>, depth: int) -> (m: int)
    requires
        plain(cfg),
        s.state == State::ExpectValue,
        s.stack.len() > 0,
        s.stack.last() == Context::Array,
        run_ok(cfg, s, x, depth),
        depth < s.stack.len(),
        ws_end(x, 0) < x.len(),
        x[ws_end(x, 0)] != 93,
    ensures
        0 < m < x.len(),
        x[m] == 93,
        json_elements(x.subrange(0, m)),
        leads(cfg, s, x, m, after_value(s)),
    decreases x.len(), 3nat,
{
    let n = lemma_padded_sound(cfg, s, x, depth);
    let sv = after_value(s);
    lemma_ok_after(cfg, s, x, n, sv, depth);
    if n == x.len() {
        lemma_ok_empty(cfg, sv, x.subrange(n, x.len() as int), depth);
        assert(false);
    }
    let x3 = x.subrange(n, x.len() as int);
    assert(x3[0] == x[n]);
    lemma_after_value_byte(cfg, sv, x3, depth);
    if x[n] == 93 {
        n
    } else {
        assert(x[n] == 44);
        lemma_comma_leads(cfg, sv, x3);
        let s2 = after_comma_state(sv);
        lemma_leads_trans(cfg, s, x, n, sv, 1, s2);
        lemma_ok_after(cfg, s, x, n + 1, s2, depth);
        let x4 = x.subrange(n + 1, x.len() as int);
        lemma_skip_ws(cfg, s2, x4, depth);
        let a4 = ws_end(x4, 0);
        if a4 == x4.len() {
            lemma_ok_after(cfg, s2, x4, a4, s2, depth);
            lemma_ok_empty(cfg, s2, x4.subrange(a4, x4.len() as int), depth);
            assert(false);
        }
        let x5 = x4.subrange(a4, x4.len() as int);
        assert(x5[0] == x4[a4]);
        lemma_value_byte(cfg, s2, x5, depth);
        let m2 = lemma_elements_sound(cfg, s2, x4, depth);
        assert(after_value(s2) == after_value(s));
        lemma_leads_trans(cfg, s, x, n + 1, s2, m2, after_value(s));
        let m = n + 1 + m2;
        let t = x.subrange(0, m);
        assert(t.subrange(0, n) =~= x.subrange(0, n));
        assert(t.subrange(n + 1, m) =~= x4.subrange(0, m2));
        assert(t[n] == 44);
        assert(json_elements(t.subrange(n + 1, t.len() as int)));
        m
    }
}

/// The key of a member and the colon after it.
#[verifier::rlimit(50)]
proof fn lemma_key_colon(cfg: Cfg, s: TokView, x: Seq<u8>, depth: int) -> (r: (int, int, int))
    requires
        plain(cfg),
        s.state == State::ExpectKey,
        run_ok(cfg, s, x, depth),
        depth < s.stack.len(),
        ws_end(x, 0) < x.len(),
        x[ws_end(x, 0)] == 34,
    ensures
        0 <= r.0 < r.1 <= r.2 < x.len(),
        all_ws(x.subrange(0, r.0)),
        json_string(x.subrange(r.0, r.1)),
        all_ws(x.subrange(r.1, r.2)),
        x[r.2] == 58,
        leads(cfg, s, x, r.2 + 1, after_colon(after_key(s))),
        run_ok(cfg, after_colon(after_key(s)), x.subrange(r.2 + 1, x.len() as int), depth),
{
    lemma_skip_ws(cfg, s, x, depth);
    let a = ws_end(x, 0);
    let x1 = x.subrange(a, x.len() as int);
    assert(x1[0] == 34);
    lemma_ok_after(cfg, s, x, a, s, depth);
    lemma_first_step(cfg, s, x1, depth);
    reveal(spec_step);
    let kl = spec_step(cfg, s, x1)->n as int;
    lemma_leads_step(cfg, s, x1);
    let sk = after_key(s);
    lemma_leads_shift(cfg, s, x1, kl, spec_step(cfg, s, x1)->next, sk);
    let c1 = x1.subrange(1, x1.len() as int);
    law_string_syntax(c1, true, cfg.max_name);
    let key = x1.subrange(0, kl);
    assert(inner(key) =~= c1.subrange(0, kl - 2));
    assert(json_string(key));
    lemma_leads_trans(cfg, s, x, a, s, kl, sk);
    let b = a + kl;
    assert(x.subrange(a, b) =~= key);
    lemma_ok_after(cfg, s, x, b, sk, depth);
    let x2 = x.subrange(b, x.len() as int);
    lemma_skip_ws(cfg, sk, x2, depth);
    let w2 = ws_end(x2, 0);
    lemma_leads_trans(cfg, s, x, b, sk, w2, sk);
    let c = b + w2;
    assert(x.subrange(b, c) =~= x2.subrange(0, w2));
    lemma_ok_after(cfg, s, x, c, sk, depth);
    let x3 = x.subrange(c, x.len() as int);
    if x3.len() == 0 {
        lemma_ok_empty(cfg, sk, x3, depth);
        assert(false);
    }
    assert(x2.subrange(w2, x2.len() as int) =~= x3);
    lemma_colon_byte(cfg, sk, x3, depth);
    lemma_colon_leads(cfg, sk, x3);
    let sc = after_colon(sk);
    lemma_leads_trans(cfg, s, x, c, sk, 1, sc);
    lemma_ok_after(cfg, s, x, c + 1, sc, depth);
    (a, b, c)
}

/// One member of an object, up to the comma or closing brace after it.
#[verifier::rlimit(50)]
proof fn lemma_member_sound(cfg: Cfg, s: TokView, x: Seq<u8>, depth: int) -> (n: int)
    requires
        plain(cfg),
        s.state == State::ExpectKey,
        s.stack.len() > 0,
        s.stack.last() == Context::Object,
        run_ok(cfg, s, x, depth),
        depth < s.stack.len(),
        ws_end(x, 0) < x.len(),
        x[ws_end(x, 0)] == 34,
    ensures
        0 < n < x.len(),
        x[n] == 44 || x[n] == 125,
        json_member(x.subrange(0, n)),
        leads(cfg, s, x, n, after_value(s)),
    decreases x.len(), 3nat,
{
    let (a, b, c) = lemma_key_colon(cfg, s, x, depth);
    let sc = after_colon(after_key(s));
    let x4 = x.subrange(c + 1, x.len() as int);
    lemma_skip_ws(cfg, sc, x4, depth);
    let a4 = ws_end(x4, 0);
    if a4 == x4.len() {
        lemma_ok_after(cfg, sc, x4, a4, sc, depth);
        lemma_ok_empty(cfg, sc, x4.subrange(a4, x4.len() as int), depth);
        assert(false);
    }
    let x5 = x4.subrange(a4, x4.len() as int);
    assert(x5[0] == x4[a4]);
    lemma_ok_after(cfg, sc, x4, a4, sc, depth);
    lemma_value_byte(cfg, sc, x5, depth);
    let p = lemma_padded_sound(cfg, sc, x4, depth);
    assert(after_value(sc) == after_value(s));
    lemma_leads_trans(cfg, s, x, c + 1, sc, p, after_value(s));
    let n = c + 1 + p;
    lemma_ok_after(cfg, s, x, n, after_value(s), depth);
    if n == x.len() {
        lemma_ok_empty(cfg, after_value(s), x.subrange(n, x.len() as int), depth);
        assert(false);
    }
    let x6 = x.subrange(n, x.len() as int);
    assert(x6[0] == x[n]);
    lemma_after_value_byte(cfg, after_value(s), x6, depth);
    let t = x.subrange(0, n);
    assert(t.subrange(0, a) =~= x.subrange(0, a));
    assert(t.subrange(a, b) =~= x.subrange(a, b));
    assert(t.subrange(b, c) =~= x.subrange(b, c));
    assert(t[c] == 58);
    assert(t.subrange(c + 1, t.len() as int) =~= x4.subrange(0, p));
    assert(json_member(t));
    n
}

/// The members of an object, up to its closing brace.
proof fn lemma_members_sound(cfg: Cfg, s: TokView, x: Seq<u8>, depth: int) -> (m: int)
    requires
        plain(cfg),
        s.state == State::ExpectKey,
        s.stack.len() > 0,
        s.stack.last() == Context::Object,
        run_ok(cfg, s, x, depth),
        depth < s.stack.len(),
        ws_end(x, 0) < x.len(),
        x[ws_end(x, 0)] == 34,
    ensures
        0 < m < x.len(),
        x[m] == 125,
        json_members(x.subrange(0, m)),
        leads(cfg, s, x, m, after_value(s)),
    decreases x.len(), 4nat,
{
    let n = lemma_member_sound(cfg, s, x, depth);
    let sv = after_value(s);
    if x[n] == 125 {
        n
    } else {
        let x3 = x.subrange(n, x.len() as int);
        assert(x3[0] == 44);
        lemma_comma_leads(cfg, sv, x3);
        let s2 = after_comma_state(sv);
        lemma_leads_trans(cfg, s, x, n, sv, 1, s2);
        lemma_ok_after(cfg, s, x, n + 1, s2, depth);
        let x4 = x.subrange(n + 1, x.len() as int);
        lemma_skip_ws(cfg, s2, x4, depth);
        let a4 = ws_end(x4, 0);
        if a4 == x4.len() {
            lemma_ok_after(cfg, s2, x4, a4, s2, depth);
            lemma_ok_empty(cfg, s2, x4.subrange(a4, x4.len() as int), depth);
            assert(false);
        }
        let x5 = x4.subrange(a4, x4.len() as int);
        assert(x5[0] == x4[a4]);
        lemma_key_byte(cfg, s2, x5, depth);
        let m2 = lemma_members_sound(cfg, s2, x4, depth);
        assert(after_value(s2) == after_value(s));
        lemma_leads_trans(cfg, s, x, n + 1, s2, m2, after_value(s));
        let m = n + 1 + m2;
        let t = x.subrange(0, m);
        assert(t.subrange(0, n) =~= x.subrange(0, n));
        assert(t.subrange(n + 1, m) =~= x4.subrange(0, m2));
        assert(t[n] == 44);
        assert(json_members(t.subrange(n + 1, t.len() as int)));
        m
    }
}

/// The tokenizer accepts `t` from the start of a document: it runs over all of it without a
/// fault and ends having seen a value, with no container left open.
pub open spec fn accepted(cfg: Cfg, t: Seq<u8>) -> bool {
    let r = spec_run(cfg, initial_view(), t);
    &&& r.fault is None
    &&& r.consumed == t.len()
    &&& r.end.seen_any
    &&& r.end.stack.len() == 0
}

/// Acceptance is exactly the JSON texts of RFC 8259: with the end of the input signaled, no
/// limit set, whitespace not reported and repeated keys allowed, the tokenizer accepts the
/// bytes `t` exactly when they are one value with optional whitespace around it.
pub proof fn law_accepts_exactly_json_texts(cfg: Cfg, t: Seq<u8>)
    requires
        plain(cfg),
    ensures
        accepted(cfg, t) == json_text(t),
{
    if json_text(t) {
        law_json_text_accepted(cfg, t);
    }
    if accepted(cfg, t) {
        let s = initial_view();
        assert(run_ok(cfg, s, t, 0));
        lemma_skip_ws(cfg, s, t, 0);
        let a = ws_end(t, 0);
        if a == t.len() {
            lemma_run_empty(cfg, s);
            assert(t.subrange(a, t.len() as int) =~= Seq::<u8>::empty());
            assert(false);
        }
        let x1 = t.subrange(a, t.len() as int);
        assert(x1[0] == t[a]);
        lemma_ok_after(cfg, s, t, a, s, 0);
        lemma_value_byte(cfg, s, x1, 0);
        let n = lemma_padded_sound(cfg, s, t, 0);
        if n < t.len() {
            lemma_ok_after(cfg, s, t, n, after_value(s), 0);
            let x2 = t.subrange(n, t.len() as int);
            assert(x2[0] == t[n]);
            lemma_after_value_byte(cfg, after_value(s), x2, 0);
            assert(false);
        }
        assert(t.subrange(0, n) =~= t);
    }
}

/// A `\u` escape that is read without more input is read the same way at the end of the input.
proof fn lemma_hex_closing(c: Seq<u8>, p: int, left: nat, acc: u32)
    requires
        !(scan_hex(c, false, p, left, acc) is NeedMore),
    ensures
        scan_hex(c, true, p, left, acc) == scan_hex(c, false, p, left, acc),
    decreases left,
{
    if left > 0 && p < c.len() {
        if let Some(dg) = crate::grammar::hex_value(c[p]) {
            lemma_hex_closing(c, p + 1, (left - 1) as nat, ((acc * 16) + dg) as u32);
        }
    }
}

proof fn lemma_escape_closing(c: Seq<u8>, j: int)
    requires
        !(scan_escape(c, false, j) is NeedMore),
    ensures
        scan_escape(c, true, j) == scan_escape(c, false, j),
{
    if j < c.len() && c[j] == 117 {
        lemma_hex_closing(c, j + 1, 4, 0);
    }
}

proof fn lemma_from_closing(
    c: Seq<u8>,
    is_key: bool,
    limit: i32,
    i: int,
    esc: bool,
    span: int,
    units: Seq<u16>,
    cols: nat,
)
    requires
        !(scan_from(c, false, is_key, limit, i, esc, span, units, cols) is NeedMore),
    ensures
        scan_from(c, true, is_key, limit, i, esc, span, units, cols) == scan_from(
            c,
            false,
            is_key,
            limit,
            i,
            esc,
            span,
            units,
            cols,
        ),
    decreases c.len() - i,
{
    if 0 <= i < c.len() {
        let b = c[i];
        if b == 92 {
            if !(scan_escape(c, false, i + 1) is NeedMore) {
                lemma_escape_closing(c, i + 1);
            }
            let span0 = if esc { span } else { 0int };
            let units0 = if esc { units } else { Seq::<u16>::empty() };
            let head = if i > span0 {
                crate::text::spec_decode(c.subrange(span0, i))
            } else {
                Some(Seq::<char>::empty())
            };
            if let Some(h) = head {
                if let EscScan::Unit { unit, end } = scan_escape(c, false, i + 1) {
                    if i < end <= c.len() {
                        let units1 = units0 + crate::text::utf16_of(h);
                        let cols1 = cols + crate::text::utf16_of(h).len();
                        lemma_from_closing(c, is_key, limit, end, true, end, units1.push(unit), (cols1 + (end - i)) as nat);
                    }
                }
            }
        } else if b != 34 && b >= 32 {
            lemma_from_closing(c, is_key, limit, i + 1, esc, span, units, cols);
        }
    }
}

proof fn lemma_exponent_closing(d: Seq<u8>, ml: i32, neg: bool, ie: int, hf: bool, fs: int, p: int)
    requires
        !(scan_exponent(d, false, ml, neg, ie, hf, fs, p) is NeedMore),
    ensures
        scan_exponent(d, true, ml, neg, ie, hf, fs, p) == scan_exponent(d, false, ml, neg, ie, hf, fs, p),
{
}

proof fn lemma_fraction_closing(d: Seq<u8>, ml: i32, neg: bool, p: int)
    requires
        !(scan_fraction(d, false, ml, neg, p) is NeedMore),
    ensures
        scan_fraction(d, true, ml, neg, p) == scan_fraction(d, false, ml, neg, p),
{
    if p < d.len() && d[p] == 46 && p + 1 < d.len() && is_digit(d[p + 1]) {
        let q = crate::grammar::digit_end(d, p + 2);
        if !(q == d.len()) {
            lemma_exponent_closing(d, ml, neg, p, true, p + 1, q);
        }
    } else if !(p < d.len() && d[p] == 46) && !(p >= d.len()) {
        lemma_exponent_closing(d, ml, neg, p, false, p, p);
    }
}

pub(crate) proof fn lemma_number_closing(d: Seq<u8>, ml: i32)
    requires
        d.len() > 0,
        !(scan_number(d, false, ml) is NeedMore),
    ensures
        scan_number(d, true, ml) == scan_number(d, false, ml),
{
    let neg = d[0] == 45;
    let p0: int = if neg { 1 } else { 0 };
    if !(neg && d.len() < 2) {
        let c = d[p0];
        if c == 48 {
            if p0 + 1 < d.len() && !is_digit(d[p0 + 1]) {
                lemma_fraction_closing(d, ml, neg, p0 + 1);
            }
        } else if 49 <= c <= 57 {
            let q = crate::grammar::digit_end(d, p0 + 1);
            if q != d.len() {
                lemma_fraction_closing(d, ml, neg, q);
            }
        }
    }
}

/// A token that is read without more input is read the same way at the end of the input.
proof fn lemma_step_closing(cfg: Cfg, s: TokView, x: Seq<u8>)
    requires
        !cfg.closed,
        !(spec_step(cfg, s, x) is NeedMore),
    ensures
        spec_step(closing(cfg), s, x) == spec_step(cfg, s, x),
{
    reveal(spec_step);
    if x.len() > 0 {
        let b = x[0];
        if b == 34 && !(s.state == State::ExpectColon || s.state == State::AfterValue) {
            let is_key = s.state == State::ExpectKey;
            let limit = if is_key { cfg.max_name } else { cfg.max_string };
            lemma_from_closing(x.subrange(1, x.len() as int), is_key, limit, 0, false, 0, seq![], 0);
        } else if (b == 45 || is_digit(b)) && s.state == State::ExpectValue {
            lemma_number_closing(x, cfg.max_number);
        }
    }
}

/// Receiving input and then signaling its end: the run over the input, then the run at the end
/// over what it left, together make the run over the input with its end signaled.
proof fn lemma_run_closing(cfg: Cfg, s: TokView, x: Seq<u8>)
    requires
        !cfg.closed,
    ensures
        ({
            let o = spec_run(cfg, s, x);
            let whole = spec_run(closing(cfg), s, x);
            &&& o.fault is Some ==> whole.fault == o.fault
            &&& o.fault is None ==> {
                let c = spec_run(closing(cfg), o.end, x.subrange(o.consumed as int, x.len() as int));
                &&& whole.fault == c.fault
                &&& whole.consumed == o.consumed + c.consumed
                &&& whole.end == c.end
            }
        }),
    decreases x.len(),
{
    let o = spec_run(cfg, s, x);
    let st = spec_step(cfg, s, x);
    if st is NeedMore {
        assert(x.subrange(0, x.len() as int) =~= x);
    } else {
        lemma_step_closing(cfg, s, x);
        if let Step::Advance { n, event, next } = st {
            if 0 < n <= x.len() {
                let rest = x.subrange(n as int, x.len() as int);
                lemma_run_closing(cfg, next, rest);
                lemma_run_consumed(cfg, next, rest);
                let r1 = spec_run(cfg, next, rest);
                assert(x.subrange(o.consumed as int, x.len() as int) =~= rest.subrange(
                    r1.consumed as int,
                    rest.len() as int,
                ));
            } else {
                assert(x.subrange(0, x.len() as int) =~= x);
            }
        }
    }
}

/// The parser's verdict on input received in one piece and then closed, from the start of a
/// document: the run over it has no fault, and the end checks of `close` pass on what is left.
pub open spec fn accepted_in_two(cfg: Cfg, t: Seq<u8>) -> bool {
    let o = spec_run(cfg, initial_view(), t);
    let rest = t.subrange(o.consumed as int, t.len() as int);
    &&& o.fault is None
    &&& close_outcome(spec_run(closing(cfg), o.end, rest), rest.len()) is None
}

/// Receiving a document in one piece and closing accepts exactly the JSON texts (with no limit
/// set, whitespace not reported and repeated keys allowed).
pub proof fn law_receive_close_accepts_json_texts(cfg: Cfg, t: Seq<u8>)
    requires
        !cfg.closed,
        plain(closing(cfg)),
    ensures
        accepted_in_two(cfg, t) == json_text(t),
{
    lemma_run_closing(cfg, initial_view(), t);
    lemma_run_consumed(cfg, initial_view(), t);
    let o = spec_run(cfg, initial_view(), t);
    let rest = t.subrange(o.consumed as int, t.len() as int);
    lemma_run_consumed(closing(cfg), o.end, rest);
    law_accepts_exactly_json_texts(closing(cfg), t);
}

/// A JSON text, optionally after a UTF-8 byte order mark (EF BB BF).
pub open spec fn json_document(d: Seq<u8>) -> bool {
    ||| json_text(d)
    ||| (d.len() >= 3 && d[0] == 0xEF && d[1] == 0xBB && d[2] == 0xBF && json_text(d.subrange(3, d.len() as int)))
}

/// The parser's verdict on a document received in one piece and then closed: the byte order
/// mark check, then the run over what follows the mark and the end checks of `close`.
pub open spec fn document_accepted(cfg: Cfg, d: Seq<u8>) -> bool {
    match spec_bom(d) {
        Bom::Skip(k) => k <= d.len() && accepted_in_two(cfg, d.subrange(k as int, d.len() as int)),
        _ => false,
    }
}

/// A JSON text starts with whitespace or with the first byte of a value.
proof fn lemma_text_first(t: Seq<u8>)
    requires
        json_text(t),
    ensures
        t.len() > 0,
        is_ws(t[0]) || t[0] == 34 || t[0] == 123 || t[0] == 91 || t[0] == 116 || t[0] == 102
            || t[0] == 110 || t[0] == 45 || is_digit(t[0]),
{
    let (a, b) = choose|a: int, b: int|
        #![trigger t.subrange(a, b)]
        0 <= a < b <= t.len() && all_ws(t.subrange(0, a)) && json_value(t.subrange(a, b)) && all_ws(
            t.subrange(b, t.len() as int),
        );
    if a > 0 {
        assert(is_ws(t.subrange(0, a)[0]));
    } else {
        let v = t.subrange(a, b);
        assert(v[0] == t[0]);
        if json_number(v) {
            let (b1, c1) = choose|b1: int, c1: int| number_parts(v, b1, c1);
            if v[0] != 45 {
                assert(int_start(v) == 0);
            }
        }
    }
}

/// The documents the parser accepts, received in one piece and then closed, are exactly the JSON
/// texts, each optionally after a UTF-8 byte order mark (with no limit set, whitespace not
/// reported and repeated keys allowed).
pub proof fn law_documents_accepted(cfg: Cfg, d: Seq<u8>)
    requires
        !cfg.closed,
        plain(closing(cfg)),
    ensures
        document_accepted(cfg, d) == json_document(d),
{
    if json_text(d) {
        lemma_text_first(d);
    }
    if d.len() >= 3 && d[0] == 0xEF && d[1] == 0xBB && d[2] == 0xBF {
        law_receive_close_accepts_json_texts(cfg, d.subrange(3, d.len() as int));
    }
    match spec_bom(d) {
        Bom::Skip(k) => {
            if k == 0 {
                assert(d.subrange(0, d.len() as int) =~= d);
                law_receive_close_accepts_json_texts(cfg, d);
            }
        },
        _ => {},
    }
}

} // verus!
