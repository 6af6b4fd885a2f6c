//! Streaming: a token recognized on part of the input is recognized the same way on more
//! input, and feeding a document in pieces gives the same content as feeding it whole.

use vstd::prelude::*;
use crate::grammar::{
    compose_number, digit_end, is_digit, is_ws, literal_rest, opt_seq, scan_escape, scan_exponent,
    scan_fraction, scan_from, scan_hex, scan_number, spec_run, spec_step, ws_end, ws_position, Cfg,
    EscScan, EventKindView, EventView, Run, State, Step, TokView,
};
use crate::tokenizer::{lemma_digit_end, lemma_ws_end_bounds};

verus! {

/// Appending bytes does not change a span of the original bytes.
proof fn lemma_sub_prefix(d: Seq<u8>, e: Seq<u8>, i: int, j: int)
    requires
        0 <= i <= j <= d.len(),
    ensures
        (d + e).subrange(i, j) == d.subrange(i, j),
{
    assert((d + e).subrange(i, j) =~= d.subrange(i, j));
}

proof fn lemma_digit_end_extend(d: Seq<u8>, e: Seq<u8>, i: int)
    requires
        0 <= i,
        digit_end(d, i) < d.len(),
    ensures
        digit_end(d + e, i) == digit_end(d, i),
    decreases d.len() - i,
{
    if i < d.len() && is_digit(d[i]) {
        lemma_digit_end_extend(d, e, i + 1);
    }
}

proof fn lemma_ws_end_extend(d: Seq<u8>, e: Seq<u8>, i: int)
    requires
        0 <= i,
        ws_end(d, i) < d.len(),
    ensures
        ws_end(d + e, i) == ws_end(d, i),
    decreases d.len() - i,
{
    if i < d.len() && is_ws(d[i]) {
        lemma_ws_end_extend(d, e, i + 1);
    }
}

proof fn lemma_scan_hex_extend(c: Seq<u8>, e: Seq<u8>, p: int, left: nat, acc: u32)
    requires
        0 <= p,
        !(scan_hex(c, false, p, left, acc) is NeedMore),
    ensures
        scan_hex(c + e, false, p, left, acc) == scan_hex(c, false, p, left, acc),
    decreases left,
{
    if left > 0 && p < c.len() {
        if let Some(dg) = crate::grammar::hex_value(c[p]) {
            lemma_scan_hex_extend(c, e, p + 1, (left - 1) as nat, ((acc * 16) + dg) as u32);
        }
    }
}

proof fn lemma_scan_escape_extend(c: Seq<u8>, e: Seq<u8>, j: int)
    requires
        0 <= j,
        !(scan_escape(c, false, j) is NeedMore),
    ensures
        scan_escape(c + e, false, j) == scan_escape(c, false, j),
{
    if j < c.len() && c[j] == 117 {
        lemma_scan_hex_extend(c, e, j + 1, 4, 0);
    }
}

proof fn lemma_scan_from_extend(
    c: Seq<u8>,
    e: Seq<u8>,
    is_key: bool,
    limit: i32,
    i: int,
    esc: bool,
    span: int,
    units: Seq<u16>,
    cols: nat,
)
    requires
        0 <= span,
        !(scan_from(c, false, is_key, limit, i, esc, span, units, cols) is NeedMore),
    ensures
        scan_from(c + e, false, is_key, limit, i, esc, span, units, cols) == scan_from(
            c,
            false,
            is_key,
            limit,
            i,
            esc,
            span,
            units,
            cols,
        ),
    decreases c.len() - i,
{
    if 0 <= i < c.len() {
        let b = c[i];
        if b == 34 {
            lemma_sub_prefix(c, e, 0, i);
            if esc && i > span {
                lemma_sub_prefix(c, e, span, i);
            }
        } else if b == 92 {
            let span0 = if esc {
                span
            } else {
                0
            };
            if i > span0 {
                lemma_sub_prefix(c, e, span0, i);
            }
            let units0 = if esc {
                units
            } else {
                Seq::<u16>::empty()
            };
            let head = if i > span0 {
                crate::text::spec_decode(c.subrange(span0, i))
            } else {
                Some(Seq::<char>::empty())
            };
            if let Some(h) = head {
                lemma_scan_escape_extend(c, e, i + 1);
                match scan_escape(c, false, i + 1) {
                    EscScan::Unit { unit, end } => {
                        if i < end <= c.len() {
                            let units1 = units0 + crate::text::utf16_of(h);
                            let cols1 = cols + crate::text::utf16_of(h).len();
                            lemma_scan_from_extend(
                                c,
                                e,
                                is_key,
                                limit,
                                end,
                                true,
                                end,
                                units1.push(unit),
                                (cols1 + (end - i)) as nat,
                            );
                        }
                    },
                    _ => {},
                }
            }
        } else if b >= 32 {
            lemma_scan_from_extend(c, e, is_key, limit, i + 1, esc, span, units, cols);
        }
    }
}

proof fn lemma_compose_extend(
    d: Seq<u8>,
    e: Seq<u8>,
    end: int,
    neg: bool,
    int_start: int,
    int_end: int,
    has_frac: bool,
    frac_start: int,
    frac_end: int,
    has_exp: bool,
    exp_neg: bool,
    exp_start: int,
)
    requires
        0 <= int_start <= int_end <= end <= d.len(),
        has_frac ==> 0 <= frac_start <= frac_end <= end,
        has_exp ==> 0 <= exp_start <= end,
    ensures
        compose_number(d + e, end, neg, int_start, int_end, has_frac, frac_start, frac_end, has_exp, exp_neg, exp_start)
            == compose_number(d, end, neg, int_start, int_end, has_frac, frac_start, frac_end, has_exp, exp_neg, exp_start),
{
    lemma_sub_prefix(d, e, 0, end);
    lemma_sub_prefix(d, e, int_start, int_end);
    if has_frac {
        lemma_sub_prefix(d, e, frac_start, frac_end);
    }
    if has_exp {
        lemma_sub_prefix(d, e, exp_start, end);
    }
}

proof fn lemma_scan_exponent_extend(
    d: Seq<u8>,
    e: Seq<u8>,
    max_len: i32,
    neg: bool,
    int_end: int,
    has_frac: bool,
    frac_start: int,
    p: int,
)
    requires
        (if neg { 1int } else { 0int }) <= int_end <= p,
        has_frac ==> 0 <= frac_start <= p,
        !(scan_exponent(d, false, max_len, neg, int_end, has_frac, frac_start, p) is NeedMore),
    ensures
        scan_exponent(d + e, false, max_len, neg, int_end, has_frac, frac_start, p)
            == scan_exponent(d, false, max_len, neg, int_end, has_frac, frac_start, p),
{
    let int_start = if neg {
        1int
    } else {
        0int
    };
    if p < d.len() && (d[p] == 101 || d[p] == 69) {
        if p + 1 < d.len() {
            let signed = d[p + 1] == 43 || d[p + 1] == 45;
            let first = if signed {
                p + 2
            } else {
                p + 1
            };
            if first < d.len() && is_digit(d[first]) {
                lemma_digit_end(d, first + 1);
                let q = digit_end(d, first + 1);
                if q < d.len() {
                    lemma_digit_end_extend(d, e, first + 1);
                    if !(max_len > 0 && q > max_len) {
                        lemma_compose_extend(d, e, q, neg, int_start, int_end, has_frac, frac_start, p, true,
                            signed && d[p + 1] == 45, first);
                    }
                }
            }
        }
    } else if p < d.len() {
        if !(max_len > 0 && p > max_len) {
            lemma_compose_extend(d, e, p, neg, int_start, int_end, has_frac, frac_start, p, false, false, p);
        }
    }
}

proof fn lemma_scan_fraction_extend(d: Seq<u8>, e: Seq<u8>, max_len: i32, neg: bool, p: int)
    requires
        (if neg { 1int } else { 0int }) <= p,
        !(scan_fraction(d, false, max_len, neg, p) is NeedMore),
    ensures
        scan_fraction(d + e, false, max_len, neg, p) == scan_fraction(d, false, max_len, neg, p),
{
    if p < d.len() && d[p] == 46 {
        if p + 1 < d.len() && is_digit(d[p + 1]) {
            lemma_digit_end(d, p + 2);
            let q = digit_end(d, p + 2);
            if q < d.len() {
                lemma_digit_end_extend(d, e, p + 2);
                lemma_scan_exponent_extend(d, e, max_len, neg, p, true, p + 1, q);
            }
        }
    } else if p < d.len() {
        lemma_scan_exponent_extend(d, e, max_len, neg, p, false, p, p);
    }
}

proof fn lemma_scan_number_extend(d: Seq<u8>, e: Seq<u8>, max_len: i32)
    requires
        d.len() > 0,
        !(scan_number(d, false, max_len) is NeedMore),
    ensures
        scan_number(d + e, false, max_len) == scan_number(d, false, max_len),
{
    let neg = d[0] == 45;
    let p0: int = if neg {
        1
    } else {
        0
    };
    if !(neg && d.len() < 2) {
        let c = d[p0];
        if c == 48 {
            if p0 + 1 < d.len() && !is_digit(d[p0 + 1]) {
                lemma_scan_fraction_extend(d, e, max_len, neg, p0 + 1);
            }
        } else if 49 <= c <= 57 {
            lemma_digit_end(d, p0 + 1);
            let q = digit_end(d, p0 + 1);
            if q < d.len() {
                lemma_digit_end_extend(d, e, p0 + 1);
                lemma_scan_fraction_extend(d, e, max_len, neg, q);
            }
        }
    }
}


/// A token that completes or fails on some input completes or fails the same way when more
/// input follows, unless it is a whitespace run that reaches the end of the input.
pub proof fn lemma_step_extend(cfg: Cfg, s: TokView, d: Seq<u8>, e: Seq<u8>)
    requires
        !cfg.closed,
        d.len() > 0,
        !(is_ws(d[0]) && ws_end(d, 1) >= d.len()),
        !(spec_step(cfg, s, d) is NeedMore),
    ensures
        spec_step(cfg, s, d + e) == spec_step(cfg, s, d),
{
    reveal(spec_step);
    let b = d[0];
    assert((d + e)[0] == b);
    if b == 34 {
        let c = d.subrange(1, d.len() as int);
        assert((d + e).subrange(1, (d + e).len() as int) =~= c + e);
        if !(s.state == State::ExpectColon || s.state == State::AfterValue) {
            let is_key = s.state == State::ExpectKey;
            let limit = if is_key {
                cfg.max_name
            } else {
                cfg.max_string
            };
            lemma_scan_from_extend(c, e, is_key, limit, 0, false, 0, seq![], 0);
        }
    } else if b == 44 || b == 58 || b == 123 || b == 125 || b == 91 || b == 93 {
    } else if is_ws(b) {
        lemma_ws_end_bounds(d, 1);
        lemma_ws_end_extend(d, e, 1);
        let w = ws_end(d, 1);
        lemma_sub_prefix(d, e, 0, w);
        lemma_sub_prefix(d, e, 1, w);
    } else if b == 116 || b == 102 || b == 110 {
        let rem = literal_rest(b);
        if d.len() - 1 >= rem.len() {
            lemma_sub_prefix(d, e, 1, 1 + rem.len() as int);
        }
    } else if b == 45 || is_digit(b) {
        if s.state == State::ExpectValue {
            lemma_scan_number_extend(d, e, cfg.max_number);
        }
    }
}

/// The two tokenizer states agree in everything but the position.
pub open spec fn same_but_position(s: TokView, t: TokView) -> bool {
    &&& s.state == t.state
    &&& s.stack == t.stack
    &&& s.after_comma == t.after_comma
    &&& s.seen_any == t.seen_any
    &&& s.tokens == t.tokens
    &&& s.dups == t.dups
}

/// The content of an optional event.
pub open spec fn opt_kind(e: Option<EventView>) -> Option<EventKindView> {
    match e {
        Some(x) => Some(x.kind),
        None => None,
    }
}

/// Two steps that agree in everything but positions.
pub open spec fn steps_agree(x: Step, y: Step) -> bool {
    match (x, y) {
        (Step::NeedMore, Step::NeedMore) => true,
        (Step::Fail { event: e1, fault: f1, after: a1 }, Step::Fail { event: e2, fault: f2, after: a2 }) =>
            f1 == f2 && opt_kind(e1) == opt_kind(e2) && same_but_position(a1, a2),
        (Step::Advance { n: n1, event: e1, next: x1 }, Step::Advance { n: n2, event: e2, next: x2 }) =>
            n1 == n2 && opt_kind(e1) == opt_kind(e2) && same_but_position(x1, x2),
        _ => false,
    }
}

/// The position never decides what a token does.
pub proof fn lemma_step_positions(cfg: Cfg, s: TokView, t: TokView, d: Seq<u8>)
    requires
        same_but_position(s, t),
    ensures
        steps_agree(spec_step(cfg, s, d), spec_step(cfg, t, d)),
{
    reveal(spec_step);
}

/// The run over no bytes recognizes nothing.
pub proof fn lemma_run_empty(cfg: Cfg, s: TokView)
    ensures
        spec_run(cfg, s, Seq::<u8>::empty()) == (Run { events: Seq::empty(), consumed: 0, end: s, fault: None }),
{
    reveal(spec_step);
    assert(spec_run(cfg, s, Seq::<u8>::empty()).events =~= Seq::<EventView>::empty());
}

/// A run consumes at most its input.
pub proof fn lemma_run_consumed(cfg: Cfg, s: TokView, d: Seq<u8>)
    ensures
        spec_run(cfg, s, d).consumed <= d.len(),
    decreases d.len(),
{
    match spec_step(cfg, s, d) {
        Step::Advance { n, event, next } => {
            if 0 < n <= d.len() {
                lemma_run_consumed(cfg, next, d.subrange(n as int, d.len() as int));
            }
        },
        _ => {},
    }
}

/// The kinds of events, without their positions.
pub open spec fn kinds(es: Seq<EventView>) -> Seq<EventKindView> {
    es.map_values(|e: EventView| e.kind)
}

/// The content of a sequence of event kinds: the kinds other than whitespace.
pub open spec fn content(ks: Seq<EventKindView>) -> Seq<EventKindView>
    decreases ks.len(),
{
    if ks.len() == 0 {
        seq![]
    } else if ks.last() is Whitespace {
        content(ks.drop_last())
    } else {
        content(ks.drop_last()).push(ks.last())
    }
}

pub(crate) proof fn lemma_kinds_add(a: Seq<EventView>, b: Seq<EventView>)
    ensures
        kinds(a + b) == kinds(a) + kinds(b),
{
    assert(kinds(a + b) =~= kinds(a) + kinds(b));
}

pub(crate) proof fn lemma_content_add(a: Seq<EventKindView>, b: Seq<EventKindView>)
    ensures
        content(a + b) == content(a) + content(b),
    decreases b.len(),
{
    if b.len() == 0 {
        assert(a + b =~= a);
        assert(content(a) + content(b) =~= content(a));
    } else {
        assert((a + b).drop_last() =~= a + b.drop_last());
        lemma_content_add(a, b.drop_last());
        if !(b.last() is Whitespace) {
            assert((content(a) + content(b.drop_last())).push(b.last()) =~= content(a) + content(
                b.drop_last(),
            ).push(b.last()));
        }
    }
}

/// Events of the same kinds have the same content.
proof fn lemma_kinds_opt(e1: Option<EventView>, e2: Option<EventView>)
    requires
        opt_kind(e1) == opt_kind(e2),
    ensures
        kinds(opt_seq(e1)) == kinds(opt_seq(e2)),
{
    assert(kinds(opt_seq(e1)) =~= kinds(opt_seq(e2)));
}

/// Runs from states that differ only in the position agree in everything but positions.
pub proof fn lemma_run_positions(cfg: Cfg, s: TokView, t: TokView, d: Seq<u8>)
    requires
        same_but_position(s, t),
    ensures
        ({
            let r1 = spec_run(cfg, s, d);
            let r2 = spec_run(cfg, t, d);
            &&& r1.consumed == r2.consumed
            &&& r1.fault == r2.fault
            &&& same_but_position(r1.end, r2.end)
            &&& kinds(r1.events) == kinds(r2.events)
        }),
    decreases d.len(),
{
    lemma_step_positions(cfg, s, t, d);
    match (spec_step(cfg, s, d), spec_step(cfg, t, d)) {
        (Step::Advance { n, event: e1, next: x1 }, Step::Advance { event: e2, next: x2, .. }) => {
            lemma_kinds_opt(e1, e2);
            if 0 < n <= d.len() {
                let rest = d.subrange(n as int, d.len() as int);
                lemma_run_positions(cfg, x1, x2, rest);
                lemma_kinds_add(opt_seq(e1), spec_run(cfg, x1, rest).events);
                lemma_kinds_add(opt_seq(e2), spec_run(cfg, x2, rest).events);
            }
        },
        (Step::Fail { event: e1, .. }, Step::Fail { event: e2, .. }) => {
            lemma_kinds_opt(e1, e2);
        },
        _ => {
            assert(kinds(spec_run(cfg, s, d).events) =~= kinds(spec_run(cfg, t, d).events));
        },
    }
}

/// A whitespace event has no content.
pub(crate) proof fn lemma_content_ws_event(e: Option<EventView>)
    requires
        e matches Some(x) ==> x.kind is Whitespace,
    ensures
        content(kinds(opt_seq(e))) == Seq::<EventKindView>::empty(),
{
    match e {
        Some(x) => {
            let ks = seq![x.kind];
            assert(kinds(opt_seq(e)) =~= ks);
            assert(ks.last() is Whitespace);
            assert(ks.drop_last() =~= Seq::<EventKindView>::empty());
            assert(content(ks.drop_last()) =~= Seq::<EventKindView>::empty());
            assert(content(ks) == content(ks.drop_last()));
        },
        None => {
            assert(kinds(opt_seq(e)) =~= Seq::<EventKindView>::empty());
        },
    }
}

proof fn lemma_ws_end_shift(a: Seq<u8>, b: Seq<u8>, j: int)
    requires
        0 <= j <= b.len(),
    ensures
        ws_end(a + b, a.len() + j) == a.len() + ws_end(b, j),
    decreases b.len() - j,
{
    if j < b.len() {
        assert((a + b)[a.len() + j] == b[j]);
        if is_ws(b[j]) {
            lemma_ws_end_shift(a, b, j + 1);
        }
    }
}

/// A whitespace run that reaches the end of `a` goes on over the leading whitespace of `b`.
proof fn lemma_ws_end_append(a: Seq<u8>, b: Seq<u8>, i: int)
    requires
        0 <= i <= a.len(),
        ws_end(a, i) >= a.len(),
    ensures
        ws_end(a + b, i) == a.len() + ws_end(b, 0),
    decreases a.len() - i,
{
    if i < a.len() {
        assert((a + b)[i] == a[i]);
        lemma_ws_end_append(a, b, i + 1);
    } else {
        lemma_ws_end_shift(a, b, 0);
    }
}

/// Streaming: feeding input to the tokenizer in two pieces gives what feeding it whole gives.
///
/// The bytes that the first piece leaves unconsumed are put in front of the second piece (as
/// `Parser::receive` keeps them for the next call). Then the content of the events (their kinds,
/// whitespace left aside) is the same, and so are the fault, the number of bytes consumed and
/// the state reached, apart from the position. This holds while the end of the input is not
/// signaled and the first piece does not fail.
pub proof fn law_split_input(cfg: Cfg, s: TokView, a: Seq<u8>, b: Seq<u8>)
    requires
        !cfg.closed,
        spec_run(cfg, s, a).fault is None,
    ensures
        spec_run(cfg, s, a).consumed <= a.len(),
        ({
            let first = spec_run(cfg, s, a);
            let second = spec_run(cfg, first.end, a.subrange(first.consumed as int, a.len() as int) + b);
            let whole = spec_run(cfg, s, a + b);
            &&& content(kinds(first.events + second.events)) == content(kinds(whole.events))
            &&& second.fault == whole.fault
            &&& first.consumed + second.consumed == whole.consumed
            &&& same_but_position(second.end, whole.end)
        }),
    decreases a.len(),
{
    lemma_run_consumed(cfg, s, a);
    let first = spec_run(cfg, s, a);
    let whole = spec_run(cfg, s, a + b);
    let step = spec_step(cfg, s, a);
    if step is Advance && 0 < step->n <= a.len() {
        let n = step->n;
        let event = step->Advance_event;
        let next = step->next;
        let rest = a.subrange(n as int, a.len() as int);
        let r1 = spec_run(cfg, next, rest);
        assert(first.events == opt_seq(event) + r1.events);
        if is_ws(a[0]) && ws_end(a, 1) >= a.len() {
            // A whitespace run reaching the end of the first piece.
            reveal(spec_step);
            lemma_ws_end_bounds(a, 1);
            assert(rest =~= Seq::<u8>::empty());
            lemma_run_empty(cfg, next);
            assert(a.subrange(a.len() as int, a.len() as int) + b =~= b);
            let second = spec_run(cfg, next, b);
            assert((a + b)[0] == a[0]);
            lemma_ws_end_append(a, b, 1);
            let k = ws_end(b, 0);
            lemma_ws_end_bounds(b, 0);
            let wstep = spec_step(cfg, s, a + b);
            assert(wstep matches Step::Advance { n: n2, .. } && n2 == a.len() + k);
            if let Step::Advance { n: n2, event: ev2, next: next2 } = wstep {
                let tail = (a + b).subrange(n2 as int, (a + b).len() as int);
                assert(tail =~= b.subrange(k, b.len() as int));
                let wrest = spec_run(cfg, next2, tail);
                assert(whole.events == opt_seq(ev2) + wrest.events);
                lemma_content_ws_event(event);
                lemma_content_ws_event(ev2);
                lemma_kinds_add(opt_seq(event), Seq::<EventView>::empty());
                assert(first.events =~= opt_seq(event));
                lemma_kinds_add(opt_seq(event), second.events);
                lemma_content_add(kinds(opt_seq(event)), kinds(second.events));
                lemma_kinds_add(opt_seq(ev2), wrest.events);
                lemma_content_add(kinds(opt_seq(ev2)), kinds(wrest.events));
                assert(content(kinds(opt_seq(event))) + content(kinds(second.events)) =~= content(kinds(second.events)));
                assert(content(kinds(opt_seq(ev2))) + content(kinds(wrest.events)) =~= content(kinds(wrest.events)));
                if k == 0 {
                    assert(b.subrange(0, b.len() as int) =~= b);
                    lemma_run_positions(cfg, next, next2, b);
                } else {
                    assert(ws_end(b, 0) == ws_end(b, 1));
                    let bstep = spec_step(cfg, next, b);
                    if let Step::Advance { n: n3, event: ev3, next: next3 } = bstep {
                        assert(n3 == k);
                        let brest = spec_run(cfg, next3, b.subrange(k, b.len() as int));
                        assert(second.events == opt_seq(ev3) + brest.events);
                        lemma_kinds_add(opt_seq(ev3), brest.events);
                        lemma_content_add(kinds(opt_seq(ev3)), kinds(brest.events));
                        lemma_content_ws_event(ev3);
                        assert(content(kinds(opt_seq(ev3))) + content(kinds(brest.events)) =~= content(kinds(brest.events)));
                        lemma_run_positions(cfg, next3, next2, b.subrange(k, b.len() as int));
                    }
                }
            }
        } else {
            lemma_step_extend(cfg, s, a, b);
            let tail = (a + b).subrange(n as int, (a + b).len() as int);
            assert(tail =~= rest + b);
            law_split_input(cfg, next, rest, b);
            lemma_run_consumed(cfg, next, rest);
            let second = spec_run(cfg, first.end, a.subrange(first.consumed as int, a.len() as int) + b);
            assert(a.subrange(first.consumed as int, a.len() as int) =~= rest.subrange(
                r1.consumed as int,
                rest.len() as int,
            ));
            let wrest = spec_run(cfg, next, rest + b);
            assert(whole.events == opt_seq(event) + wrest.events);
            assert(first.events + second.events =~= opt_seq(event) + (r1.events + second.events));
            lemma_kinds_add(opt_seq(event), r1.events + second.events);
            lemma_content_add(kinds(opt_seq(event)), kinds(r1.events + second.events));
            lemma_kinds_add(opt_seq(event), wrest.events);
            lemma_content_add(kinds(opt_seq(event)), kinds(wrest.events));
        }
    } else {
        assert(first == (Run { events: Seq::empty(), consumed: 0, end: s, fault: None }));
        assert(a.subrange(0, a.len() as int) + b =~= a + b);
        assert(first.events + whole.events =~= whole.events);
    }
}

/// Streaming to the end of a document: feeding it in two pieces and then signaling the end of
/// the input gives the same content, fault, consumed bytes and end state (apart from the
/// position) as feeding it whole and then signaling the end, when neither receive fails.
pub proof fn law_split_document(cfg: Cfg, s: TokView, a: Seq<u8>, b: Seq<u8>)
    requires
        !cfg.closed,
        spec_run(cfg, s, a).fault is None,
        spec_run(cfg, s, a + b).fault is None,
    ensures
        ({
            let first = spec_run(cfg, s, a);
            let kept = a.subrange(first.consumed as int, a.len() as int) + b;
            let second = spec_run(cfg, first.end, kept);
            let last = spec_run(Cfg { closed: true, ..cfg }, second.end, kept.subrange(second.consumed as int, kept.len() as int));
            let whole = spec_run(cfg, s, a + b);
            let fin = spec_run(Cfg { closed: true, ..cfg }, whole.end, (a + b).subrange(whole.consumed as int, (a + b).len() as int));
            &&& content(kinds(first.events + second.events + last.events)) == content(kinds(whole.events + fin.events))
            &&& last.fault == fin.fault
            &&& last.consumed == fin.consumed
            &&& same_but_position(last.end, fin.end)
        }),
{
    law_split_input(cfg, s, a, b);
    let first = spec_run(cfg, s, a);
    let kept = a.subrange(first.consumed as int, a.len() as int) + b;
    let second = spec_run(cfg, first.end, kept);
    let whole = spec_run(cfg, s, a + b);
    lemma_run_consumed(cfg, first.end, kept);
    assert(kept.subrange(second.consumed as int, kept.len() as int) =~= (a + b).subrange(
        whole.consumed as int,
        (a + b).len() as int,
    ));
    let rest = kept.subrange(second.consumed as int, kept.len() as int);
    let ccfg = Cfg { closed: true, ..cfg };
    lemma_run_positions(ccfg, second.end, whole.end, rest);
    let last = spec_run(ccfg, second.end, rest);
    let fin = spec_run(ccfg, whole.end, rest);
    lemma_kinds_add(first.events + second.events, last.events);
    lemma_kinds_add(whole.events, fin.events);
    lemma_content_add(kinds(first.events + second.events), kinds(last.events));
    lemma_content_add(kinds(whole.events), kinds(fin.events));
}

/// The position after two runs of whitespace is the position after the second, counted from
/// the position after the first.
proof fn lemma_ws_position_add(l: usize, c: usize, x: Seq<u8>, y: Seq<u8>)
    ensures
        ws_position(l, c, x + y) == ws_position(ws_position(l, c, x).0, ws_position(l, c, x).1, y),
    decreases y.len(),
{
    if y.len() == 0 {
        assert(x + y =~= x);
    } else {
        assert((x + y).drop_last() =~= x + y.drop_last());
        lemma_ws_position_add(l, c, x, y.drop_last());
        assert((x + y).last() == y.last());
    }
}

/// Streaming, exactly: when whitespace is not reported, feeding input to the tokenizer in two
/// pieces (the bytes the first piece leaves unconsumed put in front of the second) hands over
/// exactly the events, positions included, that feeding it whole hands over, consumes the same
/// bytes, ends with the same fault and reaches the same state. This holds while the end of the
/// input is not signaled and the first piece does not fail.
pub proof fn law_split_input_exact(cfg: Cfg, s: TokView, a: Seq<u8>, b: Seq<u8>)
    requires
        !cfg.closed,
        !cfg.needs_ws,
        spec_run(cfg, s, a).fault is None,
    ensures
        spec_run(cfg, s, a).consumed <= a.len(),
        ({
            let first = spec_run(cfg, s, a);
            let second = spec_run(cfg, first.end, a.subrange(first.consumed as int, a.len() as int) + b);
            let whole = spec_run(cfg, s, a + b);
            &&& first.events + second.events == whole.events
            &&& second.fault == whole.fault
            &&& first.consumed + second.consumed == whole.consumed
            &&& second.end == whole.end
        }),
    decreases a.len(),
{
    lemma_run_consumed(cfg, s, a);
    let first = spec_run(cfg, s, a);
    let whole = spec_run(cfg, s, a + b);
    let step = spec_step(cfg, s, a);
    if step is Advance && 0 < step->n <= a.len() {
        let n = step->n;
        let event = step->Advance_event;
        let next = step->next;
        let rest = a.subrange(n as int, a.len() as int);
        let r1 = spec_run(cfg, next, rest);
        if is_ws(a[0]) && ws_end(a, 1) >= a.len() {
            // A whitespace run reaching the end of the first piece.
            reveal(spec_step);
            lemma_ws_end_bounds(a, 1);
            assert(n == a.len());
            assert(a.subrange(0, n as int) =~= a);
            assert(rest =~= Seq::<u8>::empty());
            lemma_run_empty(cfg, next);
            assert(first.events =~= Seq::<EventView>::empty());
            assert(a.subrange(a.len() as int, a.len() as int) + b =~= b);
            let second = spec_run(cfg, next, b);
            assert((a + b)[0] == a[0]);
            lemma_ws_end_append(a, b, 1);
            let k = ws_end(b, 0);
            lemma_ws_end_bounds(b, 0);
            let wstep = spec_step(cfg, s, a + b);
            assert((a + b).subrange(0, a.len() + k) =~= a + b.subrange(0, k));
            lemma_ws_position_add(s.line, s.column, a, b.subrange(0, k));
            if let Step::Advance { n: n2, event: ev2, next: next2 } = wstep {
                assert(n2 == a.len() + k);
                assert(ev2 is None);
                let tail = (a + b).subrange(n2 as int, (a + b).len() as int);
                assert(tail =~= b.subrange(k, b.len() as int));
                let wrest = spec_run(cfg, next2, tail);
                assert(whole.events =~= wrest.events);
                if k == 0 {
                    assert(b.subrange(0, 0) =~= Seq::<u8>::empty());
                    assert(next2 == next);
                    assert(b.subrange(0, b.len() as int) =~= b);
                    assert(first.events + second.events =~= second.events);
                } else {
                    assert(ws_end(b, 0) == ws_end(b, 1));
                    let bstep = spec_step(cfg, next, b);
                    if let Step::Advance { n: n3, event: ev3, next: next3 } = bstep {
                        assert(n3 == k);
                        assert(next3 == next2);
                        let brest = spec_run(cfg, next3, b.subrange(k, b.len() as int));
                        assert(second.events =~= brest.events);
                        assert(first.events + second.events =~= second.events);
                    }
                }
            }
        } else {
            lemma_step_extend(cfg, s, a, b);
            let tail = (a + b).subrange(n as int, (a + b).len() as int);
            assert(tail =~= rest + b);
            law_split_input_exact(cfg, next, rest, b);
            lemma_run_consumed(cfg, next, rest);
            let second = spec_run(cfg, first.end, a.subrange(first.consumed as int, a.len() as int) + b);
            assert(a.subrange(first.consumed as int, a.len() as int) =~= rest.subrange(
                r1.consumed as int,
                rest.len() as int,
            ));
            let wrest = spec_run(cfg, next, rest + b);
            assert(whole.events == opt_seq(event) + wrest.events);
            assert(first.events + second.events =~= opt_seq(event) + (r1.events + second.events));
        }
    } else {
        assert(first == (Run { events: Seq::empty(), consumed: 0, end: s, fault: None }));
        assert(a.subrange(0, a.len() as int) + b =~= a + b);
        assert(first.events + whole.events =~= whole.events);
    }
}

/// Streaming to the end of a document, exactly: when whitespace is not reported, feeding a
/// document in two pieces and then signaling the end of the input hands over exactly the events
/// (positions included) that feeding it whole and then signaling the end hands over, with the
/// same fault, consumed bytes and end state, when neither receive fails.
pub proof fn law_split_document_exact(cfg: Cfg, s: TokView, a: Seq<u8>, b: Seq<u8>)
    requires
        !cfg.closed,
        !cfg.needs_ws,
        spec_run(cfg, s, a).fault is None,
    ensures
        ({
            let first = spec_run(cfg, s, a);
            let kept = a.subrange(first.consumed as int, a.len() as int) + b;
            let second = spec_run(cfg, first.end, kept);
            let last = spec_run(Cfg { closed: true, ..cfg }, second.end, kept.subrange(second.consumed as int, kept.len() as int));
            let whole = spec_run(cfg, s, a + b);
            let fin = spec_run(Cfg { closed: true, ..cfg }, whole.end, (a + b).subrange(whole.consumed as int, (a + b).len() as int));
            &&& first.events + second.events + last.events == whole.events + fin.events
            &&& second.fault == whole.fault
            &&& last == fin
        }),
{
    law_split_input_exact(cfg, s, a, b);
    let first = spec_run(cfg, s, a);
    let kept = a.subrange(first.consumed as int, a.len() as int) + b;
    let second = spec_run(cfg, first.end, kept);
    let whole = spec_run(cfg, s, a + b);
    lemma_run_consumed(cfg, first.end, kept);
    assert(kept.subrange(second.consumed as int, kept.len() as int) =~= (a + b).subrange(
        whole.consumed as int,
        (a + b).len() as int,
    ));
}

/// A run that fails on some input fails the same way, with the same events, when more input
/// follows (the end of the input not being signaled).
pub proof fn lemma_run_fault_extend(cfg: Cfg, s: TokView, a: Seq<u8>, b: Seq<u8>)
    requires
        !cfg.closed,
        spec_run(cfg, s, a).fault is Some,
    ensures
        spec_run(cfg, s, a + b) == spec_run(cfg, s, a),
    decreases a.len(),
{
    let step = spec_step(cfg, s, a);
    match step {
        Step::Fail { .. } => {
            reveal(spec_step);
            assert(a.len() > 0);
            lemma_step_extend(cfg, s, a, b);
        },
        Step::Advance { n, event, next } => {
            assert(0 < n <= a.len());
            let rest = a.subrange(n as int, a.len() as int);
            if is_ws(a[0]) && ws_end(a, 1) >= a.len() {
                reveal(spec_step);
                lemma_ws_end_bounds(a, 1);
                assert(rest =~= Seq::<u8>::empty());
                lemma_run_empty(cfg, next);
            } else {
                lemma_step_extend(cfg, s, a, b);
                lemma_run_fault_extend(cfg, next, rest, b);
                assert((a + b).subrange(n as int, (a + b).len() as int) =~= rest + b);
            }
        },
        Step::NeedMore => {},
    }
}

/// Feeding input in pieces: each piece is put behind the bytes that the earlier pieces left
/// unconsumed (`kept` at first), and the tokenizer runs over them; feeding stops at a fault.
/// The result counts the bytes consumed from `kept` and all the pieces together.
pub open spec fn feed(cfg: Cfg, s: TokView, kept: Seq<u8>, pieces: Seq<Seq<u8>>) -> Run
    decreases pieces.len(),
{
    if pieces.len() == 0 {
        spec_run(cfg, s, kept)
    } else {
        let buf = kept + pieces[0];
        let r = spec_run(cfg, s, buf);
        if r.fault is Some || r.consumed > buf.len() {
            r
        } else {
            let more = feed(cfg, r.end, buf.subrange(r.consumed as int, buf.len() as int), pieces.drop_first());
            Run {
                events: r.events + more.events,
                consumed: r.consumed + more.consumed,
                end: more.end,
                fault: more.fault,
            }
        }
    }
}

/// Streaming in any number of pieces: when whitespace is not reported and the end of the
/// input is not signaled, feeding the input in pieces hands over exactly the events
/// (positions included), consumes the same bytes, ends with the same fault and reaches the
/// same state as feeding it whole.
pub proof fn law_feed_pieces(cfg: Cfg, s: TokView, kept: Seq<u8>, pieces: Seq<Seq<u8>>)
    requires
        !cfg.closed,
        !cfg.needs_ws,
    ensures
        feed(cfg, s, kept, pieces) == spec_run(cfg, s, kept + pieces.flatten()),
    decreases pieces.len(),
{
    if pieces.len() == 0 {
        assert(kept + pieces.flatten() =~= kept);
    } else {
        let buf = kept + pieces[0];
        let tail = pieces.drop_first();
        assert(kept + pieces.flatten() =~= buf + tail.flatten());
        let r = spec_run(cfg, s, buf);
        lemma_run_consumed(cfg, s, buf);
        if r.fault is Some {
            lemma_run_fault_extend(cfg, s, buf, tail.flatten());
        } else {
            law_split_input_exact(cfg, s, buf, tail.flatten());
            let kept2 = buf.subrange(r.consumed as int, buf.len() as int);
            law_feed_pieces(cfg, r.end, kept2, tail);
            let whole = spec_run(cfg, s, buf + tail.flatten());
            let more = feed(cfg, r.end, kept2, tail);
            assert(feed(cfg, s, kept, pieces) == Run {
                events: r.events + more.events,
                consumed: r.consumed + more.consumed,
                end: more.end,
                fault: more.fault,
            });
            assert(r.events + more.events == whole.events);
        }
    }
}

} // verus!
