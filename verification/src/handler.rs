//! The content handler interface and the events the tokenizer reports to it.

use vstd::prelude::*;
use crate::error::ParseResult;
use crate::grammar::{EventKindView, EventView};
use crate::locator::{Locator, TextPosition};
use crate::number::Number;

verus! {

/// Application callback interface for JSON parse events.
///
/// Before each event the parser hands the handler a locator holding the position of the
/// event: its 1-based line and column, which depend on the input alone and not on how it was
/// split into pieces. An error returned by a callback stops parsing and is returned by the
/// parser as it is.
pub trait ContentHandler: Sized {
    /// What the handler states of one of its callbacks: `self` before the call, `after` after
    /// it, the kind of the event the callback stands for, and the answer it gave. A handler
    /// that states nothing keeps the default, which allows any call.
    open spec fn handles(&self, after: &Self, kind: EventKindView, r: ParseResult<()>) -> bool {
        true
    }

    /// What the handler states of a call of `set_locator`: `self` before it, `after` after it.
    open spec fn locates(&self, after: &Self) -> bool {
        true
    }

    fn start_object(&mut self) -> (r: ParseResult<()>)
        ensures
            (r is Ok && *final(self) == *old(self)) || old(self).handles(&*final(self), EventKindView::StartObject, r),
        default_ensures
            r is Ok,
    {
        Ok(())
    }

    fn end_object(&mut self) -> (r: ParseResult<()>)
        ensures
            (r is Ok && *final(self) == *old(self)) || old(self).handles(&*final(self), EventKindView::EndObject, r),
        default_ensures
            r is Ok,
    {
        Ok(())
    }

    fn start_array(&mut self) -> (r: ParseResult<()>)
        ensures
            (r is Ok && *final(self) == *old(self)) || old(self).handles(&*final(self), EventKindView::StartArray, r),
        default_ensures
            r is Ok,
    {
        Ok(())
    }

    fn end_array(&mut self) -> (r: ParseResult<()>)
        ensures
            (r is Ok && *final(self) == *old(self)) || old(self).handles(&*final(self), EventKindView::EndArray, r),
        default_ensures
            r is Ok,
    {
        Ok(())
    }

    fn number_value(&mut self, _value: &Number) -> (r: ParseResult<()>)
        ensures
            (r is Ok && *final(self) == *old(self)) || old(self).handles(&*final(self), EventKindView::Number(_value@), r),
        default_ensures
            r is Ok,
    {
        Ok(())
    }

    fn string_value(&mut self, _value: &str) -> (r: ParseResult<()>)
        ensures
            (r is Ok && *final(self) == *old(self)) || old(self).handles(&*final(self), EventKindView::Str(_value@), r),
        default_ensures
            r is Ok,
    {
        Ok(())
    }

    fn boolean_value(&mut self, _value: bool) -> (r: ParseResult<()>)
        ensures
            (r is Ok && *final(self) == *old(self)) || old(self).handles(&*final(self), EventKindView::Bool(_value), r),
        default_ensures
            r is Ok,
    {
        Ok(())
    }

    fn null_value(&mut self) -> (r: ParseResult<()>)
        ensures
            (r is Ok && *final(self) == *old(self)) || old(self).handles(&*final(self), EventKindView::Null, r),
        default_ensures
            r is Ok,
    {
        Ok(())
    }

    fn whitespace(&mut self, _whitespace: &str) -> (r: ParseResult<()>)
        ensures
            (r is Ok && *final(self) == *old(self)) || old(self).handles(&*final(self), EventKindView::Whitespace(_whitespace@), r),
        default_ensures
            r is Ok,
    {
        Ok(())
    }

    fn key(&mut self, _key: &str) -> (r: ParseResult<()>)
        ensures
            (r is Ok && *final(self) == *old(self)) || old(self).handles(&*final(self), EventKindView::Key(_key@), r),
        default_ensures
            r is Ok,
    {
        Ok(())
    }

    /// Called with the position of each event just before the event.
    fn set_locator(&mut self, _locator: &dyn Locator)
        ensures
            *final(self) == *old(self) || old(self).locates(&*final(self)),
    {
    }

    /// When false (default), the parser does not report whitespace.
    fn needs_whitespace(&self) -> (r: bool)
        default_ensures
            !r,
    {
        false
    }
}

/// No-op content handler.
#[derive(Debug, Default, Clone, Copy)]
pub struct DefaultHandler;

impl ContentHandler for DefaultHandler {
    open spec fn handles(&self, after: &Self, kind: EventKindView, r: ParseResult<()>) -> bool {
        r is Ok
    }

    open spec fn locates(&self, after: &Self) -> bool {
        true
    }
}

/// A callback that answered `Ok` and left the handler as it was, or one that did what the
/// handler states of a callback for `kind`.
pub open spec fn kept_or_handled<H: ContentHandler>(
    before: H,
    after: H,
    kind: EventKindView,
    r: ParseResult<()>,
) -> bool {
    (r is Ok && after == before) || before.handles(&after, kind, r)
}

/// One event handed to the handler: the position set (or the handler left as it was), then
/// the callback of the event's kind, which answered `r`.
pub open spec fn handler_call<H: ContentHandler>(before: H, after: H, e: EventView, r: ParseResult<()>) -> bool {
    exists|mid: H|
        (mid == before || before.locates(&mid)) && #[trigger] kept_or_handled(mid, after, e.kind, r)
}

/// The content of an event.
#[derive(Debug, Clone, PartialEq)]
pub enum EventKind {
    StartObject,
    EndObject,
    StartArray,
    EndArray,
    Key(String),
    Str(String),
    Number(Number),
    Bool(bool),
    Null,
    Whitespace(String),
}

/// An event and the position reported with it.
#[derive(Debug, Clone, PartialEq)]
pub struct Event {
    pub kind: EventKind,
    pub line: usize,
    pub column: usize,
}

impl View for EventKind {
    type V = EventKindView;

    open spec fn view(&self) -> EventKindView {
        match self {
            EventKind::StartObject => EventKindView::StartObject,
            EventKind::EndObject => EventKindView::EndObject,
            EventKind::StartArray => EventKindView::StartArray,
            EventKind::EndArray => EventKindView::EndArray,
            EventKind::Key(s) => EventKindView::Key(s@),
            EventKind::Str(s) => EventKindView::Str(s@),
            EventKind::Number(n) => EventKindView::Number(n@),
            EventKind::Bool(b) => EventKindView::Bool(*b),
            EventKind::Null => EventKindView::Null,
            EventKind::Whitespace(s) => EventKindView::Whitespace(s@),
        }
    }
}

impl View for Event {
    type V = EventView;

    open spec fn view(&self) -> EventView {
        EventView { kind: self.kind@, line: self.line, column: self.column }
    }
}

/// The view of an optional event.
pub open spec fn opt_view(e: Option<Event>) -> Option<EventView> {
    match e {
        Some(x) => Some(x@),
        None => None,
    }
}

/// The handler went from `h0` to `h1` through the handler states `hs`: one call for each event
/// of `es`, answered in order by `rs`.
pub open spec fn chain_through<H: ContentHandler>(
    hs: Seq<H>,
    h0: H,
    h1: H,
    es: Seq<EventView>,
    rs: Seq<ParseResult<()>>,
) -> bool {
    &&& hs.len() == es.len() + 1
    &&& rs.len() == es.len()
    &&& hs[0] == h0
    &&& hs.last() == h1
    &&& forall|i: int| 0 <= i < es.len() ==> handler_call(hs[i], hs[i + 1], #[trigger] es[i], rs[i])
}

/// The handler went from `h0` to `h1` through one call for each event of `es`, in order: the
/// callback of the event's kind, which answered with the matching element of `rs`.
pub open spec fn call_chain<H: ContentHandler>(h0: H, h1: H, es: Seq<EventView>, rs: Seq<ParseResult<()>>) -> bool {
    exists|hs: Seq<H>| chain_through(hs, h0, h1, es, rs)
}

/// No calls leave the handler as it was.
pub proof fn lemma_chain_start<H: ContentHandler>(h: H)
    ensures
        chain_through(seq![h], h, h, Seq::empty(), Seq::empty()),
{
}

/// A chain of calls followed by one more call.
pub proof fn lemma_chain_push<H: ContentHandler>(
    hs: Seq<H>,
    h0: H,
    h1: H,
    h2: H,
    es: Seq<EventView>,
    rs: Seq<ParseResult<()>>,
    e: EventView,
    r: ParseResult<()>,
)
    requires
        chain_through(hs, h0, h1, es, rs),
        handler_call(h1, h2, e, r),
    ensures
        chain_through(hs.push(h2), h0, h2, es.push(e), rs.push(r)),
{
    let hs2 = hs.push(h2);
    let es2 = es.push(e);
    let rs2 = rs.push(r);
    assert forall|i: int| 0 <= i < es2.len() implies handler_call(hs2[i], hs2[i + 1], #[trigger] es2[i], rs2[i]) by {
        if i < es.len() {
            assert(hs2[i] == hs[i] && hs2[i + 1] == hs[i + 1] && es2[i] == es[i] && rs2[i] == rs[i]);
        } else {
            assert(hs2[i] == h1 && hs2[i + 1] == h2);
        }
    }
}

/// Hands one event to the handler: first its position, then the callback of its kind.
pub(crate) fn deliver<H: ContentHandler>(handler: &mut H, event: &Event) -> (r: ParseResult<()>)
    ensures
        handler_call(*old(handler), *final(handler), event@, r),
{
    let position = TextPosition { line: event.line, column: event.column };
    handler.set_locator(&position);
    let ghost mid = *handler;
    let r = match &event.kind {
        EventKind::StartObject => handler.start_object(),
        EventKind::EndObject => handler.end_object(),
        EventKind::StartArray => handler.start_array(),
        EventKind::EndArray => handler.end_array(),
        EventKind::Key(k) => handler.key(k.as_str()),
        EventKind::Str(s) => handler.string_value(s.as_str()),
        EventKind::Number(n) => handler.number_value(n),
        EventKind::Bool(b) => handler.boolean_value(*b),
        EventKind::Null => handler.null_value(),
        EventKind::Whitespace(w) => handler.whitespace(w.as_str()),
    };
    assert(kept_or_handled(mid, *handler, event@.kind, r));
    r
}

} // verus!
