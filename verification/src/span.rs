//! Distributed-tracing spans.
use vstd::prelude::*;

use crate::labels::Labels;
use crate::log::{Timestamp, opt_chars};

verus! {

/// The outcome recorded on a span.
#[derive(Debug, Clone, Copy, PartialEq, Eq, Structural)]
pub enum SpanStatus {
    Unset,
    Okay,
    Error,
}

/// A timestamped event inside a span.
pub struct SpanEvent {
    pub name: String,
    pub timestamp: Timestamp,
    pub attributes: Labels,
}

/// The mathematical content of a `SpanEvent`.
pub struct SpanEventView {
    pub name: Seq<char>,
    pub timestamp: Timestamp,
    pub attributes: Map<Seq<char>, Seq<char>>,
}

impl View for SpanEvent {
    type V = SpanEventView;

    open spec fn view(&self) -> SpanEventView {
        SpanEventView { name: self.name@, timestamp: self.timestamp, attributes: self.attributes@ }
    }
}

/// One unit of work in a trace.
pub struct Span {
    pub trace_id: String,
    pub span_id: String,
    pub parent_span_id: Option<String>,
    pub operation_name: String,
    pub service_name: String,
    pub start_time: Timestamp,
    pub end_time: Timestamp,
    pub status: SpanStatus,
    pub attributes: Labels,
    pub events: Vec<SpanEvent>,
}

/// The mathematical content of a `Span`.
pub struct SpanView {
    pub trace_id: Seq<char>,
    pub span_id: Seq<char>,
    pub parent_span_id: Option<Seq<char>>,
    pub operation_name: Seq<char>,
    pub service_name: Seq<char>,
    pub start_time: Timestamp,
    pub end_time: Timestamp,
    pub status: SpanStatus,
    pub attributes: Map<Seq<char>, Seq<char>>,
    pub events: Seq<SpanEventView>,
}

/// The views of a list of events.
pub open spec fn event_views(v: Seq<SpanEvent>) -> Seq<SpanEventView> {
    v.map_values(|e: SpanEvent| e@)
}

impl View for Span {
    type V = SpanView;

    open spec fn view(&self) -> SpanView {
        SpanView {
            trace_id: self.trace_id@,
            span_id: self.span_id@,
            parent_span_id: opt_chars(self.parent_span_id),
            operation_name: self.operation_name@,
            service_name: self.service_name@,
            start_time: self.start_time,
            end_time: self.end_time,
            status: self.status,
            attributes: self.attributes@,
            events: event_views(self.events@),
        }
    }
}

impl SpanEvent {
    /// A copy of this event.
    pub fn duplicate(&self) -> (r: SpanEvent)
        ensures
            r@ == self@,
    {
        SpanEvent {
            name: self.name.clone(),
            timestamp: self.timestamp,
            attributes: self.attributes.duplicate(),
        }
    }
}

impl Span {
    /// A copy of this span.
    pub fn duplicate(&self) -> (r: Span)
        ensures
            r@ == self@,
    {
        let mut events: Vec<SpanEvent> = Vec::new();
        let mut i: usize = 0;
        while i < self.events.len()
            invariant
                i <= self.events.len(),
                event_views(events@) =~= event_views(self.events@).take(i as int),
            decreases self.events.len() - i,
        {
            let e = self.events[i].duplicate();
            let ghost before = events@;
            events.push(e);
            proof {
                assert(events@ == before.push(e));
                assert(event_views(events@) =~= event_views(before).push(e@));
            }
            i = i + 1;
        }
        proof {
            assert(event_views(self.events@).take(i as int) =~= event_views(self.events@));
        }
        Span {
            trace_id: self.trace_id.clone(),
            span_id: self.span_id.clone(),
            parent_span_id: crate::log::copy_opt_string(&self.parent_span_id),
            operation_name: self.operation_name.clone(),
            service_name: self.service_name.clone(),
            start_time: self.start_time,
            end_time: self.end_time,
            status: self.status,
            attributes: self.attributes.duplicate(),
            events,
        }
    }
}

} // verus!
