//! An in-memory store of log entries and spans.
use vstd::prelude::*;

use crate::log::{LogEntry, LogEntryView};
use crate::loki_api::entry_views;
use crate::otlp::span_views;
use crate::span::{Span, SpanView};
use crate::text::str_eq;

verus! {

/// The newest-first window of a list: skip `offset` of the newest, then take up
/// to `limit`.
pub open spec fn newest_window<T>(s: Seq<T>, offset: int, limit: int) -> Seq<T> {
    let r = s.reverse();
    let a = if offset < r.len() {
        offset
    } else {
        r.len() as int
    };
    let b = if a + limit < r.len() {
        a + limit
    } else {
        r.len() as int
    };
    r.subrange(a, b)
}

/// The spans of one trace, in insertion order.
pub open spec fn spans_of_trace(s: Seq<SpanView>, trace_id: Seq<char>) -> Seq<SpanView>
    decreases s.len(),
{
    if s.len() == 0 {
        Seq::empty()
    } else if s.last().trace_id == trace_id {
        spans_of_trace(s.drop_last(), trace_id).push(s.last())
    } else {
        spans_of_trace(s.drop_last(), trace_id)
    }
}

/// Log entries and spans held in memory, in insertion order.
pub struct InMemoryStore {
    logs: Vec<LogEntry>,
    spans: Vec<Span>,
}

impl InMemoryStore {
    /// The stored log entries, oldest first.
    pub closed spec fn logs_view(&self) -> Seq<LogEntryView> {
        entry_views(self.logs@)
    }

    /// The stored spans, oldest first.
    pub closed spec fn spans_view(&self) -> Seq<SpanView> {
        span_views(self.spans@)
    }

    /// An empty store.
    pub fn new() -> (r: InMemoryStore)
        ensures
            r.logs_view() == Seq::<LogEntryView>::empty(),
            r.spans_view() == Seq::<SpanView>::empty(),
    {
        let r = InMemoryStore { logs: Vec::new(), spans: Vec::new() };
        assert(r.logs_view() =~= Seq::<LogEntryView>::empty());
        assert(r.spans_view() =~= Seq::<SpanView>::empty());
        r
    }

    /// Stores a log entry.
    pub fn insert_log(&mut self, entry: LogEntry)
        ensures
            final(self).logs_view() == old(self).logs_view().push(entry@),
            final(self).spans_view() == old(self).spans_view(),
    {
        let ghost ev = entry@;
        self.logs.push(entry);
        assert(self.logs_view() =~= old(self).logs_view().push(ev));
    }

    /// Stores a span.
    pub fn insert_span(&mut self, span: Span)
        ensures
            final(self).spans_view() == old(self).spans_view().push(span@),
            final(self).logs_view() == old(self).logs_view(),
    {
        let ghost sv = span@;
        self.spans.push(span);
        assert(self.spans_view() =~= old(self).spans_view().push(sv));
    }

    /// Up to `limit` entries, newest first, after skipping the `offset` newest.
    pub fn query_logs(&self, limit: usize, offset: usize) -> (r: Vec<LogEntry>)
        ensures
            entry_views(r@) == newest_window(self.logs_view(), offset as int, limit as int),
    {
        let n = self.logs.len();
        let ghost want = newest_window(self.logs_view(), offset as int, limit as int);
        let mut out: Vec<LogEntry> = Vec::new();
        if offset >= n {
            assert(entry_views(out@) =~= want);
            return out;
        }
        // newest-first positions offset, offset + 1, ... are logs[n - 1 - offset], ...
        let mut k: usize = offset;
        while k < n && k - offset < limit
            invariant
                offset <= k <= n,
                n == self.logs.len(),
                offset < n,
                k - offset <= limit,
                entry_views(out@) =~= self.logs_view().reverse().subrange(offset as int, k as int),
            decreases n - k,
        {
            let e = self.logs[n - 1 - k].duplicate();
            let ghost before = out@;
            out.push(e);
            proof {
                assert(entry_views(out@) =~= entry_views(before).push(e@));
                assert(self.logs_view().reverse()[k as int] == self.logs_view()[n - 1 - k]);
            }
            k = k + 1;
        }
        out
    }

    /// The spans of one trace, in insertion order.
    pub fn query_spans(&self, trace_id: &str) -> (r: Vec<Span>)
        ensures
            span_views(r@) == spans_of_trace(self.spans_view(), trace_id@),
    {
        let mut out: Vec<Span> = Vec::new();
        let mut i: usize = 0;
        while i < self.spans.len()
            invariant
                i <= self.spans.len(),
                span_views(out@) =~= spans_of_trace(self.spans_view().take(i as int), trace_id@),
            decreases self.spans.len() - i,
        {
            proof {
                let t = self.spans_view().take(i + 1);
                assert(t.drop_last() =~= self.spans_view().take(i as int));
                assert(t.last() == self.spans@[i as int]@);
            }
            if str_eq(self.spans[i].trace_id.as_str(), trace_id) {
                let sp = self.spans[i].duplicate();
                let ghost before = out@;
                out.push(sp);
                assert(span_views(out@) =~= span_views(before).push(sp@));
            }
            i = i + 1;
        }
        proof {
            assert(self.spans_view().take(i as int) =~= self.spans_view());
        }
        out
    }

    /// Up to `limit` spans, newest first.
    pub fn query_all_spans(&self, limit: usize) -> (r: Vec<Span>)
        ensures
            span_views(r@) == newest_window(self.spans_view(), 0, limit as int),
    {
        let n = self.spans.len();
        let mut out: Vec<Span> = Vec::new();
        let mut k: usize = 0;
        while k < n && k < limit
            invariant
                k <= n,
                n == self.spans.len(),
                k <= limit,
                span_views(out@) =~= self.spans_view().reverse().subrange(0, k as int),
            decreases n - k,
        {
            let sp = self.spans[n - 1 - k].duplicate();
            let ghost before = out@;
            out.push(sp);
            proof {
                assert(span_views(out@) =~= span_views(before).push(sp@));
                assert(self.spans_view().reverse()[k as int] == self.spans_view()[n - 1 - k]);
            }
            k = k + 1;
        }
        out
    }
}

/// A read after a write: the newest entry a query returns is the one written last.
pub proof fn lemma_latest_log_is_last_written(logs: Seq<LogEntryView>, e: LogEntryView, limit: int)
    requires
        limit >= 1,
    ensures
        newest_window(logs.push(e), 0, limit).len() >= 1,
        newest_window(logs.push(e), 0, limit)[0] == e,
{
    let s = logs.push(e);
    assert(s.reverse()[0] == s[s.len() - 1]);
}

/// A read after a write: a stored span is among the spans of its trace, as the
/// last of them.
pub proof fn lemma_span_found_by_trace(spans: Seq<SpanView>, s: SpanView)
    ensures
        spans_of_trace(spans.push(s), s.trace_id) == spans_of_trace(spans, s.trace_id).push(s),
{
    assert(spans.push(s).drop_last() =~= spans);
}

/// A query never returns more entries than its limit, nor more than are stored.
pub proof fn lemma_window_bounded<T>(s: Seq<T>, offset: int, limit: int)
    requires
        offset >= 0,
        limit >= 0,
    ensures
        newest_window(s, offset, limit).len() <= limit,
        newest_window(s, offset, limit).len() <= s.len(),
{
}

} // verus!
