//! The Loki-compatible API: turning pushes into log entries, planning queries,
//! and grouping query results into streams.
use vstd::prelude::*;

use crate::json::JsonValue;
use crate::label_selector::{parse_label_selector, spec_parse_selector};
use crate::labels::Labels;
use crate::log::{
    LogEntry, LogEntryView, LogLevel, Timestamp, nanos_since_epoch, opt_chars, spec_level_label,
};
use crate::loki::{
    Direction, LabelMatcher, LokiPushRequest, LokiQueryData, LokiQueryResponse, LokiResultStream,
    LokiStream, MatcherSpec, matcher_views,
};
use crate::text::{
    ascii_chars, ascii_lower_char, decimal_text, i64_to_string, parse_i64, spec_parse_i64, str_eq,
    to_lowercase, spec_to_lower,
};

verus! {

broadcast use vstd::string::group_string_axioms;

/// The default number of entries a query returns.
pub fn default_limit() -> (r: usize)
    ensures
        r == 100,
{
    100
}

/// The level a `level` label names, case-insensitively: `trace`, `debug`,
/// `info`, `warn`/`warning`, `error`/`err`, `fatal`/`critical`.
pub open spec fn spec_parse_log_level(s: Seq<char>) -> Option<LogLevel> {
    let l = spec_to_lower(s);
    if l == "trace"@ {
        Some(LogLevel::Trace)
    } else if l == "debug"@ {
        Some(LogLevel::Debug)
    } else if l == "info"@ {
        Some(LogLevel::Info)
    } else if l == "warn"@ || l == "warning"@ {
        Some(LogLevel::Warn)
    } else if l == "error"@ || l == "err"@ {
        Some(LogLevel::Error)
    } else if l == "fatal"@ || l == "critical"@ {
        Some(LogLevel::Fatal)
    } else {
        None
    }
}

/// A lower-case ASCII text is its own lower-case form.
proof fn lemma_lower_of_lower(s: Seq<char>)
    requires
        forall|i: int| 0 <= i < s.len() ==> 'a' <= #[trigger] s[i] <= 'z',
    ensures
        spec_to_lower(s) == s,
{
    assert(ascii_chars(s));
    assert(s.map_values(|c: char| ascii_lower_char(c)) =~= s);
}

/// The lower-case label of a level names that level: reading back what
/// `level_label` writes gives the same level.
pub proof fn lemma_parse_log_level_of_label(level: LogLevel)
    ensures
        spec_parse_log_level(spec_level_label(level)) == Some(level),
{
    reveal_strlit("trace");
    reveal_strlit("debug");
    reveal_strlit("info");
    reveal_strlit("warn");
    reveal_strlit("warning");
    reveal_strlit("error");
    reveal_strlit("err");
    reveal_strlit("fatal");
    reveal_strlit("critical");
    let s = spec_level_label(level);
    lemma_lower_of_lower(s);
    // the labels of one length differ in their first character
    assert(s[0] == 't' || s[0] == 'd' || s[0] == 'i' || s[0] == 'w' || s[0] == 'e' || s[0] == 'f');
    assert("trace"@[0] == 't' && "debug"@[0] == 'd' && "error"@[0] == 'e' && "fatal"@[0] == 'f');
}

/// The level a `level` label names, if it names one.
pub fn parse_log_level(s: &str) -> (r: Option<LogLevel>)
    ensures
        r == spec_parse_log_level(s@),
{
    let lower = to_lowercase(s);
    let l = lower.as_str();
    if str_eq(l, "trace") {
        Some(LogLevel::Trace)
    } else if str_eq(l, "debug") {
        Some(LogLevel::Debug)
    } else if str_eq(l, "info") {
        Some(LogLevel::Info)
    } else if str_eq(l, "warn") || str_eq(l, "warning") {
        Some(LogLevel::Warn)
    } else if str_eq(l, "error") || str_eq(l, "err") {
        Some(LogLevel::Error)
    } else if str_eq(l, "fatal") || str_eq(l, "critical") {
        Some(LogLevel::Fatal)
    } else {
        None
    }
}

/// The value of `k` in `m`, if any.
pub open spec fn map_get(m: Map<Seq<char>, Seq<char>>, k: Seq<char>) -> Option<Seq<char>> {
    if m.contains_key(k) {
        Some(m[k])
    } else {
        None
    }
}

/// The `trace_id` and `span_id` strings of an optional metadata object.
pub open spec fn spec_metadata(meta: Option<JsonValue>) -> (Option<Seq<char>>, Option<Seq<char>>) {
    match meta {
        Some(JsonValue::Object { string_fields, .. }) => (
            map_get(string_fields@, "trace_id"@),
            map_get(string_fields@, "span_id"@),
        ),
        _ => (None, None),
    }
}

fn extract_metadata(meta: Option<&JsonValue>) -> (r: (Option<String>, Option<String>))
    ensures
        (opt_chars(r.0), opt_chars(r.1)) == spec_metadata(
            match meta {
                Some(m) => Some(*m),
                None => None,
            },
        ),
{
    match meta {
        Some(JsonValue::Object { string_fields, .. }) => {
            let trace_id = match string_fields.get("trace_id") {
                Some(v) => Some(v.clone()),
                None => None,
            };
            let span_id = match string_fields.get("span_id") {
                Some(v) => Some(v.clone()),
                None => None,
            };
            (trace_id, span_id)
        },
        _ => (None, None),
    }
}

/// The string at position `i` of a pushed value, if it is a string.
pub open spec fn part_text(parts: Seq<JsonValue>, i: int) -> Option<Seq<char>> {
    if 0 <= i < parts.len() {
        match parts[i] {
            JsonValue::Str(s) => Some(s@),
            _ => None,
        }
    } else {
        None
    }
}

/// The level of every entry of a stream: its `level` label when that names a
/// level, INFO otherwise.
pub open spec fn stream_level(labels: Map<Seq<char>, Seq<char>>) -> LogLevel {
    match map_get(labels, "level"@) {
        Some(l) => match spec_parse_log_level(l) {
            Some(level) => level,
            None => LogLevel::Info,
        },
        None => LogLevel::Info,
    }
}

/// The entry one pushed value becomes: its first element read as nanoseconds
/// (0 when it is not a number in a string), its second as the line (empty when
/// not a string), its third as trace metadata.
pub open spec fn spec_push_entry(labels: Map<Seq<char>, Seq<char>>, parts: Seq<JsonValue>) -> LogEntryView {
    let ts: i64 = match part_text(parts, 0) {
        Some(t) => match spec_parse_i64(t) {
            Some(n) => n,
            None => 0,
        },
        None => 0,
    };
    let meta = spec_metadata(if 2 < parts.len() { Some(parts[2]) } else { None });
    LogEntryView {
        timestamp: Timestamp {
            secs: (ts / crate::log::NANOS_PER_SEC) as i64,
            nanos: (ts % crate::log::NANOS_PER_SEC) as u32,
        },
        level: stream_level(labels),
        message: match part_text(parts, 1) {
            Some(m) => m,
            None => Seq::empty(),
        },
        labels,
        trace_id: meta.0,
        span_id: meta.1,
    }
}

/// The entries of one stream, value by value.
pub open spec fn spec_stream_entries(s: LokiStream) -> Seq<LogEntryView> {
    s.values@.map_values(|p: Vec<JsonValue>| spec_push_entry(s.stream@, p@))
}

/// The entries of a push, stream by stream.
pub open spec fn spec_push_entries(streams: Seq<LokiStream>) -> Seq<LogEntryView>
    decreases streams.len(),
{
    if streams.len() == 0 {
        Seq::empty()
    } else {
        spec_push_entries(streams.drop_last()) + spec_stream_entries(streams.last())
    }
}

/// The views of a list of log entries.
pub open spec fn entry_views(v: Seq<LogEntry>) -> Seq<LogEntryView> {
    v.map_values(|e: LogEntry| e@)
}

fn push_entry(labels: &Labels, level: LogLevel, parts: &Vec<JsonValue>) -> (r: LogEntry)
    requires
        level == stream_level(labels@),
    ensures
        r@ == spec_push_entry(labels@, parts@),
{
    let ts_nanos: i64 = if parts.len() > 0 {
        match parts[0].as_str() {
            Some(s) => match parse_i64(s.as_str()) {
                Some(n) => n,
                None => 0,
            },
            None => 0,
        }
    } else {
        0
    };
    let message = if parts.len() > 1 {
        match parts[1].as_str() {
            Some(s) => s.clone(),
            None => String::new(),
        }
    } else {
        String::new()
    };
    let (trace_id, span_id) = extract_metadata(
        if parts.len() > 2 {
            Some(&parts[2])
        } else {
            None
        },
    );
    LogEntry {
        timestamp: Timestamp::from_nanos(ts_nanos),
        level,
        message,
        labels: labels.duplicate(),
        trace_id,
        span_id,
    }
}

/// The entries a Loki push stores, in the order they are stored.
pub fn push_entries(req: &LokiPushRequest) -> (r: Vec<LogEntry>)
    ensures
        entry_views(r@) == spec_push_entries(req.streams@),
{
    let mut out: Vec<LogEntry> = Vec::new();
    let mut i: usize = 0;
    while i < req.streams.len()
        invariant
            i <= req.streams.len(),
            entry_views(out@) =~= spec_push_entries(req.streams@.take(i as int)),
        decreases req.streams.len() - i,
    {
        let stream = &req.streams[i];
        let level = match stream.stream.get("level") {
            Some(l) => match parse_log_level(l.as_str()) {
                Some(level) => level,
                None => LogLevel::Info,
            },
            None => LogLevel::Info,
        };
        let ghost base = out@;
        let mut j: usize = 0;
        while j < stream.values.len()
            invariant
                j <= stream.values.len(),
                level == stream_level(stream.stream@),
                entry_views(out@) =~= entry_views(base) + spec_stream_entries(*stream).take(
                    j as int,
                ),
            decreases stream.values.len() - j,
        {
            let e = push_entry(&stream.stream, level, &stream.values[j]);
            let ghost before = out@;
            out.push(e);
            proof {
                assert(out@ == before.push(e));
                assert(entry_views(out@) =~= entry_views(before).push(e@));
                assert(spec_stream_entries(*stream).take(j + 1) =~= spec_stream_entries(
                    *stream,
                ).take(j as int).push(e@));
            }
            j = j + 1;
        }
        proof {
            assert(spec_stream_entries(*stream).take(j as int) =~= spec_stream_entries(*stream));
            let t = req.streams@.take(i + 1);
            assert(t.drop_last() =~= req.streams@.take(i as int));
            assert(t.last() == req.streams@[i as int]);
        }
        i = i + 1;
    }
    proof {
        assert(req.streams@.take(i as int) =~= req.streams@);
    }
    out
}

/// A parsed query, ready to run against the store.
pub struct QueryPlan {
    pub matchers: Vec<LabelMatcher>,
    pub start: Option<i64>,
    pub end: Option<i64>,
    pub limit: usize,
    pub direction: Direction,
}

/// An optional query parameter read as nanoseconds; a value that is not an
/// `i64` counts as absent.
pub open spec fn spec_time_param(t: Option<Seq<char>>) -> Option<i64> {
    match t {
        Some(s) => spec_parse_i64(s),
        None => None,
    }
}

/// An optional query parameter read as nanoseconds.
pub fn parse_time_param(t: &Option<String>) -> (r: Option<i64>)
    ensures
        r == spec_time_param(opt_chars(*t)),
{
    match t {
        Some(s) => parse_i64(s.as_str()),
        None => None,
    }
}

/// The plan of an instant query (`/query`): the selector's matchers, no start,
/// `time` as the end. A selector that does not parse is a bad request.
pub fn plan_instant_query(query: &str, limit: usize, time: &Option<String>, direction: Direction) -> (r:
    Result<QueryPlan, String>)
    ensures
        match r {
            Ok(p) => spec_parse_selector(query@) == Ok::<Seq<MatcherSpec>, Seq<char>>(
                matcher_views(p.matchers@),
            ) && p.start is None && p.end == spec_time_param(opt_chars(*time)) && p.limit == limit
                && p.direction == direction,
            Err(e) => spec_parse_selector(query@) == Err::<Seq<MatcherSpec>, Seq<char>>(e@),
        },
{
    let matchers = match parse_label_selector(query) {
        Ok(m) => m,
        Err(e) => {
            return Err(e);
        },
    };
    let end = parse_time_param(time);
    Ok(QueryPlan { matchers, start: None, end, limit, direction })
}

/// The plan of a range query (`/query_range`): the selector's matchers, `start`
/// and `end`. A selector that does not parse is a bad request.
pub fn plan_range_query(
    query: &str,
    limit: usize,
    start: &Option<String>,
    end: &Option<String>,
    direction: Direction,
) -> (r: Result<QueryPlan, String>)
    ensures
        match r {
            Ok(p) => spec_parse_selector(query@) == Ok::<Seq<MatcherSpec>, Seq<char>>(
                matcher_views(p.matchers@),
            ) && p.start == spec_time_param(opt_chars(*start)) && p.end == spec_time_param(
                opt_chars(*end),
            ) && p.limit == limit && p.direction == direction,
            Err(e) => spec_parse_selector(query@) == Err::<Seq<MatcherSpec>, Seq<char>>(e@),
        },
{
    let matchers = match parse_label_selector(query) {
        Ok(m) => m,
        Err(e) => {
            return Err(e);
        },
    };
    let s = parse_time_param(start);
    let e = parse_time_param(end);
    Ok(QueryPlan { matchers, start: s, end: e, limit, direction })
}

/// The `[nanos, line]` value an entry contributes to a stream; an instant whose
/// nanoseconds do not fit `i64` is written as `0`.
pub open spec fn stream_value(l: LogEntryView) -> (Seq<char>, Seq<char>) {
    let n = match nanos_since_epoch(l.timestamp.secs as int, l.timestamp.nanos as int) {
        Some(v) => v,
        None => 0,
    };
    (decimal_text(n), l.message)
}

/// The values of the entries whose label set is `lbl`, in entry order.
pub open spec fn values_for(logs: Seq<LogEntryView>, lbl: Map<Seq<char>, Seq<char>>) -> Seq<(Seq<char>, Seq<char>)>
    decreases logs.len(),
{
    if logs.len() == 0 {
        Seq::empty()
    } else {
        let rest = values_for(logs.drop_last(), lbl);
        if logs.last().labels == lbl {
            rest.push(stream_value(logs.last()))
        } else {
            rest
        }
    }
}

/// The character views of a stream's values.
pub open spec fn stream_value_views(v: Seq<[String; 2]>) -> Seq<(Seq<char>, Seq<char>)> {
    v.map_values(|a: [String; 2]| (a@[0]@, a@[1]@))
}

/// No two streams have the same label set.
pub open spec fn streams_distinct(result: Seq<LokiResultStream>) -> bool {
    forall|i: int, j: int|
        0 <= i < result.len() && 0 <= j < result.len() && i != j ==> result[i].stream@
            != result[j].stream@
}

/// Every entry's label set has a stream.
#[verifier::opaque]
pub open spec fn streams_cover(logs: Seq<LogEntryView>, result: Seq<LokiResultStream>) -> bool {
    forall|k: int|
        0 <= k < logs.len() ==> exists|i: int|
            0 <= i < result.len() && result[i].stream@ == #[trigger] logs[k].labels
}

/// Every stream's label set is some entry's.
#[verifier::opaque]
pub open spec fn streams_from(logs: Seq<LogEntryView>, result: Seq<LokiResultStream>) -> bool {
    forall|i: int|
        #![trigger result[i]]
        0 <= i < result.len() ==> exists|k: int|
            0 <= k < logs.len() && #[trigger] logs[k].labels == result[i].stream@
}

/// Every stream holds the values of exactly its entries, in entry order.
pub open spec fn streams_values(logs: Seq<LogEntryView>, result: Seq<LokiResultStream>) -> bool {
    forall|i: int|
        0 <= i < result.len() ==> stream_value_views(#[trigger] result[i].values@) == values_for(
            logs,
            result[i].stream@,
        )
}

/// The streams answer a list of entries: one stream per distinct label set, each
/// with the values of its entries in entry order. The order of the streams is
/// not part of the answer.
pub open spec fn streams_answer(logs: Seq<LogEntryView>, result: Seq<LokiResultStream>) -> bool {
    &&& streams_distinct(result)
    &&& streams_cover(logs, result)
    &&& streams_from(logs, result)
    &&& streams_values(logs, result)
}

proof fn lemma_values_for_step(logs: Seq<LogEntryView>, k: int, lbl: Map<Seq<char>, Seq<char>>)
    requires
        0 <= k < logs.len(),
    ensures
        values_for(logs.take(k + 1), lbl) == (if logs[k].labels == lbl {
            values_for(logs.take(k), lbl).push(stream_value(logs[k]))
        } else {
            values_for(logs.take(k), lbl)
        }),
{
    let t = logs.take(k + 1);
    assert(t.drop_last() =~= logs.take(k));
    assert(t.last() == logs[k]);
}

/// Groups entries into streams by label set.
pub fn group_streams(logs: &Vec<LogEntry>) -> (r: Vec<LokiResultStream>)
    ensures
        streams_answer(entry_views(logs@), r@),
{
    let ghost lv = entry_views(logs@);
    let mut streams: Vec<LokiResultStream> = Vec::new();
    let mut k: usize = 0;
    proof {
        reveal(streams_cover);
        reveal(streams_from);
    }
    while k < logs.len()
        invariant
            k <= logs.len(),
            lv == entry_views(logs@),
            streams_answer(lv.take(k as int), streams@),
        decreases logs.len() - k,
    {
        let log = &logs[k];
        let ts_nanos = match log.timestamp.timestamp_nanos_opt() {
            Some(n) => n,
            None => 0,
        };
        let value: [String; 2] = [i64_to_string(ts_nanos), log.message.clone()];
        assert((value@[0]@, value@[1]@) == stream_value(lv[k as int]));
        let ghost old_streams = streams@;
        // find the stream of this label set
        let mut i: usize = 0;
        let mut found: Option<usize> = None;
        while i < streams.len()
            invariant_except_break
                found is None,
            invariant
                i <= streams.len(),
                forall|j: int| 0 <= j < i ==> streams@[j].stream@ != log.labels@,
            ensures
                match found {
                    Some(idx) => idx < streams.len() && streams@[idx as int].stream@ == log.labels@,
                    None => forall|j: int| 0 <= j < streams.len() ==> streams@[j].stream@ != log.labels@,
                },
            decreases streams.len() - i,
        {
            if streams[i].stream.same_as(&log.labels) {
                found = Some(i);
                break;
            }
            i = i + 1;
        }
        proof {
            lemma_take_labels(lv, k as int);
        }
        match found {
            Some(idx) => {
                let mut st = streams.remove(idx);
                let ghost old_vals = st.values@;
                st.values.push(value);
                proof {
                    assert(stream_value_views(st.values@) =~= stream_value_views(old_vals).push(
                        stream_value(lv[k as int]),
                    ));
                }
                streams.insert(idx, st);
                proof {
                    assert(streams@ == old_streams.update(idx as int, st));
                    lemma_group_found_cover(lv, k as int, old_streams, streams@, idx as int);
                    lemma_group_found_from(lv, k as int, old_streams, streams@, idx as int);
                    lemma_group_found_values(lv, k as int, old_streams, streams@, idx as int);
                }
            },
            None => {
                let mut values: Vec<[String; 2]> = Vec::new();
                values.push(value);
                let st = LokiResultStream { stream: log.labels.duplicate(), values };
                proof {
                    assert(stream_value_views(st.values@) =~= seq![stream_value(lv[k as int])]);
                }
                streams.push(st);
                proof {
                    lemma_group_new_cover(lv, k as int, old_streams, streams@);
                    lemma_group_new_from(lv, k as int, old_streams, streams@);
                    lemma_group_new_values(lv, k as int, old_streams, streams@);
                }
            },
        }
        k = k + 1;
    }
    proof {
        assert(lv.take(k as int) =~= lv);
    }
    streams
}

proof fn lemma_take_labels(lv: Seq<LogEntryView>, k: int)
    requires
        0 <= k < lv.len(),
    ensures
        forall|j: int| 0 <= j < k ==> #[trigger] lv.take(k + 1)[j] == lv.take(k)[j],
        lv.take(k + 1)[k] == lv[k],
        lv.take(k + 1).len() == k + 1,
{
}

proof fn lemma_values_for_absent(logs: Seq<LogEntryView>, lbl: Map<Seq<char>, Seq<char>>)
    requires
        forall|k: int| 0 <= k < logs.len() ==> #[trigger] logs[k].labels != lbl,
    ensures
        values_for(logs, lbl) == Seq::<(Seq<char>, Seq<char>)>::empty(),
    decreases logs.len(),
{
    if logs.len() > 0 {
        let d = logs.drop_last();
        assert forall|k: int| 0 <= k < d.len() implies #[trigger] d[k].labels != lbl by {
            assert(d[k] == logs[k]);
        }
        lemma_values_for_absent(d, lbl);
    }
}

proof fn lemma_group_found_cover(
    lv: Seq<LogEntryView>,
    k: int,
    old_s: Seq<LokiResultStream>,
    new_s: Seq<LokiResultStream>,
    idx: int,
)
    requires
        0 <= k < lv.len(),
        0 <= idx < old_s.len(),
        streams_cover(lv.take(k), old_s),
        new_s.len() == old_s.len(),
        old_s[idx].stream@ == lv[k].labels,
        new_s[idx].stream@ == old_s[idx].stream@,
        forall|j: int| 0 <= j < old_s.len() && j != idx ==> new_s[j] == old_s[j],
    ensures
        streams_cover(lv.take(k + 1), new_s),
{
    reveal(streams_cover);
    let a = lv.take(k);
    let b = lv.take(k + 1);
    assert forall|m: int| 0 <= m < b.len() implies exists|i: int|
        0 <= i < new_s.len() && new_s[i].stream@ == #[trigger] b[m].labels by {
        if m < k {
            assert(b[m] == a[m]);
            let i = choose|i: int| 0 <= i < old_s.len() && old_s[i].stream@ == #[trigger] a[m].labels;
            assert(new_s[i].stream@ == old_s[i].stream@);
        } else {
            assert(new_s[idx].stream@ == b[m].labels);
        }
    }
}

proof fn lemma_group_found_from(
    lv: Seq<LogEntryView>,
    k: int,
    old_s: Seq<LokiResultStream>,
    new_s: Seq<LokiResultStream>,
    idx: int,
)
    requires
        0 <= k < lv.len(),
        0 <= idx < old_s.len(),
        streams_from(lv.take(k), old_s),
        new_s.len() == old_s.len(),
        new_s[idx].stream@ == old_s[idx].stream@,
        forall|j: int| 0 <= j < old_s.len() && j != idx ==> new_s[j] == old_s[j],
    ensures
        streams_from(lv.take(k + 1), new_s),
{
    reveal(streams_from);
    let a = lv.take(k);
    let b = lv.take(k + 1);
    assert forall|i: int| #![trigger new_s[i]] 0 <= i < new_s.len() implies exists|m: int|
        0 <= m < b.len() && #[trigger] b[m].labels == new_s[i].stream@ by {
        assert(old_s[i] == old_s[i]);
        let m = choose|m: int| 0 <= m < a.len() && #[trigger] a[m].labels == old_s[i].stream@;
        assert(b[m] == a[m]);
        if i != idx {
            assert(new_s[i] == old_s[i]);
        }
    }
}

proof fn lemma_group_found_values(
    lv: Seq<LogEntryView>,
    k: int,
    old_s: Seq<LokiResultStream>,
    new_s: Seq<LokiResultStream>,
    idx: int,
)
    requires
        0 <= k < lv.len(),
        0 <= idx < old_s.len(),
        streams_distinct(old_s),
        streams_values(lv.take(k), old_s),
        new_s.len() == old_s.len(),
        old_s[idx].stream@ == lv[k].labels,
        new_s[idx].stream@ == old_s[idx].stream@,
        stream_value_views(new_s[idx].values@) == stream_value_views(old_s[idx].values@).push(
            stream_value(lv[k]),
        ),
        forall|j: int| 0 <= j < old_s.len() && j != idx ==> new_s[j] == old_s[j],
    ensures
        streams_distinct(new_s),
        streams_values(lv.take(k + 1), new_s),
{
    assert forall|i: int| 0 <= i < new_s.len() implies stream_value_views(
        #[trigger] new_s[i].values@,
    ) == values_for(lv.take(k + 1), new_s[i].stream@) by {
        lemma_values_for_step(lv, k, new_s[i].stream@);
        if i != idx {
            assert(new_s[i] == old_s[i]);
            assert(old_s[i].stream@ != old_s[idx].stream@);
        }
    }
    assert forall|i: int, j: int|
        0 <= i < new_s.len() && 0 <= j < new_s.len() && i != j implies new_s[i].stream@
        != new_s[j].stream@ by {
        if i != idx {
            assert(new_s[i] == old_s[i]);
        }
        if j != idx {
            assert(new_s[j] == old_s[j]);
        }
    }
}

proof fn lemma_group_new_cover(
    lv: Seq<LogEntryView>,
    k: int,
    old_s: Seq<LokiResultStream>,
    new_s: Seq<LokiResultStream>,
)
    requires
        0 <= k < lv.len(),
        streams_cover(lv.take(k), old_s),
        new_s.len() == old_s.len() + 1,
        forall|j: int| 0 <= j < old_s.len() ==> new_s[j] == old_s[j],
        new_s[old_s.len() as int].stream@ == lv[k].labels,
    ensures
        streams_cover(lv.take(k + 1), new_s),
{
    reveal(streams_cover);
    let a = lv.take(k);
    let b = lv.take(k + 1);
    let n = old_s.len() as int;
    assert forall|m: int| 0 <= m < b.len() implies exists|i: int|
        0 <= i < new_s.len() && new_s[i].stream@ == #[trigger] b[m].labels by {
        if m < k {
            assert(b[m] == a[m]);
            let i = choose|i: int| 0 <= i < old_s.len() && old_s[i].stream@ == #[trigger] a[m].labels;
            assert(new_s[i] == old_s[i]);
        } else {
            assert(new_s[n].stream@ == b[m].labels);
        }
    }
}

proof fn lemma_group_new_from(
    lv: Seq<LogEntryView>,
    k: int,
    old_s: Seq<LokiResultStream>,
    new_s: Seq<LokiResultStream>,
)
    requires
        0 <= k < lv.len(),
        streams_from(lv.take(k), old_s),
        new_s.len() == old_s.len() + 1,
        forall|j: int| 0 <= j < old_s.len() ==> new_s[j] == old_s[j],
        new_s[old_s.len() as int].stream@ == lv[k].labels,
    ensures
        streams_from(lv.take(k + 1), new_s),
{
    reveal(streams_from);
    let a = lv.take(k);
    let b = lv.take(k + 1);
    let n = old_s.len() as int;
    assert forall|i: int| #![trigger new_s[i]] 0 <= i < new_s.len() implies exists|m: int|
        0 <= m < b.len() && #[trigger] b[m].labels == new_s[i].stream@ by {
        if i < n {
            assert(old_s[i] == old_s[i]);
            let m = choose|m: int| 0 <= m < a.len() && #[trigger] a[m].labels == old_s[i].stream@;
            assert(b[m] == a[m]);
            assert(new_s[i] == old_s[i]);
        } else {
            assert(b[k] == lv[k]);
        }
    }
}

proof fn lemma_group_new_values(
    lv: Seq<LogEntryView>,
    k: int,
    old_s: Seq<LokiResultStream>,
    new_s: Seq<LokiResultStream>,
)
    requires
        0 <= k < lv.len(),
        streams_distinct(old_s),
        streams_cover(lv.take(k), old_s),
        streams_values(lv.take(k), old_s),
        forall|j: int| 0 <= j < old_s.len() ==> old_s[j].stream@ != lv[k].labels,
        new_s.len() == old_s.len() + 1,
        forall|j: int| 0 <= j < old_s.len() ==> new_s[j] == old_s[j],
        new_s[old_s.len() as int].stream@ == lv[k].labels,
        stream_value_views(new_s[old_s.len() as int].values@) == seq![stream_value(lv[k])],
    ensures
        streams_distinct(new_s),
        streams_values(lv.take(k + 1), new_s),
{
    reveal(streams_cover);
    let a = lv.take(k);
    let n = old_s.len() as int;
    assert forall|m: int| 0 <= m < a.len() implies #[trigger] a[m].labels != lv[k].labels by {
        if a[m].labels == lv[k].labels {
            let j = choose|j: int| 0 <= j < old_s.len() && old_s[j].stream@ == #[trigger] a[m].labels;
        }
    }
    lemma_values_for_absent(a, lv[k].labels);
    assert forall|i: int| 0 <= i < new_s.len() implies stream_value_views(
        #[trigger] new_s[i].values@,
    ) == values_for(lv.take(k + 1), new_s[i].stream@) by {
        lemma_values_for_step(lv, k, new_s[i].stream@);
        if i < n {
            assert(new_s[i] == old_s[i]);
        } else {
            assert(values_for(a, lv[k].labels).push(stream_value(lv[k])) =~= seq![stream_value(lv[k])]);
        }
    }
    assert forall|i: int, j: int|
        0 <= i < new_s.len() && 0 <= j < new_s.len() && i != j implies new_s[i].stream@
        != new_s[j].stream@ by {
        if i < n {
            assert(new_s[i] == old_s[i]);
        }
        if j < n {
            assert(new_s[j] == old_s[j]);
        }
    }
}

/// The answer to a log query: the entries grouped into streams.
pub fn build_streams_response(logs: Vec<LogEntry>) -> (r: LokiQueryResponse)
    ensures
        r.status@ == "success"@,
        r.data.result_type@ == "streams"@,
        streams_answer(entry_views(logs@), r.data.result@),
{
    let result = group_streams(&logs);
    LokiQueryResponse {
        status: "success".to_string(),
        data: LokiQueryData { result_type: "streams".to_string(), result },
    }
}

} // verus!
