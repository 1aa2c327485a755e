//! OpenTelemetry (OTLP) trace requests and their conversion to spans.
use vstd::prelude::*;

use crate::json::JsonValue;
use crate::labels::{Labels, insert_all, keys_unique, lemma_pairs_map_take_step};
use crate::log::{Timestamp, opt_chars};
use crate::span::{Span, SpanEvent, SpanEventView, SpanStatus, SpanView, event_views};
use crate::text::{parse_i64, spec_parse_i64, str_eq};

verus! {

broadcast use vstd::string::group_string_axioms;

/// `ExportTraceServiceRequest`: the body of an OTLP trace push.
pub struct ExportTraceServiceRequest {
    pub resource_spans: Vec<ResourceSpans>,
}

/// The spans of one resource, grouped by instrumentation scope.
pub struct ResourceSpans {
    pub resource: Option<Resource>,
    pub scope_spans: Vec<ScopeSpans>,
}

/// The spans of one instrumentation scope.
pub struct ScopeSpans {
    pub scope: Option<InstrumentationScope>,
    pub spans: Vec<OtlpSpan>,
}

/// The attributes describing a resource.
pub struct Resource {
    pub attributes: Vec<KeyValue>,
}

/// The library that produced a group of spans.
pub struct InstrumentationScope {
    pub name: String,
    pub version: String,
}

/// A span as OTLP sends it.
pub struct OtlpSpan {
    pub trace_id: String,
    pub span_id: String,
    pub parent_span_id: String,
    pub name: String,
    pub kind: u32,
    pub start_time_unix_nano: StringOrInt,
    pub end_time_unix_nano: StringOrInt,
    pub attributes: Vec<KeyValue>,
    pub events: Vec<OtlpEvent>,
    pub status: Option<OtlpStatus>,
}

/// A span event as OTLP sends it.
pub struct OtlpEvent {
    pub name: String,
    pub time_unix_nano: StringOrInt,
    pub attributes: Vec<KeyValue>,
}

/// A span status as OTLP sends it: 1 is OK, 2 is ERROR.
pub struct OtlpStatus {
    pub code: u32,
    pub message: String,
}

/// One attribute.
pub struct KeyValue {
    pub key: String,
    pub value: Option<AnyValue>,
}

/// An attribute value. `double_value` holds the decimal text of the number
/// that was sent.
pub struct AnyValue {
    pub string_value: Option<String>,
    pub int_value: Option<JsonValue>,
    pub double_value: Option<String>,
    pub bool_value: Option<bool>,
}

/// A nanosecond timestamp that OTLP sends either as a string or as a number.
#[derive(Debug, Default, Clone, Copy)]
pub struct StringOrInt(pub i64);

impl StringOrInt {
    /// The timestamp a JSON value stands for: a string that parses as `i64`, an
    /// integer that fits `i64`, and `0` for anything else.
    pub fn deserialize(v: &JsonValue) -> (r: StringOrInt)
        ensures
            r.0 == (match v {
                JsonValue::Str(s) => match spec_parse_i64(s@) {
                    Some(n) => n,
                    None => 0,
                },
                JsonValue::Number { as_i64, .. } => match as_i64 {
                    Some(n) => *n,
                    None => 0,
                },
                _ => 0,
            }),
    {
        match v {
            JsonValue::Str(s) => match parse_i64(s.as_str()) {
                Some(n) => StringOrInt(n),
                None => StringOrInt(0),
            },
            JsonValue::Number { as_i64, .. } => match as_i64 {
                Some(n) => StringOrInt(*n),
                None => StringOrInt(0),
            },
            _ => StringOrInt(0),
        }
    }
}

pub const SPAN_KIND_INTERNAL: u32 = 1;

pub const SPAN_KIND_SERVER: u32 = 2;

pub const SPAN_KIND_CLIENT: u32 = 3;

pub const SPAN_KIND_PRODUCER: u32 = 4;

pub const SPAN_KIND_CONSUMER: u32 = 5;

/// The text of an attribute value: the first of string, integer, double and
/// boolean that is present, and the empty string when none is.
pub open spec fn any_value_text(v: AnyValue) -> Seq<char> {
    match v.string_value {
        Some(s) => s@,
        None => match v.int_value {
            Some(j) => match j {
                JsonValue::Str(s) => s@,
                JsonValue::Number { text, .. } => text@,
                JsonValue::Object { text, .. } => text@,
                JsonValue::Other { text } => text@,
            },
            None => match v.double_value {
                Some(d) => d@,
                None => match v.bool_value {
                    Some(b) => if b {
                        "true"@
                    } else {
                        "false"@
                    },
                    None => Seq::empty(),
                },
            },
        },
    }
}

fn any_value_to_string(v: &AnyValue) -> (r: String)
    ensures
        r@ == any_value_text(*v),
{
    if let Some(s) = &v.string_value {
        return s.clone();
    }
    if let Some(i) = &v.int_value {
        return match i {
            JsonValue::Str(s) => s.clone(),
            JsonValue::Number { text, .. } => text.clone(),
            JsonValue::Object { text, .. } => text.clone(),
            JsonValue::Other { text } => text.clone(),
        };
    }
    if let Some(d) = &v.double_value {
        return d.clone();
    }
    if let Some(b) = v.bool_value {
        return if b {
            "true".to_string()
        } else {
            "false".to_string()
        };
    }
    String::new()
}

/// The (name, text) pairs of the attributes that carry a value, in order.
pub open spec fn kv_pairs(attrs: Seq<KeyValue>) -> Seq<(Seq<char>, Seq<char>)>
    decreases attrs.len(),
{
    if attrs.len() == 0 {
        Seq::empty()
    } else {
        let rest = kv_pairs(attrs.drop_last());
        match attrs.last().value {
            Some(v) => rest.push((attrs.last().key@, any_value_text(v))),
            None => rest,
        }
    }
}

/// The attribute map: each attribute with a value, a later one replacing an
/// earlier one of the same name.
pub open spec fn kv_map(attrs: Seq<KeyValue>) -> Map<Seq<char>, Seq<char>> {
    insert_all(kv_pairs(attrs))
}

/// Whether attribute `j` of `attrs` is named `k` and carries a value.
pub open spec fn valued_at(attrs: Seq<KeyValue>, j: int, k: Seq<char>) -> bool {
    0 <= j < attrs.len() && attrs[j].key@ == k && attrs[j].value is Some
}

proof fn lemma_kv_map_step(attrs: Seq<KeyValue>)
    requires
        attrs.len() > 0,
    ensures
        kv_map(attrs) == (match attrs.last().value {
            Some(v) => kv_map(attrs.drop_last()).insert(attrs.last().key@, any_value_text(v)),
            None => kv_map(attrs.drop_last()),
        }),
{
    let ps = kv_pairs(attrs.drop_last());
    if let Some(v) = attrs.last().value {
        assert(ps.push((attrs.last().key@, any_value_text(v))).drop_last() =~= ps);
    }
}

proof fn lemma_kv_map_has(attrs: Seq<KeyValue>, k: Seq<char>)
    ensures
        kv_map(attrs).contains_key(k) == (exists|j: int| valued_at(attrs, j, k)),
    decreases attrs.len(),
{
    if attrs.len() > 0 {
        let p = attrs.drop_last();
        let n = attrs.len() - 1;
        lemma_kv_map_has(p, k);
        lemma_kv_map_step(attrs);
        if exists|j: int| valued_at(attrs, j, k) {
            let j = choose|j: int| valued_at(attrs, j, k);
            if j < n {
                assert(attrs[j] == p[j]);
                assert(valued_at(p, j, k));
            }
        }
        if exists|j: int| valued_at(p, j, k) {
            let j = choose|j: int| valued_at(p, j, k);
            assert(attrs[j] == p[j]);
            assert(valued_at(attrs, j, k));
        }
        if valued_at(attrs, n, k) {
            assert(kv_map(attrs).contains_key(k));
        }
    }
}

proof fn lemma_kv_map_last(attrs: Seq<KeyValue>, k: Seq<char>, j: int)
    requires
        valued_at(attrs, j, k),
        forall|j2: int| j < j2 ==> !valued_at(attrs, j2, k),
    ensures
        kv_map(attrs)[k] == any_value_text(attrs[j].value->0),
    decreases attrs.len(),
{
    let p = attrs.drop_last();
    let n = attrs.len() - 1;
    lemma_kv_map_step(attrs);
    if j < n {
        assert(!valued_at(attrs, n, k));
        assert(attrs[j] == p[j]);
        assert forall|j2: int| j < j2 implies !valued_at(p, j2, k) by {
            if j2 < n {
                assert(attrs[j2] == p[j2]);
                assert(!valued_at(attrs, j2, k));
            }
        }
        lemma_kv_map_last(p, k, j);
        lemma_kv_map_has(p, k);
    }
}

/// The attribute map holds a name exactly when some attribute of that name
/// carries a value, and then it holds the text of the last such value.
pub proof fn lemma_kv_map_meaning(attrs: Seq<KeyValue>, k: Seq<char>)
    ensures
        kv_map(attrs).contains_key(k) == (exists|j: int| valued_at(attrs, j, k)),
        forall|j: int|
            valued_at(attrs, j, k) && (forall|j2: int| j < j2 ==> !valued_at(attrs, j2, k))
                ==> kv_map(attrs)[k] == any_value_text(#[trigger] attrs[j].value->0),
{
    lemma_kv_map_has(attrs, k);
    assert forall|j: int|
        valued_at(attrs, j, k) && (forall|j2: int| j < j2 ==> !valued_at(attrs, j2, k))
            implies kv_map(attrs)[k] == any_value_text(#[trigger] attrs[j].value->0) by {
        lemma_kv_map_last(attrs, k, j);
    }
}

fn kv_to_hashmap(attrs: &Vec<KeyValue>) -> (r: Labels)
    ensures
        r@ == kv_map(attrs@),
{
    let mut out = Labels::new();
    let mut i: usize = 0;
    while i < attrs.len()
        invariant
            i <= attrs.len(),
            out@ == kv_map(attrs@.take(i as int)),
        decreases attrs.len() - i,
    {
        proof {
            assert(attrs@.take(i + 1).drop_last() =~= attrs@.take(i as int));
            assert(attrs@.take(i + 1).last() == attrs@[i as int]);
        }
        match &attrs[i].value {
            Some(v) => {
                let text = any_value_to_string(v);
                let key = attrs[i].key.clone();
                proof {
                    let p = kv_pairs(attrs@.take(i + 1));
                    assert(p == kv_pairs(attrs@.take(i as int)).push((key@, text@)));
                    assert(p.drop_last() =~= kv_pairs(attrs@.take(i as int)));
                }
                out.insert(key, text);
            },
            None => {},
        }
        i = i + 1;
    }
    proof {
        assert(attrs@.take(i as int) =~= attrs@);
    }
    out
}

/// The position of the first attribute named `key`.
pub open spec fn first_key_index(attrs: Seq<KeyValue>, key: Seq<char>, from: int) -> int
    decreases attrs.len() - from,
{
    if from < 0 || from >= attrs.len() {
        attrs.len() as int
    } else if attrs[from].key@ == key {
        from
    } else {
        first_key_index(attrs, key, from + 1)
    }
}

/// The value of the first attribute named `key` (which may itself be absent).
pub open spec fn spec_find_attribute(attrs: Seq<KeyValue>, key: Seq<char>) -> Option<AnyValue> {
    let i = first_key_index(attrs, key, 0);
    if i < attrs.len() {
        attrs[i].value
    } else {
        None
    }
}

fn find_attribute<'a>(attrs: &'a Vec<KeyValue>, key: &str) -> (r: Option<&'a AnyValue>)
    ensures
        match r {
            Some(v) => spec_find_attribute(attrs@, key@) == Some(*v),
            None => spec_find_attribute(attrs@, key@) is None,
        },
{
    let mut i: usize = 0;
    while i < attrs.len()
        invariant
            i <= attrs.len(),
            first_key_index(attrs@, key@, i as int) == first_key_index(attrs@, key@, 0),
        decreases attrs.len() - i,
    {
        if str_eq(attrs[i].key.as_str(), key) {
            return match &attrs[i].value {
                Some(v) => Some(v),
                None => None,
            };
        }
        i = i + 1;
    }
    None
}

/// The status a span gets from its OTLP status.
pub open spec fn spec_convert_status(status: Option<OtlpStatus>) -> SpanStatus {
    match status {
        Some(s) => if s.code == 1 {
            SpanStatus::Okay
        } else if s.code == 2 {
            SpanStatus::Error
        } else {
            SpanStatus::Unset
        },
        None => SpanStatus::Unset,
    }
}

fn convert_status(status: Option<&OtlpStatus>) -> (r: SpanStatus)
    ensures
        r == spec_convert_status(
            match status {
                Some(s) => Some(*s),
                None => None,
            },
        ),
{
    match status {
        Some(s) => if s.code == 1 {
            SpanStatus::Okay
        } else if s.code == 2 {
            SpanStatus::Error
        } else {
            SpanStatus::Unset
        },
        None => SpanStatus::Unset,
    }
}

/// The name of an OTLP span kind.
pub open spec fn spec_span_kind_str(kind: u32) -> Seq<char> {
    if kind == SPAN_KIND_INTERNAL {
        "internal"@
    } else if kind == SPAN_KIND_SERVER {
        "server"@
    } else if kind == SPAN_KIND_CLIENT {
        "client"@
    } else if kind == SPAN_KIND_PRODUCER {
        "producer"@
    } else if kind == SPAN_KIND_CONSUMER {
        "consumer"@
    } else {
        "unspecified"@
    }
}

fn span_kind_str(kind: u32) -> (r: &'static str)
    ensures
        r@ == spec_span_kind_str(kind),
{
    if kind == SPAN_KIND_INTERNAL {
        "internal"
    } else if kind == SPAN_KIND_SERVER {
        "server"
    } else if kind == SPAN_KIND_CLIENT {
        "client"
    } else if kind == SPAN_KIND_PRODUCER {
        "producer"
    } else if kind == SPAN_KIND_CONSUMER {
        "consumer"
    } else {
        "unspecified"
    }
}

/// No parent for an empty id, the id otherwise.
pub open spec fn spec_optional_parent(id: Seq<char>) -> Option<Seq<char>> {
    if id.len() == 0 {
        None
    } else {
        Some(id)
    }
}

fn optional_parent(parent_span_id: &str) -> (r: Option<String>)
    ensures
        opt_chars(r) == spec_optional_parent(parent_span_id@),
{
    if parent_span_id.is_empty() {
        None
    } else {
        Some(parent_span_id.to_string())
    }
}

/// The event a span gets from an OTLP event.
pub open spec fn spec_convert_event(e: OtlpEvent) -> SpanEventView {
    SpanEventView {
        name: e.name@,
        timestamp: Timestamp {
            secs: (e.time_unix_nano.0 / crate::log::NANOS_PER_SEC) as i64,
            nanos: (e.time_unix_nano.0 % crate::log::NANOS_PER_SEC) as u32,
        },
        attributes: kv_map(e.attributes@),
    }
}

fn convert_event(event: &OtlpEvent) -> (r: SpanEvent)
    ensures
        r@ == spec_convert_event(*event),
{
    SpanEvent {
        name: event.name.clone(),
        timestamp: Timestamp::from_nanos(event.time_unix_nano.0),
        attributes: kv_to_hashmap(&event.attributes),
    }
}

/// The attributes of a converted span: its own attributes, then every resource
/// attribute it does not set itself, then `span.kind` when the kind is set and
/// no attribute already has that name.
pub open spec fn spec_span_attributes(
    s: OtlpSpan,
    resource_attrs: Map<Seq<char>, Seq<char>>,
) -> Map<Seq<char>, Seq<char>> {
    let merged = resource_attrs.union_prefer_right(kv_map(s.attributes@));
    if s.kind > 0 && !merged.contains_key("span.kind"@) {
        merged.insert("span.kind"@, spec_span_kind_str(s.kind))
    } else {
        merged
    }
}

fn build_span_attributes(otlp_span: &OtlpSpan, resource_attrs: &Labels) -> (r: Labels)
    ensures
        r@ == spec_span_attributes(*otlp_span, resource_attrs@),
{
    let mut attributes = kv_to_hashmap(&otlp_span.attributes);
    let ghost own = attributes@;
    let mut i: usize = 0;
    let n = resource_attrs.len();
    while i < n
        invariant
            n == resource_attrs.entries().len(),
            i <= n,
            keys_unique(resource_attrs.entries()),
            resource_attrs@ == crate::labels::pairs_map(resource_attrs.entries()),
            own == kv_map(otlp_span.attributes@),
            attributes@ == crate::labels::pairs_map(resource_attrs.entries().take(i as int))
                .union_prefer_right(own),
        decreases n - i,
    {
        let k = resource_attrs.key_at(i);
        if !attributes.contains_key(k.as_str()) {
            let v = resource_attrs.value_at(i);
            attributes.insert(k.clone(), v.clone());
        }
        proof {
            lemma_pairs_map_take_step(resource_attrs.entries(), i as int);
            assert(attributes@ =~= crate::labels::pairs_map(resource_attrs.entries().take(i + 1))
                .union_prefer_right(own));
        }
        i = i + 1;
    }
    proof {
        assert(resource_attrs.entries().take(i as int) =~= resource_attrs.entries());
        assert(attributes@ =~= resource_attrs@.union_prefer_right(own));
    }
    if otlp_span.kind > 0 {
        if !attributes.contains_key("span.kind") {
            attributes.insert("span.kind".to_string(), span_kind_str(otlp_span.kind).to_string());
        }
    }
    attributes
}

/// The span an OTLP span becomes, given its service name and resource attributes.
pub open spec fn spec_convert_span(
    s: OtlpSpan,
    service_name: Seq<char>,
    resource_attrs: Map<Seq<char>, Seq<char>>,
) -> SpanView {
    SpanView {
        trace_id: s.trace_id@,
        span_id: s.span_id@,
        parent_span_id: spec_optional_parent(s.parent_span_id@),
        operation_name: s.name@,
        service_name,
        start_time: Timestamp {
            secs: (s.start_time_unix_nano.0 / crate::log::NANOS_PER_SEC) as i64,
            nanos: (s.start_time_unix_nano.0 % crate::log::NANOS_PER_SEC) as u32,
        },
        end_time: Timestamp {
            secs: (s.end_time_unix_nano.0 / crate::log::NANOS_PER_SEC) as i64,
            nanos: (s.end_time_unix_nano.0 % crate::log::NANOS_PER_SEC) as u32,
        },
        status: spec_convert_status(s.status),
        attributes: spec_span_attributes(s, resource_attrs),
        events: s.events@.map_values(|e: OtlpEvent| spec_convert_event(e)),
    }
}

/// Every event of a converted span keeps the name of its own OTLP event, and
/// its time is the event's nanoseconds split into whole seconds and a remainder
/// below one second.
pub proof fn lemma_converted_event_name_and_time(
    s: OtlpSpan,
    service_name: Seq<char>,
    resource_attrs: Map<Seq<char>, Seq<char>>,
    i: int,
)
    requires
        0 <= i < s.events@.len(),
    ensures
        ({
            let got = spec_convert_span(s, service_name, resource_attrs).events[i];
            let e = s.events@[i];
            &&& got.name == e.name@
            &&& got.timestamp.secs * 1_000_000_000 + got.timestamp.nanos == e.time_unix_nano.0
            &&& got.timestamp.nanos < 1_000_000_000
        }),
{
    let n = s.events@[i].time_unix_nano.0;
    assert(n == (n / crate::log::NANOS_PER_SEC) * 1_000_000_000 + n % crate::log::NANOS_PER_SEC)
        by (nonlinear_arith);
}

/// Every event of a converted span carries the attributes of its own OTLP
/// event: a name is present exactly when one of that event's attributes of that
/// name carries a value, and it then has the text of the last such value.
pub proof fn lemma_converted_event_attributes(
    s: OtlpSpan,
    service_name: Seq<char>,
    resource_attrs: Map<Seq<char>, Seq<char>>,
    i: int,
    k: Seq<char>,
)
    requires
        0 <= i < s.events@.len(),
    ensures
        ({
            let got = spec_convert_span(s, service_name, resource_attrs).events[i].attributes;
            let a = s.events@[i].attributes@;
            &&& got.contains_key(k) == (exists|j: int| valued_at(a, j, k))
            &&& forall|j: int|
                valued_at(a, j, k) && (forall|j2: int| j < j2 ==> !valued_at(a, j2, k)) ==> got[k]
                    == any_value_text(#[trigger] a[j].value->0)
        }),
{
    lemma_kv_map_meaning(s.events@[i].attributes@, k);
}

/// Converts one OTLP span.
pub fn convert_otlp_span(otlp_span: &OtlpSpan, service_name: &str, resource_attrs: &Labels) -> (r:
    Span)
    ensures
        r@ == spec_convert_span(*otlp_span, service_name@, resource_attrs@),
{
    let attributes = build_span_attributes(otlp_span, resource_attrs);
    let parent = optional_parent(otlp_span.parent_span_id.as_str());
    let mut events: Vec<SpanEvent> = Vec::new();
    let mut i: usize = 0;
    while i < otlp_span.events.len()
        invariant
            i <= otlp_span.events.len(),
            event_views(events@) =~= otlp_span.events@.take(i as int).map_values(
                |e: OtlpEvent| spec_convert_event(e),
            ),
        decreases otlp_span.events.len() - i,
    {
        let e = convert_event(&otlp_span.events[i]);
        let ghost before = events@;
        events.push(e);
        proof {
            assert(events@ == before.push(e));
            assert(event_views(events@) =~= event_views(before).push(e@));
            assert(otlp_span.events@.take(i + 1).map_values(|e: OtlpEvent| spec_convert_event(e))
                =~= otlp_span.events@.take(i as int).map_values(
                |e: OtlpEvent| spec_convert_event(e),
            ).push(spec_convert_event(otlp_span.events@[i as int])));
        }
        i = i + 1;
    }
    proof {
        assert(otlp_span.events@.take(i as int) =~= otlp_span.events@);
    }
    Span {
        trace_id: otlp_span.trace_id.clone(),
        span_id: otlp_span.span_id.clone(),
        parent_span_id: parent,
        operation_name: otlp_span.name.clone(),
        service_name: service_name.to_string(),
        start_time: Timestamp::from_nanos(otlp_span.start_time_unix_nano.0),
        end_time: Timestamp::from_nanos(otlp_span.end_time_unix_nano.0),
        status: convert_status(
            match &otlp_span.status {
                Some(s) => Some(s),
                None => None,
            },
        ),
        attributes,
        events,
    }
}

/// The views of a list of spans.
pub open spec fn span_views(v: Seq<Span>) -> Seq<SpanView> {
    v.map_values(|s: Span| s@)
}

/// The spans of all scopes, scope by scope.
pub open spec fn scope_spans_flat(ss: Seq<ScopeSpans>) -> Seq<OtlpSpan>
    decreases ss.len(),
{
    if ss.len() == 0 {
        Seq::empty()
    } else {
        scope_spans_flat(ss.drop_last()) + ss.last().spans@
    }
}

/// The service name of a resource: the text of its first `service.name`
/// attribute, or the empty string.
pub open spec fn resource_service_name(rs: ResourceSpans) -> Seq<char> {
    match rs.resource {
        Some(r) => match spec_find_attribute(r.attributes@, "service.name"@) {
            Some(v) => any_value_text(v),
            None => Seq::empty(),
        },
        None => Seq::empty(),
    }
}

/// The attribute map of a resource (empty without one).
pub open spec fn resource_attr_map(rs: ResourceSpans) -> Map<Seq<char>, Seq<char>> {
    match rs.resource {
        Some(r) => kv_map(r.attributes@),
        None => Map::empty(),
    }
}

/// The converted spans of one resource, in order.
pub open spec fn spec_resource_spans(rs: ResourceSpans) -> Seq<SpanView> {
    scope_spans_flat(rs.scope_spans@).map_values(
        |s: OtlpSpan| spec_convert_span(s, resource_service_name(rs), resource_attr_map(rs)),
    )
}

/// The converted spans of all resources, resource by resource.
pub open spec fn spec_extract_spans(rss: Seq<ResourceSpans>) -> Seq<SpanView>
    decreases rss.len(),
{
    if rss.len() == 0 {
        Seq::empty()
    } else {
        spec_extract_spans(rss.drop_last()) + spec_resource_spans(rss.last())
    }
}

/// All spans of a request, converted.
pub fn extract_spans(req: &ExportTraceServiceRequest) -> (r: Vec<Span>)
    ensures
        span_views(r@) == spec_extract_spans(req.resource_spans@),
{
    let mut out: Vec<Span> = Vec::new();
    let mut i: usize = 0;
    while i < req.resource_spans.len()
        invariant
            i <= req.resource_spans.len(),
            span_views(out@) =~= spec_extract_spans(req.resource_spans@.take(i as int)),
        decreases req.resource_spans.len() - i,
    {
        let mut part = extract_resource_spans(&req.resource_spans[i]);
        let ghost before = out@;
        let ghost pv = part@;
        out.append(&mut part);
        proof {
            let t = req.resource_spans@.take(i + 1);
            assert(t.drop_last() =~= req.resource_spans@.take(i as int));
            assert(t.last() == req.resource_spans@[i as int]);
            assert(out@ == before + pv);
            assert(span_views(out@) =~= span_views(before) + span_views(pv));
        }
        i = i + 1;
    }
    proof {
        assert(req.resource_spans@.take(i as int) =~= req.resource_spans@);
    }
    out
}

fn extract_resource_spans(rs: &ResourceSpans) -> (r: Vec<Span>)
    ensures
        span_views(r@) == spec_resource_spans(*rs),
{
    let resource_attrs = match &rs.resource {
        Some(r) => kv_to_hashmap(&r.attributes),
        None => Labels::new(),
    };
    let service_name = match &rs.resource {
        Some(r) => match find_attribute(&r.attributes, "service.name") {
            Some(v) => any_value_to_string(v),
            None => String::new(),
        },
        None => String::new(),
    };
    let ghost svc = resource_service_name(*rs);
    let ghost attrs = resource_attr_map(*rs);
    assert(service_name@ == svc);
    assert(resource_attrs@ == attrs);
    let mut out: Vec<Span> = Vec::new();
    let mut si: usize = 0;
    while si < rs.scope_spans.len()
        invariant
            si <= rs.scope_spans.len(),
            service_name@ == svc,
            resource_attrs@ == attrs,
            svc == resource_service_name(*rs),
            attrs == resource_attr_map(*rs),
            span_views(out@) =~= scope_spans_flat(rs.scope_spans@.take(si as int)).map_values(
                |s: OtlpSpan| spec_convert_span(s, svc, attrs),
            ),
        decreases rs.scope_spans.len() - si,
    {
        let spans = &rs.scope_spans[si].spans;
        let ghost base = out@;
        let mut j: usize = 0;
        while j < spans.len()
            invariant
                j <= spans.len(),
                service_name@ == svc,
                resource_attrs@ == attrs,
                span_views(out@) =~= span_views(base) + spans@.take(j as int).map_values(
                    |s: OtlpSpan| spec_convert_span(s, svc, attrs),
                ),
            decreases spans.len() - j,
        {
            let sp = convert_otlp_span(&spans[j], service_name.as_str(), &resource_attrs);
            let ghost before = out@;
            out.push(sp);
            proof {
                assert(out@ == before.push(sp));
                assert(span_views(out@) =~= span_views(before).push(sp@));
                assert(spans@.take(j + 1).map_values(|s: OtlpSpan| spec_convert_span(s, svc, attrs))
                    =~= spans@.take(j as int).map_values(
                    |s: OtlpSpan| spec_convert_span(s, svc, attrs),
                ).push(spec_convert_span(spans@[j as int], svc, attrs)));
            }
            j = j + 1;
        }
        proof {
            assert(spans@.take(j as int) =~= spans@);
            let t = rs.scope_spans@.take(si + 1);
            assert(t.drop_last() =~= rs.scope_spans@.take(si as int));
            assert(t.last() == rs.scope_spans@[si as int]);
            assert(scope_spans_flat(t) == scope_spans_flat(rs.scope_spans@.take(si as int))
                + spans@);
            assert((scope_spans_flat(rs.scope_spans@.take(si as int)) + spans@).map_values(
                |s: OtlpSpan| spec_convert_span(s, svc, attrs),
            ) =~= scope_spans_flat(rs.scope_spans@.take(si as int)).map_values(
                |s: OtlpSpan| spec_convert_span(s, svc, attrs),
            ) + spans@.map_values(|s: OtlpSpan| spec_convert_span(s, svc, attrs)));
        }
        si = si + 1;
    }
    proof {
        assert(rs.scope_spans@.take(si as int) =~= rs.scope_spans@);
    }
    out
}

} // verus!
