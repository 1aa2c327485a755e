use rgrab::labels::Labels;
use rgrab::log::{LogEntry, LogLevel, Timestamp};
use rgrab::span::{Span, SpanStatus};
use rgrab::store::InMemoryStore;

fn log(msg: &str) -> LogEntry {
    LogEntry {
        timestamp: Timestamp { secs: 0, nanos: 0 },
        level: LogLevel::Info,
        message: msg.to_string(),
        labels: Labels::new(),
        trace_id: None,
        span_id: None,
    }
}

fn span(trace: &str, id: &str) -> Span {
    Span {
        trace_id: trace.to_string(),
        span_id: id.to_string(),
        parent_span_id: None,
        operation_name: "op".to_string(),
        service_name: "svc".to_string(),
        start_time: Timestamp { secs: 0, nanos: 0 },
        end_time: Timestamp { secs: 1, nanos: 0 },
        status: SpanStatus::Okay,
        attributes: Labels::new(),
        events: vec![],
    }
}

#[test]
fn logs_come_back_newest_first_with_offset_and_limit() {
    let mut store = InMemoryStore::new();
    for i in 0..5 {
        store.insert_log(log(&format!("log {i}")));
    }
    let all = store.query_logs(10, 0);
    assert_eq!(all.iter().map(|e| e.message.as_str()).collect::<Vec<_>>(), vec!["log 4", "log 3", "log 2", "log 1", "log 0"]);
    let page = store.query_logs(2, 1);
    assert_eq!(page.iter().map(|e| e.message.as_str()).collect::<Vec<_>>(), vec!["log 3", "log 2"]);
    assert!(store.query_logs(3, 5).is_empty());
    assert!(store.query_logs(0, 0).is_empty());
}

#[test]
fn spans_are_found_by_trace() {
    let mut store = InMemoryStore::new();
    store.insert_span(span("trace-a", "span-1"));
    store.insert_span(span("trace-b", "span-3"));
    store.insert_span(span("trace-a", "span-2"));
    let a = store.query_spans("trace-a");
    assert_eq!(a.iter().map(|s| s.span_id.as_str()).collect::<Vec<_>>(), vec!["span-1", "span-2"]);
    assert!(store.query_spans("nonexistent").is_empty());
    let latest = store.query_all_spans(2);
    assert_eq!(latest.iter().map(|s| s.span_id.as_str()).collect::<Vec<_>>(), vec!["span-2", "span-3"]);
}

#[test]
fn the_latest_log_written_is_the_first_read() {
    let mut store = InMemoryStore::new();
    store.insert_log(log("first"));
    store.insert_log(log("second"));
    assert_eq!(store.query_logs(1, 0)[0].message, "second");
}
