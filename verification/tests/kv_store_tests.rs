use std::collections::BTreeMap;

use rgrab::labels::Labels;
use rgrab::log::{LogEntry, LogLevel, Timestamp};
use rgrab::loki::{Direction, LabelMatcher, MatchOp};
use rgrab::storage::{
    KeyVerdict, LogScan, SeekTarget, SortedStrings, collect_label_names, collect_label_value,
    encode_span_key, entry_log_key, finish_label_names, has_prefix, range_continues, range_seek_target,
    recover_sequence, span_key_prefix,
};

// An ordered key-value store standing in for the database: the library
// decides the keys, the scans and the label sets, as the server does.
struct KvStore {
    logs: BTreeMap<Vec<u8>, LogEntry>,
    spans: BTreeMap<Vec<u8>, String>,
    seq: u64,
}

impl KvStore {
    fn open(logs: BTreeMap<Vec<u8>, LogEntry>) -> KvStore {
        let last = logs.keys().next_back().cloned();
        let seq = recover_sequence(last.as_deref());
        KvStore { logs, spans: BTreeMap::new(), seq }
    }

    fn insert_log(&mut self, entry: LogEntry) {
        let key = entry_log_key(entry.timestamp, self.seq).unwrap();
        self.seq += 1;
        self.logs.insert(key.to_vec(), entry);
    }

    fn insert_span(&mut self, trace_id: &str, span_id: &str) {
        self.spans.insert(encode_span_key(trace_id, span_id), span_id.to_string());
    }

    fn query_logs(&self, limit: usize, offset: usize) -> Vec<&LogEntry> {
        self.logs.values().rev().skip(offset).take(limit).collect()
    }

    fn query_spans(&self, trace_id: &str) -> Vec<String> {
        let prefix = span_key_prefix(trace_id);
        let mut out = Vec::new();
        for (k, v) in self.spans.range(prefix.clone()..) {
            if !has_prefix(k, &prefix) {
                break;
            }
            out.push(v.clone());
        }
        out
    }

    fn query_all_spans(&self, limit: usize) -> Vec<String> {
        self.spans.values().rev().take(limit).cloned().collect()
    }

    fn query_logs_filtered(
        &self,
        matchers: Vec<LabelMatcher>,
        start: Option<i64>,
        end: Option<i64>,
        limit: usize,
        direction: Direction,
    ) -> Vec<LogEntry> {
        let mut scan = LogScan::new(matchers, start, end, limit, direction);
        let keys: Vec<&Vec<u8>> = match scan.seek_target() {
            SeekTarget::First => self.logs.keys().collect(),
            SeekTarget::Last => self.logs.keys().rev().collect(),
            SeekTarget::AtOrAfter(k) => self.logs.range(k.to_vec()..).map(|(k, _)| k).collect(),
            SeekTarget::AtOrBefore(k) => self.logs.range(..=k.to_vec()).rev().map(|(k, _)| k).collect(),
        };
        for key in keys {
            if !scan.wants_more() {
                break;
            }
            match scan.classify(key) {
                KeyVerdict::Stop => break,
                KeyVerdict::Skip => {}
                KeyVerdict::Examine => scan.offer(self.logs[key].duplicate()),
            }
        }
        scan.finish()
    }

    fn in_range(&self, start: Option<i64>) -> Vec<(&Vec<u8>, &LogEntry)> {
        match range_seek_target(start) {
            SeekTarget::AtOrAfter(k) => self.logs.range(k.to_vec()..).collect(),
            _ => self.logs.iter().collect(),
        }
    }

    fn label_names(&self, start: Option<i64>, end: Option<i64>) -> Vec<String> {
        let mut names = SortedStrings::new();
        for (k, e) in self.in_range(start) {
            if !range_continues(k, end) {
                break;
            }
            collect_label_names(&mut names, &e.labels);
        }
        finish_label_names(names)
    }

    fn label_values(&self, name: &str, start: Option<i64>, end: Option<i64>) -> Vec<String> {
        let mut values = SortedStrings::new();
        for (k, e) in self.in_range(start) {
            if !range_continues(k, end) {
                break;
            }
            collect_label_value(&mut values, name, e);
        }
        values.into_vec()
    }
}

fn make_test_log(message: &str, level: LogLevel, labels: &[(&str, &str)], secs: i64) -> LogEntry {
    let mut pairs = vec![("service".to_string(), "test".to_string())];
    for (k, v) in labels {
        pairs.retain(|(pk, _)| pk != k);
        pairs.push((k.to_string(), v.to_string()));
    }
    LogEntry {
        timestamp: Timestamp { secs, nanos: 0 },
        level,
        message: message.to_string(),
        labels: Labels::from_pairs(pairs),
        trace_id: None,
        span_id: None,
    }
}

#[test]
fn should_insert_and_query_logs() {
    let mut store = KvStore::open(BTreeMap::new());
    store.insert_log(make_test_log("hello world", LogLevel::Info, &[], 1));
    store.insert_log(make_test_log("error occurred", LogLevel::Error, &[], 1));
    assert_eq!(store.query_logs(10, 0).len(), 2);
}

#[test]
fn should_respect_query_limit() {
    let mut store = KvStore::open(BTreeMap::new());
    for i in 0..5 {
        store.insert_log(make_test_log(&format!("log {i}"), LogLevel::Info, &[], 1));
    }
    let logs = store.query_logs(3, 0);
    assert_eq!(logs.len(), 3);
    assert_eq!(logs[0].message, "log 4");
}

#[test]
fn should_insert_and_query_spans_by_trace_id() {
    let mut store = KvStore::open(BTreeMap::new());
    store.insert_span("trace-a", "span-1");
    store.insert_span("trace-a", "span-2");
    store.insert_span("trace-b", "span-3");
    assert_eq!(store.query_spans("trace-a").len(), 2);
    assert_eq!(store.query_spans("trace-b").len(), 1);
}

#[test]
fn should_query_all_spans_with_limit() {
    let mut store = KvStore::open(BTreeMap::new());
    for i in 0..5 {
        store.insert_span("trace-x", &format!("span-{i}"));
    }
    assert_eq!(store.query_all_spans(3).len(), 3);
}

#[test]
fn should_filter_logs_by_label_eq() {
    let mut store = KvStore::open(BTreeMap::new());
    store.insert_log(make_test_log("web request", LogLevel::Info, &[("service", "web")], 1));
    store.insert_log(make_test_log("api request", LogLevel::Info, &[("service", "api")], 2));
    let matchers = vec![LabelMatcher { name: "service".to_string(), op: MatchOp::Eq, value: "web".to_string() }];
    let logs = store.query_logs_filtered(matchers, None, None, 100, Direction::Backward);
    assert_eq!(logs.len(), 1);
    assert_eq!(logs[0].message, "web request");
}

#[test]
fn should_query_label_names() {
    let mut store = KvStore::open(BTreeMap::new());
    store.insert_log(make_test_log("test", LogLevel::Info, &[("env", "prod")], 1));
    let names = store.label_names(None, None);
    assert!(names.contains(&"service".to_string()));
    assert!(names.contains(&"env".to_string()));
    assert!(names.contains(&"level".to_string()));
}

#[test]
fn should_query_label_values() {
    let mut store = KvStore::open(BTreeMap::new());
    store.insert_log(make_test_log("test1", LogLevel::Info, &[("service", "web")], 1));
    store.insert_log(make_test_log("test2", LogLevel::Error, &[("service", "api")], 2));
    let values = store.label_values("service", None, None);
    assert!(values.contains(&"web".to_string()));
    assert!(values.contains(&"api".to_string()));
}

#[test]
fn should_return_empty_for_nonexistent_trace() {
    let store = KvStore::open(BTreeMap::new());
    assert!(store.query_spans("nonexistent").is_empty());
}

#[test]
fn should_persist_sequence_across_reopens() {
    let mut first = KvStore::open(BTreeMap::new());
    first.insert_log(make_test_log("first", LogLevel::Info, &[], 10));
    let mut second = KvStore::open(first.logs);
    second.insert_log(make_test_log("second", LogLevel::Info, &[], 10));
    assert_eq!(second.query_logs(10, 0).len(), 2);
}

#[test]
fn filtered_queries_honour_time_bounds_and_direction() {
    let mut store = KvStore::open(BTreeMap::new());
    for (i, secs) in [1i64, 2, 3, 4, 5].iter().enumerate() {
        store.insert_log(make_test_log(&format!("m{i}"), LogLevel::Info, &[], *secs));
    }
    let ns = |s: i64| s * 1_000_000_000;
    let fwd = store.query_logs_filtered(vec![], Some(ns(2)), Some(ns(4)), 10, Direction::Forward);
    assert_eq!(fwd.iter().map(|e| e.message.as_str()).collect::<Vec<_>>(), vec!["m1", "m2", "m3"]);
    let back = store.query_logs_filtered(vec![], Some(ns(2)), Some(ns(4)), 2, Direction::Backward);
    assert_eq!(back.iter().map(|e| e.message.as_str()).collect::<Vec<_>>(), vec!["m3", "m2"]);
    let names = store.label_names(Some(ns(6)), None);
    assert_eq!(names, vec!["level".to_string()]);
    let levels = store.label_values("level", None, Some(ns(1)));
    assert_eq!(levels, vec!["info".to_string()]);
}

#[test]
fn filtered_scan_returns_first_matches_within_bounds() {
    let mut store = KvStore::open(BTreeMap::new());
    for secs in 1..=20 {
        let env = if secs % 3 == 0 { "prod" } else { "dev" };
        store.insert_log(make_test_log(&format!("m{}", secs), LogLevel::Info, &[("env", env)], secs));
    }
    let prod = || {
        vec![LabelMatcher {
            name: "env".to_string(),
            op: MatchOp::Eq,
            value: "prod".to_string(),
        }]
    };
    let start = Some(4 * 1_000_000_000);
    let end = Some(17 * 1_000_000_000);
    let msgs = |v: Vec<LogEntry>| v.into_iter().map(|e| e.message).collect::<Vec<_>>();
    // matching entries within [4 s, 17 s]: 6, 9, 12, 15
    assert_eq!(msgs(store.query_logs_filtered(prod(), start, end, 2, Direction::Forward)), vec!["m6", "m9"]);
    assert_eq!(msgs(store.query_logs_filtered(prod(), start, end, 2, Direction::Backward)), vec!["m15", "m12"]);
    assert_eq!(
        msgs(store.query_logs_filtered(prod(), start, end, 10, Direction::Forward)),
        vec!["m6", "m9", "m12", "m15"]
    );
    assert!(store.query_logs_filtered(prod(), start, end, 0, Direction::Forward).is_empty());
}
