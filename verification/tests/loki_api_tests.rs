use rgrab::json::JsonValue;
use rgrab::labels::Labels;
use rgrab::log::{LogEntry, LogLevel, Timestamp, level_label};
use rgrab::loki::{Direction, LokiPushRequest, LokiStream, MatchOp};
use rgrab::loki_api::{
    build_streams_response, default_limit, group_streams, parse_log_level, parse_time_param,
    plan_instant_query, plan_range_query, push_entries,
};

fn labels_of(pairs: &[(&str, &str)]) -> Labels {
    Labels::from_pairs(pairs.iter().map(|(k, v)| (k.to_string(), v.to_string())).collect())
}

fn entry(nanos: i64, msg: &str, labels: Labels) -> LogEntry {
    LogEntry {
        timestamp: Timestamp::from_nanos(nanos),
        level: LogLevel::Info,
        message: msg.to_string(),
        labels,
        trace_id: None,
        span_id: None,
    }
}

#[test]
fn default_limit_is_one_hundred() {
    assert_eq!(default_limit(), 100);
}

#[test]
fn level_labels_are_read_case_insensitively() {
    assert_eq!(parse_log_level("trace"), Some(LogLevel::Trace));
    assert_eq!(parse_log_level("DEBUG"), Some(LogLevel::Debug));
    assert_eq!(parse_log_level("Info"), Some(LogLevel::Info));
    assert_eq!(parse_log_level("warning"), Some(LogLevel::Warn));
    assert_eq!(parse_log_level("WARN"), Some(LogLevel::Warn));
    assert_eq!(parse_log_level("err"), Some(LogLevel::Error));
    assert_eq!(parse_log_level("Error"), Some(LogLevel::Error));
    assert_eq!(parse_log_level("critical"), Some(LogLevel::Fatal));
    assert_eq!(parse_log_level("fatal"), Some(LogLevel::Fatal));
    assert_eq!(parse_log_level("notice"), None);
    assert_eq!(parse_log_level(""), None);
}

#[test]
fn pushed_values_become_entries() {
    let meta = JsonValue::Object {
        text: "{\"trace_id\":\"abc\",\"span_id\":\"def\"}".to_string(),
        string_fields: labels_of(&[("trace_id", "abc"), ("span_id", "def")]),
    };
    let req = LokiPushRequest {
        streams: vec![
            LokiStream {
                stream: labels_of(&[("service", "web"), ("level", "ERROR")]),
                values: vec![
                    vec![JsonValue::Str("1700000000123456789".to_string()), JsonValue::Str("boom".to_string()), meta],
                    vec![JsonValue::Str("not a number".to_string())],
                ],
            },
            LokiStream {
                stream: labels_of(&[("service", "api")]),
                values: vec![vec![
                    JsonValue::Str("-1".to_string()),
                    JsonValue::Number { text: "5".to_string(), as_i64: Some(5) },
                ]],
            },
        ],
    };
    let entries = push_entries(&req);
    assert_eq!(entries.len(), 3);
    assert_eq!(entries[0].timestamp, Timestamp { secs: 1700000000, nanos: 123456789 });
    assert_eq!(entries[0].level, LogLevel::Error);
    assert_eq!(entries[0].message, "boom");
    assert_eq!(entries[0].trace_id.as_deref(), Some("abc"));
    assert_eq!(entries[0].span_id.as_deref(), Some("def"));
    assert_eq!(entries[0].labels.get("service").map(|s| s.as_str()), Some("web"));
    assert_eq!(entries[1].timestamp, Timestamp { secs: 0, nanos: 0 });
    assert_eq!(entries[1].message, "");
    assert_eq!(entries[1].level, LogLevel::Error);
    assert_eq!(entries[2].timestamp, Timestamp { secs: -1, nanos: 999_999_999 });
    assert_eq!(entries[2].level, LogLevel::Info);
    assert_eq!(entries[2].message, "");
    assert!(entries[2].trace_id.is_none());
}

#[test]
fn time_parameters_are_nanoseconds_or_absent() {
    assert_eq!(parse_time_param(&Some("1700000000000000000".to_string())), Some(1700000000000000000));
    assert_eq!(parse_time_param(&Some("-5".to_string())), Some(-5));
    assert_eq!(parse_time_param(&Some("12x".to_string())), None);
    assert_eq!(parse_time_param(&None), None);
}

#[test]
fn queries_are_planned_from_their_parameters() {
    let p = plan_instant_query("{service=\"web\"}", 10, &Some("99".to_string()), Direction::Forward).unwrap();
    assert_eq!(p.matchers.len(), 1);
    assert_eq!(p.matchers[0].name, "service");
    assert_eq!(p.matchers[0].op, MatchOp::Eq);
    assert_eq!(p.matchers[0].value, "web");
    assert_eq!(p.start, None);
    assert_eq!(p.end, Some(99));
    assert_eq!(p.limit, 10);
    assert_eq!(p.direction, Direction::Forward);

    let r = plan_range_query("{}", 5, &Some("1".to_string()), &Some("2".to_string()), Direction::Backward).unwrap();
    assert_eq!(r.matchers.len(), 0);
    assert_eq!(r.start, Some(1));
    assert_eq!(r.end, Some(2));

    assert!(plan_instant_query("service=\"web\"", 10, &None, Direction::Backward).is_err());
    assert!(plan_range_query("{a=}", 10, &None, &None, Direction::Backward).is_err());
}

#[test]
fn results_are_grouped_by_label_set_in_first_seen_order() {
    let logs = vec![
        entry(1000, "a", labels_of(&[("service", "web")])),
        entry(2000, "b", labels_of(&[("service", "api")])),
        entry(3000, "c", labels_of(&[("service", "web")])),
    ];
    let streams = group_streams(&logs);
    assert_eq!(streams.len(), 2);
    assert_eq!(streams[0].stream.get("service").map(|s| s.as_str()), Some("web"));
    assert_eq!(streams[0].values.len(), 2);
    assert_eq!(streams[0].values[0], ["1000".to_string(), "a".to_string()]);
    assert_eq!(streams[0].values[1], ["3000".to_string(), "c".to_string()]);
    assert_eq!(streams[1].values, vec![["2000".to_string(), "b".to_string()]]);
}

#[test]
fn query_response_reports_success_with_streams() {
    let resp = build_streams_response(vec![entry(-1, "old", Labels::new())]);
    assert_eq!(resp.status, "success");
    assert_eq!(resp.data.result_type, "streams");
    assert_eq!(resp.data.result.len(), 1);
    assert_eq!(resp.data.result[0].values[0][0], "-1");
    let empty = build_streams_response(vec![]);
    assert!(empty.data.result.is_empty());
}

#[test]
fn a_level_label_names_its_level() {
    let levels = [
        LogLevel::Trace,
        LogLevel::Debug,
        LogLevel::Info,
        LogLevel::Warn,
        LogLevel::Error,
        LogLevel::Fatal,
    ];
    for level in levels {
        assert_eq!(parse_log_level(&level_label(level)), Some(level));
    }
}
