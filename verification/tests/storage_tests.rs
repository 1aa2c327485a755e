use rgrab::labels::Labels;
use rgrab::log::{LogEntry, LogLevel, Timestamp};
use rgrab::loki::{Direction, LabelMatcher, MatchOp};
use rgrab::storage::{
    KeyVerdict, LogScan, SeekTarget, SortedStrings, collect_label_names, collect_label_value,
    decode_log_key, encode_log_key, encode_span_key, entry_log_key, finish_label_names, has_prefix,
    range_continues, range_seek_target, recover_sequence, span_key_prefix,
};

fn labels_of(pairs: &[(&str, &str)]) -> Labels {
    Labels::from_pairs(pairs.iter().map(|(k, v)| (k.to_string(), v.to_string())).collect())
}

fn entry(level: LogLevel, labels: Labels) -> LogEntry {
    LogEntry {
        timestamp: Timestamp { secs: 1, nanos: 0 },
        level,
        message: "m".to_string(),
        labels,
        trace_id: None,
        span_id: None,
    }
}

#[test]
fn log_keys_are_big_endian_time_then_sequence() {
    let k = encode_log_key(1, 2);
    assert_eq!(k, [0, 0, 0, 0, 0, 0, 0, 1, 0, 0, 0, 0, 0, 0, 0, 2]);
    let neg = encode_log_key(-1, 0);
    assert_eq!(&neg[..8], &[0xff; 8]);
}

#[test]
fn log_keys_decode_to_what_was_encoded() {
    for (ts, seq) in [(0i64, 0u64), (1_700_000_000_000_000_000, 42), (-5, u64::MAX), (i64::MAX, 7)] {
        let k = encode_log_key(ts, seq);
        assert_eq!(decode_log_key(&k), Some((ts, seq)));
    }
    assert_eq!(decode_log_key(&[1, 2, 3]), None);
}

#[test]
fn later_log_keys_sort_after_earlier_ones() {
    let a = encode_log_key(100, 5);
    let b = encode_log_key(100, 6);
    let c = encode_log_key(101, 0);
    assert!(a < b && b < c);
}

#[test]
fn span_keys_start_with_their_trace_prefix() {
    let key = encode_span_key("trace-a", "span-1");
    assert_eq!(key, b"trace-a:span-1".to_vec());
    let prefix = span_key_prefix("trace-a");
    assert_eq!(prefix, b"trace-a:".to_vec());
    assert!(has_prefix(&key, &prefix));
    assert!(!has_prefix(&encode_span_key("trace-ab", "x"), &prefix));
    assert!(!has_prefix(b"tr", &prefix));
}

#[test]
fn sequence_continues_after_the_last_key() {
    assert_eq!(recover_sequence(None), 0);
    let k = encode_log_key(123, 9);
    assert_eq!(recover_sequence(Some(&k[..])), 10);
    assert_eq!(recover_sequence(Some(&[1u8, 2, 3][..])), 0);
}

#[test]
fn scans_start_where_their_direction_and_bounds_say() {
    let back = LogScan::new(vec![], None, Some(50), 10, Direction::Backward);
    assert!(matches!(back.seek_target(), SeekTarget::AtOrBefore(k) if k == encode_log_key(50, u64::MAX)));
    let back_open = LogScan::new(vec![], None, None, 10, Direction::Backward);
    assert!(matches!(back_open.seek_target(), SeekTarget::Last));
    let fwd = LogScan::new(vec![], Some(7), None, 10, Direction::Forward);
    assert!(matches!(fwd.seek_target(), SeekTarget::AtOrAfter(k) if k == encode_log_key(7, 0)));
    let fwd_open = LogScan::new(vec![], None, None, 10, Direction::Forward);
    assert!(matches!(fwd_open.seek_target(), SeekTarget::First));
    assert!(matches!(range_seek_target(None), SeekTarget::First));
    assert!(matches!(range_seek_target(Some(3)), SeekTarget::AtOrAfter(k) if k == encode_log_key(3, 0)));
}

#[test]
fn scans_skip_or_stop_outside_their_bounds() {
    let fwd = LogScan::new(vec![], Some(10), Some(20), 10, Direction::Forward);
    assert_eq!(fwd.classify(&encode_log_key(5, 0)), KeyVerdict::Skip);
    assert_eq!(fwd.classify(&encode_log_key(15, 0)), KeyVerdict::Examine);
    assert_eq!(fwd.classify(&encode_log_key(25, 0)), KeyVerdict::Stop);
    let back = LogScan::new(vec![], Some(10), Some(20), 10, Direction::Backward);
    assert_eq!(back.classify(&encode_log_key(25, 0)), KeyVerdict::Skip);
    assert_eq!(back.classify(&encode_log_key(5, 0)), KeyVerdict::Stop);
    assert_eq!(back.classify(&[0u8; 3]), KeyVerdict::Examine);
    assert!(range_continues(&encode_log_key(20, 0), Some(20)));
    assert!(!range_continues(&encode_log_key(21, 0), Some(20)));
    assert!(range_continues(&encode_log_key(21, 0), None));
}

#[test]
fn scans_keep_matching_entries_up_to_the_limit() {
    let m = LabelMatcher { name: "service".to_string(), op: MatchOp::Eq, value: "web".to_string() };
    let mut scan = LogScan::new(vec![m], None, None, 2, Direction::Backward);
    assert!(scan.wants_more());
    scan.offer(entry(LogLevel::Info, labels_of(&[("service", "web")])));
    scan.offer(entry(LogLevel::Info, labels_of(&[("service", "api")])));
    assert!(scan.wants_more());
    scan.offer(entry(LogLevel::Error, labels_of(&[("service", "web")])));
    assert!(!scan.wants_more());
    let kept = scan.finish();
    assert_eq!(kept.len(), 2);
    assert_eq!(kept[1].level, LogLevel::Error);
}

#[test]
fn label_names_are_sorted_unique_and_include_level() {
    let mut names = SortedStrings::new();
    collect_label_names(&mut names, &labels_of(&[("service", "test"), ("env", "prod")]));
    collect_label_names(&mut names, &labels_of(&[("service", "x")]));
    let all = finish_label_names(names);
    assert_eq!(all, vec!["env".to_string(), "level".to_string(), "service".to_string()]);
}

#[test]
fn label_values_come_from_labels_or_levels() {
    let mut values = SortedStrings::new();
    collect_label_value(&mut values, "service", &entry(LogLevel::Info, labels_of(&[("service", "web")])));
    collect_label_value(&mut values, "service", &entry(LogLevel::Info, labels_of(&[("service", "api")])));
    collect_label_value(&mut values, "service", &entry(LogLevel::Info, labels_of(&[("other", "x")])));
    collect_label_value(&mut values, "service", &entry(LogLevel::Info, labels_of(&[("service", "web")])));
    assert_eq!(values.into_vec(), vec!["api".to_string(), "web".to_string()]);
    let mut levels = SortedStrings::new();
    collect_label_value(&mut levels, "level", &entry(LogLevel::Warn, Labels::new()));
    collect_label_value(&mut levels, "level", &entry(LogLevel::Error, Labels::new()));
    assert_eq!(levels.into_vec(), vec!["error".to_string(), "warn".to_string()]);
}

#[test]
fn entries_are_keyed_by_their_nanoseconds() {
    let k = entry_log_key(Timestamp { secs: 1, nanos: 5 }, 3).unwrap();
    assert_eq!(k, encode_log_key(1_000_000_005, 3));
    let before_epoch = entry_log_key(Timestamp { secs: -1, nanos: 999_999_999 }, 0).unwrap();
    assert_eq!(before_epoch, encode_log_key(-1, 0));
    assert!(entry_log_key(Timestamp { secs: i64::MAX, nanos: 0 }, 0).is_none());
}

#[test]
fn log_keys_keep_time_order_on_each_side_of_the_epoch() {
    let a = encode_log_key(-200, 9);
    let b = encode_log_key(-100, 0);
    let c = encode_log_key(-100, 1);
    assert!(a < b && b < c);
    let d = encode_log_key(0, 0);
    let e = encode_log_key(5, 0);
    assert!(d < e);
    // an instant before the epoch sorts after every instant at or after it
    assert!(encode_log_key(i64::MAX, u64::MAX) < encode_log_key(-1, 0));
    assert!(e < a);
}
