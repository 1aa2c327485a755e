use rgrab::labels::Labels;
use rgrab::log::{LogEntry, LogLevel, Timestamp};
use rgrab::span::{Span, SpanStatus};
use rgrab::tui_app::{App, Area, InputMode, SidebarItem, Tab, TraceGroup};
use rgrab::tui_view::{
    DurationTone, RowTone, TextTone, build_keyhints, centered_popup, compute_scroll_offset, count_levels,
    disconnected_lines, duration_tone, format_status_text, header_title, highlight_if, hint_desc_text,
    hint_key_text, label_detail_key, level_tab_texts, log_row_tone, log_window, pad_right, search_text,
    sidebar_item_text, sidebar_window, sorted_labels, span_micros, span_offset_micros, span_row_texts,
    status_error_text, timing_bar, trace_row_texts, trace_window, truncate,
};

fn log(level: LogLevel) -> LogEntry {
    LogEntry { timestamp: Timestamp { secs: 0, nanos: 0 }, level, message: String::new(), labels: Labels::new(), trace_id: None, span_id: None }
}

#[test]
fn scroll_offset_keeps_the_cursor_visible() {
    assert_eq!(compute_scroll_offset(true, 3, 10), 0);
    assert_eq!(compute_scroll_offset(true, 10, 10), 1);
    assert_eq!(compute_scroll_offset(true, 25, 10), 16);
    assert_eq!(compute_scroll_offset(false, 25, 10), 0);
}

#[test]
fn windows_fit_the_lists() {
    assert_eq!(log_window(5, 9, 3), (4, 2, 5));
    assert_eq!(log_window(0, 0, 3), (0, 0, 0));
    assert_eq!(sidebar_window(4, true, 1, 10), (0, 4));
    assert_eq!(sidebar_window(30, true, 12, 10), (3, 13));
    assert_eq!(trace_window(5, 7, 2), (4, 5));
    assert_eq!(trace_window(0, 3, 2), (0, 0));
}

#[test]
fn popups_are_centred_with_a_margin() {
    let area = Area { x: 0, y: 0, width: 80, height: 24 };
    assert_eq!(centered_popup(area, 50, 7), Area { x: 15, y: 8, width: 50, height: 7 });
    let small = Area { x: 2, y: 1, width: 20, height: 5 };
    assert_eq!(centered_popup(small, 50, 7), Area { x: 4, y: 2, width: 16, height: 3 });
}

#[test]
fn row_tones() {
    assert_eq!(log_row_tone(2, 2, false, Some(2)), RowTone::Selected);
    assert_eq!(log_row_tone(2, 2, false, None), RowTone::Cursor);
    assert_eq!(log_row_tone(2, 2, true, None), RowTone::Plain);
    assert_eq!(log_row_tone(1, 2, false, Some(3)), RowTone::Plain);
    assert!(highlight_if(true, 4, 4));
    assert!(!highlight_if(false, 4, 4));
    assert!(!highlight_if(true, 3, 4));
}

#[test]
fn duration_tones_follow_the_thresholds() {
    assert_eq!(duration_tone(100_001), DurationTone::Slow);
    assert_eq!(duration_tone(100_000), DurationTone::Medium);
    assert_eq!(duration_tone(10_001), DurationTone::Medium);
    assert_eq!(duration_tone(10_000), DurationTone::Fast);
    assert_eq!(duration_tone(-5), DurationTone::Fast);
}

#[test]
fn timing_bars_mark_the_span() {
    assert_eq!(timing_bar(2, 3), "..###.....");
    assert_eq!(timing_bar(0, 0), "#.........");
    assert_eq!(timing_bar(8, 5), "........##");
    assert_eq!(timing_bar(15, 2), "..........");
}

#[test]
fn levels_are_counted_in_four_groups() {
    let a = log(LogLevel::Error);
    let b = log(LogLevel::Fatal);
    let c = log(LogLevel::Warn);
    let d = log(LogLevel::Trace);
    let e = log(LogLevel::Debug);
    let f = log(LogLevel::Info);
    let counts = count_levels(&[&a, &b, &c, &d, &e, &f]);
    assert_eq!((counts.error, counts.warn, counts.info, counts.debug), (2, 1, 1, 2));
}

#[test]
fn truncation_and_padding() {
    assert_eq!(truncate("hello", 10), "hello");
    assert_eq!(truncate("hello world", 8), "hello ..");
    assert_eq!(truncate("abc", 1), "..");
    assert_eq!(pad_right("ab", 5), "ab   ");
    assert_eq!(pad_right("abcdef", 3), "abcdef");
    assert_eq!(pad_right("é", 3), "é  ");
}

#[test]
fn status_lines() {
    let mut app = App::new("s");
    app.logs = vec![log(LogLevel::Error), log(LogLevel::Info), log(LogLevel::Info)];
    assert_eq!(format_status_text(&app), " 3 lines | newest first | error: 1 | warn: 0 | info: 2 | debug: 0 ");
    app.newest_first = false;
    app.toggle_level(2);
    assert_eq!(format_status_text(&app), " 1 lines | oldest first | error: 1 | warn: 0 | info: 0 | debug: 0 ");
    app.tab = Tab::Traces;
    assert_eq!(format_status_text(&app), " 0 traces ");
    assert_eq!(status_error_text(&Some("down".to_string())), " | err: down");
    assert_eq!(status_error_text(&None), "");
}

#[test]
fn search_bar_texts() {
    let mut app = App::new("s");
    assert_eq!(search_text(&app, false), ("search...".to_string(), TextTone::Placeholder));
    assert_eq!(search_text(&app, true), ("_".to_string(), TextTone::Active));
    app.search = "abc".to_string();
    assert_eq!(search_text(&app, false), ("abc".to_string(), TextTone::Normal));
    assert_eq!(search_text(&app, true), ("abc_".to_string(), TextTone::Active));
}

#[test]
fn header_and_level_tabs() {
    assert_eq!(header_title("0.1.0", "local", true, 12, false), " rgrab v0.1.0 [local] Live 12 loaded ");
    assert_eq!(header_title("0.1.0", "local", false, 200, true), " rgrab v0.1.0 [local] 200+ loaded ");
    assert_eq!(level_tab_texts(0, LogLevel::Trace), (" 1 ".to_string(), "TRACE ".to_string()));
    assert_eq!(level_tab_texts(5, LogLevel::Fatal), (" 6 ".to_string(), "FATAL ".to_string()));
}

#[test]
fn key_hints() {
    let search = build_keyhints(InputMode::Search);
    assert_eq!(search, vec![("Enter", "apply"), ("Esc", "cancel")]);
    let normal = build_keyhints(InputMode::Normal);
    assert_eq!(normal.len(), 12);
    assert_eq!(normal[0], ("Tab", "tab"));
    assert_eq!(normal[11], ("q", "quit"));
    assert_eq!(hint_key_text("q"), " q ");
    assert_eq!(hint_desc_text("quit"), " quit  ");
}

#[test]
fn trace_rows() {
    let g = TraceGroup {
        trace_id: "0123456789abcdef".to_string(),
        root_operation: "GET /a/very/long/operation/name".to_string(),
        root_service: "web".to_string(),
        start_time: Timestamp { secs: 0, nanos: 0 },
        total_duration_micros: 1500,
        span_count: 3,
        has_error: true,
    };
    let t = trace_row_texts(&g);
    assert_eq!(t.icon, "x ");
    assert_eq!(t.operation, "GET /a/very/long/operat..");
    assert_eq!(t.operation.chars().count(), 25);
    assert_eq!(t.service, format!("{:<15}", "web"));
    assert_eq!(t.id_preview, "01234567.. ");
    assert_eq!(t.span_count, " (3 spans)");
    let short = TraceGroup { trace_id: "abc".to_string(), has_error: false, ..g };
    let s = trace_row_texts(&short);
    assert_eq!(s.icon, "o ");
    assert_eq!(s.id_preview, "abc.. ");
}

fn span(parent: Option<&str>, start: Timestamp, end: Timestamp) -> Span {
    Span {
        trace_id: "t".to_string(),
        span_id: "s".to_string(),
        parent_span_id: parent.map(|p| p.to_string()),
        operation_name: "db query".to_string(),
        service_name: "a-rather-long-service".to_string(),
        start_time: start,
        end_time: end,
        status: SpanStatus::Okay,
        attributes: Labels::new(),
        events: vec![],
    }
}

#[test]
fn span_rows_and_durations() {
    let s = span(Some("p"), Timestamp { secs: 10, nanos: 500_000_000 }, Timestamp { secs: 11, nanos: 0 });
    let t = span_row_texts(&s);
    assert_eq!(t.prefix, "  |-- ");
    assert_eq!(t.operation, format!("{:<20}", "db query"));
    assert_eq!(t.service, "a-rather-l..");
    assert_eq!(span_row_texts(&span(None, s.start_time, s.end_time)).prefix, "  ");
    assert_eq!(span_micros(&s), 500_000);
    assert_eq!(span_offset_micros(&s, Timestamp { secs: 10, nanos: 0 }), 500_000);
    assert_eq!(span_offset_micros(&s, Timestamp { secs: 12, nanos: 0 }), -1_500_000);
}

#[test]
fn sidebar_lines_and_popup() {
    assert_eq!(sidebar_item_text(&SidebarItem::Label("web".to_string())), ("web".to_string(), false));
    let v = SidebarItem::Value { label: "service".to_string(), value: "web".to_string(), selected: true };
    assert_eq!(sidebar_item_text(&v), (" > web".to_string(), true));
    let u = SidebarItem::Value { label: "service".to_string(), value: "api".to_string(), selected: false };
    assert_eq!(sidebar_item_text(&u), ("   api".to_string(), false));
    let lines = disconnected_lines("http://x", &None);
    assert_eq!(lines, vec!["", "No connection to server", "", "http://x", "connection refused"]);
    assert_eq!(disconnected_lines("u", &Some("timeout".to_string()))[4], "timeout");
}

#[test]
fn selected_entry_labels_are_listed_by_name() {
    let labels = Labels::from_pairs(vec![
        ("service".to_string(), "web".to_string()),
        ("env".to_string(), "prod".to_string()),
        ("az".to_string(), "1".to_string()),
    ]);
    let sorted = sorted_labels(&labels);
    assert_eq!(
        sorted,
        vec![
            ("az".to_string(), "1".to_string()),
            ("env".to_string(), "prod".to_string()),
            ("service".to_string(), "web".to_string())
        ]
    );
    assert_eq!(label_detail_key("env"), "env: ");
}
