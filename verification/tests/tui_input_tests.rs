use rgrab::labels::Labels;
use rgrab::log::{LogEntry, LogLevel, Timestamp};
use rgrab::span::{Span, SpanStatus};
use rgrab::tui_app::{App, InputMode, Tab};
use rgrab::tui_input::{
    InputEffect, Key, handle_enter, handle_input, handle_normal_input, handle_search_input, page_size,
    parse_server_arg, poll_timeout_nanos, refresh_due, scroll_down, scroll_to_end, scroll_to_top, scroll_up,
};

fn log(secs: i64, msg: &str) -> LogEntry {
    LogEntry { timestamp: Timestamp { secs, nanos: 0 }, level: LogLevel::Info, message: msg.to_string(), labels: Labels::new(), trace_id: None, span_id: None }
}

fn root(trace: &str, start: i64) -> Span {
    Span {
        trace_id: trace.to_string(),
        span_id: "s".to_string(),
        parent_span_id: None,
        operation_name: "op".to_string(),
        service_name: "svc".to_string(),
        start_time: Timestamp { secs: start, nanos: 0 },
        end_time: Timestamp { secs: start, nanos: 0 },
        status: SpanStatus::Okay,
        attributes: Labels::new(),
        events: vec![],
    }
}

fn args(v: &[&str]) -> Vec<String> {
    v.iter().map(|s| s.to_string()).collect()
}

#[test]
fn server_argument_forms() {
    assert_eq!(parse_server_arg(&args(&["tui"])), "http://localhost:3000");
    assert_eq!(parse_server_arg(&args(&["tui", "--server", "http://a:1"])), "http://a:1");
    assert_eq!(parse_server_arg(&args(&["tui", "--server=http://b:2"])), "http://b:2");
    assert_eq!(parse_server_arg(&args(&["tui", "--server"])), "http://localhost:3000");
    assert_eq!(parse_server_arg(&args(&["tui", "x", "--server=--server=c"])), "c");
    assert_eq!(parse_server_arg(&args(&["--server=ignored", "--server", "d"])), "d");
}

#[test]
fn cursors_stay_within_their_lists() {
    let mut app = App::new("s");
    app.logs = vec![log(1, "a"), log(2, "b"), log(3, "c")];
    scroll_down(&mut app, 1);
    assert_eq!(app.log_cursor, 1);
    scroll_down(&mut app, 20);
    assert_eq!(app.log_cursor, 2);
    scroll_up(&mut app, 5);
    assert_eq!(app.log_cursor, 0);
    scroll_to_end(&mut app);
    assert_eq!(app.log_cursor, 2);
    scroll_to_top(&mut app);
    assert_eq!(app.log_cursor, 0);
    app.tab = Tab::Traces;
    app.traces = vec![root("t1", 1), root("t2", 2)];
    scroll_down(&mut app, 9);
    assert_eq!(app.trace_scroll, 1);
    app.sidebar_focused = true;
    scroll_down(&mut app, 3);
    assert_eq!(app.sidebar_scroll, 0);
    scroll_to_end(&mut app);
    assert_eq!(app.sidebar_scroll, 0);
    assert_eq!(app.log_cursor, 0);
}

#[test]
fn a_page_is_at_most_twenty_lines() {
    let mut app = App::new("s");
    assert_eq!(page_size(&app), 20);
    app.limit = 7;
    assert_eq!(page_size(&app), 7);
}

#[test]
fn search_mode_edits_the_search_text() {
    let mut app = App::new("s");
    assert!(matches!(handle_input(&mut app, Key::Char('/')), InputEffect::Nothing));
    assert_eq!(app.input_mode, InputMode::Search);
    handle_input(&mut app, Key::Char('e'));
    handle_input(&mut app, Key::Char('r'));
    handle_input(&mut app, Key::Char('r'));
    assert_eq!(app.search, "err");
    handle_search_input(&mut app, Key::Backspace);
    assert_eq!(app.search, "er");
    app.log_cursor = 4;
    handle_search_input(&mut app, Key::Enter);
    assert_eq!(app.input_mode, InputMode::Normal);
    assert_eq!(app.log_cursor, 0);
    app.input_mode = InputMode::Search;
    handle_search_input(&mut app, Key::Esc);
    assert_eq!(app.input_mode, InputMode::Normal);
    assert_eq!(app.search, "er");
    app.input_mode = InputMode::Search;
    app.search.clear();
    handle_search_input(&mut app, Key::Backspace);
    assert_eq!(app.search, "");
}

#[test]
fn normal_keys_change_the_view() {
    let mut app = App::new("s");
    handle_normal_input(&mut app, Key::Tab);
    assert_eq!(app.tab, Tab::Traces);
    handle_normal_input(&mut app, Key::Tab);
    assert_eq!(app.tab, Tab::Logs);
    handle_normal_input(&mut app, Key::Char('h'));
    assert!(app.sidebar_focused);
    handle_normal_input(&mut app, Key::Right);
    assert!(!app.sidebar_focused);
    handle_normal_input(&mut app, Key::Char('3'));
    assert!(!app.level_enabled[2]);
    handle_normal_input(&mut app, Key::Char('L'));
    assert!(!app.live_tail);
    handle_normal_input(&mut app, Key::Char('s'));
    assert!(!app.newest_first);
    assert!(matches!(handle_normal_input(&mut app, Key::Char('r')), InputEffect::Refresh));
    assert!(matches!(handle_normal_input(&mut app, Key::Char('+')), InputEffect::Refresh));
    assert_eq!(app.limit, 300);
    app.limit = 9990;
    handle_normal_input(&mut app, Key::Char('='));
    assert_eq!(app.limit, 10000);
    app.limit = 120;
    handle_normal_input(&mut app, Key::Char('-'));
    assert_eq!(app.limit, 50);
    assert!(matches!(handle_normal_input(&mut app, Key::Char('x')), InputEffect::Nothing));
    handle_normal_input(&mut app, Key::Char('q'));
    assert!(app.should_quit);
}

#[test]
fn escape_clears_one_thing_at_a_time() {
    let mut app = App::new("s");
    app.selected_log_idx = Some(1);
    app.expanded_trace = Some("t".to_string());
    app.search = "x".to_string();
    app.log_cursor = 3;
    handle_normal_input(&mut app, Key::Esc);
    assert_eq!(app.selected_log_idx, None);
    assert!(app.expanded_trace.is_some());
    handle_normal_input(&mut app, Key::Esc);
    assert!(app.expanded_trace.is_none());
    assert_eq!(app.search, "x");
    handle_normal_input(&mut app, Key::Esc);
    assert_eq!(app.search, "");
    assert_eq!(app.log_cursor, 0);
}

#[test]
fn enter_expands_and_collapses_traces() {
    let mut app = App::new("s");
    app.tab = Tab::Traces;
    app.traces = vec![root("old", 1), root("new", 2)];
    match handle_enter(&mut app) {
        InputEffect::ExpandTrace(id) => assert_eq!(id, "new"),
        _ => panic!("expected an expansion"),
    }
    app.expanded_trace = Some("new".to_string());
    assert!(matches!(handle_enter(&mut app), InputEffect::Nothing));
    assert!(app.expanded_trace.is_none());
    app.trace_scroll = 5;
    assert!(matches!(handle_enter(&mut app), InputEffect::Nothing));
}

#[test]
fn enter_on_the_sidebar_toggles_a_value() {
    let mut app = App::new("s");
    app.set_label_values("service", vec!["web".to_string()]);
    app.sidebar_focused = true;
    app.log_cursor = 2;
    assert!(matches!(handle_enter(&mut app), InputEffect::Nothing));
    assert!(app.selected_labels.is_empty());
    assert_eq!(app.log_cursor, 2);
    app.sidebar_scroll = 1;
    handle_enter(&mut app);
    assert_eq!(app.selected_labels.get("service").map(|s| s.as_str()), Some("web"));
    assert_eq!(app.log_cursor, 0);
}

#[test]
fn enter_on_the_logs_selects_an_entry() {
    let mut app = App::new("s");
    app.logs = vec![log(1, "a")];
    handle_enter(&mut app);
    assert_eq!(app.selected_log_idx, Some(0));
}

#[test]
fn refreshes_follow_the_interval() {
    assert_eq!(poll_timeout_nanos(true, 500_000_000), 1_500_000_000);
    assert_eq!(poll_timeout_nanos(true, 3_000_000_000), 0);
    assert_eq!(poll_timeout_nanos(false, 0), 250_000_000);
    assert!(refresh_due(true, 2_000_000_000));
    assert!(!refresh_due(true, 1_999_999_999));
    assert!(!refresh_due(false, 9_000_000_000));
}
