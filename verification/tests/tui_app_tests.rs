use rgrab::labels::Labels;
use rgrab::log::{LogEntry, LogLevel, Timestamp};
use rgrab::span::{Span, SpanStatus};
use rgrab::tui_app::{App, InputMode, SidebarItem, Tab, build_environment_sidebar, build_service_sidebar, sidebar_labels};

fn labels_of(pairs: &[(&str, &str)]) -> Labels {
    Labels::from_pairs(pairs.iter().map(|(k, v)| (k.to_string(), v.to_string())).collect())
}

fn log(secs: i64, level: LogLevel, msg: &str, labels: Labels) -> LogEntry {
    LogEntry { timestamp: Timestamp { secs, nanos: 0 }, level, message: msg.to_string(), labels, trace_id: None, span_id: None }
}

fn span(trace: &str, id: &str, parent: Option<&str>, op: &str, start: i64, end_nanos: u32, status: SpanStatus) -> Span {
    Span {
        trace_id: trace.to_string(),
        span_id: id.to_string(),
        parent_span_id: parent.map(|p| p.to_string()),
        operation_name: op.to_string(),
        service_name: format!("svc-{op}"),
        start_time: Timestamp { secs: start, nanos: 0 },
        end_time: Timestamp { secs: start, nanos: end_nanos },
        status,
        attributes: Labels::new(),
        events: vec![],
    }
}

fn messages(app: &App) -> Vec<String> {
    app.filtered_logs().iter().map(|l| l.message.clone()).collect()
}

#[test]
fn a_new_client_shows_everything_newest_first() {
    let app = App::new("http://x");
    assert_eq!(app.tab, Tab::Logs);
    assert_eq!(app.input_mode, InputMode::Normal);
    assert_eq!(app.limit, 200);
    assert!(app.live_tail && app.newest_first && !app.connected && !app.should_quit);
    assert_eq!(app.level_enabled, [true; 6]);
    assert_eq!(app.server_url, "http://x");
    assert!(app.selected_labels.is_empty());
}

#[test]
fn toggling_a_level_twice_restores_it() {
    let mut app = App::new("s");
    app.log_cursor = 5;
    app.toggle_level(4);
    assert!(!app.is_level_enabled(LogLevel::Error));
    assert_eq!(app.log_cursor, 0);
    app.toggle_level(4);
    assert!(app.is_level_enabled(LogLevel::Error));
    app.log_cursor = 3;
    app.toggle_level(6);
    assert_eq!(app.log_cursor, 3);
    assert_eq!(app.level_enabled, [true; 6]);
}

#[test]
fn logs_are_sorted_by_time_with_ties_in_arrival_order() {
    let mut app = App::new("s");
    app.logs = vec![
        log(2, LogLevel::Info, "b", Labels::new()),
        log(1, LogLevel::Info, "a", Labels::new()),
        log(2, LogLevel::Info, "c", Labels::new()),
        log(3, LogLevel::Info, "d", Labels::new()),
    ];
    assert_eq!(messages(&app), vec!["d", "b", "c", "a"]);
    assert_eq!(app.filtered_log_indices(), vec![3, 0, 2, 1]);
    app.newest_first = false;
    assert_eq!(messages(&app), vec!["a", "b", "c", "d"]);
}

#[test]
fn filters_combine_level_search_and_labels() {
    let mut app = App::new("s");
    app.logs = vec![
        log(1, LogLevel::Error, "Disk FULL", labels_of(&[("service", "web")])),
        log(2, LogLevel::Info, "all good", labels_of(&[("service", "api")])),
        log(3, LogLevel::Debug, "noise", labels_of(&[("service", "web"), ("env", "Prod")])),
    ];
    app.toggle_level(1);
    assert_eq!(messages(&app), vec!["all good", "Disk FULL"]);
    app.search = "full".to_string();
    assert_eq!(messages(&app), vec!["Disk FULL"]);
    app.search = "API".to_string();
    assert_eq!(messages(&app), vec!["all good"]);
    app.search = String::new();
    app.toggle_level(1);
    app.search = "prod".to_string();
    assert_eq!(messages(&app), vec!["noise"]);
    app.search = String::new();
    app.toggle_label("service", "web");
    assert_eq!(messages(&app), vec!["noise", "Disk FULL"]);
    assert!(app.log_matches_filters(&app.logs[0]));
    assert!(!app.log_matches_filters(&app.logs[1]));
}

#[test]
fn toggling_a_label_selects_then_clears_it() {
    let mut app = App::new("s");
    app.toggle_label("service", "web");
    assert_eq!(app.selected_labels.get("service").map(|s| s.as_str()), Some("web"));
    app.toggle_label("service", "api");
    assert_eq!(app.selected_labels.get("service").map(|s| s.as_str()), Some("api"));
    app.toggle_label("service", "api");
    assert!(app.selected_labels.get("service").is_none());
}

#[test]
fn selecting_the_current_log_toggles_and_clamps() {
    let mut app = App::new("s");
    app.select_current_log();
    assert_eq!(app.selected_log_idx, None);
    app.logs = vec![log(1, LogLevel::Info, "a", labels_of(&[("k", "1")])), log(2, LogLevel::Info, "b", labels_of(&[("k", "2")]))];
    app.log_cursor = 9;
    app.select_current_log();
    assert_eq!(app.selected_log_idx, Some(1));
    assert_eq!(app.selected_log_labels().and_then(|l| l.get("k").cloned()).as_deref(), Some("1"));
    app.select_current_log();
    assert_eq!(app.selected_log_idx, None);
    assert!(app.selected_log_labels().is_none());
    app.selected_log_idx = Some(7);
    assert!(app.selected_log_labels().is_none());
}

#[test]
fn spans_group_into_traces_latest_first() {
    let mut app = App::new("s");
    app.traces = vec![
        span("t1", "a", Some("root"), "child", 5, 0, SpanStatus::Okay),
        span("t2", "b", None, "GET /", 10, 2_500_000, SpanStatus::Okay),
        span("t1", "root", None, "POST /", 3, 1_000_000, SpanStatus::Error),
        span("t3", "c", Some("x"), "orphan", 7, 0, SpanStatus::Unset),
    ];
    let groups = app.unique_traces();
    assert_eq!(groups.iter().map(|g| g.trace_id.as_str()).collect::<Vec<_>>(), vec!["t2", "t3", "t1"]);
    let t2 = &groups[0];
    assert_eq!(t2.root_operation, "GET /");
    assert_eq!(t2.root_service, "svc-GET /");
    assert_eq!(t2.total_duration_micros, 2500);
    assert_eq!(t2.span_count, 1);
    assert!(!t2.has_error);
    let t3 = &groups[1];
    assert_eq!(t3.root_operation, "");
    assert_eq!(t3.start_time, Timestamp { secs: 7, nanos: 0 });
    assert_eq!(t3.total_duration_micros, 0);
    let t1 = &groups[2];
    assert_eq!(t1.span_count, 2);
    assert!(t1.has_error);
    assert_eq!(t1.start_time, Timestamp { secs: 3, nanos: 0 });
    assert_eq!(t1.total_duration_micros, 1000);
}

#[test]
fn no_spans_no_traces() {
    let app = App::new("s");
    assert!(app.unique_traces().is_empty());
}

fn item_text(i: &SidebarItem) -> String {
    match i {
        SidebarItem::Label(n) => format!("#{n}"),
        SidebarItem::Value { label, value, selected } => format!("{label}={value}{}", if *selected { "*" } else { "" }),
    }
}

#[test]
fn the_sidebar_groups_by_service_then_environment() {
    let services = vec!["web".to_string(), "api".to_string()];
    let envs = vec!["prod".to_string()];
    let selected = labels_of(&[("environment", "prod")]);
    let items = build_service_sidebar(&services, &envs, &selected);
    assert_eq!(
        items.iter().map(item_text).collect::<Vec<_>>(),
        vec!["#web", "service=web", "environment=prod*", "#api", "service=api", "environment=prod*"]
    );
    let env_only = build_environment_sidebar(&envs, &Labels::new());
    assert_eq!(env_only.iter().map(item_text).collect::<Vec<_>>(), vec!["#environment", "environment=prod"]);
}

#[test]
fn the_sidebar_uses_fetched_values() {
    let mut app = App::new("s");
    assert!(app.sidebar_items().is_empty());
    app.set_label_values("environment", vec!["dev".to_string()]);
    assert_eq!(app.sidebar_items().iter().map(item_text).collect::<Vec<_>>(), vec!["#environment", "environment=dev"]);
    app.set_label_values("service", vec!["web".to_string()]);
    app.toggle_label("service", "web");
    assert_eq!(
        app.sidebar_items().iter().map(item_text).collect::<Vec<_>>(),
        vec!["#web", "service=web*", "environment=dev"]
    );
    app.set_label_values("service", vec![]);
    assert_eq!(app.label_values_of("service"), Vec::<String>::new());
    assert_eq!(app.label_values.len(), 2);
    assert_eq!(sidebar_labels(), vec!["service", "environment"]);
}

#[test]
fn refresh_steps_record_results_and_errors() {
    let mut app = App::new("s");
    app.error = Some("old".to_string());
    app.begin_refresh();
    assert!(app.error.is_none());
    assert!(!app.apply_logs(Err("refused".to_string())));
    assert!(!app.connected);
    assert_eq!(app.error.as_deref(), Some("refused"));

    app.begin_refresh();
    assert!(app.apply_logs(Ok(vec![log(1, LogLevel::Info, "x", Labels::new())])));
    assert!(app.connected);
    assert_eq!(app.logs.len(), 1);
    app.apply_traces(Err("boom".to_string()));
    assert_eq!(app.error.as_deref(), Some("traces: boom"));
    assert!(!app.apply_labels(Err("nope".to_string())));
    assert_eq!(app.error.as_deref(), Some("traces: boom"));
    app.begin_refresh();
    assert!(!app.apply_labels(Err("nope".to_string())));
    assert_eq!(app.error.as_deref(), Some("labels: nope"));
    assert!(app.apply_labels(Ok(vec!["service".to_string()])));
    assert_eq!(app.labels, vec!["service".to_string()]);
    app.apply_label_values("service", Ok(vec!["web".to_string()]));
    app.apply_label_values("service", Err("x".to_string()));
    assert_eq!(app.label_values_of("service"), vec!["web".to_string()]);
}

#[test]
fn expanding_a_trace_keeps_the_first_fetch() {
    let mut app = App::new("s");
    assert!(app.needs_trace_spans("t1"));
    app.finish_expand("t1", Some(vec![span("t1", "a", None, "op", 0, 0, SpanStatus::Okay)]));
    assert_eq!(app.expanded_trace.as_deref(), Some("t1"));
    assert!(!app.needs_trace_spans("t1"));
    app.finish_expand("t1", Some(vec![]));
    assert_eq!(app.spans_of_trace("t1").map(|v| v.len()), Some(1));
    app.finish_expand("t2", None);
    assert_eq!(app.expanded_trace.as_deref(), Some("t2"));
    assert!(app.spans_of_trace("t2").is_none());
}
