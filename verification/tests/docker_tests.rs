use rgrab::docker::{
    AttachPlan, ContainerConfig, ContainerSummary, EventAction, build_labels, classify_event,
    extract_container_name, is_followed, plan_attach, plan_start, process_log_line,
};
use rgrab::labels::Labels;
use rgrab::log::{LogLevel, Timestamp};

fn summary(id: Option<&str>, name: Option<&str>, image: Option<&str>, state: Option<&str>) -> ContainerSummary {
    ContainerSummary {
        id: id.map(|s| s.to_string()),
        names: name.map(|n| vec![n.to_string()]),
        image: image.map(|s| s.to_string()),
        state: state.map(|s| s.to_string()),
    }
}

fn config(name: &str, service: Option<&str>, environment: Option<&str>, tail: Option<usize>) -> ContainerConfig {
    ContainerConfig {
        name: name.to_string(),
        service: service.map(|s| s.to_string()),
        environment: environment.map(|s| s.to_string()),
        tail,
    }
}

fn label(l: &Labels, k: &str) -> Option<String> {
    l.get(k).cloned()
}

#[test]
fn container_name_drops_leading_slashes() {
    assert_eq!(extract_container_name(&summary(None, Some("/web"), None, None)), "web");
    assert_eq!(extract_container_name(&summary(None, Some("//db"), None, None)), "db");
    assert_eq!(extract_container_name(&summary(None, Some("api"), None, None)), "api");
    assert_eq!(extract_container_name(&summary(None, None, None, None)), "");
    let empty_names = ContainerSummary { id: None, names: Some(vec![]), image: None, state: None };
    assert_eq!(extract_container_name(&empty_names), "");
}

#[test]
fn labels_use_configured_service_and_short_id() {
    let cfg = config("web", Some("frontend"), Some("prod"), None);
    let c = summary(Some("0123456789abcdef"), Some("/web"), Some("nginx:latest"), Some("running"));
    let l = build_labels(&cfg, "web", "0123456789abcdef", &c);
    assert_eq!(label(&l, "service").as_deref(), Some("frontend"));
    assert_eq!(label(&l, "container_id").as_deref(), Some("0123456789ab"));
    assert_eq!(label(&l, "container_name").as_deref(), Some("web"));
    assert_eq!(label(&l, "image").as_deref(), Some("nginx:latest"));
    assert_eq!(label(&l, "environment").as_deref(), Some("prod"));
    assert_eq!(l.len(), 5);
}

#[test]
fn labels_fall_back_to_container_name_and_empty_image() {
    let cfg = config("db", None, None, None);
    let c = summary(Some("abc"), Some("/db"), None, Some("running"));
    let l = build_labels(&cfg, "db", "abc", &c);
    assert_eq!(label(&l, "service").as_deref(), Some("db"));
    assert_eq!(label(&l, "container_id").as_deref(), Some("abc"));
    assert_eq!(label(&l, "image").as_deref(), Some(""));
    assert_eq!(label(&l, "environment"), None);
    assert_eq!(l.len(), 4);
}

#[test]
fn attaches_only_running_configured_unfollowed_containers() {
    let cfgs = vec![config("web", None, None, Some(50)), config("db", None, None, None)];
    let running = summary(Some("aaaaaaaaaaaaaaaa"), Some("/web"), Some("img"), Some("running"));
    let plan: AttachPlan = plan_attach(&running, &cfgs, &vec![]).unwrap();
    assert_eq!(plan.id, "aaaaaaaaaaaaaaaa");
    assert_eq!(plan.name, "web");
    assert_eq!(plan.tail, 50);
    assert_eq!(plan.labels.get("container_id").map(|s| s.as_str()), Some("aaaaaaaaaaaa"));

    let db = summary(Some("bbbb"), Some("/db"), None, Some("running"));
    assert_eq!(plan_attach(&db, &cfgs, &vec![]).unwrap().tail, 100);

    let stopped = summary(Some("cccc"), Some("/web"), None, Some("exited"));
    assert!(plan_attach(&stopped, &cfgs, &vec![]).is_none());
    let unknown = summary(Some("dddd"), Some("/cache"), None, Some("running"));
    assert!(plan_attach(&unknown, &cfgs, &vec![]).is_none());
    let no_id = summary(None, Some("/web"), None, Some("running"));
    assert!(plan_attach(&no_id, &cfgs, &vec![]).is_none());
    let followed = vec!["aaaaaaaaaaaaaaaa".to_string()];
    assert!(plan_attach(&running, &cfgs, &followed).is_none());
}

#[test]
fn the_last_configuration_of_a_name_wins() {
    let cfgs = vec![config("web", Some("first"), None, None), config("web", Some("second"), None, Some(7))];
    let c = summary(Some("ffff"), Some("/web"), None, Some("running"));
    let plan = plan_attach(&c, &cfgs, &vec![]).unwrap();
    assert_eq!(plan.tail, 7);
    assert_eq!(plan.labels.get("service").map(|s| s.as_str()), Some("second"));
}

#[test]
fn started_container_uses_the_first_listed() {
    let cfgs = vec![config("web", None, Some("dev"), None)];
    let listed = vec![summary(Some("1234"), Some("/web"), Some("img"), Some("created"))];
    let plan = plan_start("1234", &listed, &cfgs).unwrap();
    assert_eq!(plan.id, "1234");
    assert_eq!(plan.name, "web");
    assert_eq!(plan.labels.get("environment").map(|s| s.as_str()), Some("dev"));
    assert!(plan_start("1234", &vec![], &cfgs).is_none());
    let other = vec![summary(Some("1234"), Some("/other"), None, None)];
    assert!(plan_start("1234", &other, &cfgs).is_none());
}

#[test]
fn followed_ids_are_found() {
    let followed = vec!["a".to_string(), "b".to_string()];
    assert!(is_followed(&followed, "b"));
    assert!(!is_followed(&followed, "c"));
}

#[test]
fn events_start_and_die_are_recognised() {
    let id = Some(Some("abc".to_string()));
    assert!(matches!(classify_event(&Some("start".to_string()), &id), EventAction::Start(ref s) if s == "abc"));
    assert!(matches!(classify_event(&Some("die".to_string()), &id), EventAction::Die(ref s) if s == "abc"));
    assert!(matches!(classify_event(&Some("stop".to_string()), &id), EventAction::Ignore));
    assert!(matches!(classify_event(&None, &id), EventAction::Ignore));
    assert!(matches!(classify_event(&Some("start".to_string()), &Some(Some(String::new()))), EventAction::Ignore));
    assert!(matches!(classify_event(&Some("start".to_string()), &Some(None)), EventAction::Ignore));
    assert!(matches!(classify_event(&Some("start".to_string()), &None), EventAction::Ignore));
}

#[test]
fn log_line_with_timestamp_becomes_entry() {
    let labels = Labels::from_pairs(vec![("service".to_string(), "web".to_string())]);
    let now = Timestamp { secs: 1, nanos: 0 };
    let e = process_log_line("2024-01-15T10:30:00.5Z ERROR something failed  \n", "stdout", &labels, now).unwrap();
    assert_eq!(e.timestamp, Timestamp { secs: 1705314600, nanos: 500_000_000 });
    assert_eq!(e.level, LogLevel::Error);
    assert_eq!(e.message, "ERROR something failed");
    assert_eq!(e.labels.get("stream").map(|s| s.as_str()), Some("stdout"));
    assert_eq!(e.labels.get("service").map(|s| s.as_str()), Some("web"));
    assert!(e.trace_id.is_none() && e.span_id.is_none());
}

#[test]
fn log_line_with_offset_timestamp_is_read_in_utc() {
    let labels = Labels::new();
    let now = Timestamp { secs: 1, nanos: 0 };
    let e = process_log_line("2024-01-15T12:30:00+02:00 hello", "stderr", &labels, now).unwrap();
    assert_eq!(e.timestamp, Timestamp { secs: 1705314600, nanos: 0 });
    assert_eq!(e.level, LogLevel::Info);
    assert_eq!(e.labels.get("stream").map(|s| s.as_str()), Some("stderr"));
}

#[test]
fn log_line_without_timestamp_is_stamped_now() {
    let labels = Labels::new();
    let now = Timestamp { secs: 42, nanos: 7 };
    let e = process_log_line("  plain warning: disk WARN  ", "stdout", &labels, now).unwrap();
    assert_eq!(e.timestamp, now);
    assert_eq!(e.message, "plain warning: disk WARN");
    assert_eq!(e.level, LogLevel::Warn);
}

#[test]
fn empty_or_timestamp_only_lines_are_dropped() {
    let labels = Labels::new();
    let now = Timestamp { secs: 0, nanos: 0 };
    assert!(process_log_line("", "stdout", &labels, now).is_none());
    assert!(process_log_line("   \n", "stdout", &labels, now).is_none());
    assert!(process_log_line("2024-01-15T10:30:00Z   ", "stdout", &labels, now).is_none());
    assert!(process_log_line("2024-01-15T10:30:00Z 2024-01-15T10:30:01Z", "stdout", &labels, now).is_none());
}

#[test]
fn attachment_conditions_are_checked_apart() {
    let cfgs = vec![config("web", None, None, None)];
    let running = summary(Some("abcd"), Some("/web"), None, Some("running"));
    assert!(rgrab::docker::should_attach(&running, &cfgs, &vec![]));
    assert!(!rgrab::docker::should_attach(&running, &cfgs, &vec!["abcd".to_string()]));
    let paused = summary(Some("abcd"), Some("/web"), None, Some("paused"));
    assert!(!rgrab::docker::should_attach(&paused, &cfgs, &vec![]));
    assert!(rgrab::docker::should_start(&vec![paused], &cfgs));
    assert!(!rgrab::docker::should_start(&vec![], &cfgs));
    assert!(rgrab::docker::short_id_fits("0123456789abcdef"));
    assert!(rgrab::docker::short_id_fits("ab"));
    assert!(!rgrab::docker::short_id_fits("0123456789aé"));
}
