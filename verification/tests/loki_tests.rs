use rgrab::labels::Labels;
use rgrab::loki::{Direction, LabelMatcher, MatchOp, all_match};

fn labels_of(pairs: &[(&str, &str)]) -> Labels {
    Labels::from_pairs(pairs.iter().map(|(k, v)| (k.to_string(), v.to_string())).collect())
}

#[test]
fn should_match_eq_labels_correctly() {
    let matcher = LabelMatcher {
        name: "service".to_string(),
        op: MatchOp::Eq,
        value: "web".to_string(),
    };

    let matching = labels_of(&[("service", "web")]);
    let non_matching = labels_of(&[("service", "api")]);
    let empty = Labels::new();

    assert!(matcher.matches(&matching));
    assert!(!matcher.matches(&non_matching));
    assert!(!matcher.matches(&empty));
}

#[test]
fn should_match_neq_labels_correctly() {
    let matcher = LabelMatcher {
        name: "service".to_string(),
        op: MatchOp::Neq,
        value: "web".to_string(),
    };

    let matching = labels_of(&[("service", "api")]);
    let non_matching = labels_of(&[("service", "web")]);

    assert!(matcher.matches(&matching));
    assert!(!matcher.matches(&non_matching));
}

#[test]
fn should_match_regex_labels_correctly() {
    let matcher = LabelMatcher {
        name: "service".to_string(),
        op: MatchOp::Re,
        value: "web-.*".to_string(),
    };

    let matching = labels_of(&[("service", "web-frontend")]);
    let non_matching = labels_of(&[("service", "api")]);

    assert!(matcher.matches(&matching));
    assert!(!matcher.matches(&non_matching));
}

#[test]
fn should_match_nre_labels_correctly() {
    let matcher = LabelMatcher {
        name: "env".to_string(),
        op: MatchOp::Nre,
        value: "test.*".to_string(),
    };

    let matching = labels_of(&[("env", "prod")]);
    let non_matching = labels_of(&[("env", "testing")]);

    assert!(matcher.matches(&matching));
    assert!(!matcher.matches(&non_matching));
}

#[test]
fn direction_defaults_to_backward() {
    assert_eq!(Direction::default_direction(), Direction::Backward);
}

#[test]
fn all_matchers_must_accept() {
    let ms = vec![
        LabelMatcher { name: "service".to_string(), op: MatchOp::Eq, value: "web".to_string() },
        LabelMatcher { name: "level".to_string(), op: MatchOp::Neq, value: "debug".to_string() },
    ];
    assert!(all_match(&ms, &labels_of(&[("service", "web"), ("level", "info")])));
    assert!(!all_match(&ms, &labels_of(&[("service", "web"), ("level", "debug")])));
    assert!(all_match(&vec![], &Labels::new()));
}
