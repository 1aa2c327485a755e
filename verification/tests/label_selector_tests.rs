use rgrab::label_selector::parse_label_selector;
use rgrab::labels::Labels;
use rgrab::loki::{LabelMatcher, MatchOp};

fn labels_of(pairs: &[(&str, &str)]) -> Labels {
    Labels::from_pairs(pairs.iter().map(|(k, v)| (k.to_string(), v.to_string())).collect())
}

#[test]
fn should_parse_empty_selector() {
    let result = parse_label_selector("{}").unwrap();
    assert!(result.is_empty());
}

#[test]
fn should_parse_single_eq_matcher() {
    let result = parse_label_selector(r#"{service="web"}"#).unwrap();
    assert_eq!(result.len(), 1);
    assert_eq!(result[0].name, "service");
    assert!(matches!(result[0].op, MatchOp::Eq));
    assert_eq!(result[0].value, "web");
}

#[test]
fn should_parse_multiple_matchers() {
    let result = parse_label_selector(r#"{service="web", env="prod"}"#).unwrap();
    assert_eq!(result.len(), 2);
    assert_eq!(result[0].name, "service");
    assert_eq!(result[1].name, "env");
}

#[test]
fn should_parse_neq_operator() {
    let result = parse_label_selector(r#"{level!="debug"}"#).unwrap();
    assert_eq!(result.len(), 1);
    assert!(matches!(result[0].op, MatchOp::Neq));
}

#[test]
fn should_parse_regex_operator() {
    let result = parse_label_selector(r#"{service=~"web.*"}"#).unwrap();
    assert_eq!(result.len(), 1);
    assert!(matches!(result[0].op, MatchOp::Re));
    assert_eq!(result[0].value, "web.*");
}

#[test]
fn should_parse_nre_operator() {
    let result = parse_label_selector(r#"{service!~"test.*"}"#).unwrap();
    assert_eq!(result.len(), 1);
    assert!(matches!(result[0].op, MatchOp::Nre));
}

#[test]
fn should_reject_missing_braces() {
    assert!(parse_label_selector("service=\"web\"").is_err());
}

#[test]
fn should_parse_whitespace_around_matchers() {
    let result = parse_label_selector(r#"{ service = "web" }"#).unwrap();
    assert_eq!(result.len(), 1);
    assert_eq!(result[0].name, "service");
    assert_eq!(result[0].value, "web");
}

#[test]
fn should_parse_escaped_quotes_in_value() {
    let result = parse_label_selector(r#"{msg="hello \"world\""}"#).unwrap();
    assert_eq!(result[0].value, "hello \"world\"");
}

#[test]
fn should_match_eq_label() {
    let matchers = parse_label_selector(r#"{service="web"}"#).unwrap();
    let labels = labels_of(&[("service", "web")]);
    assert!(matchers[0].matches(&labels));
}

#[test]
fn should_not_match_eq_label_wrong_value() {
    let matchers = parse_label_selector(r#"{service="api"}"#).unwrap();
    let labels = labels_of(&[("service", "web")]);
    assert!(!matchers[0].matches(&labels));
}

#[test]
fn should_match_neq_label() {
    let matchers = parse_label_selector(r#"{service!="api"}"#).unwrap();
    let labels = labels_of(&[("service", "web")]);
    assert!(matchers[0].matches(&labels));
}

#[test]
fn should_match_regex_label() {
    let matchers = parse_label_selector(r#"{service=~"web.*"}"#).unwrap();
    let labels = labels_of(&[("service", "web-frontend")]);
    assert!(matchers[0].matches(&labels));
}

#[test]
fn should_match_missing_label_as_empty() {
    let matchers = parse_label_selector(r#"{env=""}"#).unwrap();
    let labels = Labels::new();
    assert!(matchers[0].matches(&labels));
}

// ---- further cases of the grammar ----

#[test]
fn selector_error_messages_are_exact() {
    assert_eq!(parse_label_selector("service").unwrap_err(), "selector must be wrapped in {}");
    assert_eq!(parse_label_selector("{").unwrap_err(), "selector must be wrapped in {}");
    assert_eq!(parse_label_selector(r#"{="x"}"#).unwrap_err(), "expected label name");
    assert_eq!(
        parse_label_selector(r#"{a!"x"}"#).unwrap_err(),
        "expected '=' or '~' after '!'"
    );
    assert_eq!(
        parse_label_selector(r#"{a>"x"}"#).unwrap_err(),
        "unexpected operator character: '>'"
    );
    assert_eq!(
        parse_label_selector(r#"{a}"#).unwrap_err(),
        "unexpected end of input while reading operator"
    );
    assert_eq!(parse_label_selector(r#"{a=x}"#).unwrap_err(), "expected '\"' to start value");
    assert_eq!(
        parse_label_selector(r#"{a="x}"#).unwrap_err(),
        "unexpected end of input in quoted value"
    );
    assert_eq!(
        parse_label_selector(r#"{a="x\}"#).unwrap_err(),
        "unexpected end of input in escape sequence"
    );
    assert_eq!(
        parse_label_selector(r#"{a="x" b="y"}"#).unwrap_err(),
        "unexpected character: 'b'"
    );
}

#[test]
fn selector_accepts_trailing_comma_and_outer_whitespace() {
    let result = parse_label_selector("  {a=\"1\",}\n").unwrap();
    assert_eq!(result.len(), 1);
    assert_eq!(result[0].name, "a");
    assert_eq!(result[0].value, "1");
}

#[test]
fn selector_reads_unicode_and_underscore_names() {
    let result = parse_label_selector(r#"{host_name="x", städte="y"}"#).unwrap();
    assert_eq!(result[0].name, "host_name");
    assert_eq!(result[1].name, "städte");
}

#[test]
fn selector_escape_takes_next_character_literally() {
    let result = parse_label_selector(r#"{a="x\\y\n"}"#).unwrap();
    assert_eq!(result[0].value, "x\\yn");
}

#[test]
fn nre_with_invalid_regex_matches_everything() {
    let matchers = parse_label_selector(r#"{a!~"("}"#).unwrap();
    assert!(matchers[0].matches(&labels_of(&[("a", "anything")])));
    let matchers = parse_label_selector(r#"{a=~"("}"#).unwrap();
    assert!(!matchers[0].matches(&labels_of(&[("a", "(")])));
}

fn render(ms: &[(&str, MatchOp, &str)]) -> String {
    let parts: Vec<String> = ms
        .iter()
        .map(|(name, op, value)| {
            let op_text = match op {
                MatchOp::Eq => "=",
                MatchOp::Neq => "!=",
                MatchOp::Re => "=~",
                MatchOp::Nre => "!~",
            };
            let mut escaped = String::new();
            for c in value.chars() {
                if c == '"' || c == '\\' {
                    escaped.push('\\');
                }
                escaped.push(c);
            }
            format!("{}{}\"{}\"", name, op_text, escaped)
        })
        .collect();
    format!("{{{}}}", parts.join(", "))
}

fn same(parsed: &[LabelMatcher], ms: &[(&str, MatchOp, &str)]) -> bool {
    parsed.len() == ms.len()
        && parsed.iter().zip(ms.iter()).all(|(p, (name, op, value))| {
            p.name == *name && p.op == *op && p.value == *value
        })
}

#[test]
fn rendered_matchers_parse_back() {
    let cases: Vec<Vec<(&str, MatchOp, &str)>> = vec![
        vec![],
        vec![("service", MatchOp::Eq, "web")],
        vec![
            ("service", MatchOp::Eq, "web"),
            ("level", MatchOp::Neq, "debug"),
            ("host_2", MatchOp::Re, "api-.*"),
            ("env", MatchOp::Nre, "dev|test"),
        ],
        vec![("msg", MatchOp::Eq, r#"say "hi" \ bye"#), ("x", MatchOp::Eq, "")],
        vec![("région", MatchOp::Eq, " spaced , value }")],
    ];
    for ms in cases {
        let text = render(&ms);
        let parsed = parse_label_selector(&text).unwrap();
        assert!(same(&parsed, &ms), "{}", text);
    }
    assert_eq!(
        render(&[("a", MatchOp::Neq, "q\"")]),
        r#"{a!="q\""}"#
    );
}
