use rgrab::log::{LogLevel, level_name};
use rgrab::log_parser::{contains_word, parse_level};

#[test]
fn levels_are_found_as_whole_words() {
    assert_eq!(parse_level("ERROR: connection refused"), LogLevel::Error);
    assert_eq!(parse_level("an error happened"), LogLevel::Error);
    assert_eq!(parse_level("err=timeout"), LogLevel::Error);
    assert_eq!(parse_level("[WARN] disk almost full"), LogLevel::Warn);
    assert_eq!(parse_level("warning: low memory"), LogLevel::Warn);
    assert_eq!(parse_level("debug value=3"), LogLevel::Debug);
    assert_eq!(parse_level("DBG x"), LogLevel::Debug);
    assert_eq!(parse_level("trace id"), LogLevel::Trace);
    assert_eq!(parse_level("fatal: crash"), LogLevel::Fatal);
    assert_eq!(parse_level("CRIT overheating"), LogLevel::Fatal);
    assert_eq!(parse_level("all good"), LogLevel::Info);
}

#[test]
fn words_inside_other_words_do_not_count() {
    assert_eq!(parse_level("terror alert"), LogLevel::Info);
    assert_eq!(parse_level("CRITICAL"), LogLevel::Info);
    assert_eq!(parse_level("errors: 0"), LogLevel::Info);
    assert_eq!(parse_level("debugger attached"), LogLevel::Info);
}

#[test]
fn the_most_severe_level_wins() {
    assert_eq!(parse_level("warn then error"), LogLevel::Error);
    assert_eq!(parse_level("fatal error"), LogLevel::Fatal);
    assert_eq!(parse_level("debug trace"), LogLevel::Debug);
}

#[test]
fn contains_word_checks_both_sides() {
    assert!(contains_word("ERROR", "ERROR"));
    assert!(contains_word("AN ERROR!", "ERROR"));
    assert!(!contains_word("XERROR", "ERROR"));
    assert!(!contains_word("ERROR1", "ERROR"));
    assert!(contains_word("ERROR1 ERROR", "ERROR"));
    assert!(!contains_word("", "ERROR"));
}

#[test]
fn parsing_a_level_name_gives_the_level_back() {
    let levels = [
        LogLevel::Trace,
        LogLevel::Debug,
        LogLevel::Info,
        LogLevel::Warn,
        LogLevel::Error,
        LogLevel::Fatal,
    ];
    for level in levels {
        assert_eq!(parse_level(level_name(level)), level);
        assert_eq!(parse_level(&level_name(level).to_lowercase()), level);
    }
}

#[test]
fn the_empty_word_stands_where_no_letter_or_digit_touches() {
    assert!(contains_word("", ""));
    assert!(contains_word("-", ""));
    assert!(contains_word("a  b", ""));
    assert!(!contains_word("ab", ""));
    assert!(!contains_word("a b", ""));
    assert!(contains_word("ab ", ""));
    assert!(contains_word("é", ""));
}
