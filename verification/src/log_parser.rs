//! Guessing the level of a free-text log line.
use vstd::prelude::*;

use crate::log::{LogLevel, spec_level_name};
use crate::text::{
    ascii_chars, ascii_lower_char, ascii_upper_char, chars_of, is_ascii_alphanumeric, matches_at, occurs_at,
    spec_ascii_alnum, spec_to_upper, to_uppercase,
};

verus! {

/// Whether the occurrence of `w` at `i` stands alone: no ASCII letter or digit
/// right before or right after it.
pub open spec fn stands_alone(h: Seq<char>, w: Seq<char>, i: int) -> bool {
    (i == 0 || !spec_ascii_alnum(h[i - 1])) && (i + w.len() >= h.len() || !spec_ascii_alnum(
        h[i + w.len()],
    ))
}

/// Whether one of the non-overlapping occurrences of `w` found from `pos` on,
/// scanning left to right, stands alone. The empty word occurs at every
/// position, the end included.
pub open spec fn word_from(h: Seq<char>, w: Seq<char>, pos: int) -> bool
    decreases h.len() + 1 - pos,
{
    if pos < 0 || pos + w.len() > h.len() {
        false
    } else if w.len() == 0 {
        stands_alone(h, w, pos) || word_from(h, w, pos + 1)
    } else if occurs_at(h, w, pos) {
        stands_alone(h, w, pos) || word_from(h, w, pos + w.len())
    } else {
        word_from(h, w, pos + 1)
    }
}

/// Whether `w` occurs in `h` as a whole word.
pub open spec fn has_word(h: Seq<char>, w: Seq<char>) -> bool {
    word_from(h, w, 0)
}

/// The level a line announces, judged on its upper-case form: FATAL or CRIT,
/// then ERROR or ERR, then WARN or WARNING, then DEBUG or DBG, then TRACE, and
/// INFO when none of these words occurs.
pub open spec fn spec_parse_level(line: Seq<char>) -> LogLevel {
    let u = spec_to_upper(line);
    if has_word(u, "FATAL"@) || has_word(u, "CRIT"@) {
        LogLevel::Fatal
    } else if has_word(u, "ERROR"@) || has_word(u, "ERR"@) {
        LogLevel::Error
    } else if has_word(u, "WARN"@) || has_word(u, "WARNING"@) {
        LogLevel::Warn
    } else if has_word(u, "DEBUG"@) || has_word(u, "DBG"@) {
        LogLevel::Debug
    } else if has_word(u, "TRACE"@) {
        LogLevel::Trace
    } else {
        LogLevel::Info
    }
}

/// The level a free-text line announces.
pub fn parse_level(line: &str) -> (r: LogLevel)
    ensures
        r == spec_parse_level(line@),
{
    let upper = to_uppercase(line);
    let u = chars_of(upper.as_str());
    if contains_word_in(&u, "FATAL") || contains_word_in(&u, "CRIT") {
        LogLevel::Fatal
    } else if contains_word_in(&u, "ERROR") || contains_word_in(&u, "ERR") {
        LogLevel::Error
    } else if contains_word_in(&u, "WARN") || contains_word_in(&u, "WARNING") {
        LogLevel::Warn
    } else if contains_word_in(&u, "DEBUG") || contains_word_in(&u, "DBG") {
        LogLevel::Debug
    } else if contains_word_in(&u, "TRACE") {
        LogLevel::Trace
    } else {
        LogLevel::Info
    }
}

/// Whether `word` occurs in `haystack` as a whole word: an occurrence with no
/// ASCII letter or digit right before or right after it. The empty word occurs
/// at every position.
pub fn contains_word(haystack: &str, word: &str) -> (r: bool)
    ensures
        r == has_word(haystack@, word@),
{
    let h = chars_of(haystack);
    contains_word_in(&h, word)
}

/// Whether some position of `haystack`, the end included, has no ASCII letter
/// or digit on either side: where the empty word stands alone.
fn contains_empty_word(haystack: &Vec<char>, w: &Vec<char>) -> (r: bool)
    requires
        w.len() == 0,
    ensures
        r == word_from(haystack@, w@, 0),
{
    let mut pos: usize = 0;
    loop
        invariant
            pos <= haystack.len(),
            w.len() == 0,
            word_from(haystack@, w@, pos as int) == word_from(haystack@, w@, 0),
        decreases haystack.len() - pos,
    {
        let before_ok = pos == 0 || !is_ascii_alphanumeric(haystack[pos - 1]);
        let after_ok = pos >= haystack.len() || !is_ascii_alphanumeric(haystack[pos]);
        if before_ok && after_ok {
            return true;
        }
        if pos == haystack.len() {
            assert(!word_from(haystack@, w@, pos + 1));
            return false;
        }
        pos = pos + 1;
    }
}

/// Whether `word` occurs in the characters `haystack` as a whole word.
fn contains_word_in(haystack: &Vec<char>, word: &str) -> (r: bool)
    ensures
        r == has_word(haystack@, word@),
{
    let w = chars_of(word);
    if w.len() == 0 {
        return contains_empty_word(haystack, &w);
    }
    let mut pos: usize = 0;
    while pos <= haystack.len() && w.len() <= haystack.len() - pos
        invariant
            w@ == word@,
            w.len() > 0,
            word_from(haystack@, w@, pos as int) == word_from(haystack@, w@, 0),
        decreases haystack.len() + 1 - pos,
    {
        if matches_at(haystack, &w, pos) {
            let after = pos + w.len();
            let before_ok = pos == 0 || !is_ascii_alphanumeric(haystack[pos - 1]);
            let after_ok = after >= haystack.len() || !is_ascii_alphanumeric(haystack[after]);
            if before_ok && after_ok {
                return true;
            }
            pos = after;
        } else {
            pos = pos + 1;
        }
    }
    false
}

proof fn lemma_word_reached(a: Seq<char>, w: Seq<char>, b: Seq<char>, pos: int)
    requires
        w.len() > 0,
        forall|i: int| 0 <= i < w.len() ==> spec_ascii_alnum(#[trigger] w[i]),
        a.len() == 0 || !spec_ascii_alnum(a.last()),
        b.len() == 0 || !spec_ascii_alnum(b[0]),
        0 <= pos <= a.len(),
    ensures
        word_from(a + w + b, w, pos),
    decreases a.len() - pos,
{
    let h = a + w + b;
    let m = a.len() as int;
    if pos == m {
        assert(h.subrange(m, m + w.len()) =~= w);
        if m > 0 {
            assert(h[m - 1] == a.last());
        }
        if b.len() > 0 {
            assert(h[m + w.len()] == b[0]);
        }
    } else if occurs_at(h, w, pos) {
        if pos + w.len() > m {
            assert(h[m - 1] == a.last());
            assert(h.subrange(pos, pos + w.len())[m - 1 - pos] == h[m - 1]);
            assert(spec_ascii_alnum(w[m - 1 - pos]));
        }
        lemma_word_reached(a, w, b, pos + w.len());
    } else {
        lemma_word_reached(a, w, b, pos + 1);
    }
}

/// A word made of ASCII letters and digits is found in a line wherever it
/// stands with no ASCII letter or digit right before or right after it (the
/// line's ends count as such), whatever the rest of the line holds: `_`, `:`,
/// `-`, a space or any other character that is not an ASCII letter or digit
/// separates it.
pub proof fn lemma_word_between_separators(a: Seq<char>, w: Seq<char>, b: Seq<char>)
    requires
        w.len() > 0,
        forall|i: int| 0 <= i < w.len() ==> spec_ascii_alnum(#[trigger] w[i]),
        a.len() == 0 || !spec_ascii_alnum(a.last()),
        b.len() == 0 || !spec_ascii_alnum(b[0]),
    ensures
        has_word(a + w + b, w),
{
    lemma_word_reached(a, w, b, 0);
}

/// A word is not found where a letter or digit touches every one of its
/// occurrences: a line in which `w` occurs only at `i`, with an ASCII letter or
/// digit right before it, does not hold `w` as a word.
pub proof fn lemma_word_touching_not_found(h: Seq<char>, w: Seq<char>, i: int)
    requires
        w.len() > 0,
        occurs_at(h, w, i),
        forall|j: int| occurs_at(h, w, j) ==> j == i,
        i > 0,
        spec_ascii_alnum(h[i - 1]),
    ensures
        !has_word(h, w),
{
    lemma_word_touching_from(h, w, i, 0);
}

proof fn lemma_word_touching_from(h: Seq<char>, w: Seq<char>, i: int, pos: int)
    requires
        w.len() > 0,
        forall|j: int| occurs_at(h, w, j) ==> j == i,
        i > 0,
        spec_ascii_alnum(h[i - 1]),
        0 <= pos,
    ensures
        !word_from(h, w, pos),
    decreases h.len() + 1 - pos,
{
    if pos + w.len() <= h.len() {
        if occurs_at(h, w, pos) {
            lemma_word_touching_from(h, w, i, pos + w.len());
        } else {
            lemma_word_touching_from(h, w, i, pos + 1);
        }
    }
}

/// The level of an ASCII line does not depend on letter case: the line and its
/// upper-cased form are read as the same level, and so are the line and its
/// lower-cased form.
pub proof fn lemma_parse_level_ignores_case(line: Seq<char>)
    requires
        ascii_chars(line),
    ensures
        spec_parse_level(line) == spec_parse_level(line.map_values(|c: char| ascii_upper_char(c))),
        spec_parse_level(line) == spec_parse_level(line.map_values(|c: char| ascii_lower_char(c))),
{
    let u = line.map_values(|c: char| ascii_upper_char(c));
    let l = line.map_values(|c: char| ascii_lower_char(c));
    assert(ascii_chars(u));
    assert(ascii_chars(l));
    assert(u.map_values(|c: char| ascii_upper_char(c)) =~= u);
    assert(l.map_values(|c: char| ascii_upper_char(c)) =~= u);
}

/// An upper-case ASCII text is its own upper-case form.
proof fn lemma_upper_of_upper(s: Seq<char>)
    requires
        forall|i: int| 0 <= i < s.len() ==> 'A' <= #[trigger] s[i] <= 'Z',
    ensures
        spec_to_upper(s) == s,
{
    assert(ascii_chars(s));
    assert(s.map_values(|c: char| ascii_upper_char(c)) =~= s);
}

/// Whether no position from `p` on holds the first two characters of `w`.
spec fn no_start_from(h: Seq<char>, w: Seq<char>, p: int) -> bool
    decreases h.len() - p,
{
    if p < 0 || w.len() < 2 || p + w.len() > h.len() {
        true
    } else {
        (h[p] != w[0] || h[p + 1] != w[1]) && no_start_from(h, w, p + 1)
    }
}

proof fn lemma_no_word_from(h: Seq<char>, w: Seq<char>, p: int)
    requires
        w.len() >= 2,
        no_start_from(h, w, p),
    ensures
        !word_from(h, w, p),
    decreases h.len() - p,
{
    if 0 <= p && p + w.len() <= h.len() {
        if occurs_at(h, w, p) {
            assert(h.subrange(p, p + w.len())[0] == w[0]);
            assert(h.subrange(p, p + w.len())[1] == w[1]);
        }
        lemma_no_word_from(h, w, p + 1);
    }
}

/// `w` is not a word of `h` when no position of `h` starts like `w`.
proof fn lemma_no_word(h: Seq<char>, w: Seq<char>)
    requires
        w.len() >= 2,
        no_start_from(h, w, 0),
    ensures
        !has_word(h, w),
{
    lemma_no_word_from(h, w, 0);
}

/// A non-empty text is a word of itself.
proof fn lemma_own_word(h: Seq<char>)
    requires
        h.len() > 0,
    ensures
        has_word(h, h),
{
    assert(h.subrange(0, h.len() as int) =~= h);
}

/// Parsing the name of a level gives that level back:
/// `parse_level(level_name(level)) == level` for every level.
pub proof fn lemma_parse_level_of_name(level: LogLevel)
    ensures
        spec_parse_level(spec_level_name(level)) == level,
{
    reveal_strlit("TRACE");
    reveal_strlit("DEBUG");
    reveal_strlit("INFO");
    reveal_strlit("WARN");
    reveal_strlit("ERROR");
    reveal_strlit("FATAL");
    reveal_strlit("CRIT");
    reveal_strlit("ERR");
    reveal_strlit("WARNING");
    reveal_strlit("DBG");
    reveal_with_fuel(no_start_from, 8);
    let h = spec_level_name(level);
    lemma_upper_of_upper(h);
    lemma_own_word(h);
    if level != LogLevel::Fatal {
        lemma_no_word(h, "FATAL"@);
        lemma_no_word(h, "CRIT"@);
    }
    if level != LogLevel::Fatal && level != LogLevel::Error {
        lemma_no_word(h, "ERROR"@);
        lemma_no_word(h, "ERR"@);
    }
    if level == LogLevel::Trace || level == LogLevel::Debug || level == LogLevel::Info {
        lemma_no_word(h, "WARN"@);
        lemma_no_word(h, "WARNING"@);
    }
    if level == LogLevel::Trace || level == LogLevel::Info {
        lemma_no_word(h, "DEBUG"@);
        lemma_no_word(h, "DBG"@);
    }
    if level == LogLevel::Info {
        lemma_no_word(h, "TRACE"@);
    }
}

} // verus!
