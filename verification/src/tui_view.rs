//! What the screens of the terminal client show: which rows are visible, how
//! rows are highlighted, and the texts of headers, rows and status lines.
use vstd::prelude::*;
use vstd::string::{StrSliceExecFns, StringExecFns};
use vstd::utf8::{encode_utf8, is_char_boundary};

use crate::labels::{Labels, key_index, keys_unique, lemma_pairs_map_index, pairs_map};
use crate::log::{LogEntry, LogLevel, Timestamp, level_name, spec_level_name};
use crate::span::Span;
use crate::text::{
    chars_lt, chars_of, lemma_chars_lt_total, lemma_chars_lt_transitive, nat_digits, str_lt, string_from_chars,
    usize_to_string,
};
use crate::tui_app::{
    App, Area, InputMode, SidebarItem, SidebarItemView, Tab, TraceGroup, chrono_micros_between, first_named, log_order,
    micros_between, trace_count,
};
use crate::tui_input::{min_of, sat_sub};

verus! {

broadcast use vstd::string::group_string_axioms;

// ---- which rows are visible ----

/// The first visible row of a list whose cursor is at `cursor`: the list
/// scrolls (when it has the focus) just far enough to show the cursor.
pub open spec fn spec_scroll_offset(focused: bool, cursor: int, visible_height: int) -> int {
    if focused && cursor >= visible_height {
        cursor - visible_height + 1
    } else {
        0
    }
}

/// The first visible row of a list whose cursor is at `cursor`.
pub fn compute_scroll_offset(focused: bool, cursor: usize, visible_height: usize) -> (r: usize)
    requires
        spec_scroll_offset(focused, cursor as int, visible_height as int) <= usize::MAX,
    ensures
        r == spec_scroll_offset(focused, cursor as int, visible_height as int),
{
    if focused && cursor >= visible_height {
        cursor - visible_height + 1
    } else {
        0
    }
}

/// The rows of the log list on screen: the cursor (kept on the last entry at
/// most), and the first and one-past-last visible entries.
pub fn log_window(len: usize, cursor: usize, visible_height: usize) -> (r: (usize, usize, usize))
    ensures
        r.0 == min_of(cursor as int, sat_sub(len as int, 1)),
        r.1 == spec_scroll_offset(true, r.0 as int, visible_height as int),
        r.2 == min_of(r.1 + visible_height, len as int),
{
    let last = if len == 0 {
        0
    } else {
        len - 1
    };
    let c = if cursor < last {
        cursor
    } else {
        last
    };
    let start = compute_scroll_offset(true, c, visible_height);
    let end = if start <= len && visible_height <= len - start {
        start + visible_height
    } else {
        len
    };
    (c, start, end)
}

/// The rows of the filter sidebar on screen: the first and one-past-last
/// visible lines, the first one at most the length.
pub fn sidebar_window(len: usize, focused: bool, scroll: usize, visible_height: usize) -> (r: (usize, usize))
    requires
        spec_scroll_offset(focused, scroll as int, visible_height as int) <= usize::MAX,
    ensures
        r.0 == spec_scroll_offset(focused, scroll as int, visible_height as int),
        r.1 == min_of(r.0 + visible_height, len as int),
{
    let start = compute_scroll_offset(focused, scroll, visible_height);
    let end = if start <= len && visible_height <= len - start {
        start + visible_height
    } else {
        len
    };
    (start, end)
}

/// The rows of the trace list on screen: from the trace cursor (at most the
/// last trace) on, as many as fit.
pub fn trace_window(len: usize, scroll: usize, visible_height: usize) -> (r: (usize, usize))
    ensures
        r.0 == min_of(scroll as int, sat_sub(len as int, 1)),
        r.1 == min_of(r.0 + visible_height, len as int),
{
    let last = if len == 0 {
        0
    } else {
        len - 1
    };
    let start = if scroll < last {
        scroll
    } else {
        last
    };
    let end = if start <= len && visible_height <= len - start {
        start + visible_height
    } else {
        len
    };
    (start, end)
}

/// A popup of at most `width` by `height` cells centred in `area`, leaving a
/// margin of two columns and one row on each side.
pub fn centered_popup(area: Area, width: u16, height: u16) -> (r: Area)
    requires
        area.x + (area.width - min_of(width as int, sat_sub(area.width as int, 4))) / 2 <= u16::MAX,
        area.y + (area.height - min_of(height as int, sat_sub(area.height as int, 2))) / 2 <= u16::MAX,
    ensures
        r.width == min_of(width as int, sat_sub(area.width as int, 4)),
        r.height == min_of(height as int, sat_sub(area.height as int, 2)),
        r.x == area.x + (area.width - r.width) / 2,
        r.y == area.y + (area.height - r.height) / 2,
{
    let max_w = area.width.saturating_sub(4);
    let max_h = area.height.saturating_sub(2);
    let w = if width < max_w {
        width
    } else {
        max_w
    };
    let h = if height < max_h {
        height
    } else {
        max_h
    };
    let x = area.x + (area.width - w) / 2;
    let y = area.y + (area.height - h) / 2;
    Area { x, y, width: w, height: h }
}

// ---- how rows are highlighted ----

/// How a row stands out.
#[derive(Debug, Clone, Copy, PartialEq, Eq, Structural)]
pub enum RowTone {
    /// The selected entry.
    Selected,
    /// The row under the cursor.
    Cursor,
    /// Any other row.
    Plain,
}

/// How the log row at `index` stands out: the selected entry first, then the
/// cursor row while the log list has the focus.
pub fn log_row_tone(index: usize, cursor: usize, sidebar_focused: bool, selected: Option<usize>) -> (r: RowTone)
    ensures
        r == (if selected == Some(index) {
            RowTone::Selected
        } else if !sidebar_focused && index == cursor {
            RowTone::Cursor
        } else {
            RowTone::Plain
        }),
{
    if selected == Some(index) {
        RowTone::Selected
    } else if !sidebar_focused && index == cursor {
        RowTone::Cursor
    } else {
        RowTone::Plain
    }
}

/// Whether a sidebar line is highlighted: the sidebar has the focus and the
/// line is under its cursor.
pub fn highlight_if(focused: bool, index: usize, scroll: usize) -> (r: bool)
    ensures
        r == (focused && index == scroll),
{
    focused && index == scroll
}

/// How long a span or trace took, as its colour tells.
#[derive(Debug, Clone, Copy, PartialEq, Eq, Structural)]
pub enum DurationTone {
    /// Over 100 ms.
    Slow,
    /// Over 10 ms.
    Medium,
    /// At most 10 ms.
    Fast,
}

/// The tone of a duration of `micros` microseconds: slow above 100 ms, medium
/// above 10 ms, fast otherwise.
pub fn duration_tone(micros: i64) -> (r: DurationTone)
    ensures
        r == (if micros > 100_000 {
            DurationTone::Slow
        } else if micros > 10_000 {
            DurationTone::Medium
        } else {
            DurationTone::Fast
        }),
{
    if micros > 100_000 {
        DurationTone::Slow
    } else if micros > 10_000 {
        DurationTone::Medium
    } else {
        DurationTone::Fast
    }
}

/// The width of a timing bar, in cells.
pub const TIMING_BAR_WIDTH: usize = 10;

/// The cells of a timing bar whose mark starts at `bar_start` and is
/// `bar_len` long: the start is kept within the bar, the mark is at least one
/// cell and stops at the end of the bar; marked cells are `#`, the others `.`.
pub open spec fn spec_timing_bar(bar_start: int, bar_len: int) -> Seq<char> {
    let s = min_of(bar_start, TIMING_BAR_WIDTH as int);
    let l = min_of(if bar_len < 1 {
        1
    } else {
        bar_len
    }, TIMING_BAR_WIDTH - s);
    Seq::new(TIMING_BAR_WIDTH as nat, |i: int| if s <= i < s + l { '#' } else { '.' })
}

/// The cells of a timing bar.
pub fn timing_bar(bar_start: usize, bar_len: usize) -> (r: String)
    ensures
        r@ == spec_timing_bar(bar_start as int, bar_len as int),
{
    let s = if bar_start < TIMING_BAR_WIDTH {
        bar_start
    } else {
        TIMING_BAR_WIDTH
    };
    let l0 = if bar_len < 1 {
        1
    } else {
        bar_len
    };
    let l = if l0 < TIMING_BAR_WIDTH - s {
        l0
    } else {
        TIMING_BAR_WIDTH - s
    };
    let mut cells: Vec<char> = Vec::new();
    let mut i: usize = 0;
    while i < TIMING_BAR_WIDTH
        invariant
            i <= TIMING_BAR_WIDTH,
            s <= TIMING_BAR_WIDTH,
            s + l <= TIMING_BAR_WIDTH,
            cells@.len() == i,
            forall|j: int| 0 <= j < i ==> #[trigger] cells@[j] == (if s <= j < s + l { '#' } else { '.' }),
        decreases TIMING_BAR_WIDTH - i,
    {
        if i >= s && i < s + l {
            cells.push('#');
        } else {
            cells.push('.');
        }
        i = i + 1;
    }
    assert(cells@ =~= spec_timing_bar(bar_start as int, bar_len as int));
    string_from_chars(&cells)
}

// ---- counting ----

/// The entries in the status line's four groups.
pub struct LevelCounts {
    /// Error and fatal entries.
    pub error: usize,
    /// Warnings.
    pub warn: usize,
    /// Informational entries.
    pub info: usize,
    /// Debug and trace entries.
    pub debug: usize,
}

/// The group of a level in the status line: 0 error/fatal, 1 warn, 2 info,
/// 3 debug/trace.
pub open spec fn level_group(level: LogLevel) -> int {
    match level {
        LogLevel::Error | LogLevel::Fatal => 0,
        LogLevel::Warn => 1,
        LogLevel::Info => 2,
        LogLevel::Debug | LogLevel::Trace => 3,
    }
}

/// How many of the levels fall in group `g`.
pub open spec fn group_count(levels: Seq<LogLevel>, g: int) -> nat
    decreases levels.len(),
{
    if levels.len() == 0 {
        0
    } else {
        group_count(levels.drop_last(), g) + if level_group(levels.last()) == g {
            1nat
        } else {
            0nat
        }
    }
}

/// The levels of a list of entries.
pub open spec fn levels_of(logs: Seq<&LogEntry>) -> Seq<LogLevel> {
    logs.map_values(|l: &LogEntry| l.level)
}

proof fn lemma_group_count_bound(logs: Seq<LogLevel>, g: int)
    ensures
        group_count(logs, g) <= logs.len(),
    decreases logs.len(),
{
    if logs.len() > 0 {
        lemma_group_count_bound(logs.drop_last(), g);
    }
}

/// How many entries fall in each group of the status line.
pub fn count_levels(logs: &[&LogEntry]) -> (r: LevelCounts)
    ensures
        r.error == group_count(levels_of(logs@), 0),
        r.warn == group_count(levels_of(logs@), 1),
        r.info == group_count(levels_of(logs@), 2),
        r.debug == group_count(levels_of(logs@), 3),
{
    let mut counts = LevelCounts { error: 0, warn: 0, info: 0, debug: 0 };
    let mut i: usize = 0;
    while i < logs.len()
        invariant
            i <= logs@.len(),
            counts.error == group_count(levels_of(logs@).take(i as int), 0),
            counts.warn == group_count(levels_of(logs@).take(i as int), 1),
            counts.info == group_count(levels_of(logs@).take(i as int), 2),
            counts.debug == group_count(levels_of(logs@).take(i as int), 3),
        decreases logs@.len() - i,
    {
        proof {
            let lv = levels_of(logs@);
            let t = lv.take(i + 1);
            assert(t.drop_last() =~= lv.take(i as int));
            assert(t.last() == logs@[i as int].level);
            lemma_group_count_bound(lv.take(i as int), 0);
            lemma_group_count_bound(lv.take(i as int), 1);
            lemma_group_count_bound(lv.take(i as int), 2);
            lemma_group_count_bound(lv.take(i as int), 3);
        }
        match logs[i].level {
            LogLevel::Error | LogLevel::Fatal => counts.error = counts.error + 1,
            LogLevel::Warn => counts.warn = counts.warn + 1,
            LogLevel::Info => counts.info = counts.info + 1,
            LogLevel::Debug | LogLevel::Trace => counts.debug = counts.debug + 1,
        }
        i = i + 1;
    }
    proof {
        assert(levels_of(logs@).take(i as int) =~= levels_of(logs@));
    }
    counts
}

// ---- texts ----

/// Whether `prefix` is `s` cut after `n` bytes.
pub open spec fn is_byte_prefix(prefix: Seq<char>, s: Seq<char>, n: int) -> bool {
    encode_utf8(prefix) == encode_utf8(s).subrange(0, n)
}

/// The first `n` bytes of `s` (`&s[..n]`); `n` must fall on a character boundary.
fn byte_prefix(s: &str, n: usize) -> (r: String)
    requires
        is_char_boundary(encode_utf8(s@), n as int),
    ensures
        is_byte_prefix(r@, s@, n as int),
{
    let (head, _) = s.split_at(n);
    head.to_string()
}

/// Whether `r` is `s` shortened to fit `max` bytes: unchanged when it fits,
/// else its first `max - 2` bytes (0 when `max` is below 2) and `..`.
pub open spec fn is_truncation(r: Seq<char>, s: Seq<char>, max: int) -> bool {
    if encode_utf8(s).len() > max {
        exists|p: Seq<char>| is_byte_prefix(p, s, sat_sub(max, 2)) && r == p + ".."@
    } else {
        r == s
    }
}

/// Whether cutting `s` for `max` bytes falls on a character boundary.
pub open spec fn truncation_cuts(s: Seq<char>, max: int) -> bool {
    encode_utf8(s).len() > max ==> is_char_boundary(encode_utf8(s), sat_sub(max, 2))
}

/// `s` shortened to fit `max` bytes, marked with `..` when cut.
pub fn truncate(s: &str, max: usize) -> (r: String)
    requires
        truncation_cuts(s@, max as int),
    ensures
        is_truncation(r@, s@, max as int),
{
    if s.as_bytes().len() > max {
        let head = byte_prefix(s, max.saturating_sub(2));
        let r = head.concat("..");
        assert(is_byte_prefix(head@, s@, sat_sub(max as int, 2)) && r@ == head@ + ".."@);
        r
    } else {
        s.to_string()
    }
}

/// `s` followed by spaces up to `width` characters (`{:<width}`).
pub open spec fn padded(s: Seq<char>, width: int) -> Seq<char> {
    if s.len() < width {
        s + Seq::new((width - s.len()) as nat, |i: int| ' ')
    } else {
        s
    }
}

/// `s` followed by spaces up to `width` characters.
pub fn pad_right(s: &str, width: usize) -> (r: String)
    ensures
        r@ == padded(s@, width as int),
{
    let mut v = chars_of(s);
    let n = v.len();
    if n >= width {
        return s.to_string();
    }
    let mut i: usize = n;
    while i < width
        invariant
            n <= i <= width,
            n == s@.len(),
            v@ =~= s@ + Seq::new((i - n) as nat, |j: int| ' '),
        decreases width - i,
    {
        v.push(' ');
        i = i + 1;
    }
    string_from_chars(&v)
}


// ---- the status line ----

/// The status line of the logs view: how many entries are shown, the order,
/// and how many fall in each group.
pub open spec fn spec_log_status(n: nat, newest_first: bool, error: nat, warn: nat, info: nat, debug: nat) -> Seq<char> {
    " "@ + nat_digits(n) + " lines | "@ + (if newest_first {
        "newest"@
    } else {
        "oldest"@
    }) + " first | error: "@ + nat_digits(error) + " | warn: "@ + nat_digits(warn) + " | info: "@
        + nat_digits(info) + " | debug: "@ + nat_digits(debug) + " "@
}

/// The status line of the traces view.
pub open spec fn spec_trace_status(n: nat) -> Seq<char> {
    " "@ + nat_digits(n) + " traces "@
}

/// The levels of the shown entries, in display order.
pub open spec fn shown_levels(app: App) -> Seq<LogLevel> {
    log_order(app).map_values(|i: usize| app.logs@[i as int].level)
}

/// The status line.
pub fn format_status_text(app: &App) -> (r: String)
    ensures
        app.tab == Tab::Logs ==> r@ == spec_log_status(
            log_order(*app).len(),
            app.newest_first,
            group_count(shown_levels(*app), 0),
            group_count(shown_levels(*app), 1),
            group_count(shown_levels(*app), 2),
            group_count(shown_levels(*app), 3),
        ),
        app.tab == Tab::Traces ==> r@ == spec_trace_status(trace_count(app.traces@)),
{
    match app.tab {
        Tab::Logs => {
            let filtered = app.filtered_logs();
            assert(levels_of(filtered@) =~= shown_levels(*app));
            let counts = count_levels(filtered.as_slice());
            let order = if app.newest_first {
                "newest"
            } else {
                "oldest"
            };
            " ".to_string().concat(usize_to_string(filtered.len()).as_str()).concat(" lines | ").concat(
                order,
            ).concat(" first | error: ").concat(usize_to_string(counts.error).as_str()).concat(
                " | warn: ",
            ).concat(usize_to_string(counts.warn).as_str()).concat(" | info: ").concat(
                usize_to_string(counts.info).as_str(),
            ).concat(" | debug: ").concat(usize_to_string(counts.debug).as_str()).concat(" ")
        },
        Tab::Traces => {
            let n = app.unique_traces().len();
            " ".to_string().concat(usize_to_string(n).as_str()).concat(" traces ")
        },
    }
}

/// The error part of the status line: ` | err: ` and the error, or nothing.
pub fn status_error_text(error: &Option<String>) -> (r: String)
    ensures
        match error {
            Some(e) => r@ == " | err: "@ + e@,
            None => r@ == Seq::<char>::empty(),
        },
{
    match error {
        Some(e) => " | err: ".to_string().concat(e.as_str()),
        None => String::new(),
    }
}

// ---- the search bar and the header ----

/// How a text is shown.
#[derive(Debug, Clone, Copy, PartialEq, Eq, Structural)]
pub enum TextTone {
    /// Being edited.
    Active,
    /// A hint in place of an empty value.
    Placeholder,
    /// An ordinary value.
    Normal,
}

/// The text of the search bar: while editing, the search text and a cursor
/// mark; else the search text, or a hint when there is none.
pub fn search_text(app: &App, active: bool) -> (r: (String, TextTone))
    ensures
        active ==> r.0@ == app.search@ + "_"@ && r.1 == TextTone::Active,
        !active && app.search@.len() == 0 ==> r.0@ == "search..."@ && r.1 == TextTone::Placeholder,
        !active && app.search@.len() > 0 ==> r.0@ == app.search@ && r.1 == TextTone::Normal,
{
    if active {
        (app.search.clone().concat("_"), TextTone::Active)
    } else if app.search.as_str().is_empty() {
        ("search...".to_string(), TextTone::Placeholder)
    } else {
        (app.search.clone(), TextTone::Normal)
    }
}

/// The title of the header.
pub open spec fn spec_header_title(version: Seq<char>, server_name: Seq<char>, live_tail: bool, loaded: nat, has_more: bool) -> Seq<char> {
    " rgrab v"@ + version + " ["@ + server_name + "]"@ + (if live_tail {
        " Live"@
    } else {
        Seq::empty()
    }) + " "@ + nat_digits(loaded) + (if has_more {
        "+"@
    } else {
        Seq::empty()
    }) + " loaded"@ + " "@
}

/// The title of the header: version, server, live tail and how many entries
/// are loaded (`+` when there are more).
pub fn header_title(version: &str, server_name: &str, live_tail: bool, loaded: usize, has_more: bool) -> (r: String)
    ensures
        r@ == spec_header_title(version@, server_name@, live_tail, loaded as nat, has_more),
{
    let live = if live_tail {
        " Live"
    } else {
        ""
    };
    let more = if has_more {
        "+"
    } else {
        ""
    };
    proof {
        reveal_strlit("");
    }
    " rgrab v".to_string().concat(version).concat(" [").concat(server_name).concat("]").concat(live).concat(
        " ",
    ).concat(usize_to_string(loaded).as_str()).concat(more).concat(" loaded").concat(" ")
}

/// The key and the name of the toggle of a level: ` N ` and `NAME `.
pub fn level_tab_texts(index: usize, level: LogLevel) -> (r: (String, String))
    requires
        index < usize::MAX,
    ensures
        r.0@ == " "@ + nat_digits((index + 1) as nat) + " "@,
        r.1@ == spec_level_name(level) + " "@,
{
    let key = " ".to_string().concat(usize_to_string(index + 1).as_str()).concat(" ");
    let name = level_name(level).to_string().concat(" ");
    (key, name)
}

// ---- key hints ----

/// The hints of a mode: pairs of a key and what it does.
pub open spec fn spec_keyhints(mode: InputMode) -> Seq<(Seq<char>, Seq<char>)> {
    match mode {
        InputMode::Search => seq![("Enter"@, "apply"@), ("Esc"@, "cancel"@)],
        InputMode::Normal => seq![
            ("Tab"@, "tab"@),
            ("^/v"@, "scroll"@),
            ("PgUp/Dn"@, "page"@),
            ("</>"@, "sidebar"@),
            ("/"@, "search"@),
            ("1-6"@, "filter"@),
            ("Enter"@, "select"@),
            ("s"@, "sort"@),
            ("C-N"@, "server"@),
            ("L"@, "live"@),
            ("r"@, "refresh"@),
            ("q"@, "quit"@),
        ],
    }
}

/// The views of a list of hints.
pub open spec fn hint_views(v: Seq<(&str, &str)>) -> Seq<(Seq<char>, Seq<char>)> {
    v.map_values(|h: (&str, &str)| (h.0@, h.1@))
}

/// The key hints of a mode.
pub fn build_keyhints(mode: InputMode) -> (r: Vec<(&'static str, &'static str)>)
    ensures
        hint_views(r@) == spec_keyhints(mode),
{
    let r = match mode {
        InputMode::Search => vec![("Enter", "apply"), ("Esc", "cancel")],
        InputMode::Normal => vec![
            ("Tab", "tab"),
            ("^/v", "scroll"),
            ("PgUp/Dn", "page"),
            ("</>", "sidebar"),
            ("/", "search"),
            ("1-6", "filter"),
            ("Enter", "select"),
            ("s", "sort"),
            ("C-N", "server"),
            ("L", "live"),
            ("r", "refresh"),
            ("q", "quit"),
        ],
    };
    assert(hint_views(r@) =~= spec_keyhints(mode));
    r
}

/// The text of a hint's key: ` key `.
pub fn hint_key_text(k: &str) -> (r: String)
    ensures
        r@ == " "@ + k@ + " "@,
{
    " ".to_string().concat(k).concat(" ")
}

/// The text of what a hint does: ` what  `.
pub fn hint_desc_text(d: &str) -> (r: String)
    ensures
        r@ == " "@ + d@ + "  "@,
{
    " ".to_string().concat(d).concat("  ")
}


// ---- trace rows ----

/// The texts of a trace row.
pub struct TraceRowTexts {
    /// `x ` for a failed trace, `o ` otherwise.
    pub icon: String,
    /// The root operation, cut to 25 bytes and padded to 25 characters.
    pub operation: String,
    /// The root service, cut to 15 bytes and padded to 15 characters.
    pub service: String,
    /// The first 8 bytes of the trace id and `.. `.
    pub id_preview: String,
    /// ` (N spans)`.
    pub span_count: String,
}

/// How many bytes of a trace id its preview keeps.
pub open spec fn preview_len(id: Seq<char>) -> int {
    min_of(8, encode_utf8(id).len() as int)
}

/// Whether the texts of a shortened column are those of `s`.
pub open spec fn is_column(r: Seq<char>, s: Seq<char>, width: int) -> bool {
    exists|t: Seq<char>| is_truncation(t, s, width) && r == padded(t, width)
}

/// `s` cut to `width` bytes and padded to `width` characters.
fn column(s: &str, width: usize) -> (r: String)
    requires
        truncation_cuts(s@, width as int),
    ensures
        is_column(r@, s@, width as int),
{
    let t = truncate(s, width);
    pad_right(t.as_str(), width)
}

/// The texts of a trace row. Operation and service are cut by bytes and the
/// id preview too, so each cut must fall on a character boundary.
pub fn trace_row_texts(group: &TraceGroup) -> (r: TraceRowTexts)
    requires
        truncation_cuts(group.root_operation@, 25),
        truncation_cuts(group.root_service@, 15),
        is_char_boundary(encode_utf8(group.trace_id@), preview_len(group.trace_id@)),
    ensures
        r.icon@ == (if group.has_error {
            "x "@
        } else {
            "o "@
        }),
        is_column(r.operation@, group.root_operation@, 25),
        is_column(r.service@, group.root_service@, 15),
        exists|p: Seq<char>| is_byte_prefix(p, group.trace_id@, preview_len(group.trace_id@)) && r.id_preview@ == p + ".. "@,
        r.span_count@ == " ("@ + nat_digits(group.span_count as nat) + " spans)"@,
{
    let icon = if group.has_error {
        "x ".to_string()
    } else {
        "o ".to_string()
    };
    let operation = column(group.root_operation.as_str(), 25);
    let service = column(group.root_service.as_str(), 15);
    let id_len = group.trace_id.as_str().as_bytes().len();
    let n = if id_len < 8 {
        id_len
    } else {
        8
    };
    let head = byte_prefix(group.trace_id.as_str(), n);
    let id_preview = head.concat(".. ");
    let span_count = " (".to_string().concat(usize_to_string(group.span_count).as_str()).concat(" spans)");
    TraceRowTexts { icon, operation, service, id_preview, span_count }
}

// ---- span rows ----

/// The texts of the row of a span of an expanded trace.
pub struct SpanRowTexts {
    /// `  |-- ` for a child span, two spaces for a root span.
    pub prefix: String,
    /// The operation, cut to 20 bytes and padded to 20 characters.
    pub operation: String,
    /// The service, cut to 12 bytes and padded to 12 characters.
    pub service: String,
}

/// The texts of a span row; operation and service are cut by bytes, so each
/// cut must fall on a character boundary.
pub fn span_row_texts(span: &Span) -> (r: SpanRowTexts)
    requires
        truncation_cuts(span.operation_name@, 20),
        truncation_cuts(span.service_name@, 12),
    ensures
        r.prefix@ == (if span.parent_span_id is Some {
            "  |-- "@
        } else {
            "  "@
        }),
        is_column(r.operation@, span.operation_name@, 20),
        is_column(r.service@, span.service_name@, 12),
{
    let prefix = if span.parent_span_id.is_some() {
        "  |-- ".to_string()
    } else {
        "  ".to_string()
    };
    SpanRowTexts {
        prefix,
        operation: column(span.operation_name.as_str(), 20),
        service: column(span.service_name.as_str(), 12),
    }
}

/// How long a span took, in whole microseconds (0 when that does not fit).
pub fn span_micros(span: &Span) -> (r: i64)
    ensures
        r == (match micros_between(span.start_time, span.end_time) {
            Some(m) => m,
            None => 0,
        }),
{
    match chrono_micros_between(span.start_time, span.end_time) {
        Some(m) => m,
        None => 0,
    }
}

/// How long after `trace_start` a span started, in whole microseconds (0 when
/// that does not fit).
pub fn span_offset_micros(span: &Span, trace_start: Timestamp) -> (r: i64)
    ensures
        r == (match micros_between(trace_start, span.start_time) {
            Some(m) => m,
            None => 0,
        }),
{
    match chrono_micros_between(trace_start, span.start_time) {
        Some(m) => m,
        None => 0,
    }
}

/// The spans to list under a trace row: those fetched for it, when it is the
/// expanded trace.
pub fn expanded_spans<'a>(app: &'a App, trace_id: &str) -> (r: Option<&'a Vec<Span>>)
    ensures
        match r {
            Some(v) => (app.expanded_trace matches Some(e) && e@ == trace_id@) && first_named(
                app.trace_spans@,
                trace_id@,
            ) >= 0 && *v == app.trace_spans@[first_named(app.trace_spans@, trace_id@)].1,
            None => !(app.expanded_trace matches Some(e) && e@ == trace_id@) || first_named(
                app.trace_spans@,
                trace_id@,
            ) == -1,
        },
{
    let expanded = match &app.expanded_trace {
        Some(e) => crate::text::str_eq(e.as_str(), trace_id),
        None => false,
    };
    if !expanded {
        return None;
    }
    app.spans_of_trace(trace_id)
}

// ---- the sidebar and the disconnected popup ----

/// The text of a sidebar line and whether it is a selected value: a heading
/// as it is; a value after ` > ` when selected, after three spaces otherwise.
pub fn sidebar_item_text(item: &SidebarItem) -> (r: (String, bool))
    ensures
        match item@ {
            SidebarItemView::Label(n) => r.0@ == n && !r.1,
            SidebarItemView::Value { value, selected, .. } => r.0@ == (if selected {
                " > "@
            } else {
                "   "@
            }) + value && r.1 == selected,
        },
{
    match item {
        SidebarItem::Label(n) => (n.clone(), false),
        SidebarItem::Value { value, selected, .. } => {
            let prefix = if *selected {
                " > "
            } else {
                "   "
            };
            (prefix.to_string().concat(value.as_str()), *selected)
        },
    }
}

/// The lines of the popup shown while the server cannot be reached: a blank
/// line, the message, a blank line, the server and the last error (or
/// `connection refused`).
pub fn disconnected_lines(server_url: &str, error: &Option<String>) -> (r: Vec<String>)
    ensures
        r@.len() == 5,
        r@[0]@ == Seq::<char>::empty(),
        r@[1]@ == "No connection to server"@,
        r@[2]@ == Seq::<char>::empty(),
        r@[3]@ == server_url@,
        r@[4]@ == (match error {
            Some(e) => e@,
            None => "connection refused"@,
        }),
{
    let detail = match error {
        Some(e) => e.clone(),
        None => "connection refused".to_string(),
    };
    vec![String::new(), "No connection to server".to_string(), String::new(), server_url.to_string(), detail]
}

// ---- the labels of the selected entry ----

/// Whether `r` lists the labels of `m` by name, in increasing order.
pub open spec fn is_sorted_labels(r: Seq<(Seq<char>, Seq<char>)>, m: Map<Seq<char>, Seq<char>>) -> bool {
    &&& forall|k: int| 0 <= k < r.len() ==> m.contains_key(#[trigger] r[k].0) && m[r[k].0] == r[k].1
    &&& forall|name: Seq<char>| #[trigger] m.contains_key(name) ==> exists|k: int| 0 <= k < r.len() && #[trigger] r[k].0 == name
    &&& forall|a: int, b: int| 0 <= a < b < r.len() ==> chars_lt(#[trigger] r[a].0, #[trigger] r[b].0)
}

/// The views of a list of pairs of strings.
pub open spec fn string_pairs(v: Seq<(String, String)>) -> Seq<(Seq<char>, Seq<char>)> {
    v.map_values(|p: (String, String)| (p.0@, p.1@))
}

/// Whether `p` is one of the first `upto` pairs of `e`.
pub open spec fn entry_among(e: Seq<(Seq<char>, Seq<char>)>, upto: int, p: (Seq<char>, Seq<char>)) -> bool {
    exists|j: int| 0 <= j < upto && #[trigger] e[j] == p
}

/// Whether some pair of `v` is named `name`.
pub open spec fn name_listed(v: Seq<(String, String)>, name: Seq<char>) -> bool {
    exists|k: int| 0 <= k < v.len() && #[trigger] v[k].0@ == name
}

/// The labels of an entry by name, in increasing order.
pub fn sorted_labels(labels: &Labels) -> (r: Vec<(String, String)>)
    ensures
        is_sorted_labels(string_pairs(r@), labels@),
{
    let n = labels.len();
    let ghost e = labels.entries();
    let mut out: Vec<(String, String)> = Vec::new();
    let mut i: usize = 0;
    while i < n
        invariant
            n == e.len(),
            e == labels.entries(),
            keys_unique(e),
            labels@ == pairs_map(e),
            i <= n,
            forall|k: int| 0 <= k < out@.len() ==> entry_among(e, i as int, (#[trigger] out@[k].0@, out@[k].1@)),
            forall|j: int| 0 <= j < i ==> name_listed(out@, #[trigger] e[j].0),
            forall|a: int, b: int| 0 <= a < b < out@.len() ==> chars_lt(#[trigger] out@[a].0@, #[trigger] out@[b].0@),
        decreases n - i,
    {
        let key = labels.key_at(i);
        let value = labels.value_at(i);
        let mut lo: usize = 0;
        let mut hi: usize = out.len();
        while lo < hi
            invariant
                0 <= lo <= hi <= out@.len(),
                forall|a: int| 0 <= a < lo ==> chars_lt(#[trigger] out@[a].0@, key@),
                forall|a: int| hi <= a < out@.len() ==> !chars_lt(#[trigger] out@[a].0@, key@),
                forall|a: int, b: int| 0 <= a < b < out@.len() ==> chars_lt(#[trigger] out@[a].0@, #[trigger] out@[b].0@),
            decreases hi - lo,
        {
            let mid = lo + (hi - lo) / 2;
            if str_lt(out[mid].0.as_str(), key.as_str()) {
                proof {
                    assert forall|a: int| 0 <= a < mid + 1 implies chars_lt(#[trigger] out@[a].0@, key@) by {
                        if a < mid {
                            lemma_chars_lt_transitive(out@[a].0@, out@[mid as int].0@, key@);
                        }
                    }
                }
                lo = mid + 1;
            } else {
                proof {
                    assert forall|a: int| mid <= a < out@.len() implies !chars_lt(#[trigger] out@[a].0@, key@) by {
                        if a > mid && chars_lt(out@[a].0@, key@) {
                            lemma_chars_lt_transitive(out@[mid as int].0@, out@[a].0@, key@);
                        }
                    }
                }
                hi = mid;
            }
        }
        proof {
            lemma_pairs_map_index(e, i as int);
            assert forall|a: int| lo <= a < out@.len() implies chars_lt(key@, #[trigger] out@[a].0@) by {
                lemma_chars_lt_total(key@, out@[a].0@);
                assert(entry_among(e, i as int, (out@[a].0@, out@[a].1@)));
                let j = choose|j: int| 0 <= j < i && #[trigger] e[j] == (out@[a].0@, out@[a].1@);
                assert(e[j].0 != e[i as int].0);
            }
        }
        let ghost old_out = out@;
        out.insert(lo, (key.clone(), value.clone()));
        proof {
            assert(out@ == old_out.insert(lo as int, out@[lo as int]));
            assert(out@[lo as int].0@ == e[i as int].0 && out@[lo as int].1@ == e[i as int].1);
            assert forall|k: int| 0 <= k < out@.len() implies entry_among(e, i + 1, (#[trigger] out@[k].0@, out@[k].1@)) by {
                if k < lo {
                    assert(out@[k] == old_out[k]);
                    assert(entry_among(e, i as int, (old_out[k].0@, old_out[k].1@)));
                    let j = choose|j: int| 0 <= j < i && #[trigger] e[j] == (old_out[k].0@, old_out[k].1@);
                    assert(e[j] == (out@[k].0@, out@[k].1@));
                } else if k > lo {
                    assert(out@[k] == old_out[k - 1]);
                    assert(entry_among(e, i as int, (old_out[k - 1].0@, old_out[k - 1].1@)));
                    let j = choose|j: int| 0 <= j < i && #[trigger] e[j] == (old_out[k - 1].0@, old_out[k - 1].1@);
                    assert(e[j] == (out@[k].0@, out@[k].1@));
                } else {
                    assert(e[i as int] == (out@[k].0@, out@[k].1@));
                }
            }
            assert forall|j: int| 0 <= j < i + 1 implies name_listed(out@, #[trigger] e[j].0) by {
                if j == i {
                    assert(out@[lo as int].0@ == e[j].0);
                } else {
                    assert(name_listed(old_out, e[j].0));
                    let k = choose|k: int| 0 <= k < old_out.len() && #[trigger] old_out[k].0@ == e[j].0;
                    if k < lo {
                        assert(out@[k] == old_out[k]);
                    } else {
                        assert(out@[k + 1] == old_out[k]);
                    }
                }
            }
            assert forall|a: int, b: int| 0 <= a < b < out@.len() implies chars_lt(#[trigger] out@[a].0@, #[trigger] out@[b].0@) by {
                if b < lo {
                    assert(out@[a] == old_out[a] && out@[b] == old_out[b]);
                } else if b == lo {
                    assert(out@[a] == old_out[a]);
                } else if a < lo {
                    assert(out@[a] == old_out[a] && out@[b] == old_out[b - 1]);
                    lemma_chars_lt_transitive(old_out[a].0@, key@, old_out[b - 1].0@);
                } else if a == lo {
                    assert(out@[b] == old_out[b - 1]);
                } else {
                    assert(out@[a] == old_out[a - 1] && out@[b] == old_out[b - 1]);
                }
            }
        }
        i = i + 1;
    }
    proof {
        let v = string_pairs(out@);
        assert forall|k: int| 0 <= k < v.len() implies labels@.contains_key(#[trigger] v[k].0) && labels@[v[k].0] == v[k].1 by {
            assert(v[k] == (out@[k].0@, out@[k].1@));
            assert(entry_among(e, i as int, (out@[k].0@, out@[k].1@)));
            let j = choose|j: int| 0 <= j < i && #[trigger] e[j] == (out@[k].0@, out@[k].1@);
            lemma_pairs_map_index(e, j);
        }
        assert forall|name: Seq<char>| #[trigger] labels@.contains_key(name) implies exists|k: int| 0 <= k < v.len() && #[trigger] v[k].0 == name by {
            let j = key_index(e, name);
            assert(e[j].0 == name);
            assert(name_listed(out@, e[j].0));
            let k = choose|k: int| 0 <= k < out@.len() && #[trigger] out@[k].0@ == e[j].0;
            assert(v[k].0 == name);
        }
    }
    out
}

/// The text of a label name in the detail sidebar: `name: `.
pub fn label_detail_key(key: &str) -> (r: String)
    ensures
        r@ == key@ + ": "@,
{
    key.to_string().concat(": ")
}

} // verus!
