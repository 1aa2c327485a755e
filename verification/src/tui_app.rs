//! The state of the terminal client and what it shows: which logs pass the
//! filters and in what order, how spans group into traces, and the sidebar.
use vstd::prelude::*;
use vstd::string::StringExecFns;

use crate::labels::{Labels, key_index, keys_unique, lemma_pairs_map_index, pairs_map};
use crate::log::{LogEntry, LogEntryView, LogLevel, Timestamp, level_at, level_index, spec_level_index, ts_before};
use crate::span::Span;
use crate::text::{chars_of, contains_chars, has_substring, to_lowercase, spec_to_lower};

verus! {

broadcast use vstd::array::group_array_axioms;

/// The two views of the client.
#[derive(Debug, Clone, Copy, PartialEq, Eq, Structural)]
pub enum Tab {
    Logs,
    Traces,
}

/// Whether keys drive the views or edit the search text.
#[derive(Debug, Clone, Copy, PartialEq, Eq, Structural)]
pub enum InputMode {
    Normal,
    Search,
}

/// A rectangle of the screen, in cells.
#[derive(Debug, Clone, Copy, PartialEq, Eq, Structural)]
pub struct Area {
    pub x: u16,
    pub y: u16,
    pub width: u16,
    pub height: u16,
}

/// Where the parts of the screen were last drawn.
#[derive(Debug, Clone, Copy, PartialEq, Eq, Structural)]
pub struct LayoutAreas {
    pub header: Area,
    pub level_tabs: Area,
    pub sidebar: Area,
    pub log_list: Area,
    pub traces: Area,
}

/// An empty rectangle at the origin.
pub fn empty_area() -> (r: Area)
    ensures
        r == (Area { x: 0, y: 0, width: 0, height: 0 }),
{
    Area { x: 0, y: 0, width: 0, height: 0 }
}

/// The levels in the order of their toggles: `TRACE` ... `FATAL`.
pub fn all_levels() -> (r: [LogLevel; 6])
    ensures
        forall|i: int| 0 <= i < 6 ==> #[trigger] r@[i] == level_at(i),
{
    [LogLevel::Trace, LogLevel::Debug, LogLevel::Info, LogLevel::Warn, LogLevel::Error, LogLevel::Fatal]
}

/// Everything the client knows and shows.
pub struct App {
    pub tab: Tab,
    pub logs: Vec<LogEntry>,
    pub traces: Vec<Span>,
    /// The spans fetched for each expanded trace, by trace id.
    pub trace_spans: Vec<(String, Vec<Span>)>,
    pub labels: Vec<String>,
    /// The values fetched for each sidebar label, by label name.
    pub label_values: Vec<(String, Vec<String>)>,
    pub selected_labels: Labels,
    pub search: String,
    pub input_mode: InputMode,
    pub log_cursor: usize,
    pub trace_scroll: usize,
    pub sidebar_scroll: usize,
    pub sidebar_focused: bool,
    pub expanded_trace: Option<String>,
    pub live_tail: bool,
    pub limit: usize,
    pub should_quit: bool,
    pub error: Option<String>,
    pub connected: bool,
    pub server_url: String,
    pub level_enabled: [bool; 6],
    pub selected_log_idx: Option<usize>,
    pub newest_first: bool,
    pub areas: LayoutAreas,
}

// ---- looking things up by name ----

/// The position of the first entry named `k`, or -1.
pub open spec fn first_named<V>(entries: Seq<(String, V)>, k: Seq<char>) -> int
    decreases entries.len(),
{
    if entries.len() == 0 {
        -1
    } else if entries[0].0@ == k {
        0
    } else {
        let rest = first_named(entries.drop_first(), k);
        if rest < 0 {
            -1
        } else {
            rest + 1
        }
    }
}

proof fn lemma_first_named<V>(entries: Seq<(String, V)>, k: Seq<char>)
    ensures
        -1 <= first_named(entries, k) < entries.len(),
        first_named(entries, k) >= 0 ==> entries[first_named(entries, k)].0@ == k,
        forall|j: int| 0 <= j < entries.len() && (first_named(entries, k) < 0 || j < first_named(entries, k))
            ==> #[trigger] entries[j].0@ != k,
    decreases entries.len(),
{
    if entries.len() > 0 {
        lemma_first_named(entries.drop_first(), k);
        assert forall|j: int| 0 <= j < entries.len() && (first_named(entries, k) < 0 || j < first_named(entries, k))
            implies #[trigger] entries[j].0@ != k by {
            if j > 0 {
                assert(entries[j] == entries.drop_first()[j - 1]);
            }
        }
    }
}

/// The position of the first entry named `key`, if any.
fn find_named<V>(entries: &Vec<(String, V)>, key: &str) -> (r: Option<usize>)
    ensures
        match r {
            Some(i) => first_named(entries@, key@) == i,
            None => first_named(entries@, key@) == -1,
        },
{
    proof {
        lemma_first_named(entries@, key@);
    }
    let mut i: usize = 0;
    while i < entries.len()
        invariant
            i <= entries.len(),
            forall|j: int| 0 <= j < i ==> #[trigger] entries@[j].0@ != key@,
            -1 <= first_named(entries@, key@) < entries@.len(),
            first_named(entries@, key@) >= 0 ==> entries@[first_named(entries@, key@)].0@ == key@,
            forall|j: int|
                0 <= j < entries@.len() && (first_named(entries@, key@) < 0 || j < first_named(entries@, key@))
                    ==> #[trigger] entries@[j].0@ != key@,
        decreases entries.len() - i,
    {
        if crate::text::str_eq(entries[i].0.as_str(), key) {
            return Some(i);
        }
        i = i + 1;
    }
    None
}

/// The strings of a list, as character sequences.
pub open spec fn string_views(v: Seq<String>) -> Seq<Seq<char>> {
    v.map_values(|s: String| s@)
}

/// The values fetched for a label: those of its first entry, else none.
pub open spec fn values_for(entries: Seq<(String, Vec<String>)>, label: Seq<char>) -> Seq<Seq<char>> {
    let i = first_named(entries, label);
    if i >= 0 {
        string_views(entries[i].1@)
    } else {
        Seq::empty()
    }
}

fn copy_strings(v: &Vec<String>) -> (r: Vec<String>)
    ensures
        string_views(r@) == string_views(v@),
{
    let mut out: Vec<String> = Vec::new();
    let mut i: usize = 0;
    while i < v.len()
        invariant
            i <= v.len(),
            string_views(out@) =~= string_views(v@).take(i as int),
        decreases v.len() - i,
    {
        let c = v[i].clone();
        let ghost before = out@;
        out.push(c);
        proof {
            assert(out@ == before.push(c));
            assert(string_views(out@) =~= string_views(before).push(c@));
        }
        i = i + 1;
    }
    assert(string_views(v@).take(i as int) =~= string_views(v@));
    out
}

impl App {
    /// A client for `server_url` that has fetched nothing yet: the logs view,
    /// every level shown, live tail on, newest first, a limit of 200.
    pub fn new(server_url: &str) -> (r: App)
        ensures
            r.tab == Tab::Logs,
            r.logs@.len() == 0,
            r.traces@.len() == 0,
            r.trace_spans@.len() == 0,
            r.labels@.len() == 0,
            r.label_values@.len() == 0,
            r.selected_labels@ == Map::<Seq<char>, Seq<char>>::empty(),
            r.search@.len() == 0,
            r.input_mode == InputMode::Normal,
            r.log_cursor == 0,
            r.trace_scroll == 0,
            r.sidebar_scroll == 0,
            !r.sidebar_focused,
            r.expanded_trace is None,
            r.live_tail,
            r.limit == 200,
            !r.should_quit,
            r.error is None,
            !r.connected,
            r.server_url@ == server_url@,
            forall|i: int| 0 <= i < 6 ==> #[trigger] r.level_enabled@[i],
            r.selected_log_idx is None,
            r.newest_first,
            r.areas == (LayoutAreas {
                header: Area { x: 0, y: 0, width: 0, height: 0 },
                level_tabs: Area { x: 0, y: 0, width: 0, height: 0 },
                sidebar: Area { x: 0, y: 0, width: 0, height: 0 },
                log_list: Area { x: 0, y: 0, width: 0, height: 0 },
                traces: Area { x: 0, y: 0, width: 0, height: 0 },
            }),
    {
        let a = empty_area();
        App {
            tab: Tab::Logs,
            logs: Vec::new(),
            traces: Vec::new(),
            trace_spans: Vec::new(),
            labels: Vec::new(),
            label_values: Vec::new(),
            selected_labels: Labels::new(),
            search: String::new(),
            input_mode: InputMode::Normal,
            log_cursor: 0,
            trace_scroll: 0,
            sidebar_scroll: 0,
            sidebar_focused: false,
            expanded_trace: None,
            live_tail: true,
            limit: 200,
            should_quit: false,
            error: None,
            connected: false,
            server_url: server_url.to_string(),
            level_enabled: [true, true, true, true, true, true],
            selected_log_idx: None,
            newest_first: true,
            areas: LayoutAreas { header: a, level_tabs: a, sidebar: a, log_list: a, traces: a },
        }
    }

    /// Shows or hides the level at position `idx` and moves the cursor to the
    /// top; a position past the last level changes nothing.
    pub fn toggle_level(&mut self, idx: usize)
        ensures
            idx < 6 ==> *final(self) == (App {
                level_enabled: final(self).level_enabled,
                log_cursor: 0,
                ..*old(self)
            }) && final(self).level_enabled@ == old(self).level_enabled@.update(
                idx as int,
                !old(self).level_enabled@[idx as int],
            ),
            idx >= 6 ==> *final(self) == *old(self),
    {
        if idx < 6 {
            let now = !self.level_enabled[idx];
            self.level_enabled[idx] = now;
            self.log_cursor = 0;
        }
    }

    /// Whether entries of `level` are shown.
    pub fn is_level_enabled(&self, level: LogLevel) -> (r: bool)
        ensures
            r == self.level_enabled@[spec_level_index(level)],
    {
        self.level_enabled[level_index(level)]
    }

    /// Selects `label = value` in the sidebar filter, or drops it when it is
    /// already the selection for that label.
    pub fn toggle_label(&mut self, label: &str, value: &str)
        ensures
            final(self).selected_labels@ == spec_toggle_label(
                old(self).selected_labels@,
                label@,
                value@,
            ),
            *final(self) == (App { selected_labels: final(self).selected_labels, ..*old(self) }),
    {
        let already = match self.selected_labels.get(label) {
            Some(v) => crate::text::str_eq(v.as_str(), value),
            None => false,
        };
        if already {
            self.selected_labels.remove(label);
        } else {
            self.selected_labels.insert(label.to_string(), value.to_string());
        }
    }

    /// Records the values fetched for a sidebar label, replacing earlier ones.
    pub fn set_label_values(&mut self, label: &str, values: Vec<String>)
        ensures
            values_for(final(self).label_values@, label@) == string_views(values@),
            forall|k: Seq<char>|
                k != label@ ==> #[trigger] values_for(final(self).label_values@, k) == values_for(
                    old(self).label_values@,
                    k,
                ),
            *final(self) == (App { label_values: final(self).label_values, ..*old(self) }),
    {
        let ghost old_entries = self.label_values@;
        proof {
            lemma_first_named(old_entries, label@);
        }
        match find_named(&self.label_values, label) {
            Some(i) => {
                let name = self.label_values[i].0.clone();
                self.label_values.set(i, (name, values));
                proof {
                    let e = self.label_values@;
                    assert forall|k: Seq<char>| #[trigger] first_named(e, k) == first_named(old_entries, k) by {
                        lemma_first_named(e, k);
                        lemma_first_named(old_entries, k);
                        let a = first_named(e, k);
                        let b = first_named(old_entries, k);
                        if a >= 0 && b >= 0 {
                            if a < b {
                                assert(old_entries[a].0@ == e[a].0@);
                            } else if b < a {
                                assert(old_entries[b].0@ == e[b].0@);
                            }
                        } else if a >= 0 {
                            assert(old_entries[a].0@ == e[a].0@);
                        } else if b >= 0 {
                            assert(old_entries[b].0@ == e[b].0@);
                        }
                    }
                    assert forall|k: Seq<char>| k != label@ implies #[trigger] values_for(e, k) == values_for(old_entries, k) by {
                        let a = first_named(e, k);
                        assert(first_named(old_entries, k) == a);
                        if a >= 0 {
                            lemma_first_named(e, k);
                            assert(a != i);
                        }
                    }
                }
            },
            None => {
                self.label_values.push((label.to_string(), values));
                proof {
                    let e = self.label_values@;
                    assert forall|k: Seq<char>| #[trigger] first_named(e, k) == (if first_named(old_entries, k) >= 0 {
                        first_named(old_entries, k)
                    } else if k == label@ {
                        old_entries.len() as int
                    } else {
                        -1
                    }) by {
                        lemma_first_named(e, k);
                        lemma_first_named(old_entries, k);
                        let a = first_named(e, k);
                        let b = first_named(old_entries, k);
                        if b >= 0 {
                            assert(e[b] == old_entries[b]);
                            if a >= 0 && a < b {
                                assert(e[a] == old_entries[a]);
                            }
                        } else {
                            if a >= 0 && a < old_entries.len() {
                                assert(e[a] == old_entries[a]);
                            }
                            if k == label@ {
                                assert(e[old_entries.len() as int].0@ == k);
                            }
                        }
                    }
                    assert forall|k: Seq<char>| k != label@ implies #[trigger] values_for(e, k) == values_for(old_entries, k) by {
                        let b = first_named(old_entries, k);
                        if b >= 0 {
                            lemma_first_named(old_entries, k);
                            assert(e[b] == old_entries[b]);
                        }
                    }
                    assert(first_named(e, label@) == old_entries.len());
                    assert(e[old_entries.len() as int].1 == values);
                }
            },
        }
    }

    /// The values fetched for a sidebar label (none if it was never fetched).
    pub fn label_values_of(&self, label: &str) -> (r: Vec<String>)
        ensures
            string_views(r@) == values_for(self.label_values@, label@),
    {
        proof {
            lemma_first_named(self.label_values@, label@);
        }
        match find_named(&self.label_values, label) {
            Some(i) => copy_strings(&self.label_values[i].1),
            None => Vec::new(),
        }
    }
}

/// The sidebar selection after toggling `label = value`.
pub open spec fn spec_toggle_label(
    selected: Map<Seq<char>, Seq<char>>,
    label: Seq<char>,
    value: Seq<char>,
) -> Map<Seq<char>, Seq<char>> {
    if selected.contains_key(label) && selected[label] == value {
        selected.remove(label)
    } else {
        selected.insert(label, value)
    }
}

/// Toggling the same label and value twice gives back the selection, unless
/// the label was selected with another value (the second toggle then drops it).
pub proof fn lemma_toggle_label_twice(
    selected: Map<Seq<char>, Seq<char>>,
    label: Seq<char>,
    value: Seq<char>,
)
    requires
        selected.contains_key(label) ==> selected[label] == value,
    ensures
        spec_toggle_label(spec_toggle_label(selected, label, value), label, value) == selected,
{
    let once = spec_toggle_label(selected, label, value);
    if selected.contains_key(label) {
        assert(spec_toggle_label(once, label, value) =~= selected);
    } else {
        assert(spec_toggle_label(once, label, value) =~= selected);
    }
}

/// Toggling a level twice shows or hides the same levels as before.
pub proof fn lemma_toggle_level_twice(enabled: Seq<bool>, idx: int)
    requires
        0 <= idx < enabled.len(),
    ensures
        enabled.update(idx, !enabled[idx]).update(idx, !enabled.update(idx, !enabled[idx])[idx])
            == enabled,
{
    assert(enabled.update(idx, !enabled[idx]).update(idx, !enabled.update(idx, !enabled[idx])[idx])
        =~= enabled);
}

// ---- which logs are shown, and in what order ----

/// Whether the lower-cased search text `needle` occurs in the lower-cased
/// message of an entry, or in one of its lower-cased label names or values.
pub open spec fn search_hits(needle: Seq<char>, log: LogEntryView) -> bool {
    ||| has_substring(spec_to_lower(log.message), needle)
    ||| exists|k: Seq<char>|
        #[trigger] log.labels.contains_key(k) && (has_substring(spec_to_lower(k), needle)
            || has_substring(spec_to_lower(log.labels[k]), needle))
}

/// Whether an entry passes the filters: its level is shown, the search text
/// (when there is one) hits it, and it carries every selected label value.
pub open spec fn log_visible(app: App, log: LogEntryView) -> bool {
    &&& app.level_enabled@[spec_level_index(log.level)]
    &&& (app.search@.len() == 0 || search_hits(spec_to_lower(app.search@), log))
    &&& forall|k: Seq<char>|
        #[trigger] app.selected_labels@.contains_key(k) ==> log.labels.contains_key(k)
            && log.labels[k] == app.selected_labels@[k]
}

/// With a search text, the search lets an entry through exactly when the
/// lower-cased text occurs in the entry's lower-cased message, in the
/// lower-cased name of one of its labels, or in the lower-cased value of one of
/// them: an entry so hit is shown exactly when its level is shown and it carries
/// every selected label value.
pub proof fn lemma_search_hit_shows(app: App, log: LogEntryView, k: Seq<char>)
    requires
        app.search@.len() > 0,
        ({
            let needle = spec_to_lower(app.search@);
            ||| has_substring(spec_to_lower(log.message), needle)
            ||| log.labels.contains_key(k) && has_substring(spec_to_lower(k), needle)
            ||| log.labels.contains_key(k) && has_substring(spec_to_lower(log.labels[k]), needle)
        }),
    ensures
        log_visible(app, log) == (app.level_enabled@[spec_level_index(log.level)] && forall|
            k2: Seq<char>,
        |
            #[trigger] app.selected_labels@.contains_key(k2) ==> log.labels.contains_key(k2)
                && log.labels[k2] == app.selected_labels@[k2]),
{
    if log.labels.contains_key(k) {
        assert(log.labels.contains_key(k));
    }
}

/// With a search text, an entry whose lower-cased message, label names and
/// label values all miss the lower-cased text is hidden.
pub proof fn lemma_search_miss_hides(app: App, log: LogEntryView)
    requires
        app.search@.len() > 0,
        !has_substring(spec_to_lower(log.message), spec_to_lower(app.search@)),
        forall|k: Seq<char>|
            #[trigger] log.labels.contains_key(k) ==> !has_substring(
                spec_to_lower(k),
                spec_to_lower(app.search@),
            ) && !has_substring(spec_to_lower(log.labels[k]), spec_to_lower(app.search@)),
    ensures
        !log_visible(app, log),
{
}

/// Whether entry `i` comes before entry `j` in the list: by time, newest or
/// oldest first as chosen, and by position among entries of the same instant.
pub open spec fn log_precedes(logs: Seq<LogEntry>, newest_first: bool, i: int, j: int) -> bool {
    let a = logs[i].timestamp;
    let b = logs[j].timestamp;
    if newest_first {
        ts_before(b, a) || (a == b && i < j)
    } else {
        ts_before(a, b) || (a == b && i < j)
    }
}

proof fn lemma_log_precedes_order(logs: Seq<LogEntry>, newest_first: bool)
    ensures
        forall|i: int| !#[trigger] log_precedes(logs, newest_first, i, i),
        forall|i: int, j: int|
            i != j ==> #[trigger] log_precedes(logs, newest_first, i, j) || log_precedes(
                logs,
                newest_first,
                j,
                i,
            ),
        forall|i: int, j: int|
            #[trigger] log_precedes(logs, newest_first, i, j) ==> !log_precedes(
                logs,
                newest_first,
                j,
                i,
            ),
        forall|i: int, j: int, k: int|
            #[trigger] log_precedes(logs, newest_first, i, j) && #[trigger] log_precedes(
                logs,
                newest_first,
                j,
                k,
            ) ==> log_precedes(logs, newest_first, i, k),
{
}

/// Whether `r` lists, in display order, exactly the positions of the entries
/// that pass the filters.
pub open spec fn is_log_order(app: App, r: Seq<usize>) -> bool {
    &&& forall|k: int|
        0 <= k < r.len() ==> #[trigger] r[k] < app.logs@.len() && log_visible(app, app.logs@[r[k] as int]@)
    &&& forall|i: int|
        0 <= i < app.logs@.len() && log_visible(app, app.logs@[i]@) ==> exists|k: int|
            0 <= k < r.len() && #[trigger] r[k] == i
    &&& forall|a: int, b: int|
        0 <= a < b < r.len() ==> log_precedes(app.logs@, app.newest_first, #[trigger] r[a] as int, #[trigger] r[b] as int)
}

/// The positions of the shown entries, in display order.
pub open spec fn log_order(app: App) -> Seq<usize> {
    choose|r: Seq<usize>| is_log_order(app, r)
}

/// There is one display order: two lists that both list the shown entries in
/// display order are the same list.
pub proof fn lemma_log_order_unique(app: App, s: Seq<usize>, t: Seq<usize>)
    requires
        is_log_order(app, s),
        is_log_order(app, t),
    ensures
        s == t,
{
    lemma_sorted_positions_equal(app.logs@, app.newest_first, s, t);
}

proof fn lemma_sorted_positions_equal(logs: Seq<LogEntry>, nf: bool, s: Seq<usize>, t: Seq<usize>)
    requires
        forall|a: int, b: int| 0 <= a < b < s.len() ==> log_precedes(logs, nf, #[trigger] s[a] as int, #[trigger] s[b] as int),
        forall|a: int, b: int| 0 <= a < b < t.len() ==> log_precedes(logs, nf, #[trigger] t[a] as int, #[trigger] t[b] as int),
        forall|x: usize| s.contains(x) <==> t.contains(x),
    ensures
        s == t,
    decreases s.len(),
{
    lemma_log_precedes_order(logs, nf);
    if s.len() == 0 {
        if t.len() > 0 {
            assert(t.contains(t[0]));
        }
        assert(s =~= t);
    } else {
        assert(s.contains(s[0]));
        assert(t.contains(s[0]));
        let j = choose|j: int| 0 <= j < t.len() && t[j] == s[0];
        assert(t.contains(t[0]));
        assert(s.contains(t[0]));
        let i = choose|i: int| 0 <= i < s.len() && s[i] == t[0];
        if j > 0 {
            assert(log_precedes(logs, nf, t[0] as int, t[j] as int));
            if i > 0 {
                assert(log_precedes(logs, nf, s[0] as int, s[i] as int));
            }
            assert(false);
        }
        let s1 = s.drop_first();
        let t1 = t.drop_first();
        assert forall|x: usize| s1.contains(x) <==> t1.contains(x) by {
            if s1.contains(x) {
                let a = choose|a: int| 0 <= a < s1.len() && s1[a] == x;
                assert(s[a + 1] == x);
                assert(log_precedes(logs, nf, s[0] as int, s[a + 1] as int));
                assert(t.contains(x));
                let b = choose|b: int| 0 <= b < t.len() && t[b] == x;
                if b == 0 {
                    assert(false);
                }
                assert(t1[b - 1] == x);
            }
            if t1.contains(x) {
                let a = choose|a: int| 0 <= a < t1.len() && t1[a] == x;
                assert(t[a + 1] == x);
                assert(log_precedes(logs, nf, t[0] as int, t[a + 1] as int));
                assert(s.contains(x));
                let b = choose|b: int| 0 <= b < s.len() && s[b] == x;
                if b == 0 {
                    assert(false);
                }
                assert(s1[b - 1] == x);
            }
        }
        assert forall|a: int, b: int| 0 <= a < b < s1.len() implies log_precedes(logs, nf, #[trigger] s1[a] as int, #[trigger] s1[b] as int) by {
            assert(s1[a] == s[a + 1] && s1[b] == s[b + 1]);
        }
        assert forall|a: int, b: int| 0 <= a < b < t1.len() implies log_precedes(logs, nf, #[trigger] t1[a] as int, #[trigger] t1[b] as int) by {
            assert(t1[a] == t[a + 1] && t1[b] == t[b + 1]);
        }
        lemma_sorted_positions_equal(logs, nf, s1, t1);
        assert(s =~= seq![s[0]] + s1);
        assert(t =~= seq![t[0]] + t1);
    }
}

/// The lower-cased characters of a text.
fn lower_chars(s: &str) -> (r: Vec<char>)
    ensures
        r@ == spec_to_lower(s@),
{
    let l = to_lowercase(s);
    chars_of(l.as_str())
}

/// Whether the lower-cased search text `needle` hits an entry.
fn search_hits_in(needle: &Vec<char>, log: &LogEntry) -> (r: bool)
    ensures
        r == search_hits(needle@, log@),
{
    let msg = lower_chars(log.message.as_str());
    if contains_chars(&msg, needle) {
        return true;
    }
    let n = log.labels.len();
    let ghost e = log.labels.entries();
    let mut i: usize = 0;
    while i < n
        invariant
            n == e.len(),
            e == log.labels.entries(),
            keys_unique(e),
            log.labels@ == pairs_map(e),
            i <= n,
            !has_substring(spec_to_lower(log.message@), needle@),
            forall|j: int|
                0 <= j < i ==> !has_substring(spec_to_lower(#[trigger] e[j].0), needle@) && !has_substring(
                    spec_to_lower(e[j].1),
                    needle@,
                ),
        decreases n - i,
    {
        let k = lower_chars(log.labels.key_at(i).as_str());
        let v = lower_chars(log.labels.value_at(i).as_str());
        if contains_chars(&k, needle) || contains_chars(&v, needle) {
            proof {
                lemma_pairs_map_index(e, i as int);
                assert(log@.labels.contains_key(e[i as int].0));
            }
            return true;
        }
        i = i + 1;
    }
    proof {
        assert forall|k: Seq<char>| #[trigger] log@.labels.contains_key(k) implies !(has_substring(spec_to_lower(k), needle@)
            || has_substring(spec_to_lower(log@.labels[k]), needle@)) by {
            let j = key_index(e, k);
            assert(e[j].0 == k);
        }
    }
    false
}

impl App {
    /// Whether an entry passes the filters.
    pub fn log_matches_filters(&self, log: &LogEntry) -> (r: bool)
        ensures
            r == log_visible(*self, log@),
    {
        if !self.is_level_enabled(log.level) {
            return false;
        }
        if !self.search.as_str().is_empty() {
            let needle = lower_chars(self.search.as_str());
            if !search_hits_in(&needle, log) {
                return false;
            }
        }
        self.selected_labels.contained_in(&log.labels)
    }

    fn log_precedes_at(&self, i: usize, j: usize) -> (r: bool)
        requires
            i < self.logs@.len(),
            j < self.logs@.len(),
        ensures
            r == log_precedes(self.logs@, self.newest_first, i as int, j as int),
    {
        let a = self.logs[i].timestamp;
        let b = self.logs[j].timestamp;
        if self.newest_first {
            b.before(&a) || (a == b && i < j)
        } else {
            a.before(&b) || (a == b && i < j)
        }
    }

    /// The positions of the shown entries, in display order.
    pub fn filtered_log_indices(&self) -> (r: Vec<usize>)
        ensures
            is_log_order(*self, r@),
            r@ == log_order(*self),
    {
        let ghost logs = self.logs@;
        let ghost nf = self.newest_first;
        proof {
            lemma_log_precedes_order(logs, nf);
        }
        let n = self.logs.len();
        let mut r: Vec<usize> = Vec::new();
        let mut i: usize = 0;
        while i < n
            invariant
                n == self.logs@.len(),
                logs == self.logs@,
                nf == self.newest_first,
                i <= n,
                forall|k: int| 0 <= k < r@.len() ==> #[trigger] r@[k] < i && log_visible(*self, logs[r@[k] as int]@),
                forall|j: int| 0 <= j < i && log_visible(*self, logs[j]@) ==> exists|k: int| 0 <= k < r@.len() && #[trigger] r@[k] == j,
                forall|a: int, b: int| 0 <= a < b < r@.len() ==> log_precedes(logs, nf, #[trigger] r@[a] as int, #[trigger] r@[b] as int),
                forall|x: int| !#[trigger] log_precedes(logs, nf, x, x),
                forall|x: int, y: int| x != y ==> #[trigger] log_precedes(logs, nf, x, y) || log_precedes(logs, nf, y, x),
                forall|x: int, y: int| #[trigger] log_precedes(logs, nf, x, y) ==> !log_precedes(logs, nf, y, x),
                forall|x: int, y: int, z: int|
                    #[trigger] log_precedes(logs, nf, x, y) && #[trigger] log_precedes(logs, nf, y, z) ==> log_precedes(logs, nf, x, z),
            decreases n - i,
        {
            if self.log_matches_filters(&self.logs[i]) {
                let mut lo: usize = 0;
                let mut hi: usize = r.len();
                while lo < hi
                    invariant
                        0 <= lo <= hi <= r@.len(),
                        i < n,
                        n == logs.len(),
                        forall|k: int| 0 <= k < r@.len() ==> #[trigger] r@[k] < i,
                        forall|a: int| 0 <= a < lo ==> !log_precedes(logs, nf, i as int, #[trigger] r@[a] as int),
                        forall|a: int| hi <= a < r@.len() ==> log_precedes(logs, nf, i as int, #[trigger] r@[a] as int),
                        forall|a: int, b: int| 0 <= a < b < r@.len() ==> log_precedes(logs, nf, #[trigger] r@[a] as int, #[trigger] r@[b] as int),
                        forall|x: int, y: int, z: int|
                            #[trigger] log_precedes(logs, nf, x, y) && #[trigger] log_precedes(logs, nf, y, z) ==> log_precedes(logs, nf, x, z),
                        logs == self.logs@,
                        nf == self.newest_first,
                    decreases hi - lo,
                {
                    let mid = lo + (hi - lo) / 2;
                    if self.log_precedes_at(i, r[mid]) {
                        proof {
                            assert forall|a: int| mid <= a < r@.len() implies log_precedes(logs, nf, i as int, #[trigger] r@[a] as int) by {
                                if a > mid {
                                    assert(log_precedes(logs, nf, r@[mid as int] as int, r@[a] as int));
                                }
                            }
                        }
                        hi = mid;
                    } else {
                        proof {
                            assert forall|a: int| 0 <= a < mid + 1 implies !log_precedes(logs, nf, i as int, #[trigger] r@[a] as int) by {
                                if a < mid && log_precedes(logs, nf, i as int, r@[a] as int) {
                                    assert(log_precedes(logs, nf, r@[a] as int, r@[mid as int] as int));
                                }
                            }
                        }
                        lo = mid + 1;
                    }
                }
                let ghost old_r = r@;
                r.insert(lo, i);
                proof {
                    assert(r@ == old_r.insert(lo as int, i));
                    assert forall|k: int| 0 <= k < r@.len() implies #[trigger] r@[k] < i + 1 && log_visible(*self, logs[r@[k] as int]@) by {
                        if k < lo {
                            assert(r@[k] == old_r[k]);
                        } else if k > lo {
                            assert(r@[k] == old_r[k - 1]);
                        }
                    }
                    assert forall|j: int| 0 <= j < i + 1 && log_visible(*self, logs[j]@) implies exists|k: int| 0 <= k < r@.len() && #[trigger] r@[k] == j by {
                        if j == i {
                            assert(r@[lo as int] == i);
                        } else {
                            let k = choose|k: int| 0 <= k < old_r.len() && #[trigger] old_r[k] == j;
                            if k < lo {
                                assert(r@[k] == j);
                            } else {
                                assert(r@[k + 1] == j);
                            }
                        }
                    }
                    assert forall|a: int, b: int| 0 <= a < b < r@.len() implies log_precedes(logs, nf, #[trigger] r@[a] as int, #[trigger] r@[b] as int) by {
                        if b < lo {
                            assert(r@[a] == old_r[a] && r@[b] == old_r[b]);
                        } else if b == lo {
                            assert(r@[a] == old_r[a]);
                            assert(!log_precedes(logs, nf, i as int, old_r[a] as int));
                            assert(old_r[a] < i);
                        } else if a < lo {
                            assert(r@[a] == old_r[a] && r@[b] == old_r[b - 1]);
                        } else if a == lo {
                            assert(r@[b] == old_r[b - 1]);
                        } else {
                            assert(r@[a] == old_r[a - 1] && r@[b] == old_r[b - 1]);
                        }
                    }
                }
            }
            i = i + 1;
        }
        proof {
            assert(is_log_order(*self, r@));
            lemma_log_order_unique(*self, r@, log_order(*self));
        }
        r
    }
}

impl App {
    /// The shown entries, in display order.
    pub fn filtered_logs(&self) -> (r: Vec<&LogEntry>)
        ensures
            is_log_order(*self, log_order(*self)),
            r@.len() == log_order(*self).len(),
            forall|k: int| 0 <= k < r@.len() ==> *#[trigger] r@[k] == self.logs@[log_order(*self)[k] as int],
    {
        let order = self.filtered_log_indices();
        let mut out: Vec<&LogEntry> = Vec::new();
        let mut k: usize = 0;
        while k < order.len()
            invariant
                k <= order@.len(),
                order@ == log_order(*self),
                is_log_order(*self, order@),
                out@.len() == k,
                forall|j: int| 0 <= j < k ==> *#[trigger] out@[j] == self.logs@[order@[j] as int],
            decreases order.len() - k,
        {
            out.push(&self.logs[order[k]]);
            k = k + 1;
        }
        out
    }

    /// Marks the entry under the cursor as the selected one, or clears the
    /// selection when it is already that entry; with nothing shown, clears it.
    pub fn select_current_log(&mut self)
        ensures
            final(self).selected_log_idx == spec_select(
                log_order(*old(self)).len() as int,
                old(self).log_cursor as int,
                old(self).selected_log_idx,
            ),
            *final(self) == (App { selected_log_idx: final(self).selected_log_idx, ..*old(self) }),
    {
        let n = self.filtered_log_indices().len();
        if n == 0 {
            self.selected_log_idx = None;
            return;
        }
        let idx = if self.log_cursor < n - 1 {
            self.log_cursor
        } else {
            n - 1
        };
        if self.selected_log_idx == Some(idx) {
            self.selected_log_idx = None;
        } else {
            self.selected_log_idx = Some(idx);
        }
    }

    /// The labels of the selected entry, if an entry is selected and still shown.
    pub fn selected_log_labels(&self) -> (r: Option<&Labels>)
        ensures
            match self.selected_log_idx {
                Some(idx) => if idx < log_order(*self).len() {
                    r matches Some(l) && *l == self.logs@[log_order(*self)[idx as int] as int].labels
                } else {
                    r is None
                },
                None => r is None,
            },
    {
        let idx = match self.selected_log_idx {
            Some(i) => i,
            None => {
                return None;
            },
        };
        let order = self.filtered_log_indices();
        if idx < order.len() {
            Some(&self.logs[order[idx]].labels)
        } else {
            None
        }
    }
}

/// The selection after `select_current_log` with `n` entries shown: none when
/// nothing is shown, else the entry under the cursor (the last one when the
/// cursor is past it), or none when that entry was already selected.
pub open spec fn spec_select(n: int, cursor: int, selected: Option<usize>) -> Option<usize> {
    if n == 0 {
        None
    } else {
        let idx = if cursor < n - 1 {
            cursor
        } else {
            n - 1
        };
        if selected == Some(idx as usize) {
            None
        } else {
            Some(idx as usize)
        }
    }
}

// ---- traces ----

/// The whole microseconds from `start` to `end`, as chrono counts them for the
/// two instants; `None` when the count leaves `i64` or an instant is not one
/// chrono can represent.
pub uninterp spec fn micros_between(start: Timestamp, end: Timestamp) -> Option<i64>;

/// `DateTime::signed_duration_since` followed by `TimeDelta::num_microseconds`,
/// on the two instants rebuilt with `DateTime::from_timestamp`. The result is
/// named `micros_between`; nothing more is claimed of it.
#[verifier::external_body]
pub(crate) fn chrono_micros_between(start: Timestamp, end: Timestamp) -> (r: Option<i64>)
    ensures
        r == micros_between(start, end),
{
    let a = chrono::DateTime::from_timestamp(start.secs, start.nanos);
    let b = chrono::DateTime::from_timestamp(end.secs, end.nanos);
    match (a, b) {
        (Some(a), Some(b)) => b.signed_duration_since(a).num_microseconds(),
        _ => None,
    }
}

/// One trace as the list shows it.
pub struct TraceGroup {
    pub trace_id: String,
    pub root_operation: String,
    pub root_service: String,
    pub start_time: Timestamp,
    /// The duration of the root span in whole microseconds (0 without a root
    /// span, or when it does not fit).
    pub total_duration_micros: i64,
    pub span_count: usize,
    pub has_error: bool,
}

/// The mathematical content of a `TraceGroup`.
pub struct TraceGroupView {
    pub trace_id: Seq<char>,
    pub root_operation: Seq<char>,
    pub root_service: Seq<char>,
    pub start_time: Timestamp,
    pub total_duration_micros: i64,
    pub span_count: nat,
    pub has_error: bool,
}

impl View for TraceGroup {
    type V = TraceGroupView;

    open spec fn view(&self) -> TraceGroupView {
        TraceGroupView {
            trace_id: self.trace_id@,
            root_operation: self.root_operation@,
            root_service: self.root_service@,
            start_time: self.start_time,
            total_duration_micros: self.total_duration_micros,
            span_count: self.span_count as nat,
            has_error: self.has_error,
        }
    }
}

impl TraceGroup {
    /// A copy of this group.
    pub fn duplicate(&self) -> (r: TraceGroup)
        ensures
            r@ == self@,
    {
        TraceGroup {
            trace_id: self.trace_id.clone(),
            root_operation: self.root_operation.clone(),
            root_service: self.root_service.clone(),
            start_time: self.start_time,
            total_duration_micros: self.total_duration_micros,
            span_count: self.span_count,
            has_error: self.has_error,
        }
    }
}

/// Whether some span belongs to trace `t`.
pub open spec fn has_trace(spans: Seq<Span>, t: Seq<char>) -> bool {
    exists|i: int| 0 <= i < spans.len() && #[trigger] spans[i].trace_id@ == t
}

/// How many spans belong to trace `t`.
pub open spec fn trace_span_count(spans: Seq<Span>, t: Seq<char>) -> nat
    decreases spans.len(),
{
    if spans.len() == 0 {
        0
    } else {
        trace_span_count(spans.drop_last(), t) + if spans.last().trace_id@ == t {
            1nat
        } else {
            0nat
        }
    }
}

/// Whether a span of trace `t` failed.
pub open spec fn trace_failed(spans: Seq<Span>, t: Seq<char>) -> bool {
    exists|i: int|
        0 <= i < spans.len() && #[trigger] spans[i].trace_id@ == t && spans[i].status
            == crate::span::SpanStatus::Error
}

/// The position of the last root span (one without a parent) of trace `t`, or -1.
pub open spec fn last_root(spans: Seq<Span>, t: Seq<char>) -> int
    decreases spans.len(),
{
    if spans.len() == 0 {
        -1
    } else if spans.last().trace_id@ == t && spans.last().parent_span_id is None {
        spans.len() - 1
    } else {
        last_root(spans.drop_last(), t)
    }
}

/// The position of the first span of trace `t`, or -1.
pub open spec fn first_span(spans: Seq<Span>, t: Seq<char>) -> int
    decreases spans.len(),
{
    if spans.len() == 0 {
        -1
    } else {
        let p = first_span(spans.drop_last(), t);
        if p >= 0 {
            p
        } else if spans.last().trace_id@ == t {
            spans.len() - 1
        } else {
            -1
        }
    }
}

/// The duration of a root span: whole microseconds, 0 when they do not fit.
pub open spec fn root_micros(s: Span) -> i64 {
    match micros_between(s.start_time, s.end_time) {
        Some(m) => m,
        None => 0,
    }
}

/// Trace `t` as the list shows it: its last root span gives the operation,
/// service, start and duration (with no root span: empty names, the start of
/// its first span and no duration); it counts its spans and whether one failed.
pub open spec fn group_of(spans: Seq<Span>, t: Seq<char>) -> TraceGroupView {
    let r = last_root(spans, t);
    TraceGroupView {
        trace_id: t,
        root_operation: if r >= 0 {
            spans[r].operation_name@
        } else {
            Seq::empty()
        },
        root_service: if r >= 0 {
            spans[r].service_name@
        } else {
            Seq::empty()
        },
        start_time: if r >= 0 {
            spans[r].start_time
        } else if first_span(spans, t) >= 0 {
            spans[first_span(spans, t)].start_time
        } else {
            Timestamp { secs: 0, nanos: 0 }
        },
        total_duration_micros: if r >= 0 {
            root_micros(spans[r])
        } else {
            0
        },
        span_count: trace_span_count(spans, t),
        has_error: trace_failed(spans, t),
    }
}

/// Whether `r` lists each trace of `spans` once, as `group_of` describes it,
/// latest start first.
pub open spec fn is_trace_list(spans: Seq<Span>, r: Seq<TraceGroupView>) -> bool {
    &&& forall|k: int|
        0 <= k < r.len() ==> has_trace(spans, #[trigger] r[k].trace_id) && r[k] == group_of(
            spans,
            r[k].trace_id,
        )
    &&& forall|i: int| 0 <= i < spans.len() ==> lists_trace(r, #[trigger] spans[i].trace_id@)
    &&& forall|a: int, b: int| 0 <= a < b < r.len() ==> #[trigger] r[a].trace_id != #[trigger] r[b].trace_id
    &&& forall|a: int, b: int| 0 <= a < b < r.len() ==> !ts_before(#[trigger] r[a].start_time, #[trigger] r[b].start_time)
}

/// How many different traces the spans belong to.
pub open spec fn trace_count(spans: Seq<Span>) -> nat
    decreases spans.len(),
{
    if spans.len() == 0 {
        0
    } else {
        trace_count(spans.drop_last()) + if has_trace(spans.drop_last(), spans.last().trace_id@) {
            0nat
        } else {
            1nat
        }
    }
}

/// Whether some group of `r` is the group of trace `t`.
pub open spec fn lists_trace(r: Seq<TraceGroupView>, t: Seq<char>) -> bool {
    exists|k: int| 0 <= k < r.len() && #[trigger] r[k].trace_id == t
}

/// Whether some group of `groups` is the group of trace `t`.
pub open spec fn has_group(groups: Seq<TraceGroup>, t: Seq<char>) -> bool {
    exists|k: int| 0 <= k < groups.len() && #[trigger] groups[k].trace_id@ == t
}

/// The views of a list of groups.
pub open spec fn group_views(v: Seq<TraceGroup>) -> Seq<TraceGroupView> {
    v.map_values(|g: TraceGroup| g@)
}

proof fn lemma_trace_specs(spans: Seq<Span>, t: Seq<char>)
    ensures
        trace_span_count(spans, t) <= spans.len(),
        -1 <= last_root(spans, t) < spans.len(),
        last_root(spans, t) >= 0 ==> spans[last_root(spans, t)].trace_id@ == t,
        -1 <= first_span(spans, t) < spans.len(),
        first_span(spans, t) >= 0 <==> has_trace(spans, t),
        first_span(spans, t) >= 0 ==> spans[first_span(spans, t)].trace_id@ == t,
        !has_trace(spans, t) ==> trace_span_count(spans, t) == 0 && last_root(spans, t) == -1,
    decreases spans.len(),
{
    if spans.len() > 0 {
        let p = spans.drop_last();
        lemma_trace_specs(p, t);
        if has_trace(p, t) {
            let i = choose|i: int| 0 <= i < p.len() && #[trigger] p[i].trace_id@ == t;
            assert(spans[i].trace_id@ == t);
        }
        if has_trace(spans, t) && !has_trace(p, t) {
            let i = choose|i: int| 0 <= i < spans.len() && #[trigger] spans[i].trace_id@ == t;
            if i < p.len() {
                assert(p[i].trace_id@ == t);
            }
        }
        if first_span(p, t) >= 0 {
            assert(spans[first_span(p, t)] == p[first_span(p, t)]);
        }
        if last_root(p, t) >= 0 {
            assert(spans[last_root(p, t)] == p[last_root(p, t)]);
        }
        if spans.last().trace_id@ == t {
            assert(spans[spans.len() - 1].trace_id@ == t);
        }
    }
}

/// The group of a trace after one more of its spans: one more span, the span's
/// name, service, start and duration when it is a root, and failed if it failed.
pub open spec fn spec_update_group(g: TraceGroupView, s: Span) -> TraceGroupView {
    let g1 = TraceGroupView { span_count: g.span_count + 1, ..g };
    let g2 = if s.parent_span_id is None {
        TraceGroupView {
            root_operation: s.operation_name@,
            root_service: s.service_name@,
            total_duration_micros: root_micros(s),
            start_time: s.start_time,
            ..g1
        }
    } else {
        g1
    };
    if s.status == crate::span::SpanStatus::Error {
        TraceGroupView { has_error: true, ..g2 }
    } else {
        g2
    }
}

/// A group for a trace first seen with `s`, before `s` is counted.
pub open spec fn spec_new_group(s: Span) -> TraceGroupView {
    TraceGroupView {
        trace_id: s.trace_id@,
        root_operation: Seq::empty(),
        root_service: Seq::empty(),
        start_time: s.start_time,
        total_duration_micros: 0,
        span_count: 0,
        has_error: false,
    }
}

proof fn lemma_trace_failed_push(p: Seq<Span>, s: Span, t: Seq<char>)
    ensures
        trace_failed(p.push(s), t) == (trace_failed(p, t) || (s.trace_id@ == t && s.status
            == crate::span::SpanStatus::Error)),
{
    let q = p.push(s);
    if trace_failed(p, t) {
        let i = choose|i: int| 0 <= i < p.len() && #[trigger] p[i].trace_id@ == t && p[i].status
            == crate::span::SpanStatus::Error;
        assert(q[i] == p[i]);
    }
    if s.trace_id@ == t && s.status == crate::span::SpanStatus::Error {
        assert(q[p.len() as int] == s);
    }
    if trace_failed(q, t) {
        let i = choose|i: int| 0 <= i < q.len() && #[trigger] q[i].trace_id@ == t && q[i].status
            == crate::span::SpanStatus::Error;
        if i < p.len() {
            assert(q[i] == p[i]);
            assert(p[i].trace_id@ == t && p[i].status == crate::span::SpanStatus::Error);
            assert(trace_failed(p, t));
        } else {
            assert(q[i] == s);
        }
    }
}

proof fn lemma_group_step(p: Seq<Span>, s: Span, t: Seq<char>)
    ensures
        s.trace_id@ != t ==> group_of(p.push(s), t) == group_of(p, t),
        s.trace_id@ == t && has_trace(p, t) ==> group_of(p.push(s), t) == spec_update_group(group_of(p, t), s),
        s.trace_id@ == t && !has_trace(p, t) ==> group_of(p.push(s), t) == spec_update_group(spec_new_group(s), s),
{
    let q = p.push(s);
    assert(q.drop_last() =~= p);
    assert(q.last() == s);
    lemma_trace_specs(p, t);
    lemma_trace_specs(q, t);
    if last_root(p, t) >= 0 {
        assert(q[last_root(p, t)] == p[last_root(p, t)]);
    }
    if first_span(p, t) >= 0 {
        assert(q[first_span(p, t)] == p[first_span(p, t)]);
    }
    lemma_trace_failed_push(p, s, t);
    if s.trace_id@ == t && !has_trace(p, t) {
        assert(!trace_failed(p, t));
    }
}

impl TraceGroup {
    /// A group for a trace first seen with `span`, before `span` is counted.
    fn new(span: &Span) -> (r: TraceGroup)
        ensures
            r@ == spec_new_group(*span),
    {
        TraceGroup {
            trace_id: span.trace_id.clone(),
            root_operation: String::new(),
            root_service: String::new(),
            start_time: span.start_time,
            total_duration_micros: 0,
            span_count: 0,
            has_error: false,
        }
    }
}

/// Counts `span` into its trace's group.
fn update_trace_group(group: &mut TraceGroup, span: &Span)
    requires
        old(group).span_count < usize::MAX,
    ensures
        final(group)@ == spec_update_group(old(group)@, *span),
{
    group.span_count = group.span_count + 1;
    if span.parent_span_id.is_none() {
        group.root_operation = span.operation_name.clone();
        group.root_service = span.service_name.clone();
        group.total_duration_micros = match chrono_micros_between(span.start_time, span.end_time) {
            Some(m) => m,
            None => 0,
        };
        group.start_time = span.start_time;
    }
    if span.status == crate::span::SpanStatus::Error {
        group.has_error = true;
    }
}

/// The position of the group of trace `t`, if there is one.
fn find_group(groups: &Vec<TraceGroup>, t: &str) -> (r: Option<usize>)
    ensures
        match r {
            Some(k) => k < groups@.len() && groups@[k as int].trace_id@ == t@,
            None => forall|k: int| 0 <= k < groups@.len() ==> #[trigger] groups@[k].trace_id@ != t@,
        },
{
    let mut k: usize = 0;
    while k < groups.len()
        invariant
            k <= groups@.len(),
            forall|j: int| 0 <= j < k ==> #[trigger] groups@[j].trace_id@ != t@,
        decreases groups.len() - k,
    {
        if crate::text::str_eq(groups[k].trace_id.as_str(), t) {
            return Some(k);
        }
        k = k + 1;
    }
    None
}

/// The groups of the traces of `spans`, in the order the traces first appear.
fn group_spans(spans: &Vec<Span>) -> (r: Vec<TraceGroup>)
    ensures
        r@.len() == trace_count(spans@),
        forall|k: int|
            0 <= k < r@.len() ==> has_trace(spans@, #[trigger] r@[k].trace_id@) && r@[k]@ == group_of(
                spans@,
                r@[k].trace_id@,
            ),
        forall|i: int| 0 <= i < spans@.len() ==> has_group(r@, #[trigger] spans@[i].trace_id@),
        forall|a: int, b: int| 0 <= a < b < r@.len() ==> #[trigger] r@[a].trace_id@ != #[trigger] r@[b].trace_id@,
{
    let mut groups: Vec<TraceGroup> = Vec::new();
    let mut i: usize = 0;
    while i < spans.len()
        invariant
            i <= spans@.len(),
            groups@.len() == trace_count(spans@.take(i as int)),
            forall|k: int|
                0 <= k < groups@.len() ==> has_trace(spans@.take(i as int), #[trigger] groups@[k].trace_id@)
                    && groups@[k]@ == group_of(spans@.take(i as int), groups@[k].trace_id@),
            forall|j: int| 0 <= j < i ==> has_group(groups@, #[trigger] spans@[j].trace_id@),
            forall|a: int, b: int| 0 <= a < b < groups@.len() ==> #[trigger] groups@[a].trace_id@ != #[trigger] groups@[b].trace_id@,
        decreases spans.len() - i,
    {
        let span = &spans[i];
        let ghost p = spans@.take(i as int);
        let ghost q = spans@.take(i + 1);
        proof {
            assert(q =~= p.push(spans@[i as int]));
            lemma_trace_specs(p, span.trace_id@);
        }
        let ghost old_groups = groups@;
        match find_group(&groups, span.trace_id.as_str()) {
            Some(k) => {
                proof {
                    lemma_trace_specs(p, span.trace_id@);
                    assert(has_trace(p, groups@[k as int].trace_id@));
                    assert(q.drop_last() =~= p);
                }
                let mut g = TraceGroup::new(span);
                std::mem::swap(&mut g, &mut groups[k]);
                update_trace_group(&mut g, span);
                std::mem::swap(&mut g, &mut groups[k]);
                proof {
                    assert(groups@ == old_groups.update(k as int, groups@[k as int]));
                    lemma_group_step(p, *span, span.trace_id@);
                    assert forall|m: int| 0 <= m < groups@.len() implies has_trace(q, #[trigger] groups@[m].trace_id@)
                        && groups@[m]@ == group_of(q, groups@[m].trace_id@) by {
                        let t = groups@[m].trace_id@;
                        lemma_group_step(p, *span, t);
                        let w = choose|w: int| 0 <= w < p.len() && #[trigger] p[w].trace_id@ == old_groups[m].trace_id@;
                        assert(q[w] == p[w]);
                    }
                    assert forall|j: int| 0 <= j < i + 1 implies has_group(groups@, #[trigger] spans@[j].trace_id@) by {
                        if j == i {
                            assert(groups@[k as int].trace_id@ == spans@[j].trace_id@);
                        } else {
                            let m = choose|m: int| 0 <= m < old_groups.len() && #[trigger] old_groups[m].trace_id@ == spans@[j].trace_id@;
                            assert(groups@[m].trace_id@ == old_groups[m].trace_id@);
                        }
                    }
                    assert forall|a: int, b: int| 0 <= a < b < groups@.len() implies #[trigger] groups@[a].trace_id@ != #[trigger] groups@[b].trace_id@ by {
                        assert(groups@[a].trace_id@ == old_groups[a].trace_id@);
                        assert(groups@[b].trace_id@ == old_groups[b].trace_id@);
                    }
                }
            },
            None => {
                proof {
                    if has_trace(p, span.trace_id@) {
                        let w = choose|w: int| 0 <= w < p.len() && #[trigger] p[w].trace_id@ == span.trace_id@;
                        assert(spans@[w].trace_id@ == span.trace_id@);
                        let m = choose|m: int| 0 <= m < old_groups.len() && #[trigger] old_groups[m].trace_id@ == spans@[w].trace_id@;
                        assert(false);
                    }
                }
                let mut g = TraceGroup::new(span);
                update_trace_group(&mut g, span);
                groups.push(g);
                proof {
                    assert(q.drop_last() =~= p);
                    lemma_group_step(p, *span, span.trace_id@);
                    assert forall|m: int| 0 <= m < groups@.len() implies has_trace(q, #[trigger] groups@[m].trace_id@)
                        && groups@[m]@ == group_of(q, groups@[m].trace_id@) by {
                        let t = groups@[m].trace_id@;
                        lemma_group_step(p, *span, t);
                        if m < old_groups.len() {
                            assert(groups@[m] == old_groups[m]);
                            let w = choose|w: int| 0 <= w < p.len() && #[trigger] p[w].trace_id@ == t;
                            assert(q[w] == p[w]);
                        } else {
                            assert(q[i as int] == *span);
                        }
                    }
                    assert forall|j: int| 0 <= j < i + 1 implies has_group(groups@, #[trigger] spans@[j].trace_id@) by {
                        if j == i {
                            assert(groups@[old_groups.len() as int].trace_id@ == spans@[j].trace_id@);
                        } else {
                            let m = choose|m: int| 0 <= m < old_groups.len() && #[trigger] old_groups[m].trace_id@ == spans@[j].trace_id@;
                            assert(groups@[m] == old_groups[m]);
                        }
                    }
                    assert forall|a: int, b: int| 0 <= a < b < groups@.len() implies #[trigger] groups@[a].trace_id@ != #[trigger] groups@[b].trace_id@ by {
                        if b == old_groups.len() {
                            assert(groups@[a] == old_groups[a]);
                        } else {
                            assert(groups@[a] == old_groups[a]);
                            assert(groups@[b] == old_groups[b]);
                        }
                    }
                }
            },
        }
        i = i + 1;
    }
    proof {
        assert(spans@.take(i as int) =~= spans@);
    }
    groups
}

/// Whether position `i` comes before position `j` when instants are listed
/// latest first, positions breaking ties.
pub open spec fn later_first(keys: Seq<Timestamp>, i: int, j: int) -> bool {
    ts_before(keys[j], keys[i]) || (keys[i] == keys[j] && i < j)
}

/// Whether `i` occurs in `r`.
pub open spec fn lists_index(r: Seq<usize>, i: int) -> bool {
    exists|k: int| 0 <= k < r.len() && #[trigger] r[k] == i
}

/// The positions of `keys`, latest instant first, equal instants in the order
/// of their positions.
fn time_order(keys: &Vec<Timestamp>) -> (r: Vec<usize>)
    ensures
        r@.len() == keys@.len(),
        forall|k: int| 0 <= k < r@.len() ==> #[trigger] r@[k] < keys@.len(),
        forall|i: int| 0 <= i < keys@.len() ==> #[trigger] lists_index(r@, i),
        forall|a: int, b: int| 0 <= a < b < r@.len() ==> later_first(keys@, #[trigger] r@[a] as int, #[trigger] r@[b] as int),
{
    let ghost ks = keys@;
    let n = keys.len();
    let mut r: Vec<usize> = Vec::new();
    let mut i: usize = 0;
    while i < n
        invariant
            n == ks.len(),
            ks == keys@,
            i <= n,
            r@.len() == i,
            forall|k: int| 0 <= k < r@.len() ==> #[trigger] r@[k] < i,
            forall|j: int| 0 <= j < i ==> #[trigger] lists_index(r@, j),
            forall|a: int, b: int| 0 <= a < b < r@.len() ==> later_first(ks, #[trigger] r@[a] as int, #[trigger] r@[b] as int),
        decreases n - i,
    {
        let mut lo: usize = 0;
        let mut hi: usize = r.len();
        while lo < hi
            invariant
                0 <= lo <= hi <= r@.len(),
                i < n,
                n == ks.len(),
                ks == keys@,
                forall|k: int| 0 <= k < r@.len() ==> #[trigger] r@[k] < i,
                forall|a: int| 0 <= a < lo ==> !later_first(ks, i as int, #[trigger] r@[a] as int),
                forall|a: int| hi <= a < r@.len() ==> later_first(ks, i as int, #[trigger] r@[a] as int),
                forall|a: int, b: int| 0 <= a < b < r@.len() ==> later_first(ks, #[trigger] r@[a] as int, #[trigger] r@[b] as int),
            decreases hi - lo,
        {
            let mid = lo + (hi - lo) / 2;
            let km = keys[r[mid]];
            let ki = keys[i];
            if km.before(&ki) || (ki == km && i < r[mid]) {
                proof {
                    assert forall|a: int| mid <= a < r@.len() implies later_first(ks, i as int, #[trigger] r@[a] as int) by {
                        if a > mid {
                            assert(later_first(ks, r@[mid as int] as int, r@[a] as int));
                        }
                    }
                }
                hi = mid;
            } else {
                proof {
                    assert forall|a: int| 0 <= a < mid + 1 implies !later_first(ks, i as int, #[trigger] r@[a] as int) by {
                        if a < mid {
                            assert(later_first(ks, r@[a] as int, r@[mid as int] as int));
                        }
                    }
                }
                lo = mid + 1;
            }
        }
        let ghost old_r = r@;
        r.insert(lo, i);
        proof {
            assert(r@ == old_r.insert(lo as int, i));
            assert forall|k: int| 0 <= k < r@.len() implies #[trigger] r@[k] < i + 1 by {
                if k < lo {
                    assert(r@[k] == old_r[k]);
                } else if k > lo {
                    assert(r@[k] == old_r[k - 1]);
                }
            }
            assert forall|j: int| 0 <= j < i + 1 implies #[trigger] lists_index(r@, j) by {
                if j == i {
                    assert(r@[lo as int] == i);
                } else {
                    assert(lists_index(old_r, j));
                    let k = choose|k: int| 0 <= k < old_r.len() && #[trigger] old_r[k] == j;
                    if k < lo {
                        assert(r@[k] == j);
                    } else {
                        assert(r@[k + 1] == j);
                    }
                }
            }
            assert forall|a: int, b: int| 0 <= a < b < r@.len() implies later_first(ks, #[trigger] r@[a] as int, #[trigger] r@[b] as int) by {
                if b < lo {
                    assert(r@[a] == old_r[a] && r@[b] == old_r[b]);
                } else if b == lo {
                    assert(r@[a] == old_r[a]);
                    assert(!later_first(ks, i as int, old_r[a] as int));
                    assert(old_r[a] < i);
                } else if a < lo {
                    assert(r@[a] == old_r[a] && r@[b] == old_r[b - 1]);
                    assert(later_first(ks, old_r[a] as int, i as int));
                } else if a == lo {
                    assert(r@[b] == old_r[b - 1]);
                } else {
                    assert(r@[a] == old_r[a - 1] && r@[b] == old_r[b - 1]);
                }
            }
        }
        i = i + 1;
    }
    r
}

impl App {
    /// The traces of the fetched spans, one group per trace, latest start
    /// first.
    pub fn unique_traces(&self) -> (r: Vec<TraceGroup>)
        ensures
            r@.len() == trace_count(self.traces@),
            is_trace_list(self.traces@, group_views(r@)),
    {
        let groups = group_spans(&self.traces);
        let mut keys: Vec<Timestamp> = Vec::new();
        let mut k: usize = 0;
        while k < groups.len()
            invariant
                k <= groups@.len(),
                keys@.len() == k,
                forall|j: int| 0 <= j < k ==> #[trigger] keys@[j] == groups@[j].start_time,
            decreases groups.len() - k,
        {
            keys.push(groups[k].start_time);
            k = k + 1;
        }
        let order = time_order(&keys);
        let mut out: Vec<TraceGroup> = Vec::new();
        let mut m: usize = 0;
        while m < order.len()
            invariant
                m <= order@.len(),
                order@.len() == keys@.len(),
                keys@.len() == groups@.len(),
                forall|k: int| 0 <= k < order@.len() ==> #[trigger] order@[k] < keys@.len(),
                out@.len() == m,
                forall|j: int| 0 <= j < m ==> #[trigger] out@[j]@ == groups@[order@[j] as int]@,
            decreases order.len() - m,
        {
            out.push(groups[order[m]].duplicate());
            m = m + 1;
        }
        proof {
            let spans = self.traces@;
            let v = group_views(out@);
            assert forall|a: int| 0 <= a < v.len() implies has_trace(spans, #[trigger] v[a].trace_id) && v[a] == group_of(spans, v[a].trace_id) by {
                assert(v[a] == out@[a]@);
            }
            assert forall|i: int| 0 <= i < spans.len() implies lists_trace(v, #[trigger] spans[i].trace_id@) by {
                let t = spans[i].trace_id@;
                assert(has_group(groups@, t));
                let g = choose|g: int| 0 <= g < groups@.len() && #[trigger] groups@[g].trace_id@ == t;
                assert(lists_index(order@, g));
                let k = choose|k: int| 0 <= k < order@.len() && #[trigger] order@[k] == g;
                assert(v[k] == out@[k]@);
                assert(out@[k]@ == groups@[g]@);
                assert(v[k].trace_id == t);
            }
            assert forall|a: int, b: int| 0 <= a < b < v.len() implies #[trigger] v[a].trace_id != #[trigger] v[b].trace_id by {
                assert(v[a] == out@[a]@ && v[b] == out@[b]@);
                assert(later_first(keys@, order@[a] as int, order@[b] as int));
                assert(order@[a] != order@[b]);
            }
            assert forall|a: int, b: int| 0 <= a < b < v.len() implies !ts_before(#[trigger] v[a].start_time, #[trigger] v[b].start_time) by {
                assert(v[a] == out@[a]@ && v[b] == out@[b]@);
                assert(later_first(keys@, order@[a] as int, order@[b] as int));
            }
        }
        out
    }
}

// ---- the sidebar ----

/// A line of the filter sidebar: a heading, or a label value that can be
/// selected.
pub enum SidebarItem {
    Label(String),
    Value { label: String, value: String, selected: bool },
}

/// The mathematical content of a `SidebarItem`.
pub enum SidebarItemView {
    Label(Seq<char>),
    Value { label: Seq<char>, value: Seq<char>, selected: bool },
}

impl View for SidebarItem {
    type V = SidebarItemView;

    open spec fn view(&self) -> SidebarItemView {
        match self {
            SidebarItem::Label(n) => SidebarItemView::Label(n@),
            SidebarItem::Value { label, value, selected } => SidebarItemView::Value {
                label: label@,
                value: value@,
                selected: *selected,
            },
        }
    }
}

/// The views of a list of sidebar lines.
pub open spec fn item_views(v: Seq<SidebarItem>) -> Seq<SidebarItemView> {
    v.map_values(|i: SidebarItem| i@)
}

/// Whether `label = value` is the current selection for `label`.
pub open spec fn is_selected(selected: Map<Seq<char>, Seq<char>>, label: Seq<char>, value: Seq<char>) -> bool {
    selected.contains_key(label) && selected[label] == value
}

/// The lines of the environment values.
pub open spec fn environment_values(envs: Seq<Seq<char>>, selected: Map<Seq<char>, Seq<char>>) -> Seq<SidebarItemView> {
    envs.map_values(
        |e: Seq<char>|
            SidebarItemView::Value {
                label: "environment"@,
                value: e,
                selected: is_selected(selected, "environment"@, e),
            },
    )
}

/// The lines of one service: its heading, its own value, then every
/// environment value.
pub open spec fn service_block(svc: Seq<char>, envs: Seq<Seq<char>>, selected: Map<Seq<char>, Seq<char>>) -> Seq<SidebarItemView> {
    seq![
        SidebarItemView::Label(svc),
        SidebarItemView::Value { label: "service"@, value: svc, selected: is_selected(selected, "service"@, svc) },
    ] + environment_values(envs, selected)
}

/// The sidebar grouped by service: the block of each service in turn.
pub open spec fn service_sidebar(
    services: Seq<Seq<char>>,
    envs: Seq<Seq<char>>,
    selected: Map<Seq<char>, Seq<char>>,
) -> Seq<SidebarItemView>
    decreases services.len(),
{
    if services.len() == 0 {
        Seq::empty()
    } else {
        service_sidebar(services.drop_last(), envs, selected) + service_block(services.last(), envs, selected)
    }
}

/// The sidebar without services: an `environment` heading and its values.
pub open spec fn environment_sidebar(envs: Seq<Seq<char>>, selected: Map<Seq<char>, Seq<char>>) -> Seq<SidebarItemView> {
    seq![SidebarItemView::Label("environment"@)] + environment_values(envs, selected)
}

/// The sidebar: by service when services are known, else by environment when
/// environments are known, else empty.
pub open spec fn spec_sidebar(
    services: Seq<Seq<char>>,
    envs: Seq<Seq<char>>,
    selected: Map<Seq<char>, Seq<char>>,
) -> Seq<SidebarItemView> {
    if services.len() > 0 {
        service_sidebar(services, envs, selected)
    } else if envs.len() > 0 {
        environment_sidebar(envs, selected)
    } else {
        Seq::empty()
    }
}

fn selection_is(selected: &Labels, label: &str, value: &str) -> (r: bool)
    ensures
        r == is_selected(selected@, label@, value@),
{
    match selected.get(label) {
        Some(v) => crate::text::str_eq(v.as_str(), value),
        None => false,
    }
}

/// Appends the environment value lines to `items`.
fn push_environment_values(items: &mut Vec<SidebarItem>, environments: &[String], selected: &Labels)
    ensures
        item_views(final(items)@) == item_views(old(items)@) + environment_values(
            string_views(environments@),
            selected@,
        ),
{
    broadcast use vstd::string::group_string_axioms;

    let ghost start = item_views(items@);
    let mut j: usize = 0;
    while j < environments.len()
        invariant
            j <= environments@.len(),
            item_views(items@) =~= start + environment_values(string_views(environments@).take(j as int), selected@),
        decreases environments.len() - j,
    {
        let env = &environments[j];
        let item = SidebarItem::Value {
            label: "environment".to_string(),
            value: env.clone(),
            selected: selection_is(selected, "environment", env.as_str()),
        };
        let ghost before = items@;
        items.push(item);
        proof {
            assert(items@ == before.push(item));
            assert(string_views(environments@).take(j + 1) =~= string_views(environments@).take(j as int).push(env@));
            assert(environment_values(string_views(environments@).take(j + 1), selected@) =~= environment_values(
                string_views(environments@).take(j as int),
                selected@,
            ).push(item@));
            assert(item_views(items@) =~= item_views(before).push(item@));
        }
        j = j + 1;
    }
    proof {
        assert(string_views(environments@).take(j as int) =~= string_views(environments@));
    }
}

/// The sidebar grouped by service.
pub fn build_service_sidebar(services: &[String], environments: &[String], selected: &Labels) -> (r: Vec<SidebarItem>)
    ensures
        item_views(r@) == service_sidebar(string_views(services@), string_views(environments@), selected@),
{
    broadcast use vstd::string::group_string_axioms;

    let mut items: Vec<SidebarItem> = Vec::new();
    let mut i: usize = 0;
    while i < services.len()
        invariant
            i <= services@.len(),
            item_views(items@) == service_sidebar(string_views(services@).take(i as int), string_views(environments@), selected@),
        decreases services.len() - i,
    {
        let svc = &services[i];
        let ghost before = item_views(items@);
        let heading = SidebarItem::Label(svc.clone());
        items.push(heading);
        let own = SidebarItem::Value {
            label: "service".to_string(),
            value: svc.clone(),
            selected: selection_is(selected, "service", svc.as_str()),
        };
        items.push(own);
        proof {
            assert(item_views(items@) =~= before + seq![heading@, own@]);
        }
        push_environment_values(&mut items, environments, selected);
        proof {
            let sv = string_views(services@);
            assert(sv.take(i + 1).drop_last() =~= sv.take(i as int));
            assert(sv.take(i + 1).last() == svc@);
            assert(item_views(items@) =~= before + service_block(svc@, string_views(environments@), selected@));
        }
        i = i + 1;
    }
    proof {
        assert(string_views(services@).take(i as int) =~= string_views(services@));
    }
    items
}

/// The sidebar by environment.
pub fn build_environment_sidebar(environments: &[String], selected: &Labels) -> (r: Vec<SidebarItem>)
    ensures
        item_views(r@) == environment_sidebar(string_views(environments@), selected@),
{
    broadcast use vstd::string::group_string_axioms;

    let heading = SidebarItem::Label("environment".to_string());
    let mut items: Vec<SidebarItem> = Vec::new();
    items.push(heading);
    proof {
        assert(item_views(items@) =~= seq![heading@]);
    }
    push_environment_values(&mut items, environments, selected);
    items
}

impl App {
    /// The lines of the filter sidebar, built from the fetched `service` and
    /// `environment` values and the current selection.
    pub fn sidebar_items(&self) -> (r: Vec<SidebarItem>)
        ensures
            item_views(r@) == spec_sidebar(
                values_for(self.label_values@, "service"@),
                values_for(self.label_values@, "environment"@),
                self.selected_labels@,
            ),
    {
        broadcast use vstd::string::group_string_axioms;

        let services = self.label_values_of("service");
        let environments = self.label_values_of("environment");
        if services.len() > 0 {
            build_service_sidebar(services.as_slice(), environments.as_slice(), &self.selected_labels)
        } else if environments.len() > 0 {
            build_environment_sidebar(environments.as_slice(), &self.selected_labels)
        } else {
            let r: Vec<SidebarItem> = Vec::new();
            assert(item_views(r@) =~= Seq::empty());
            r
        }
    }
}

// ---- fetching, as steps between requests ----

/// `prefix` followed by `detail`.
fn prefixed(prefix: &str, detail: &str) -> (r: String)
    ensures
        r@ == prefix@ + detail@,
{
    prefix.to_string().concat(detail)
}

/// The labels whose values the sidebar fetches, in order.
pub fn sidebar_labels() -> (r: Vec<&'static str>)
    ensures
        r@.len() == 2,
        r@[0]@ == "service"@,
        r@[1]@ == "environment"@,
{
    vec!["service", "environment"]
}

impl App {
    /// Starts a refresh: the last error is forgotten.
    pub fn begin_refresh(&mut self)
        ensures
            *final(self) == (App { error: None, ..*old(self) }),
    {
        self.error = None;
    }

    /// Takes the answer to the log request; whether the refresh goes on. On
    /// success the logs are replaced and the client is connected; on failure
    /// it is disconnected, the error is kept and the refresh stops.
    pub fn apply_logs(&mut self, fetched: Result<Vec<LogEntry>, String>) -> (go_on: bool)
        ensures
            go_on == fetched is Ok,
            match fetched {
                Ok(logs) => *final(self) == (App { connected: true, logs: logs, ..*old(self) }),
                Err(e) => final(self).error matches Some(m) && m@ == e@ && *final(self) == (App {
                    connected: false,
                    error: final(self).error,
                    ..*old(self)
                }),
            },
    {
        match fetched {
            Ok(logs) => {
                self.connected = true;
                self.logs = logs;
                true
            },
            Err(e) => {
                self.connected = false;
                self.error = Some(e);
                false
            },
        }
    }

    /// Takes the answer to the trace request: the traces on success, else the
    /// error, marked as coming from traces.
    pub fn apply_traces(&mut self, fetched: Result<Vec<Span>, String>)
        ensures
            match fetched {
                Ok(traces) => *final(self) == (App { traces: traces, ..*old(self) }),
                Err(e) => final(self).error matches Some(m) && m@ == "traces: "@ + e@ && *final(self)
                    == (App { error: final(self).error, ..*old(self) }),
            },
    {
        broadcast use vstd::string::group_string_axioms;

        match fetched {
            Ok(traces) => {
                self.traces = traces;
            },
            Err(e) => {
                self.error = Some(prefixed("traces: ", e.as_str()));
            },
        }
    }

    /// Takes the answer to the label request; whether the sidebar values are to
    /// be fetched next. On failure the error is kept only if there is none yet.
    pub fn apply_labels(&mut self, fetched: Result<Vec<String>, String>) -> (fetch_values: bool)
        ensures
            fetch_values == fetched is Ok,
            match fetched {
                Ok(labels) => *final(self) == (App { labels: labels, ..*old(self) }),
                Err(e) => if old(self).error is None {
                    final(self).error matches Some(m) && m@ == "labels: "@ + e@ && *final(self) == (App {
                        error: final(self).error,
                        ..*old(self)
                    })
                } else {
                    *final(self) == *old(self)
                },
            },
    {
        broadcast use vstd::string::group_string_axioms;

        match fetched {
            Ok(labels) => {
                self.labels = labels;
                true
            },
            Err(e) => {
                if self.error.is_none() {
                    self.error = Some(prefixed("labels: ", e.as_str()));
                }
                false
            },
        }
    }

    /// Takes the answer to the request for the values of one sidebar label:
    /// they replace the earlier ones on success; a failure changes nothing.
    pub fn apply_label_values(&mut self, label: &str, fetched: Result<Vec<String>, String>)
        ensures
            match fetched {
                Ok(values) => values_for(final(self).label_values@, label@) == string_views(values@)
                    && (forall|k: Seq<char>|
                    k != label@ ==> #[trigger] values_for(final(self).label_values@, k) == values_for(
                        old(self).label_values@,
                        k,
                    )) && *final(self) == (App { label_values: final(self).label_values, ..*old(self) }),
                Err(_) => *final(self) == *old(self),
            },
    {
        match fetched {
            Ok(values) => self.set_label_values(label, values),
            Err(_) => {},
        }
    }

    /// The spans fetched for a trace, if any.
    pub fn spans_of_trace(&self, trace_id: &str) -> (r: Option<&Vec<Span>>)
        ensures
            match r {
                Some(v) => first_named(self.trace_spans@, trace_id@) >= 0 && *v == self.trace_spans@[first_named(
                    self.trace_spans@,
                    trace_id@,
                )].1,
                None => first_named(self.trace_spans@, trace_id@) == -1,
            },
    {
        proof {
            lemma_first_named(self.trace_spans@, trace_id@);
        }
        match find_named(&self.trace_spans, trace_id) {
            Some(i) => Some(&self.trace_spans[i].1),
            None => None,
        }
    }

    /// Whether expanding a trace needs its spans fetched first: they were not
    /// fetched yet.
    pub fn needs_trace_spans(&self, trace_id: &str) -> (r: bool)
        ensures
            r == (first_named(self.trace_spans@, trace_id@) == -1),
    {
        find_named(&self.trace_spans, trace_id).is_none()
    }

    /// Expands a trace, keeping the spans fetched for it if there were none yet.
    pub fn finish_expand(&mut self, trace_id: &str, fetched: Option<Vec<Span>>)
        ensures
            final(self).expanded_trace matches Some(t) && t@ == trace_id@,
            fetched is Some && first_named(old(self).trace_spans@, trace_id@) == -1 ==> final(self).trace_spans@
                == old(self).trace_spans@.push(final(self).trace_spans@.last()),
            fetched is Some && first_named(old(self).trace_spans@, trace_id@) == -1 ==> final(self).trace_spans@.last().0@
                == trace_id@ && final(self).trace_spans@.last().1 == fetched->0,
            !(fetched is Some && first_named(old(self).trace_spans@, trace_id@) == -1) ==> final(self).trace_spans@
                == old(self).trace_spans@,
            *final(self) == (App {
                trace_spans: final(self).trace_spans,
                expanded_trace: final(self).expanded_trace,
                ..*old(self)
            }),
    {
        if let Some(spans) = fetched {
            if self.needs_trace_spans(trace_id) {
                self.trace_spans.push((trace_id.to_string(), spans));
            }
        }
        self.expanded_trace = Some(trace_id.to_string());
    }
}

} // verus!
