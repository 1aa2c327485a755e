//! What the keys of the terminal client do, how it reads its server from the
//! command line, and when it polls and refreshes.
use vstd::prelude::*;

use crate::text::{chars_of, copy_range, string_from_chars, str_eq};
use crate::tui_app::{
    App, InputMode, SidebarItem, Tab, is_trace_list, item_views, log_order,
    spec_select, spec_sidebar, trace_count, values_for,
};

verus! {

broadcast use vstd::string::group_string_axioms;

/// A key press, as far as the client tells keys apart.
#[derive(Debug, Clone, Copy, PartialEq, Eq, Structural)]
pub enum Key {
    Char(char),
    Tab,
    Up,
    Down,
    Left,
    Right,
    PageUp,
    PageDown,
    Home,
    End,
    Enter,
    Esc,
    Backspace,
    Other,
}

/// What the loop around the client has to do after a key.
pub enum InputEffect {
    /// Nothing beyond the change of state.
    Nothing,
    /// Fetch everything again.
    Refresh,
    /// Expand this trace, fetching its spans if they are not there yet.
    ExpandTrace(String),
}

/// `a + b`, or the largest `usize` when that overflows.
pub open spec fn sat_add(a: usize, b: usize) -> usize {
    if a + b > usize::MAX {
        usize::MAX
    } else {
        (a + b) as usize
    }
}

/// `a - b`, or 0 when that is negative.
pub open spec fn sat_sub(a: int, b: int) -> int {
    if a < b {
        0
    } else {
        a - b
    }
}

/// The smaller of two numbers.
pub open spec fn min_of(a: int, b: int) -> int {
    if a < b {
        a
    } else {
        b
    }
}

/// The number of sidebar lines.
pub open spec fn sidebar_len(app: App) -> int {
    spec_sidebar(
        values_for(app.label_values@, "service"@),
        values_for(app.label_values@, "environment"@),
        app.selected_labels@,
    ).len() as int
}

/// The position a cursor moves to when it moves `count` down a list of `len`
/// lines: at most the last line.
pub open spec fn moved_down(pos: usize, count: usize, len: int) -> usize {
    min_of(sat_add(pos, count) as int, sat_sub(len, 1)) as usize
}

fn last_index(len: usize) -> (r: usize)
    ensures
        r == sat_sub(len as int, 1),
{
    if len == 0 {
        0
    } else {
        len - 1
    }
}

fn move_down(pos: usize, count: usize, len: usize) -> (r: usize)
    ensures
        r == moved_down(pos, count, len as int),
{
    let up = pos.saturating_add(count);
    let last = last_index(len);
    if up < last {
        up
    } else {
        last
    }
}

/// The client after moving the focused cursor `count` lines down: the sidebar
/// cursor, the log cursor or the trace cursor, never past the last line.
pub open spec fn scrolled_down(app: App, count: usize) -> App {
    if app.sidebar_focused {
        App { sidebar_scroll: moved_down(app.sidebar_scroll, count, sidebar_len(app)), ..app }
    } else if app.tab == Tab::Logs {
        App { log_cursor: moved_down(app.log_cursor, count, log_order(app).len() as int), ..app }
    } else {
        App { trace_scroll: moved_down(app.trace_scroll, count, trace_count(app.traces@) as int), ..app }
    }
}

/// The client after moving the focused cursor `count` lines up, never above
/// the first line.
pub open spec fn scrolled_up(app: App, count: usize) -> App {
    if app.sidebar_focused {
        App { sidebar_scroll: sat_sub(app.sidebar_scroll as int, count as int) as usize, ..app }
    } else if app.tab == Tab::Logs {
        App { log_cursor: sat_sub(app.log_cursor as int, count as int) as usize, ..app }
    } else {
        App { trace_scroll: sat_sub(app.trace_scroll as int, count as int) as usize, ..app }
    }
}

/// The client after moving the focused cursor to the first line.
pub open spec fn scrolled_to_top(app: App) -> App {
    if app.sidebar_focused {
        App { sidebar_scroll: 0, ..app }
    } else if app.tab == Tab::Logs {
        App { log_cursor: 0, ..app }
    } else {
        App { trace_scroll: 0, ..app }
    }
}

/// The client after moving the focused cursor to the last line.
pub open spec fn scrolled_to_end(app: App) -> App {
    if app.sidebar_focused {
        App { sidebar_scroll: sat_sub(sidebar_len(app), 1) as usize, ..app }
    } else if app.tab == Tab::Logs {
        App { log_cursor: sat_sub(log_order(app).len() as int, 1) as usize, ..app }
    } else {
        App { trace_scroll: sat_sub(trace_count(app.traces@) as int, 1) as usize, ..app }
    }
}

fn sidebar_count(app: &App) -> (n: usize)
    ensures
        n == sidebar_len(*app),
{
    let items = app.sidebar_items();
    assert(item_views(items@).len() == items@.len());
    items.len()
}

/// Moves the focused cursor `count` lines down.
pub fn scroll_down(app: &mut App, count: usize)
    ensures
        *final(app) == scrolled_down(*old(app), count),
{
    if app.sidebar_focused {
        let n = sidebar_count(app);
        app.sidebar_scroll = move_down(app.sidebar_scroll, count, n);
    } else {
        match app.tab {
            Tab::Logs => {
                let n = app.filtered_log_indices().len();
                app.log_cursor = move_down(app.log_cursor, count, n);
            },
            Tab::Traces => {
                let n = app.unique_traces().len();
                app.trace_scroll = move_down(app.trace_scroll, count, n);
            },
        }
    }
}

/// Moves the focused cursor `count` lines up.
pub fn scroll_up(app: &mut App, count: usize)
    ensures
        *final(app) == scrolled_up(*old(app), count),
{
    if app.sidebar_focused {
        app.sidebar_scroll = app.sidebar_scroll.saturating_sub(count);
    } else {
        match app.tab {
            Tab::Logs => app.log_cursor = app.log_cursor.saturating_sub(count),
            Tab::Traces => app.trace_scroll = app.trace_scroll.saturating_sub(count),
        }
    }
}

/// Moves the focused cursor to the first line.
pub fn scroll_to_top(app: &mut App)
    ensures
        *final(app) == scrolled_to_top(*old(app)),
{
    if app.sidebar_focused {
        app.sidebar_scroll = 0;
    } else {
        match app.tab {
            Tab::Logs => app.log_cursor = 0,
            Tab::Traces => app.trace_scroll = 0,
        }
    }
}

/// Moves the focused cursor to the last line.
pub fn scroll_to_end(app: &mut App)
    ensures
        *final(app) == scrolled_to_end(*old(app)),
{
    if app.sidebar_focused {
        let n = sidebar_count(app);
        app.sidebar_scroll = last_index(n);
    } else {
        match app.tab {
            Tab::Logs => {
                let n = app.filtered_log_indices().len();
                app.log_cursor = last_index(n);
            },
            Tab::Traces => {
                let n = app.unique_traces().len();
                app.trace_scroll = last_index(n);
            },
        }
    }
}

/// How far a page moves: the query limit, at most 20 lines.
pub fn page_size(app: &App) -> (r: usize)
    ensures
        r == min_of(app.limit as int, 20),
{
    if app.limit < 20 {
        app.limit
    } else {
        20
    }
}


/// Whether the enter key on the sidebar line under the cursor took `old` to
/// `new`: a value line toggles that label value and moves the log cursor to
/// the top; a heading, or a cursor past the end, changes nothing.
pub open spec fn sidebar_entered(old: App, new: App) -> bool {
    let items = spec_sidebar(
        values_for(old.label_values@, "service"@),
        values_for(old.label_values@, "environment"@),
        old.selected_labels@,
    );
    if old.sidebar_scroll < items.len() && items[old.sidebar_scroll as int] is Value {
        let label = items[old.sidebar_scroll as int]->Value_label;
        let value = items[old.sidebar_scroll as int]->Value_value;
        &&& new.selected_labels@ == crate::tui_app::spec_toggle_label(old.selected_labels@, label, value)
        &&& new == (App { selected_labels: new.selected_labels, log_cursor: 0, ..old })
    } else {
        new == old
    }
}

/// Whether the enter key on the trace under the cursor, with the traces listed
/// as `groups`, took `old` to `new` and asked for `effect`: the expanded trace
/// collapses; another one is to be expanded; past the end nothing happens.
pub open spec fn trace_entered(old: App, groups: Seq<crate::tui_app::TraceGroupView>, new: App, effect: InputEffect) -> bool {
    if old.trace_scroll < groups.len() {
        let t = groups[old.trace_scroll as int].trace_id;
        if old.expanded_trace matches Some(e) && e@ == t {
            effect is Nothing && new == (App { expanded_trace: None, ..old })
        } else {
            new == old && (effect matches InputEffect::ExpandTrace(id) && id@ == t)
        }
    } else {
        new == old && effect is Nothing
    }
}

/// The enter key: on the sidebar it toggles the value under the cursor, on the
/// logs it selects the entry under the cursor, on the traces it collapses the
/// expanded trace or asks to expand the one under the cursor.
pub fn handle_enter(app: &mut App) -> (r: InputEffect)
    ensures
        old(app).sidebar_focused ==> r is Nothing && sidebar_entered(*old(app), *final(app)),
        !old(app).sidebar_focused && old(app).tab == Tab::Logs ==> r is Nothing && *final(app) == (App {
            selected_log_idx: spec_select(
                log_order(*old(app)).len() as int,
                old(app).log_cursor as int,
                old(app).selected_log_idx,
            ),
            ..*old(app)
        }),
        !old(app).sidebar_focused && old(app).tab == Tab::Traces ==> exists|groups: Seq<crate::tui_app::TraceGroupView>|
            is_trace_list(old(app).traces@, groups) && groups.len() == trace_count(old(app).traces@)
                && trace_entered(*old(app), groups, *final(app), r),
{
    if app.sidebar_focused {
        let items = app.sidebar_items();
        if app.sidebar_scroll < items.len() {
            match &items[app.sidebar_scroll] {
                SidebarItem::Value { label, value, .. } => {
                    let l = label.clone();
                    let v = value.clone();
                    assert(item_views(items@)[app.sidebar_scroll as int] == items@[app.sidebar_scroll as int]@);
                    app.toggle_label(l.as_str(), v.as_str());
                    app.log_cursor = 0;
                },
                SidebarItem::Label(_) => {
                    assert(item_views(items@)[app.sidebar_scroll as int] == items@[app.sidebar_scroll as int]@);
                },
            }
        }
        InputEffect::Nothing
    } else if app.tab == Tab::Logs {
        app.select_current_log();
        InputEffect::Nothing
    } else {
        let groups = app.unique_traces();
        let ghost gv = crate::tui_app::group_views(groups@);
        assert(gv.len() == groups@.len());
        if app.trace_scroll < groups.len() {
            let id = groups[app.trace_scroll].trace_id.clone();
            assert(gv[app.trace_scroll as int] == groups@[app.trace_scroll as int]@);
            let same = match &app.expanded_trace {
                Some(e) => str_eq(e.as_str(), id.as_str()),
                None => false,
            };
            if same {
                app.expanded_trace = None;
                InputEffect::Nothing
            } else {
                InputEffect::ExpandTrace(id)
            }
        } else {
            InputEffect::Nothing
        }
    }
}

/// The characters of `s` without its last one (all of `s` when empty).
fn drop_last_char(s: &String) -> (r: String)
    ensures
        r@ == (if s@.len() > 0 {
            s@.drop_last()
        } else {
            s@
        }),
{
    let v = chars_of(s.as_str());
    if v.len() == 0 {
        return string_from_chars(&v);
    }
    let w = copy_range(&v, 0, v.len() - 1);
    assert(w@ =~= s@.drop_last());
    string_from_chars(&w)
}

/// The characters of `s` and then `c`.
fn push_char(s: &String, c: char) -> (r: String)
    ensures
        r@ == s@.push(c),
{
    let mut v = chars_of(s.as_str());
    v.push(c);
    string_from_chars(&v)
}

/// Whether a key in search mode took `old` to `new`: escape leaves the search,
/// enter applies it and moves the log cursor to the top, backspace drops the
/// last character, a character is appended, other keys change nothing.
pub open spec fn search_edited(old: App, key: Key, new: App) -> bool {
    &&& (key == Key::Esc ==> new == (App { input_mode: InputMode::Normal, ..old }))
    &&& (key == Key::Enter ==> new == (App { input_mode: InputMode::Normal, log_cursor: 0, ..old }))
    &&& (key == Key::Backspace ==> new.search@ == (if old.search@.len() > 0 {
            old.search@.drop_last()
        } else {
            old.search@
        }) && new == (App { search: new.search, ..old }))
    &&& (key matches Key::Char(c) ==> new.search@ == old.search@.push(c) && new == (App {
            search: new.search,
            ..old
        }))
    &&& (!(key == Key::Esc || key == Key::Enter || key == Key::Backspace || key is Char) ==> new
            == old)
}

/// A key while the search text is edited: escape leaves the search, enter
/// applies it and moves the log cursor to the top, backspace drops the last
/// character, a character is appended.
pub fn handle_search_input(app: &mut App, key: Key)
    ensures
        search_edited(*old(app), key, *final(app)),
{
    match key {
        Key::Esc => {
            app.input_mode = InputMode::Normal;
        },
        Key::Enter => {
            app.input_mode = InputMode::Normal;
            app.log_cursor = 0;
        },
        Key::Backspace => {
            app.search = drop_last_char(&app.search);
        },
        Key::Char(c) => {
            app.search = push_char(&app.search, c);
        },
        _ => {},
    }
}

/// The other view.
pub open spec fn other_tab(t: Tab) -> Tab {
    match t {
        Tab::Logs => Tab::Traces,
        Tab::Traces => Tab::Logs,
    }
}

/// Whether escape took `old` to `new`: it clears the selected entry, else
/// collapses the expanded trace, else clears the search text (and moves the log
/// cursor to the top).
pub open spec fn escaped(old: App, new: App) -> bool {
    if old.selected_log_idx is Some {
        new == (App { selected_log_idx: None, ..old })
    } else if old.expanded_trace is Some {
        new == (App { expanded_trace: None, ..old })
    } else if old.search@.len() > 0 {
        new.search@.len() == 0 && new == (App { search: new.search, log_cursor: 0, ..old })
    } else {
        new == old
    }
}

/// A larger query limit: 100 more, at most 10000.
pub open spec fn limit_raised(limit: usize) -> usize {
    min_of(sat_add(limit, 100) as int, 10000) as usize
}

/// A smaller query limit: 100 less, at least 50.
pub open spec fn limit_lowered(limit: usize) -> usize {
    let l = sat_sub(limit as int, 100);
    (if l < 50 {
        50
    } else {
        l
    }) as usize
}

/// Whether a key in normal mode took `old` to `new` and asked for `effect`.
pub open spec fn normal_handled(old: App, key: Key, new: App, effect: InputEffect) -> bool {
    &&& (key == Key::Char('q') ==> effect is Nothing && new == (App { should_quit: true, ..old }))
    &&& (key == Key::Tab ==> effect is Nothing && new == (App { tab: other_tab(old.tab), ..old }))
    &&& (key == Key::Char('/') ==> effect is Nothing && new.search@.len() == 0 && new == (App {
            input_mode: InputMode::Search,
            search: new.search,
            ..old
        }))
    &&& (key == Key::Char('j') || key == Key::Down ==> effect is Nothing && new == scrolled_down(old, 1))
    &&& (key == Key::Char('k') || key == Key::Up ==> effect is Nothing && new == scrolled_up(old, 1))
    &&& (key == Key::PageDown ==> effect is Nothing && new == scrolled_down(
            old,
            min_of(old.limit as int, 20) as usize,
        ))
    &&& (key == Key::PageUp ==> effect is Nothing && new == scrolled_up(
            old,
            min_of(old.limit as int, 20) as usize,
        ))
    &&& (key == Key::Home ==> effect is Nothing && new == scrolled_to_top(old))
    &&& (key == Key::End ==> effect is Nothing && new == scrolled_to_end(old))
    &&& (key == Key::Char('h') || key == Key::Left ==> effect is Nothing && new == (App {
            sidebar_focused: true,
            ..old
        }))
    &&& (key == Key::Char('l') || key == Key::Right ==> effect is Nothing && new == (App {
            sidebar_focused: false,
            ..old
        }))
    &&& (key matches Key::Char(c) ==> ('1' <= c <= '6' ==> effect is Nothing && new.level_enabled@
            == old.level_enabled@.update(
            (c as int) - ('1' as int),
            !old.level_enabled@[(c as int) - ('1' as int)],
        ) && new == (App { level_enabled: new.level_enabled, log_cursor: 0, ..old })))
    &&& (key == Key::Esc ==> effect is Nothing && escaped(old, new))
    &&& (key == Key::Char('L') ==> effect is Nothing && new == (App { live_tail: !old.live_tail, ..old }))
    &&& (key == Key::Char('r') ==> effect is Refresh && new == old)
    &&& (key == Key::Char('+') || key == Key::Char('=') ==> effect is Refresh && new == (App {
            limit: limit_raised(old.limit),
            ..old
        }))
    &&& (key == Key::Char('-') ==> effect is Refresh && new == (App { limit: limit_lowered(old.limit), ..old }))
    &&& (key == Key::Char('s') ==> effect is Nothing && new == (App {
            newest_first: !old.newest_first,
            log_cursor: 0,
            ..old
        }))
    &&& (key == Key::Enter ==> (old.sidebar_focused ==> effect is Nothing && sidebar_entered(old, new))
            && (!old.sidebar_focused && old.tab == Tab::Logs ==> effect is Nothing && new == (App {
            selected_log_idx: spec_select(
                log_order(old).len() as int,
                old.log_cursor as int,
                old.selected_log_idx,
            ),
            ..old
        })) && (!old.sidebar_focused && old.tab == Tab::Traces ==> exists|groups: Seq<crate::tui_app::TraceGroupView>|
            is_trace_list(old.traces@, groups) && groups.len() == trace_count(old.traces@)
                && trace_entered(old, groups, new, effect)))
    &&& (is_plain_key(key) ==> effect is Nothing && new == old)
}

/// A key in normal mode.
pub fn handle_normal_input(app: &mut App, key: Key) -> (r: InputEffect)
    ensures
        normal_handled(*old(app), key, *final(app), r),
{
    match key {
        Key::Char('q') => {
            app.should_quit = true;
            InputEffect::Nothing
        },
        Key::Tab => {
            app.tab = match app.tab {
                Tab::Logs => Tab::Traces,
                Tab::Traces => Tab::Logs,
            };
            InputEffect::Nothing
        },
        Key::Char('/') => {
            app.input_mode = InputMode::Search;
            app.search = String::new();
            InputEffect::Nothing
        },
        Key::Char('j') | Key::Down => {
            scroll_down(app, 1);
            InputEffect::Nothing
        },
        Key::Char('k') | Key::Up => {
            scroll_up(app, 1);
            InputEffect::Nothing
        },
        Key::PageDown => {
            let n = page_size(app);
            scroll_down(app, n);
            InputEffect::Nothing
        },
        Key::PageUp => {
            let n = page_size(app);
            scroll_up(app, n);
            InputEffect::Nothing
        },
        Key::Home => {
            scroll_to_top(app);
            InputEffect::Nothing
        },
        Key::End => {
            scroll_to_end(app);
            InputEffect::Nothing
        },
        Key::Char('h') | Key::Left => {
            app.sidebar_focused = true;
            InputEffect::Nothing
        },
        Key::Char('l') | Key::Right => {
            app.sidebar_focused = false;
            InputEffect::Nothing
        },
        Key::Char('1') => {
            app.toggle_level(0);
            InputEffect::Nothing
        },
        Key::Char('2') => {
            app.toggle_level(1);
            InputEffect::Nothing
        },
        Key::Char('3') => {
            app.toggle_level(2);
            InputEffect::Nothing
        },
        Key::Char('4') => {
            app.toggle_level(3);
            InputEffect::Nothing
        },
        Key::Char('5') => {
            app.toggle_level(4);
            InputEffect::Nothing
        },
        Key::Char('6') => {
            app.toggle_level(5);
            InputEffect::Nothing
        },
        Key::Enter => handle_enter(app),
        Key::Esc => {
            if app.selected_log_idx.is_some() {
                app.selected_log_idx = None;
            } else if app.expanded_trace.is_some() {
                app.expanded_trace = None;
            } else if !app.search.as_str().is_empty() {
                app.search = String::new();
                app.log_cursor = 0;
            }
            InputEffect::Nothing
        },
        Key::Char('L') => {
            app.live_tail = !app.live_tail;
            InputEffect::Nothing
        },
        Key::Char('r') => InputEffect::Refresh,
        Key::Char('+') | Key::Char('=') => {
            let raised = app.limit.saturating_add(100);
            app.limit = if raised < 10000 {
                raised
            } else {
                10000
            };
            InputEffect::Refresh
        },
        Key::Char('-') => {
            let lowered = app.limit.saturating_sub(100);
            app.limit = if lowered < 50 {
                50
            } else {
                lowered
            };
            InputEffect::Refresh
        },
        Key::Char('s') => {
            app.newest_first = !app.newest_first;
            app.log_cursor = 0;
            InputEffect::Nothing
        },
        _ => InputEffect::Nothing,
    }
}

/// The keys that do nothing in normal mode.
pub open spec fn is_plain_key(key: Key) -> bool {
    match key {
        Key::Char(c) => !(c == 'q' || c == '/' || c == 'j' || c == 'k' || c == 'h' || c == 'l' || ('1' <= c
            <= '6') || c == 'L' || c == 'r' || c == '+' || c == '=' || c == '-' || c == 's'),
        Key::Backspace | Key::Other => true,
        _ => false,
    }
}

/// A key press: in search mode it edits the search text, in normal mode it
/// drives the views.
pub fn handle_input(app: &mut App, key: Key) -> (r: InputEffect)
    ensures
        old(app).input_mode == InputMode::Search ==> r is Nothing && search_edited(*old(app), key, *final(app)),
        old(app).input_mode == InputMode::Normal ==> normal_handled(*old(app), key, *final(app), r),
{
    match app.input_mode {
        InputMode::Search => {
            handle_search_input(app, key);
            InputEffect::Nothing
        },
        InputMode::Normal => handle_normal_input(app, key),
    }
}


// ---- the command line ----

/// `s` with every leading copy of `p` taken off (`str::trim_start_matches`).
pub open spec fn strip_prefixes(s: Seq<char>, p: Seq<char>) -> Seq<char>
    decreases s.len(),
{
    if p.len() > 0 && p.len() <= s.len() && s.subrange(0, p.len() as int) == p {
        strip_prefixes(s.skip(p.len() as int), p)
    } else {
        s
    }
}

/// The server the arguments from position `i` on name: `--server URL`, or
/// `--server=URL`, whichever comes first; else the default.
pub open spec fn server_from(args: Seq<Seq<char>>, i: int) -> Seq<char>
    decreases args.len() - i,
{
    if i < 0 || i >= args.len() {
        "http://localhost:3000"@
    } else if args[i] == "--server"@ && i + 1 < args.len() {
        args[i + 1]
    } else if "--server="@.len() <= args[i].len() && args[i].subrange(0, "--server="@.len() as int) == "--server="@ {
        strip_prefixes(args[i], "--server="@)
    } else {
        server_from(args, i + 1)
    }
}

fn strip_all(v: &Vec<char>, p: &Vec<char>) -> (r: Vec<char>)
    requires
        p@.len() > 0,
    ensures
        r@ == strip_prefixes(v@, p@),
{
    let mut pos: usize = 0;
    let n = v.len();
    assert(v@.skip(0) =~= v@);
    loop
        invariant
            n == v@.len(),
            pos <= v@.len(),
            p@.len() > 0,
            strip_prefixes(v@.skip(pos as int), p@) == strip_prefixes(v@, p@),
        ensures
            pos <= v@.len(),
            v@.subrange(pos as int, v@.len() as int) == strip_prefixes(v@, p@),
        decreases v@.len() - pos,
    {
        let rest = Ghost(v@.skip(pos as int));
        let m = crate::text::matches_at(v, p, pos);
        if !m {
            proof {
                if p@.len() <= rest@.len() {
                    assert(rest@.subrange(0, p@.len() as int) =~= v@.subrange(pos as int, pos + p@.len()));
                }
                assert(rest@ =~= v@.subrange(pos as int, v@.len() as int));
            }
            break;
        }
        proof {
            assert(rest@.subrange(0, p@.len() as int) =~= v@.subrange(pos as int, pos + p@.len()));
            assert(rest@.skip(p@.len() as int) =~= v@.skip(pos + p@.len()));
        }
        pos = pos + p.len();
    }
    copy_range(v, pos, v.len())
}

/// The server named on the command line (`args` as the process received them,
/// the program name first), or the default.
pub fn parse_server_arg(args: &Vec<String>) -> (r: String)
    ensures
        r@ == server_from(crate::tui_app::string_views(args@), 1),
{
    let ghost av = crate::tui_app::string_views(args@);
    let flag = chars_of("--server=");
    proof {
        reveal_strlit("--server=");
    }
    let mut i: usize = 1;
    while i < args.len()
        invariant
            av == crate::tui_app::string_views(args@),
            1 <= i,
            flag@ == "--server="@,
            flag@.len() > 0,
            server_from(av, i as int) == server_from(av, 1),
        decreases args.len() - i,
    {
        let arg = args[i].as_str();
        assert(av[i as int] == arg@);
        if str_eq(arg, "--server") && i + 1 < args.len() {
            assert(av[i + 1] == args@[i + 1]@);
            return args[i + 1].clone();
        }
        let chars = chars_of(arg);
        if crate::text::matches_at(&chars, &flag, 0) {
            assert(chars@.subrange(0, flag@.len() as int) == flag@);
            let rest = strip_all(&chars, &flag);
            return string_from_chars(&rest);
        }
        i = i + 1;
    }
    "http://localhost:3000".to_string()
}

// ---- timing ----

/// The pause between two refreshes while live tail is on, in nanoseconds.
pub const REFRESH_INTERVAL_NANOS: u128 = 2_000_000_000;

/// How long to wait for a key while live tail is off, in nanoseconds.
pub const IDLE_POLL_NANOS: u128 = 250_000_000;

/// How long to wait for a key, given the time since the last refresh: until the
/// next refresh is due while live tail is on, a quarter second otherwise.
pub fn poll_timeout_nanos(live_tail: bool, elapsed_nanos: u128) -> (r: u128)
    ensures
        live_tail ==> r == sat_sub(REFRESH_INTERVAL_NANOS as int, elapsed_nanos as int),
        !live_tail ==> r == IDLE_POLL_NANOS,
{
    if live_tail {
        REFRESH_INTERVAL_NANOS.saturating_sub(elapsed_nanos)
    } else {
        IDLE_POLL_NANOS
    }
}

/// Whether the next refresh is due: live tail is on and the interval has passed.
pub fn refresh_due(live_tail: bool, elapsed_nanos: u128) -> (r: bool)
    ensures
        r == (live_tail && elapsed_nanos >= REFRESH_INTERVAL_NANOS),
{
    live_tail && elapsed_nanos >= REFRESH_INTERVAL_NANOS
}

} // verus!
