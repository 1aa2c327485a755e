//! The label selector syntax: `{name="value", name!="value", name=~"re", name!~"re"}`.
use vstd::prelude::*;

use crate::loki::{LabelMatcher, MatchOp, MatcherSpec, matcher_views};
use crate::text::{
    char_alphanumeric, chars_of, copy_range, is_alphanumeric, lemma_skip_ws_bounds,
    lemma_trim_back_bounds, occurs_at,
    skip_whitespace, skip_ws, spec_trim, string_from_chars, trim_back, trim_chars,
    unicode_whitespace,
};

verus! {

broadcast use vstd::string::group_string_axioms;

// ---- error messages ----

pub open spec fn msg_not_wrapped() -> Seq<char> {
    "selector must be wrapped in {}"@
}

pub open spec fn msg_unexpected_char(c: char) -> Seq<char> {
    "unexpected character: '"@ + seq![c] + "'"@
}

pub open spec fn msg_expected_name() -> Seq<char> {
    "expected label name"@
}

pub open spec fn msg_bad_bang() -> Seq<char> {
    "expected '=' or '~' after '!'"@
}

pub open spec fn msg_unexpected_op(c: char) -> Seq<char> {
    "unexpected operator character: '"@ + seq![c] + "'"@
}

pub open spec fn msg_op_end() -> Seq<char> {
    "unexpected end of input while reading operator"@
}

pub open spec fn msg_expected_quote() -> Seq<char> {
    "expected '\"' to start value"@
}

pub open spec fn msg_escape_end() -> Seq<char> {
    "unexpected end of input in escape sequence"@
}

pub open spec fn msg_value_end() -> Seq<char> {
    "unexpected end of input in quoted value"@
}

// ---- the grammar ----

/// A character that may appear in a label name.
pub open spec fn is_name_char(c: char) -> bool {
    char_alphanumeric(c) || c == '_'
}

/// The end of the label name that starts at `i`.
pub open spec fn name_end(s: Seq<char>, i: int) -> int
    decreases s.len() - i,
{
    if 0 <= i < s.len() && is_name_char(s[i]) {
        name_end(s, i + 1)
    } else {
        i
    }
}

/// The operator at `i` and the position after it.
pub open spec fn spec_read_op(s: Seq<char>, i: int) -> Result<(MatchOp, int), Seq<char>> {
    if i >= s.len() {
        Err(msg_op_end())
    } else if s[i] == '=' {
        if i + 1 < s.len() && s[i + 1] == '~' {
            Ok((MatchOp::Re, i + 2))
        } else {
            Ok((MatchOp::Eq, i + 1))
        }
    } else if s[i] == '!' {
        if i + 1 < s.len() && s[i + 1] == '=' {
            Ok((MatchOp::Neq, i + 2))
        } else if i + 1 < s.len() && s[i + 1] == '~' {
            Ok((MatchOp::Nre, i + 2))
        } else {
            Err(msg_bad_bang())
        }
    } else {
        Err(msg_unexpected_op(s[i]))
    }
}

/// The rest of a quoted value from `i` (just after the opening quote or inside
/// it), given the characters `acc` already read: a backslash takes the next
/// character literally, a quote ends the value.
pub open spec fn value_rest(s: Seq<char>, i: int, acc: Seq<char>) -> Result<(Seq<char>, int), Seq<char>>
    decreases s.len() - i,
{
    if i < 0 || i >= s.len() {
        Err(msg_value_end())
    } else if s[i] == '\\' {
        if i + 1 >= s.len() {
            Err(msg_escape_end())
        } else {
            value_rest(s, i + 2, acc.push(s[i + 1]))
        }
    } else if s[i] == '"' {
        Ok((acc, i + 1))
    } else {
        value_rest(s, i + 1, acc.push(s[i]))
    }
}

/// The quoted value at `i` and the position after its closing quote.
pub open spec fn spec_read_value(s: Seq<char>, i: int) -> Result<(Seq<char>, int), Seq<char>> {
    if 0 <= i < s.len() && s[i] == '"' {
        value_rest(s, i + 1, Seq::empty())
    } else {
        Err(msg_expected_quote())
    }
}

/// One `name op "value"` at `i` (no leading whitespace) and the position after it.
pub open spec fn spec_parse_matcher(s: Seq<char>, i: int) -> Result<(MatcherSpec, int), Seq<char>> {
    let e = name_end(s, i);
    if e == i {
        Err(msg_expected_name())
    } else {
        match spec_read_op(s, skip_ws(s, e)) {
            Err(m) => Err(m),
            Ok((op, k)) => match spec_read_value(s, skip_ws(s, k)) {
                Err(m) => Err(m),
                Ok((v, j)) => Ok((MatcherSpec { name: s.subrange(i, e), op, value: v }, j)),
            },
        }
    }
}

pub proof fn lemma_name_end(s: Seq<char>, i: int)
    requires
        0 <= i <= s.len(),
    ensures
        i <= name_end(s, i) <= s.len(),
        forall|j: int| i <= j < name_end(s, i) ==> is_name_char(#[trigger] s[j]),
        name_end(s, i) < s.len() ==> !is_name_char(s[name_end(s, i)]),
    decreases s.len() - i,
{
    if i < s.len() && is_name_char(s[i]) {
        lemma_name_end(s, i + 1);
    }
}

pub proof fn lemma_value_rest(s: Seq<char>, i: int, acc: Seq<char>)
    requires
        0 <= i,
    ensures
        value_rest(s, i, acc) matches Ok((v, j)) ==> i < j <= s.len(),
    decreases s.len() - i,
{
    if i < s.len() {
        if s[i] == '\\' {
            if i + 1 < s.len() {
                lemma_value_rest(s, i + 2, acc.push(s[i + 1]));
            }
        } else if s[i] != '"' {
            lemma_value_rest(s, i + 1, acc.push(s[i]));
        }
    }
}

pub proof fn lemma_parse_matcher_advances(s: Seq<char>, i: int)
    requires
        0 <= i <= s.len(),
    ensures
        spec_parse_matcher(s, i) matches Ok((m, j)) ==> i < j <= s.len(),
{
    lemma_name_end(s, i);
    let e = name_end(s, i);
    if e != i {
        lemma_skip_ws_bounds(s, e);
        let k0 = skip_ws(s, e);
        if let Ok((op, k)) = spec_read_op(s, k0) {
            lemma_skip_ws_bounds(s, k);
            let k2 = skip_ws(s, k);
            if 0 <= k2 < s.len() && s[k2] == '"' {
                lemma_value_rest(s, k2 + 1, Seq::empty());
            }
        }
    }
}

/// The matchers from `i` on, each but the last followed by a comma; a comma may
/// also end the list.
pub open spec fn spec_parse_list(s: Seq<char>, i: int) -> Result<Seq<MatcherSpec>, Seq<char>>
    decreases s.len() - i,
{
    let j = skip_ws(s, i);
    if i < 0 || i > s.len() || j >= s.len() {
        Ok(Seq::empty())
    } else {
        match spec_parse_matcher(s, j) {
            Err(m) => Err(m),
            Ok((m, k)) => {
                let k2 = skip_ws(s, k);
                if k2 >= s.len() {
                    Ok(seq![m])
                } else if s[k2] == ',' {
                    proof {
                        lemma_skip_ws_bounds(s, i);
                        lemma_parse_matcher_advances(s, j);
                        lemma_skip_ws_bounds(s, k);
                    }
                    match spec_parse_list(s, k2 + 1) {
                        Ok(rest) => Ok(seq![m] + rest),
                        Err(e) => Err(e),
                    }
                } else {
                    Err(msg_unexpected_char(s[k2]))
                }
            },
        }
    }
}

/// What `parse_label_selector` gives for an input string.
pub open spec fn spec_parse_selector(s: Seq<char>) -> Result<Seq<MatcherSpec>, Seq<char>> {
    let t = spec_trim(s);
    if !(t.len() > 0 && t[0] == '{' && t[t.len() - 1] == '}') {
        Err(msg_not_wrapped())
    } else {
        let inner = spec_trim(t.subrange(1, t.len() - 1));
        if inner.len() == 0 {
            Ok(Seq::empty())
        } else {
            spec_parse_list(inner, 0)
        }
    }
}

// ---- writing matchers back as a selector ----

/// The text of an operator.
pub open spec fn op_text(op: MatchOp) -> Seq<char> {
    match op {
        MatchOp::Eq => seq!['='],
        MatchOp::Neq => seq!['!', '='],
        MatchOp::Re => seq!['=', '~'],
        MatchOp::Nre => seq!['!', '~'],
    }
}

/// A value as it stands between quotes: a backslash before every quote and
/// every backslash.
pub open spec fn escape_value(v: Seq<char>) -> Seq<char>
    decreases v.len(),
{
    if v.len() == 0 {
        Seq::empty()
    } else if v[0] == '"' || v[0] == '\\' {
        seq!['\\', v[0]] + escape_value(v.drop_first())
    } else {
        seq![v[0]] + escape_value(v.drop_first())
    }
}

/// One matcher written as `name op "value"`.
pub open spec fn render_matcher(m: MatcherSpec) -> Seq<char> {
    m.name + op_text(m.op) + seq!['"'] + escape_value(m.value) + seq!['"']
}

/// Matchers written one after the other, separated by `, `.
pub open spec fn render_list(ms: Seq<MatcherSpec>) -> Seq<char>
    decreases ms.len(),
{
    if ms.len() == 0 {
        Seq::empty()
    } else if ms.len() == 1 {
        render_matcher(ms[0])
    } else {
        render_matcher(ms[0]) + seq![',', ' '] + render_list(ms.drop_first())
    }
}

/// Matchers written as a selector: `{name="value", name!~"re"}`.
pub open spec fn render_selector(ms: Seq<MatcherSpec>) -> Seq<char> {
    seq!['{'] + render_list(ms) + seq!['}']
}

/// A label name the grammar reads back: one or more name characters.
pub open spec fn valid_name(n: Seq<char>) -> bool {
    n.len() > 0 && forall|i: int| 0 <= i < n.len() ==> is_name_char(#[trigger] n[i])
}

proof fn lemma_occurs_split(s: Seq<char>, a: Seq<char>, b: Seq<char>, i: int)
    requires
        occurs_at(s, a + b, i),
    ensures
        occurs_at(s, a, i),
        occurs_at(s, b, i + a.len()),
{
    let whole = s.subrange(i, i + a.len() + b.len());
    assert(s.subrange(i, i + a.len()) =~= whole.subrange(0, a.len() as int));
    assert(s.subrange(i + a.len(), i + a.len() + b.len()) =~= whole.subrange(
        a.len() as int,
        (a.len() + b.len()) as int,
    ));
    assert((a + b).subrange(0, a.len() as int) =~= a);
    assert((a + b).subrange(a.len() as int, (a.len() + b.len()) as int) =~= b);
}

proof fn lemma_occurs_index(s: Seq<char>, a: Seq<char>, i: int, k: int)
    requires
        occurs_at(s, a, i),
        0 <= k < a.len(),
    ensures
        s[i + k] == a[k],
{
    assert(s.subrange(i, i + a.len())[k] == s[i + k]);
}

proof fn lemma_name_end_at(s: Seq<char>, i: int, n: Seq<char>, k: int)
    requires
        occurs_at(s, n, i),
        valid_name(n),
        0 <= k <= n.len(),
        i + n.len() < s.len() ==> !is_name_char(s[i + n.len()]),
    ensures
        name_end(s, i + k) == i + n.len(),
    decreases n.len() - k,
{
    if k < n.len() {
        lemma_occurs_index(s, n, i, k);
        lemma_name_end_at(s, i, n, k + 1);
    }
}

proof fn lemma_escape_len(v: Seq<char>)
    ensures
        escape_value(v).len() >= v.len(),
    decreases v.len(),
{
    if v.len() > 0 {
        lemma_escape_len(v.drop_first());
    }
}

proof fn lemma_value_rest_escaped(s: Seq<char>, j: int, acc: Seq<char>, v: Seq<char>)
    requires
        occurs_at(s, escape_value(v) + seq!['"'], j),
    ensures
        value_rest(s, j, acc) == Ok::<(Seq<char>, int), Seq<char>>(
            (acc + v, j + escape_value(v).len() + 1),
        ),
    decreases v.len(),
{
    let e = escape_value(v);
    lemma_occurs_split(s, e, seq!['"'], j);
    if v.len() == 0 {
        lemma_occurs_index(s, seq!['"'], j, 0);
        assert(acc + v =~= acc);
    } else {
        let rest = escape_value(v.drop_first());
        if v[0] == '"' || v[0] == '\\' {
            assert(e + seq!['"'] =~= seq!['\\', v[0]] + (rest + seq!['"']));
            lemma_occurs_split(s, seq!['\\', v[0]], rest + seq!['"'], j);
            lemma_occurs_index(s, seq!['\\', v[0]], j, 0);
            lemma_occurs_index(s, seq!['\\', v[0]], j, 1);
            lemma_value_rest_escaped(s, j + 2, acc.push(v[0]), v.drop_first());
        } else {
            assert(e + seq!['"'] =~= seq![v[0]] + (rest + seq!['"']));
            lemma_occurs_split(s, seq![v[0]], rest + seq!['"'], j);
            lemma_occurs_index(s, seq![v[0]], j, 0);
            lemma_value_rest_escaped(s, j + 1, acc.push(v[0]), v.drop_first());
        }
        assert(acc.push(v[0]) + v.drop_first() =~= acc + v);
    }
}

/// A written matcher at `i` reads back as that matcher, ending where its text ends.
proof fn lemma_parse_rendered_matcher(s: Seq<char>, i: int, m: MatcherSpec)
    requires
        occurs_at(s, render_matcher(m), i),
        valid_name(m.name),
    ensures
        spec_parse_matcher(s, i) == Ok::<(MatcherSpec, int), Seq<char>>(
            (m, i + render_matcher(m).len()),
        ),
{
    let n = m.name;
    let o = op_text(m.op);
    let q = seq!['"'];
    let ev = escape_value(m.value);
    lemma_occurs_split(s, n + o + q + ev, q, i);
    lemma_occurs_split(s, n + o + q, ev, i);
    lemma_occurs_split(s, n + o, q, i);
    lemma_occurs_split(s, n, o, i);
    let e = i + n.len();
    let k = e + o.len();
    lemma_occurs_index(s, o, e, 0);
    if o.len() > 1 {
        lemma_occurs_index(s, o, e, 1);
    }
    lemma_occurs_index(s, q, k, 0);
    assert(!is_name_char(s[e]));
    lemma_name_end_at(s, i, n, 0);
    assert(s.subrange(i, e) =~= n) by {
        assert(s.subrange(i, i + n.len()) == n);
    }
    assert(skip_ws(s, e) == e);
    assert(skip_ws(s, k) == k);
    assert(occurs_at(s, ev + q, k + 1)) by {
        let t = s.subrange(k + 1, k + 1 + ev.len() + 1);
        assert(t =~= ev + q) by {
            assert forall|x: int| 0 <= x < ev.len() + 1 implies t[x] == (ev + q)[x] by {
                if x < ev.len() {
                    lemma_occurs_index(s, ev, k + 1, x);
                } else {
                    lemma_occurs_index(s, q, k + 1 + ev.len(), 0);
                }
            }
        }
    }
    lemma_value_rest_escaped(s, k + 1, Seq::empty(), m.value);
    assert(Seq::<char>::empty() + m.value =~= m.value);
}

/// The written list ends with the closing quote of its last value.
proof fn lemma_render_list_last(ms: Seq<MatcherSpec>)
    requires
        ms.len() > 0,
    ensures
        render_list(ms).len() > 0,
        render_list(ms)[render_list(ms).len() - 1] == '"',
    decreases ms.len(),
{
    if ms.len() > 1 {
        lemma_render_list_last(ms.drop_first());
    }
}

/// The written list starts with the first character of the first name.
proof fn lemma_render_list_first(ms: Seq<MatcherSpec>)
    requires
        ms.len() > 0,
        valid_name(ms[0].name),
    ensures
        render_list(ms).len() > 0,
        render_list(ms)[0] == ms[0].name[0],
{
    let m = ms[0];
    assert(render_matcher(m)[0] == m.name[0]);
}

proof fn lemma_parse_rendered_list(s: Seq<char>, i: int, j: int, ms: Seq<MatcherSpec>)
    requires
        0 <= i <= j,
        skip_ws(s, i) == j,
        ms.len() > 0,
        forall|x: int| 0 <= x < ms.len() ==> valid_name(#[trigger] ms[x].name),
        occurs_at(s, render_list(ms), j),
        j + render_list(ms).len() == s.len(),
    ensures
        spec_parse_list(s, i) == Ok::<Seq<MatcherSpec>, Seq<char>>(ms),
    decreases ms.len(),
{
    let m = ms[0];
    assert(valid_name(ms[0].name));
    let r = render_matcher(m);
    let k = j + r.len();
    if ms.len() == 1 {
        lemma_parse_rendered_matcher(s, j, m);
        assert(seq![m] =~= ms);
    } else {
        let rest = ms.drop_first();
        let sep = seq![',', ' '];
        lemma_occurs_split(s, r + sep, render_list(rest), j);
        lemma_occurs_split(s, r, sep, j);
        lemma_parse_rendered_matcher(s, j, m);
        lemma_occurs_index(s, sep, k, 0);
        lemma_occurs_index(s, sep, k, 1);
        assert(skip_ws(s, k) == k);
        assert forall|x: int| 0 <= x < rest.len() implies valid_name(#[trigger] rest[x].name) by {
            assert(rest[x] == ms[x + 1]);
        }
        lemma_render_list_first(rest);
        lemma_occurs_index(s, render_list(rest), k + 2, 0);
        assert(!unicode_whitespace(s[k + 2])) by {
            assert(is_name_char(rest[0].name[0]));
        }
        assert(skip_ws(s, k + 2) == k + 2);
        assert(skip_ws(s, k + 1) == k + 2);
        lemma_parse_rendered_list(s, k + 1, k + 2, rest);
        assert(seq![m] + rest =~= ms);
    }
}

/// Writing matchers as a selector and parsing it gives back the same matchers,
/// whenever every name is one or more letters, digits or underscores.
pub proof fn lemma_parse_rendered_selector(ms: Seq<MatcherSpec>)
    requires
        forall|x: int| 0 <= x < ms.len() ==> valid_name(#[trigger] ms[x].name),
    ensures
        spec_parse_selector(render_selector(ms)) == Ok::<Seq<MatcherSpec>, Seq<char>>(ms),
{
    let l = render_list(ms);
    let s = render_selector(ms);
    assert(s[0] == '{');
    assert(s[s.len() - 1] == '}');
    assert(skip_ws(s, 0) == 0);
    assert(trim_back(s, 0, s.len() as int) == s.len());
    assert(spec_trim(s) =~= s);
    assert(s.subrange(1, s.len() - 1) =~= l);
    if ms.len() == 0 {
        assert(l.len() == 0);
        assert(spec_trim(l) =~= l);
        assert(ms =~= Seq::<MatcherSpec>::empty());
    } else {
        lemma_render_list_first(ms);
        lemma_render_list_last(ms);
        assert(is_name_char(ms[0].name[0]));
        assert(skip_ws(l, 0) == 0);
        assert(trim_back(l, 0, l.len() as int) == l.len());
        assert(spec_trim(l) =~= l);
        assert(l.subrange(0, l.len() as int) =~= l);
        lemma_parse_rendered_list(l, 0, 0, ms);
    }
}

// ---- any whitespace where the grammar allows it ----

/// Whether every character of `g` is whitespace.
pub open spec fn all_whitespace(g: Seq<char>) -> bool {
    forall|i: int| 0 <= i < g.len() ==> unicode_whitespace(#[trigger] g[i])
}

/// Where a written matcher has whitespace: before its operator, after its
/// operator, and (when a comma follows) before that comma.
pub struct MatcherLayout {
    pub before_op: Seq<char>,
    pub after_op: Seq<char>,
    pub before_comma: Seq<char>,
}

/// Whether a layout holds whitespace only.
pub open spec fn layout_ok(l: MatcherLayout) -> bool {
    all_whitespace(l.before_op) && all_whitespace(l.after_op) && all_whitespace(l.before_comma)
}

/// One matcher written as `name op "value"` with the layout's whitespace
/// around the operator.
pub open spec fn render_matcher_laid(m: MatcherSpec, l: MatcherLayout) -> Seq<char> {
    m.name + l.before_op + op_text(m.op) + l.after_op + seq!['"'] + escape_value(m.value) + seq!['"']
}

/// Matchers written one after the other: each laid out by its layout, each but
/// the last followed by its whitespace before the comma, the comma, and the
/// whitespace `gaps[i]` after the `i`-th comma.
pub open spec fn render_list_laid(
    ms: Seq<MatcherSpec>,
    lays: Seq<MatcherLayout>,
    gaps: Seq<Seq<char>>,
) -> Seq<char>
    decreases ms.len(),
{
    if ms.len() == 0 {
        Seq::empty()
    } else if ms.len() == 1 {
        render_matcher_laid(ms[0], lays[0])
    } else {
        render_matcher_laid(ms[0], lays[0]) + lays[0].before_comma + seq![','] + gaps[0]
            + render_list_laid(ms.drop_first(), lays.drop_first(), gaps.drop_first())
    }
}

/// Matchers written as a selector with whitespace `outer.0` before the `{`,
/// `outer.1` after it, `outer.2` before the `}` and `outer.3` after it.
pub open spec fn render_selector_laid(
    ms: Seq<MatcherSpec>,
    lays: Seq<MatcherLayout>,
    gaps: Seq<Seq<char>>,
    outer: (Seq<char>, Seq<char>, Seq<char>, Seq<char>),
) -> Seq<char> {
    outer.0 + seq!['{'] + outer.1 + render_list_laid(ms, lays, gaps) + outer.2 + seq!['}'] + outer.3
}

proof fn lemma_concat_occurs(a: Seq<char>, b: Seq<char>)
    ensures
        occurs_at(a + b, a, 0),
        occurs_at(a + b, b, a.len() as int),
{
    assert((a + b).subrange(0, a.len() as int) =~= a);
    assert((a + b).subrange(a.len() as int, (a.len() + b.len()) as int) =~= b);
}

proof fn lemma_occurs_extend(a: Seq<char>, b: Seq<char>, x: Seq<char>, i: int)
    requires
        occurs_at(a, x, i),
    ensures
        occurs_at(a + b, x, i),
{
    assert((a + b).subrange(i, i + x.len()) =~= a.subrange(i, i + x.len()));
}

proof fn lemma_occurs_join(s: Seq<char>, a: Seq<char>, b: Seq<char>, i: int)
    requires
        occurs_at(s, a, i),
        occurs_at(s, b, i + a.len()),
    ensures
        occurs_at(s, a + b, i),
{
    let t = s.subrange(i, i + a.len() + b.len());
    assert forall|x: int| 0 <= x < a.len() + b.len() implies t[x] == (a + b)[x] by {
        if x < a.len() {
            lemma_occurs_index(s, a, i, x);
        } else {
            lemma_occurs_index(s, b, i + a.len(), x - a.len());
        }
    }
    assert(t =~= a + b);
}

proof fn lemma_skip_ws_run(s: Seq<char>, i: int, g: Seq<char>)
    requires
        occurs_at(s, g, i),
        all_whitespace(g),
    ensures
        skip_ws(s, i) == skip_ws(s, i + g.len()),
    decreases g.len(),
{
    if g.len() > 0 {
        lemma_occurs_index(s, g, i, 0);
        assert(g =~= seq![g[0]] + g.drop_first());
        lemma_occurs_split(s, seq![g[0]], g.drop_first(), i);
        lemma_skip_ws_run(s, i + 1, g.drop_first());
    }
}

proof fn lemma_trim_back_run(s: Seq<char>, lo: int, hi: int, g: Seq<char>)
    requires
        occurs_at(s, g, hi - g.len()),
        all_whitespace(g),
        lo <= hi - g.len(),
    ensures
        trim_back(s, lo, hi) == trim_back(s, lo, hi - g.len()),
    decreases g.len(),
{
    if g.len() > 0 {
        let n = g.len() as int;
        lemma_occurs_index(s, g, hi - n, n - 1);
        assert(g =~= g.drop_last() + seq![g[n - 1]]);
        lemma_occurs_split(s, g.drop_last(), seq![g[n - 1]], hi - n);
        lemma_trim_back_run(s, lo, hi - 1, g.drop_last());
    }
}

proof fn lemma_whitespace_not_name(c: char)
    requires
        unicode_whitespace(c),
    ensures
        !is_name_char(c),
{
}

/// A matcher written with whitespace around its operator reads back as that
/// matcher, ending where its text ends.
proof fn lemma_parse_laid_matcher(s: Seq<char>, i: int, m: MatcherSpec, l: MatcherLayout)
    requires
        occurs_at(s, render_matcher_laid(m, l), i),
        valid_name(m.name),
        layout_ok(l),
    ensures
        spec_parse_matcher(s, i) == Ok::<(MatcherSpec, int), Seq<char>>(
            (m, i + render_matcher_laid(m, l).len()),
        ),
{
    let n = m.name;
    let g0 = l.before_op;
    let o = op_text(m.op);
    let g1 = l.after_op;
    let q = seq!['"'];
    let ev = escape_value(m.value);
    lemma_occurs_split(s, n + g0 + o + g1 + q + ev, q, i);
    lemma_occurs_split(s, n + g0 + o + g1 + q, ev, i);
    lemma_occurs_split(s, n + g0 + o + g1, q, i);
    lemma_occurs_split(s, n + g0 + o, g1, i);
    lemma_occurs_split(s, n + g0, o, i);
    lemma_occurs_split(s, n, g0, i);
    let e = i + n.len();
    let e2 = e + g0.len();
    let k = e2 + o.len();
    let k2 = k + g1.len();
    lemma_occurs_index(s, o, e2, 0);
    if o.len() > 1 {
        lemma_occurs_index(s, o, e2, 1);
    }
    lemma_occurs_index(s, q, k2, 0);
    if g0.len() > 0 {
        lemma_occurs_index(s, g0, e, 0);
        lemma_whitespace_not_name(s[e]);
    }
    if g1.len() > 0 {
        lemma_occurs_index(s, g1, k, 0);
    }
    assert(!is_name_char(s[e]));
    lemma_name_end_at(s, i, n, 0);
    assert(s.subrange(i, e) =~= n) by {
        assert(s.subrange(i, i + n.len()) == n);
    }
    lemma_skip_ws_run(s, e, g0);
    assert(skip_ws(s, e2) == e2);
    lemma_skip_ws_run(s, k, g1);
    assert(skip_ws(s, k2) == k2);
    lemma_occurs_join(s, ev, q, k2 + 1);
    lemma_value_rest_escaped(s, k2 + 1, Seq::empty(), m.value);
    assert(Seq::<char>::empty() + m.value =~= m.value);
}

proof fn lemma_render_laid_ends(ms: Seq<MatcherSpec>, lays: Seq<MatcherLayout>, gaps: Seq<Seq<char>>)
    requires
        ms.len() > 0,
        valid_name(ms[0].name),
    ensures
        render_list_laid(ms, lays, gaps).len() > 0,
        render_list_laid(ms, lays, gaps)[0] == ms[0].name[0],
        render_list_laid(ms, lays, gaps)[render_list_laid(ms, lays, gaps).len() - 1] == '"',
{
    let m = ms[0];
    assert(render_matcher_laid(m, lays[0])[0] == m.name[0]);
    lemma_render_laid_last(ms, lays, gaps);
}

proof fn lemma_render_laid_last(ms: Seq<MatcherSpec>, lays: Seq<MatcherLayout>, gaps: Seq<Seq<char>>)
    requires
        ms.len() > 0,
    ensures
        render_list_laid(ms, lays, gaps).len() > 0,
        render_list_laid(ms, lays, gaps)[render_list_laid(ms, lays, gaps).len() - 1] == '"',
    decreases ms.len(),
{
    if ms.len() > 1 {
        lemma_render_laid_last(ms.drop_first(), lays.drop_first(), gaps.drop_first());
    }
}

proof fn lemma_parse_laid_list(
    s: Seq<char>,
    i: int,
    j: int,
    ms: Seq<MatcherSpec>,
    lays: Seq<MatcherLayout>,
    gaps: Seq<Seq<char>>,
)
    requires
        0 <= i <= j,
        skip_ws(s, i) == j,
        ms.len() > 0,
        lays.len() >= ms.len(),
        gaps.len() + 1 >= ms.len(),
        forall|x: int| 0 <= x < gaps.len() ==> all_whitespace(#[trigger] gaps[x]),
        forall|x: int| 0 <= x < lays.len() ==> layout_ok(#[trigger] lays[x]),
        forall|x: int| 0 <= x < ms.len() ==> valid_name(#[trigger] ms[x].name),
        occurs_at(s, render_list_laid(ms, lays, gaps), j),
        j + render_list_laid(ms, lays, gaps).len() == s.len(),
    ensures
        spec_parse_list(s, i) == Ok::<Seq<MatcherSpec>, Seq<char>>(ms),
    decreases ms.len(),
{
    let m = ms[0];
    let l = lays[0];
    assert(valid_name(ms[0].name));
    assert(layout_ok(lays[0]));
    let r = render_matcher_laid(m, l);
    let k = j + r.len();
    if ms.len() == 1 {
        lemma_parse_laid_matcher(s, j, m, l);
        assert(seq![m] =~= ms);
    } else {
        let rest = ms.drop_first();
        let lrest = lays.drop_first();
        let g = gaps[0];
        let grest = gaps.drop_first();
        let b = l.before_comma;
        assert(all_whitespace(g));
        lemma_occurs_split(s, r + b + seq![','] + g, render_list_laid(rest, lrest, grest), j);
        lemma_occurs_split(s, r + b + seq![','], g, j);
        lemma_occurs_split(s, r + b, seq![','], j);
        lemma_occurs_split(s, r, b, j);
        lemma_parse_laid_matcher(s, j, m, l);
        let c = k + b.len();
        lemma_occurs_index(s, seq![','], c, 0);
        lemma_skip_ws_run(s, k, b);
        assert(skip_ws(s, c) == c);
        assert forall|x: int| 0 <= x < rest.len() implies valid_name(#[trigger] rest[x].name) by {
            assert(rest[x] == ms[x + 1]);
        }
        assert forall|x: int| 0 <= x < grest.len() implies all_whitespace(#[trigger] grest[x]) by {
            assert(grest[x] == gaps[x + 1]);
        }
        assert forall|x: int| 0 <= x < lrest.len() implies layout_ok(#[trigger] lrest[x]) by {
            assert(lrest[x] == lays[x + 1]);
        }
        let j2 = c + 1 + g.len();
        lemma_render_laid_ends(rest, lrest, grest);
        lemma_occurs_index(s, render_list_laid(rest, lrest, grest), j2, 0);
        assert(!unicode_whitespace(s[j2])) by {
            assert(is_name_char(rest[0].name[0]));
        }
        assert(skip_ws(s, j2) == j2);
        lemma_skip_ws_run(s, c + 1, g);
        lemma_parse_laid_list(s, c + 1, j2, rest, lrest, grest);
        assert(seq![m] + rest =~= ms);
    }
}

/// Trimming whitespace off both sides of `x` leaves `x` when `x` neither
/// starts nor ends with whitespace.
proof fn lemma_trim_padded(w0: Seq<char>, x: Seq<char>, w3: Seq<char>)
    requires
        all_whitespace(w0),
        all_whitespace(w3),
        x.len() > 0,
        !unicode_whitespace(x[0]),
        !unicode_whitespace(x[x.len() - 1]),
    ensures
        spec_trim(w0 + x + w3) == x,
{
    let s = w0 + x + w3;
    let a = w0.len() as int;
    let z = a + x.len();
    lemma_concat_occurs(w0 + x, w3);
    lemma_concat_occurs(w0, x);
    lemma_occurs_extend(w0 + x, w3, w0, 0);
    lemma_occurs_extend(w0 + x, w3, x, a);
    lemma_occurs_index(s, x, a, 0);
    lemma_occurs_index(s, x, a, x.len() - 1);
    lemma_skip_ws_run(s, 0, w0);
    assert(skip_ws(s, a) == a);
    lemma_trim_back_run(s, a, s.len() as int, w3);
    assert(trim_back(s, a, z) == z);
    assert(s.subrange(a, z) == x);
}

/// Trimming a text of whitespace only leaves nothing.
proof fn lemma_trim_blank(w: Seq<char>)
    requires
        all_whitespace(w),
    ensures
        spec_trim(w).len() == 0,
{
    assert(occurs_at(w, w, 0)) by {
        assert(w.subrange(0, w.len() as int) =~= w);
    }
    lemma_skip_ws_run(w, 0, w);
    assert(skip_ws(w, w.len() as int) == w.len());
    lemma_trim_back_bounds(w, w.len() as int, w.len() as int);
}

/// Parsing reads back the matchers of a selector however it is spaced: writing
/// matchers with valid names, with any whitespace (none included) before and
/// after the braces, around each operator, before each comma and after each
/// comma, and parsing the text gives the same matchers. In particular the name
/// after a comma starts at the first character after the comma that is not
/// whitespace.
pub proof fn lemma_parse_laid_selector(
    ms: Seq<MatcherSpec>,
    lays: Seq<MatcherLayout>,
    gaps: Seq<Seq<char>>,
    outer: (Seq<char>, Seq<char>, Seq<char>, Seq<char>),
)
    requires
        forall|x: int| 0 <= x < ms.len() ==> valid_name(#[trigger] ms[x].name),
        lays.len() >= ms.len(),
        forall|x: int| 0 <= x < lays.len() ==> layout_ok(#[trigger] lays[x]),
        gaps.len() + 1 >= ms.len(),
        forall|x: int| 0 <= x < gaps.len() ==> all_whitespace(#[trigger] gaps[x]),
        all_whitespace(outer.0),
        all_whitespace(outer.1),
        all_whitespace(outer.2),
        all_whitespace(outer.3),
    ensures
        spec_parse_selector(render_selector_laid(ms, lays, gaps, outer)) == Ok::<
            Seq<MatcherSpec>,
            Seq<char>,
        >(ms),
{
    let l = render_list_laid(ms, lays, gaps);
    let u = outer.1 + l + outer.2;
    let braced = seq!['{'] + u + seq!['}'];
    let s = render_selector_laid(ms, lays, gaps, outer);
    assert(s =~= outer.0 + braced + outer.3);
    lemma_trim_padded(outer.0, braced, outer.3);
    assert(braced.subrange(1, braced.len() - 1) =~= u);
    if ms.len() == 0 {
        assert(u =~= outer.1 + outer.2);
        assert(all_whitespace(outer.1 + outer.2));
        lemma_trim_blank(outer.1 + outer.2);
        assert(ms =~= Seq::<MatcherSpec>::empty());
    } else {
        assert(valid_name(ms[0].name));
        lemma_render_laid_ends(ms, lays, gaps);
        assert(is_name_char(ms[0].name[0]));
        lemma_trim_padded(outer.1, l, outer.2);
        assert(occurs_at(l, l, 0)) by {
            assert(l.subrange(0, l.len() as int) =~= l);
        }
        lemma_parse_laid_list(l, 0, 0, ms, lays, gaps);
    }
}

/// The view of a parse result.
pub open spec fn selector_result_view(r: Result<Vec<LabelMatcher>, String>) -> Result<Seq<MatcherSpec>, Seq<char>> {
    match r {
        Ok(v) => Ok(matcher_views(v@)),
        Err(e) => Err(e@),
    }
}

// ---- the parser ----

fn message(text: &str) -> (r: String)
    ensures
        r@ == text@,
{
    text.to_string()
}

fn message_with_char(prefix: &str, c: char) -> (r: String)
    ensures
        r@ == prefix@ + seq![c] + "'"@,
{
    let mut v = chars_of(prefix);
    v.push(c);
    v.push('\'');
    proof {
        reveal_strlit("'");
    }
    string_from_chars(&v)
}

/// Parses a label selector such as `{service="web", level!="debug"}` into its
/// matchers, or says why it is not one.
pub fn parse_label_selector(input: &str) -> (r: Result<Vec<LabelMatcher>, String>)
    ensures
        selector_result_view(r) == spec_parse_selector(input@),
{
    let all = chars_of(input);
    let t = trim_chars(&all);
    if !(t.len() > 0 && t[0] == '{' && t[t.len() - 1] == '}') {
        return Err(message("selector must be wrapped in {}"));
    }
    let middle = copy_range(&t, 1, t.len() - 1);
    let inner = trim_chars(&middle);
    if inner.len() == 0 {
        let v: Vec<LabelMatcher> = Vec::new();
        assert(matcher_views(v@) =~= Seq::<MatcherSpec>::empty());
        return Ok(v);
    }
    let ghost s = inner@;
    let mut matchers: Vec<LabelMatcher> = Vec::new();
    let mut pos: usize = 0;
    loop
        invariant_except_break
            pos <= inner.len(),
            s == inner@,
            spec_parse_selector(input@) == spec_parse_list(s, 0),
            spec_parse_list(s, 0) == (match spec_parse_list(s, pos as int) {
                Ok(rest) => Ok(matcher_views(matchers@) + rest),
                Err(e) => Err(e),
            }),
        ensures
            spec_parse_list(s, 0) == Ok::<Seq<MatcherSpec>, Seq<char>>(matcher_views(matchers@)),
        decreases inner.len() - pos,
    {
        let j = skip_whitespace(&inner, pos);
        if j >= inner.len() {
            assert(matcher_views(matchers@) + Seq::<MatcherSpec>::empty() =~= matcher_views(matchers@));
            break;
        }
        proof {
            lemma_parse_matcher_advances(s, j as int);
            lemma_skip_ws_bounds(s, pos as int);
        }
        let (m, k) = match parse_single_matcher(&inner, j) {
            Ok(x) => x,
            Err(e) => {
                return Err(e);
            },
        };
        let ghost before = matchers@;
        let ghost mv = m@;
        matchers.push(m);
        proof {
            assert(matcher_views(matchers@) =~= matcher_views(before).push(mv));
        }
        proof {
            lemma_skip_ws_bounds(s, k as int);
        }
        match consume_comma_or_end(&inner, k) {
            Ok((true, next)) => {
                proof {
                    assert(matcher_views(before) + (seq![mv] + spec_parse_list(s, next as int)->Ok_0)
                        =~= matcher_views(matchers@) + spec_parse_list(s, next as int)->Ok_0);
                }
                pos = next;
            },
            Ok((false, _)) => {
                assert(matcher_views(before) + seq![mv] =~= matcher_views(matchers@));
                break;
            },
            Err(e) => {
                return Err(e);
            },
        }
    }
    Ok(matchers)
}

/// One matcher at `pos` and the position after it.
fn parse_single_matcher(chars: &Vec<char>, pos: usize) -> (r: Result<(LabelMatcher, usize), String>)
    requires
        pos <= chars.len(),
    ensures
        match (r, spec_parse_matcher(chars@, pos as int)) {
            (Ok((m, j)), Ok((ms, sj))) => m@ == ms && j == sj,
            (Err(e), Err(se)) => e@ == se,
            _ => false,
        },
{
    let (name, e) = match read_label_name(chars, pos) {
        Ok(x) => x,
        Err(err) => {
            return Err(err);
        },
    };
    let k0 = skip_whitespace(chars, e);
    let (op, k) = match read_op(chars, k0) {
        Ok(x) => x,
        Err(err) => {
            return Err(err);
        },
    };
    proof {
        if let Ok((_, kk)) = spec_read_op(chars@, k0 as int) {
            assert(kk <= chars@.len());
        }
    }
    let k2 = skip_whitespace(chars, k);
    let (value, j) = match read_quoted_value(chars, k2) {
        Ok(x) => x,
        Err(err) => {
            return Err(err);
        },
    };
    Ok((LabelMatcher { name, op, value }, j))
}

/// After a matcher: `Ok((true, p))` for a comma (continue at `p`), `Ok((false, p))`
/// at the end of input, an error for anything else.
fn consume_comma_or_end(chars: &Vec<char>, pos: usize) -> (r: Result<(bool, usize), String>)
    requires
        pos <= chars.len(),
    ensures
        ({
            let k2 = skip_ws(chars@, pos as int);
            match r {
                Ok((true, p)) => k2 < chars.len() && chars@[k2] == ',' && p == k2 + 1,
                Ok((false, p)) => k2 >= chars.len() && p == k2,
                Err(e) => k2 < chars.len() && chars@[k2] != ',' && e@ == msg_unexpected_char(
                    chars@[k2],
                ),
            }
        }),
{
    let k2 = skip_whitespace(chars, pos);
    if k2 >= chars.len() {
        Ok((false, k2))
    } else if chars[k2] == ',' {
        Ok((true, k2 + 1))
    } else {
        Err(message_with_char("unexpected character: '", chars[k2]))
    }
}

/// The label name at `pos` (one or more name characters) and its end.
fn read_label_name(chars: &Vec<char>, pos: usize) -> (r: Result<(String, usize), String>)
    requires
        pos <= chars.len(),
    ensures
        ({
            let e = name_end(chars@, pos as int);
            match r {
                Ok((name, end)) => e != pos && end == e && end <= chars.len() && name@ == chars@.subrange(
                    pos as int,
                    e,
                ),
                Err(m) => e == pos && m@ == msg_expected_name(),
            }
        }),
{
    proof {
        lemma_name_end(chars@, pos as int);
    }
    let mut i = pos;
    while i < chars.len() && (is_alphanumeric(chars[i]) || chars[i] == '_')
        invariant
            pos <= i <= chars.len(),
            name_end(chars@, i as int) == name_end(chars@, pos as int),
        decreases chars.len() - i,
    {
        i = i + 1;
    }
    if i == pos {
        return Err(message("expected label name"));
    }
    let name = copy_range(chars, pos, i);
    Ok((string_from_chars(&name), i))
}

/// The operator at `pos` and the position after it.
fn read_op(chars: &Vec<char>, pos: usize) -> (r: Result<(MatchOp, usize), String>)
    requires
        pos <= chars.len(),
    ensures
        match (r, spec_read_op(chars@, pos as int)) {
            (Ok((op, j)), Ok((sop, sj))) => op == sop && j == sj,
            (Err(e), Err(se)) => e@ == se,
            _ => false,
        },
{
    if pos >= chars.len() {
        return Err(message("unexpected end of input while reading operator"));
    }
    let c = chars[pos];
    if c == '=' {
        if pos + 1 < chars.len() && chars[pos + 1] == '~' {
            Ok((MatchOp::Re, pos + 2))
        } else {
            Ok((MatchOp::Eq, pos + 1))
        }
    } else if c == '!' {
        if pos + 1 < chars.len() && chars[pos + 1] == '=' {
            Ok((MatchOp::Neq, pos + 2))
        } else if pos + 1 < chars.len() && chars[pos + 1] == '~' {
            Ok((MatchOp::Nre, pos + 2))
        } else {
            Err(message("expected '=' or '~' after '!'"))
        }
    } else {
        Err(message_with_char("unexpected operator character: '", c))
    }
}

/// The quoted value at `pos` (escapes resolved) and the position after its
/// closing quote.
fn read_quoted_value(chars: &Vec<char>, pos: usize) -> (r: Result<(String, usize), String>)
    requires
        pos <= chars.len(),
    ensures
        match (r, spec_read_value(chars@, pos as int)) {
            (Ok((v, j)), Ok((sv, sj))) => v@ == sv && j == sj,
            (Err(e), Err(se)) => e@ == se,
            _ => false,
        },
{
    if !(pos < chars.len() && chars[pos] == '"') {
        return Err(message("expected '\"' to start value"));
    }
    let ghost s = chars@;
    let mut value: Vec<char> = Vec::new();
    let mut i = pos + 1;
    loop
        invariant
            pos + 1 <= i <= chars.len() + 1,
            pos < chars.len(),
            chars@[pos as int] == '"',
            s == chars@,
            value_rest(s, i as int, value@) == value_rest(s, pos + 1, Seq::empty()),
        decreases chars.len() + 1 - i,
    {
        if i >= chars.len() {
            return Err(message("unexpected end of input in quoted value"));
        }
        let c = chars[i];
        if c == '\\' {
            if i + 1 >= chars.len() {
                return Err(message("unexpected end of input in escape sequence"));
            }
            value.push(chars[i + 1]);
            i = i + 2;
        } else if c == '"' {
            return Ok((string_from_chars(&value), i + 1));
        } else {
            value.push(c);
            i = i + 1;
        }
    }
}

} // verus!
