//! Loki-style label matching and the query and push models.
use vstd::prelude::*;

use crate::json::JsonValue;
use crate::labels::Labels;

verus! {

/// Whether `pattern` is accepted by `regex::Regex::new`.
pub uninterp spec fn regex_compiles(pattern: Seq<char>) -> bool;

/// Whether the compiled `pattern` matches somewhere in `haystack`
/// (`regex::Regex::is_match`).
pub uninterp spec fn regex_is_match(pattern: Seq<char>, haystack: Seq<char>) -> bool;

/// `regex::Regex::new(pattern)` then `Regex::is_match(haystack)`: `None` when the
/// pattern does not compile, otherwise whether it matches anywhere in `haystack`.
/// What compiles and what matches is named (`regex_compiles`, `regex_is_match`)
/// and not spelled out here.
#[verifier::external_body]
fn regex_search(pattern: &str, haystack: &str) -> (r: Option<bool>)
    ensures
        r is Some <==> regex_compiles(pattern@),
        r matches Some(b) ==> b == regex_is_match(pattern@, haystack@),
{
    match regex::Regex::new(pattern) {
        Ok(re) => Some(re.is_match(haystack)),
        Err(_) => None,
    }
}

/// Query direction: oldest first or newest first.
#[derive(Debug, Clone, Copy, PartialEq, Eq, Structural)]
pub enum Direction {
    Forward,
    Backward,
}

impl Direction {
    /// The default direction is `Backward`.
    pub fn default_direction() -> (r: Direction)
        ensures
            r == Direction::Backward,
    {
        Direction::Backward
    }
}

/// The four label operators: `=`, `!=`, `=~`, `!~`.
#[derive(Debug, Clone, Copy, PartialEq, Eq, Structural)]
pub enum MatchOp {
    Eq,
    Neq,
    Re,
    Nre,
}

/// One `name op "value"` condition on a label set.
#[derive(Debug, Clone)]
pub struct LabelMatcher {
    pub name: String,
    pub op: MatchOp,
    pub value: String,
}

/// The mathematical content of a `LabelMatcher`.
pub struct MatcherSpec {
    pub name: Seq<char>,
    pub op: MatchOp,
    pub value: Seq<char>,
}

impl View for LabelMatcher {
    type V = MatcherSpec;

    open spec fn view(&self) -> MatcherSpec {
        MatcherSpec { name: self.name@, op: self.op, value: self.value@ }
    }
}

/// The value a label set gives `name`; a missing label reads as the empty string.
pub open spec fn label_or_empty(labels: Map<Seq<char>, Seq<char>>, name: Seq<char>) -> Seq<char> {
    if labels.contains_key(name) {
        labels[name]
    } else {
        Seq::empty()
    }
}

/// When a matcher accepts a label set. A regex that does not compile matches
/// nothing under `=~` and everything under `!~`.
pub open spec fn matcher_holds(m: MatcherSpec, labels: Map<Seq<char>, Seq<char>>) -> bool {
    let actual = label_or_empty(labels, m.name);
    match m.op {
        MatchOp::Eq => actual == m.value,
        MatchOp::Neq => actual != m.value,
        MatchOp::Re => regex_compiles(m.value) && regex_is_match(m.value, actual),
        MatchOp::Nre => !(regex_compiles(m.value) && regex_is_match(m.value, actual)),
    }
}

/// `!=` accepts a label set exactly when `=` with the same name and value
/// rejects it, and `!~` exactly when `=~` with the same name and pattern rejects it.
pub proof fn lemma_negated_matchers(
    name: Seq<char>,
    value: Seq<char>,
    labels: Map<Seq<char>, Seq<char>>,
)
    ensures
        matcher_holds(MatcherSpec { name, op: MatchOp::Neq, value }, labels) == !matcher_holds(
            MatcherSpec { name, op: MatchOp::Eq, value },
            labels,
        ),
        matcher_holds(MatcherSpec { name, op: MatchOp::Nre, value }, labels) == !matcher_holds(
            MatcherSpec { name, op: MatchOp::Re, value },
            labels,
        ),
{
}

/// `=` accepts a label set that has the label exactly when the label's value is
/// the matcher's value.
pub proof fn lemma_eq_on_present_label(
    name: Seq<char>,
    value: Seq<char>,
    labels: Map<Seq<char>, Seq<char>>,
)
    requires
        labels.contains_key(name),
    ensures
        matcher_holds(MatcherSpec { name, op: MatchOp::Eq, value }, labels) == (labels[name]
            == value),
{
}

/// A missing label behaves as a label whose value is the empty string, for
/// every operator.
pub proof fn lemma_missing_label_reads_empty(m: MatcherSpec, labels: Map<Seq<char>, Seq<char>>)
    requires
        !labels.contains_key(m.name),
    ensures
        matcher_holds(m, labels) == matcher_holds(m, labels.insert(m.name, Seq::empty())),
{
}

/// A matcher looks at its own label only: any other label may be added or
/// changed without changing its answer.
pub proof fn lemma_matcher_ignores_other_labels(
    m: MatcherSpec,
    labels: Map<Seq<char>, Seq<char>>,
    k: Seq<char>,
    v: Seq<char>,
)
    requires
        k != m.name,
    ensures
        matcher_holds(m, labels) == matcher_holds(m, labels.insert(k, v)),
{
}

/// Whether every matcher accepts the label set.
pub open spec fn all_hold(ms: Seq<MatcherSpec>, labels: Map<Seq<char>, Seq<char>>) -> bool {
    forall|i: int| 0 <= i < ms.len() ==> #[trigger] matcher_holds(ms[i], labels)
}

/// The views of a list of matchers.
pub open spec fn matcher_views(v: Seq<LabelMatcher>) -> Seq<MatcherSpec> {
    v.map_values(|m: LabelMatcher| m@)
}

impl LabelMatcher {
    /// Whether this matcher accepts `labels`.
    pub fn matches(&self, labels: &Labels) -> (r: bool)
        ensures
            r == matcher_holds(self@, labels@),
    {
        let empty = String::new();
        let actual: &String = match labels.get(self.name.as_str()) {
            Some(v) => v,
            None => &empty,
        };
        match self.op {
            MatchOp::Eq => *actual == self.value,
            MatchOp::Neq => !(*actual == self.value),
            MatchOp::Re => match regex_search(self.value.as_str(), actual.as_str()) {
                Some(b) => b,
                None => false,
            },
            MatchOp::Nre => match regex_search(self.value.as_str(), actual.as_str()) {
                Some(b) => !b,
                None => true,
            },
        }
    }
}

/// Whether every matcher accepts `labels`.
pub fn all_match(matchers: &Vec<LabelMatcher>, labels: &Labels) -> (r: bool)
    ensures
        r == all_hold(matcher_views(matchers@), labels@),
{
    let mut i: usize = 0;
    while i < matchers.len()
        invariant
            i <= matchers.len(),
            forall|j: int| 0 <= j < i ==> #[trigger] matcher_holds(matchers@[j]@, labels@),
        decreases matchers.len() - i,
    {
        if !matchers[i].matches(labels) {
            assert(matcher_holds(matcher_views(matchers@)[i as int], labels@) == false);
            return false;
        }
        i = i + 1;
    }
    assert forall|j: int| 0 <= j < matcher_views(matchers@).len() implies #[trigger] matcher_holds(
        matcher_views(matchers@)[j],
        labels@,
    ) by {
        assert(matcher_views(matchers@)[j] == matchers@[j]@);
    }
    true
}

/// A Loki push request: streams of values under one label set each.
pub struct LokiPushRequest {
    pub streams: Vec<LokiStream>,
}

/// One pushed stream. Each value is `[nanos-as-string, line]`, optionally with a
/// third element holding `trace_id` and `span_id`.
pub struct LokiStream {
    pub stream: Labels,
    pub values: Vec<Vec<JsonValue>>,
}

/// A query answer: `status` and the stream data.
pub struct LokiQueryResponse {
    pub status: String,
    pub data: LokiQueryData,
}

/// The data of a query answer. Its statistics are always the empty object and
/// are added where the answer is serialized.
pub struct LokiQueryData {
    pub result_type: String,
    pub result: Vec<LokiResultStream>,
}

/// One answered stream: its labels and its `[nanos, line]` values.
pub struct LokiResultStream {
    pub stream: Labels,
    pub values: Vec<[String; 2]>,
}

/// A label listing answer.
pub struct LokiLabelsResponse {
    pub status: String,
    pub data: Vec<String>,
}

} // verus!
