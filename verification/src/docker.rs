//! Docker log collection: which containers to follow, the labels their lines
//! carry, and how a raw output line becomes a log entry.
use vstd::prelude::*;
use vstd::string::StrSliceExecFns;
use vstd::utf8::{encode_utf8, is_char_boundary};

use crate::labels::Labels;
use crate::log::{LogEntry, LogEntryView, Timestamp};
use crate::log_parser::{parse_level, spec_parse_level};
use crate::text::{
    chars_of, copy_range, spec_trim, spec_trim_end, str_eq, string_from_chars, trim_chars,
    trim_end_chars,
};

verus! {

broadcast use vstd::string::group_string_axioms;

/// The instant an RFC 3339 text denotes (`DateTime::parse_from_rfc3339`, then
/// converted to UTC), or `None` when the text is not RFC 3339.
pub uninterp spec fn rfc3339_instant(s: Seq<char>) -> Option<Timestamp>;

/// `chrono::DateTime::parse_from_rfc3339`, read as an instant in UTC: the result
/// is named `rfc3339_instant` and the grammar is not spelled out here.
#[verifier::external_body]
fn parse_rfc3339(s: &str) -> (r: Option<Timestamp>)
    ensures
        r == rfc3339_instant(s@),
{
    match chrono::DateTime::parse_from_rfc3339(s) {
        Ok(t) => Some(Timestamp { secs: t.timestamp(), nanos: t.timestamp_subsec_nanos() }),
        Err(_) => None,
    }
}

/// How many lines of history to read when attaching to a container.
pub const DEFAULT_TAIL: usize = 100;

/// How many leading bytes of a container id its short form keeps.
pub const CONTAINER_ID_SHORT_LEN: usize = 12;

/// One container to follow, as configured.
pub struct ContainerConfig {
    pub name: String,
    pub service: Option<String>,
    pub environment: Option<String>,
    pub tail: Option<usize>,
}

/// What the collector reads of a container listing entry.
pub struct ContainerSummary {
    pub id: Option<String>,
    pub names: Option<Vec<String>>,
    pub image: Option<String>,
    pub state: Option<String>,
}

/// `s` without all its leading `/` characters.
pub open spec fn strip_slashes(s: Seq<char>) -> Seq<char>
    decreases s.len(),
{
    if s.len() > 0 && s[0] == '/' {
        strip_slashes(s.drop_first())
    } else {
        s
    }
}

/// The name of a container: its first name without leading slashes, or empty.
pub open spec fn spec_container_name(c: ContainerSummary) -> Seq<char> {
    match c.names {
        Some(ns) => if ns@.len() > 0 {
            strip_slashes(ns@[0]@)
        } else {
            Seq::empty()
        },
        None => Seq::empty(),
    }
}

fn strip_leading_slashes(s: &str) -> (r: String)
    ensures
        r@ == strip_slashes(s@),
{
    let v = chars_of(s);
    let mut i: usize = 0;
    assert(v@.skip(0) =~= v@);
    while i < v.len() && v[i] == '/'
        invariant
            i <= v.len(),
            strip_slashes(v@.skip(i as int)) == strip_slashes(v@),
        decreases v.len() - i,
    {
        assert(v@.skip(i as int).drop_first() =~= v@.skip(i + 1));
        i = i + 1;
    }
    proof {
        if i < v.len() {
            assert(v@.skip(i as int)[0] == v@[i as int]);
        }
        assert(v@.skip(i as int) =~= v@.subrange(i as int, v.len() as int));
    }
    let rest = copy_range(&v, i, v.len());
    string_from_chars(&rest)
}

/// The name of a container.
pub fn extract_container_name(container: &ContainerSummary) -> (r: String)
    ensures
        r@ == spec_container_name(*container),
{
    match &container.names {
        Some(ns) => if ns.len() > 0 {
            strip_leading_slashes(ns[0].as_str())
        } else {
            String::new()
        },
        None => String::new(),
    }
}

/// The configuration of a container name: the last one given for that name.
pub open spec fn config_index(cfgs: Seq<ContainerConfig>, name: Seq<char>) -> int
    decreases cfgs.len(),
{
    if cfgs.len() == 0 {
        -1
    } else if cfgs.last().name@ == name {
        cfgs.len() - 1
    } else {
        config_index(cfgs.drop_last(), name)
    }
}

/// The configuration for a container name, if there is one.
pub fn find_config<'a>(cfgs: &'a Vec<ContainerConfig>, name: &str) -> (r: Option<&'a ContainerConfig>)
    ensures
        match r {
            Some(c) => 0 <= config_index(cfgs@, name@) && *c == cfgs@[config_index(cfgs@, name@)],
            None => config_index(cfgs@, name@) == -1,
        },
{
    let mut i = cfgs.len();
    assert(cfgs@.take(i as int) =~= cfgs@);
    while i > 0
        invariant
            i <= cfgs.len(),
            config_index(cfgs@, name@) == config_index(cfgs@.take(i as int), name@),
        decreases i,
    {
        proof {
            assert(cfgs@.take(i as int).drop_last() =~= cfgs@.take(i - 1));
            assert(cfgs@.take(i as int).last() == cfgs@[i - 1]);
        }
        if str_eq(cfgs[i - 1].name.as_str(), name) {
            return Some(&cfgs[i - 1]);
        }
        i = i - 1;
    }
    None
}

/// The labels of a followed container's lines: `service` (the configured one,
/// else the container name), `container_id` (the short id), `container_name`,
/// `image` (empty when unknown) and, when configured, `environment`.
pub open spec fn spec_container_labels(
    cfg: ContainerConfig,
    container_name: Seq<char>,
    short_id: Seq<char>,
    image: Seq<char>,
) -> Map<Seq<char>, Seq<char>> {
    let service = match cfg.service {
        Some(s) => s@,
        None => container_name,
    };
    let base = Map::<Seq<char>, Seq<char>>::empty().insert("service"@, service).insert(
        "container_id"@,
        short_id,
    ).insert("container_name"@, container_name).insert("image"@, image);
    match cfg.environment {
        Some(e) => base.insert("environment"@, e@),
        None => base,
    }
}

/// How many bytes of a container id its short form keeps: all of them up to
/// `CONTAINER_ID_SHORT_LEN`.
pub open spec fn short_id_len(id: Seq<char>) -> int {
    if encode_utf8(id).len() < CONTAINER_ID_SHORT_LEN {
        encode_utf8(id).len() as int
    } else {
        CONTAINER_ID_SHORT_LEN as int
    }
}

/// Whether the short form of a container id ends on a character boundary (the
/// cut panics otherwise).
pub open spec fn short_id_cuts(id: Seq<char>) -> bool {
    is_char_boundary(encode_utf8(id), short_id_len(id))
}

/// Whether `short` is the short form of the container id `id`: its leading
/// `short_id_len(id)` bytes.
pub open spec fn is_short_id(short: Seq<char>, id: Seq<char>) -> bool {
    encode_utf8(short) == encode_utf8(id).subrange(0, short_id_len(id))
}

/// The image of a listed container, empty when unknown.
pub open spec fn spec_image(c: ContainerSummary) -> Seq<char> {
    match c.image {
        Some(i) => i@,
        None => Seq::empty(),
    }
}

/// The number of lines of history read for a configured container.
pub open spec fn spec_tail(cfg: ContainerConfig) -> usize {
    match cfg.tail {
        Some(t) => t,
        None => DEFAULT_TAIL,
    }
}

/// The byte length of the short form of a container id.
fn short_len(id: &str) -> (n: usize)
    ensures
        n == short_id_len(id@),
{
    let total = id.as_bytes().len();
    if total < CONTAINER_ID_SHORT_LEN {
        total
    } else {
        CONTAINER_ID_SHORT_LEN
    }
}

/// The labels of a followed container's lines. The short id is cut by bytes, so
/// the cut must fall on a character boundary.
pub fn build_labels(
    cfg: &ContainerConfig,
    container_name: &str,
    container_id: &str,
    container: &ContainerSummary,
) -> (r: Labels)
    requires
        short_id_cuts(container_id@),
    ensures
        exists|short: Seq<char>|
            is_short_id(short, container_id@) && r@ == spec_container_labels(
                *cfg,
                container_name@,
                short,
                spec_image(*container),
            ),
{
    let n = short_len(container_id);
    let (head, _) = container_id.split_at(n);
    let short_id = head.to_string();
    let service = match &cfg.service {
        Some(s) => s.clone(),
        None => container_name.to_string(),
    };
    let image = match &container.image {
        Some(i) => i.clone(),
        None => String::new(),
    };
    let mut labels = Labels::new();
    labels.insert("service".to_string(), service);
    labels.insert("container_id".to_string(), short_id);
    labels.insert("container_name".to_string(), container_name.to_string());
    labels.insert("image".to_string(), image);
    if let Some(env) = &cfg.environment {
        labels.insert("environment".to_string(), env.clone());
    }
    assert(is_short_id(head@, container_id@));
    labels
}

/// What to attach to: the container's id, name, labels and history length.
pub struct AttachPlan {
    pub id: String,
    pub name: String,
    pub labels: Labels,
    pub tail: usize,
}

/// Whether `p` attaches to the container `container`, listed under the id `id`
/// and the name `name` and configured by `cfg`.
pub open spec fn plans(
    p: AttachPlan,
    id: Seq<char>,
    name: Seq<char>,
    cfg: ContainerConfig,
    container: ContainerSummary,
) -> bool {
    &&& p.id@ == id
    &&& p.name@ == name
    &&& p.tail == spec_tail(cfg)
    &&& exists|short: Seq<char>|
        is_short_id(short, id) && p.labels@ == spec_container_labels(
            cfg,
            name,
            short,
            spec_image(container),
        )
}

/// Whether some id in `followed` is `id`.
pub open spec fn followed_has(followed: Seq<String>, id: Seq<char>) -> bool {
    exists|i: int| 0 <= i < followed.len() && #[trigger] followed[i]@ == id
}

/// Whether `id` is among the ids already followed.
pub fn is_followed(followed: &Vec<String>, id: &str) -> (r: bool)
    ensures
        r == followed_has(followed@, id@),
{
    let mut i: usize = 0;
    while i < followed.len()
        invariant
            i <= followed.len(),
            forall|j: int| 0 <= j < i ==> #[trigger] followed@[j]@ != id@,
        decreases followed.len() - i,
    {
        if str_eq(followed[i].as_str(), id) {
            return true;
        }
        i = i + 1;
    }
    false
}

/// Whether a listed container is to be followed now: it has an id, its name is
/// configured, it is running, and it is not followed yet.
pub open spec fn attachable(container: ContainerSummary, cfgs: Seq<ContainerConfig>, followed: Seq<String>) -> bool {
    &&& container.id is Some
    &&& config_index(cfgs, spec_container_name(container)) >= 0
    &&& container.state matches Some(s) && s@ == "running"@
    &&& !followed_has(followed, container.id->0@)
}

/// Whether a listed container is to be followed now.
pub fn should_attach(container: &ContainerSummary, cfgs: &Vec<ContainerConfig>, followed: &Vec<String>) -> (r:
    bool)
    ensures
        r == attachable(*container, cfgs@, followed@),
{
    let id = match &container.id {
        Some(id) => id,
        None => {
            return false;
        },
    };
    let name = extract_container_name(container);
    if find_config(cfgs, name.as_str()).is_none() {
        return false;
    }
    let running = match &container.state {
        Some(s) => str_eq(s.as_str(), "running"),
        None => false,
    };
    running && !is_followed(followed, id.as_str())
}

/// Whether the short form of a container id ends on a character boundary.
pub fn short_id_fits(id: &str) -> (r: bool)
    ensures
        r == short_id_cuts(id@),
{
    let n = short_len(id);
    id.is_char_boundary(n)
}

/// The attachment for a container of the listing taken at start-up, if it is
/// to be followed now. Its short id is cut by bytes, so a container to be
/// followed must have one that ends on a character boundary.
pub fn plan_attach(
    container: &ContainerSummary,
    cfgs: &Vec<ContainerConfig>,
    followed: &Vec<String>,
) -> (r: Option<AttachPlan>)
    requires
        attachable(*container, cfgs@, followed@) ==> short_id_cuts(container.id->0@),
    ensures
        r is Some <==> attachable(*container, cfgs@, followed@),
        r matches Some(p) ==> plans(
            p,
            container.id->0@,
            spec_container_name(*container),
            cfgs@[config_index(cfgs@, spec_container_name(*container))],
            *container,
        ),
{
    let id = match &container.id {
        Some(id) => id,
        None => {
            return None;
        },
    };
    let name = extract_container_name(container);
    let cfg = match find_config(cfgs, name.as_str()) {
        Some(c) => c,
        None => {
            return None;
        },
    };
    let running = match &container.state {
        Some(s) => str_eq(s.as_str(), "running"),
        None => false,
    };
    if !running {
        return None;
    }
    if is_followed(followed, id.as_str()) {
        return None;
    }
    Some(plan_for(cfg, name, id.as_str(), container))
}

/// Whether a container that has just started is to be followed, given the
/// listing filtered by its id: the first listed container has a configured name.
pub open spec fn startable(listed: Seq<ContainerSummary>, cfgs: Seq<ContainerConfig>) -> bool {
    listed.len() > 0 && config_index(cfgs, spec_container_name(listed[0])) >= 0
}

/// Whether a container that has just started is to be followed.
pub fn should_start(listed: &Vec<ContainerSummary>, cfgs: &Vec<ContainerConfig>) -> (r: bool)
    ensures
        r == startable(listed@, cfgs@),
{
    if listed.len() == 0 {
        return false;
    }
    let name = extract_container_name(&listed[0]);
    find_config(cfgs, name.as_str()).is_some()
}

/// The attachment for a container that has just started, given the listing
/// filtered by its id: the first listed container, when its name is
/// configured. Its short id must end on a character boundary then.
pub fn plan_start(container_id: &str, listed: &Vec<ContainerSummary>, cfgs: &Vec<ContainerConfig>) -> (r:
    Option<AttachPlan>)
    requires
        startable(listed@, cfgs@) ==> short_id_cuts(container_id@),
    ensures
        r is Some <==> startable(listed@, cfgs@),
        r matches Some(p) ==> plans(
            p,
            container_id@,
            spec_container_name(listed@[0]),
            cfgs@[config_index(cfgs@, spec_container_name(listed@[0]))],
            listed@[0],
        ),
{
    if listed.len() == 0 {
        return None;
    }
    let container = &listed[0];
    let name = extract_container_name(container);
    let cfg = match find_config(cfgs, name.as_str()) {
        Some(c) => c,
        None => {
            return None;
        },
    };
    Some(plan_for(cfg, name, container_id, container))
}

fn plan_for(cfg: &ContainerConfig, name: String, id: &str, container: &ContainerSummary) -> (r: AttachPlan)
    requires
        short_id_cuts(id@),
    ensures
        plans(r, id@, name@, *cfg, *container),
{
    let labels = build_labels(cfg, name.as_str(), id, container);
    let tail = match cfg.tail {
        Some(t) => t,
        None => DEFAULT_TAIL,
    };
    AttachPlan { id: id.to_string(), name, labels, tail }
}

/// What a Docker event asks for.
pub enum EventAction {
    /// A container started: attach to it.
    Start(String),
    /// A container died: stop following it.
    Die(String),
    /// Nothing to do.
    Ignore,
}

/// The action of an event: `Some((true, id))` for `start` and `Some((false, id))`
/// for `die` of an actor with a non-empty id; `None` for everything else.
pub open spec fn spec_event_action(action: Option<String>, actor_id: Option<Option<String>>) -> Option<(bool, Seq<char>)> {
    match actor_id {
        Some(Some(i)) => if i@.len() == 0 {
            None
        } else {
            match action {
                Some(a) => if a@ == "start"@ {
                    Some((true, i@))
                } else if a@ == "die"@ {
                    Some((false, i@))
                } else {
                    None
                },
                None => None,
            }
        },
        _ => None,
    }
}

/// The action of an event: `start` and `die` of an actor with a non-empty id;
/// everything else is ignored.
pub fn classify_event(action: &Option<String>, actor_id: &Option<Option<String>>) -> (r: EventAction)
    ensures
        match r {
            EventAction::Start(id) => spec_event_action(*action, *actor_id) == Some((true, id@)),
            EventAction::Die(id) => spec_event_action(*action, *actor_id) == Some((false, id@)),
            EventAction::Ignore => spec_event_action(*action, *actor_id) is None,
        },
{
    let id = match actor_id {
        Some(Some(i)) => i,
        _ => {
            return EventAction::Ignore;
        },
    };
    if id.as_str().unicode_len() == 0 {
        assert(id@.len() == 0);
        return EventAction::Ignore;
    }
    assert(id@.len() > 0);
    match action {
        Some(a) => if str_eq(a.as_str(), "start") {
            EventAction::Start(id.clone())
        } else if str_eq(a.as_str(), "die") {
            EventAction::Die(id.clone())
        } else {
            EventAction::Ignore
        },
        None => EventAction::Ignore,
    }
}

// ---- log lines ----

/// The position of the first space at or after `i` (the length if none).
pub open spec fn first_space(s: Seq<char>, i: int) -> int
    decreases s.len() - i,
{
    if i < 0 || i >= s.len() {
        s.len() as int
    } else if s[i] == ' ' {
        i
    } else {
        first_space(s, i + 1)
    }
}

/// The instant and text of a Docker log line: a leading RFC 3339 timestamp
/// followed by a space is taken off; otherwise the line keeps its text and is
/// stamped `now`.
pub open spec fn spec_docker_timestamp(line: Seq<char>, now: Timestamp) -> (Timestamp, Seq<char>) {
    let i = first_space(line, 0);
    if i < line.len() && rfc3339_instant(line.subrange(0, i)) is Some {
        (rfc3339_instant(line.subrange(0, i))->0, line.subrange(i + 1, line.len() as int))
    } else {
        (now, line)
    }
}

fn parse_docker_timestamp(line: &Vec<char>, now: Timestamp) -> (r: (Timestamp, Vec<char>))
    ensures
        (r.0, r.1@) == spec_docker_timestamp(line@, now),
{
    let mut i: usize = 0;
    while i < line.len() && line[i] != ' '
        invariant
            i <= line.len(),
            first_space(line@, i as int) == first_space(line@, 0),
        decreases line.len() - i,
    {
        i = i + 1;
    }
    if i < line.len() {
        let head = copy_range(line, 0, i);
        let ts_str = string_from_chars(&head);
        match parse_rfc3339(ts_str.as_str()) {
            Some(ts) => {
                let rest = copy_range(line, i + 1, line.len());
                return (ts, rest);
            },
            None => {},
        }
    }
    (now, copy_range(line, 0, line.len()))
}

/// The entry a raw output line of a container becomes, if any: trailing
/// whitespace is dropped, an empty line gives nothing, a leading timestamp
/// becomes the entry's instant (else `now`), and a message that is empty or is
/// itself only a timestamp gives nothing. The level is guessed from the message
/// and the labels gain `stream`.
pub open spec fn spec_line_entry(
    raw: Seq<char>,
    stream_type: Seq<char>,
    labels: Map<Seq<char>, Seq<char>>,
    now: Timestamp,
) -> Option<LogEntryView> {
    let line = spec_trim_end(raw);
    if line.len() == 0 {
        None
    } else {
        let (ts, rest) = spec_docker_timestamp(line, now);
        let message = spec_trim(rest);
        if message.len() == 0 || rfc3339_instant(message) is Some {
            None
        } else {
            Some(
                LogEntryView {
                    timestamp: ts,
                    level: spec_parse_level(message),
                    message,
                    labels: labels.insert("stream"@, stream_type),
                    trace_id: None,
                    span_id: None,
                },
            )
        }
    }
}

/// The entry of a container line.
pub fn build_log_entry(timestamp: Timestamp, message: &str, stream_type: &str, labels: &Labels) -> (r:
    LogEntry)
    ensures
        r@ == (LogEntryView {
            timestamp,
            level: spec_parse_level(message@),
            message: message@,
            labels: labels@.insert("stream"@, stream_type@),
            trace_id: None,
            span_id: None,
        }),
{
    let level = parse_level(message);
    let mut entry_labels = labels.duplicate();
    entry_labels.insert("stream".to_string(), stream_type.to_string());
    LogEntry {
        timestamp,
        level,
        message: message.to_string(),
        labels: entry_labels,
        trace_id: None,
        span_id: None,
    }
}

/// The entry a raw output line of a container becomes, if any.
pub fn process_log_line(raw: &str, stream_type: &str, labels: &Labels, now: Timestamp) -> (r: Option<
    LogEntry,
>)
    ensures
        match r {
            Some(e) => spec_line_entry(raw@, stream_type@, labels@, now) == Some(e@),
            None => spec_line_entry(raw@, stream_type@, labels@, now) is None,
        },
{
    let all = chars_of(raw);
    let line = trim_end_chars(&all);
    if line.len() == 0 {
        return None;
    }
    let (timestamp, rest) = parse_docker_timestamp(&line, now);
    let message_chars = trim_chars(&rest);
    if message_chars.len() == 0 {
        return None;
    }
    let message = string_from_chars(&message_chars);
    if parse_rfc3339(message.as_str()).is_some() {
        return None;
    }
    Some(build_log_entry(timestamp, message.as_str(), stream_type, labels))
}

} // verus!
