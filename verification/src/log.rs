//! Log records: levels, instants and entries.
use vstd::prelude::*;

use crate::labels::Labels;

verus! {

/// Severity of a log record, from least to most severe.
#[derive(Debug, Clone, Copy, PartialEq, Eq, Structural, Hash)]
pub enum LogLevel {
    Trace,
    Debug,
    Info,
    Warn,
    Error,
    Fatal,
}

/// An instant in UTC as whole seconds since the Unix epoch and the nanoseconds
/// past that second (at or above one second only inside a leap second).
#[derive(Debug, Clone, Copy, PartialEq, Eq, Structural)]
pub struct Timestamp {
    pub secs: i64,
    pub nanos: u32,
}

/// Nanoseconds in a second.
pub const NANOS_PER_SEC: i64 = 1_000_000_000;

/// The nanoseconds since the epoch, computed as chrono computes them: for a
/// negative second count, one second is moved into the fraction first, and any
/// intermediate result that leaves `i64` gives `None`.
pub open spec fn nanos_since_epoch(secs: int, nanos: int) -> Option<int> {
    let (t, n) = if secs < 0 {
        (secs + 1, nanos - NANOS_PER_SEC)
    } else {
        (secs, nanos)
    };
    if t * NANOS_PER_SEC < i64::MIN || t * NANOS_PER_SEC > i64::MAX {
        None
    } else if t * NANOS_PER_SEC + n < i64::MIN || t * NANOS_PER_SEC + n > i64::MAX {
        None
    } else {
        Some(t * NANOS_PER_SEC + n)
    }
}

/// Whether instant `a` is strictly earlier than instant `b`.
pub open spec fn ts_before(a: Timestamp, b: Timestamp) -> bool {
    a.secs < b.secs || (a.secs == b.secs && a.nanos < b.nanos)
}

impl Timestamp {
    /// The instant `n` nanoseconds after the epoch
    /// (`DateTime::from_timestamp_nanos`).
    pub fn from_nanos(n: i64) -> (r: Timestamp)
        ensures
            r.secs == n / NANOS_PER_SEC,
            r.nanos == n % NANOS_PER_SEC,
            r.nanos < NANOS_PER_SEC,
    {
        let secs = n.checked_div_euclid(NANOS_PER_SEC).unwrap();
        let rem = n.checked_rem_euclid(NANOS_PER_SEC).unwrap();
        Timestamp { secs, nanos: rem as u32 }
    }

    /// The nanoseconds since the epoch, if they fit in `i64`
    /// (`DateTime::timestamp_nanos_opt`).
    pub fn timestamp_nanos_opt(&self) -> (r: Option<i64>)
        ensures
            match r {
                Some(v) => nanos_since_epoch(self.secs as int, self.nanos as int) == Some(v as int),
                None => nanos_since_epoch(self.secs as int, self.nanos as int) is None,
            },
    {
        let mut t = self.secs;
        let mut n: i64 = self.nanos as i64;
        if t < 0 {
            n = n - NANOS_PER_SEC;
            t = t + 1;
        }
        match t.checked_mul(NANOS_PER_SEC) {
            Some(base) => base.checked_add(n),
            None => None,
        }
    }

    /// Whether `self` is strictly earlier than `other`.
    pub fn before(&self, other: &Timestamp) -> (r: bool)
        ensures
            r == ts_before(*self, *other),
    {
        self.secs < other.secs || (self.secs == other.secs && self.nanos < other.nanos)
    }
}

/// The characters of an optional string.
pub open spec fn opt_chars(o: Option<String>) -> Option<Seq<char>> {
    match o {
        Some(s) => Some(s@),
        None => None,
    }
}

/// A copy of an optional string.
pub fn copy_opt_string(o: &Option<String>) -> (r: Option<String>)
    ensures
        opt_chars(r) == opt_chars(*o),
{
    match o {
        Some(s) => Some(s.clone()),
        None => None,
    }
}

/// One log record.
pub struct LogEntry {
    pub timestamp: Timestamp,
    pub level: LogLevel,
    pub message: String,
    pub labels: Labels,
    pub trace_id: Option<String>,
    pub span_id: Option<String>,
}

/// The mathematical content of a `LogEntry`.
pub struct LogEntryView {
    pub timestamp: Timestamp,
    pub level: LogLevel,
    pub message: Seq<char>,
    pub labels: Map<Seq<char>, Seq<char>>,
    pub trace_id: Option<Seq<char>>,
    pub span_id: Option<Seq<char>>,
}

impl View for LogEntry {
    type V = LogEntryView;

    open spec fn view(&self) -> LogEntryView {
        LogEntryView {
            timestamp: self.timestamp,
            level: self.level,
            message: self.message@,
            labels: self.labels@,
            trace_id: opt_chars(self.trace_id),
            span_id: opt_chars(self.span_id),
        }
    }
}

impl LogEntry {
    /// A copy of this entry.
    pub fn duplicate(&self) -> (r: LogEntry)
        ensures
            r@ == self@,
            r.labels.entries() == self.labels.entries(),
    {
        LogEntry {
            timestamp: self.timestamp,
            level: self.level,
            message: self.message.clone(),
            labels: self.labels.duplicate(),
            trace_id: copy_opt_string(&self.trace_id),
            span_id: copy_opt_string(&self.span_id),
        }
    }
}

/// The position of a level in `TRACE, DEBUG, INFO, WARN, ERROR, FATAL`.
pub open spec fn spec_level_index(level: LogLevel) -> int {
    match level {
        LogLevel::Trace => 0,
        LogLevel::Debug => 1,
        LogLevel::Info => 2,
        LogLevel::Warn => 3,
        LogLevel::Error => 4,
        LogLevel::Fatal => 5,
    }
}

/// The position of a level in `TRACE, DEBUG, INFO, WARN, ERROR, FATAL`.
pub fn level_index(level: LogLevel) -> (r: usize)
    ensures
        r == spec_level_index(level),
        r < 6,
{
    match level {
        LogLevel::Trace => 0,
        LogLevel::Debug => 1,
        LogLevel::Info => 2,
        LogLevel::Warn => 3,
        LogLevel::Error => 4,
        LogLevel::Fatal => 5,
    }
}

/// The level at a position of `TRACE, DEBUG, INFO, WARN, ERROR, FATAL`.
pub open spec fn level_at(i: int) -> LogLevel {
    if i == 0 {
        LogLevel::Trace
    } else if i == 1 {
        LogLevel::Debug
    } else if i == 2 {
        LogLevel::Info
    } else if i == 3 {
        LogLevel::Warn
    } else if i == 4 {
        LogLevel::Error
    } else {
        LogLevel::Fatal
    }
}

/// The level names as shown to people: `TRACE` ... `FATAL`.
pub open spec fn spec_level_name(level: LogLevel) -> Seq<char> {
    match level {
        LogLevel::Trace => "TRACE"@,
        LogLevel::Debug => "DEBUG"@,
        LogLevel::Info => "INFO"@,
        LogLevel::Warn => "WARN"@,
        LogLevel::Error => "ERROR"@,
        LogLevel::Fatal => "FATAL"@,
    }
}

/// The upper-case name of a level.
pub fn level_name(level: LogLevel) -> (r: &'static str)
    ensures
        r@ == spec_level_name(level),
{
    match level {
        LogLevel::Trace => "TRACE",
        LogLevel::Debug => "DEBUG",
        LogLevel::Info => "INFO",
        LogLevel::Warn => "WARN",
        LogLevel::Error => "ERROR",
        LogLevel::Fatal => "FATAL",
    }
}

/// The lower-case name of a level, as label values report it: `trace` ... `fatal`.
pub open spec fn spec_level_label(level: LogLevel) -> Seq<char> {
    match level {
        LogLevel::Trace => "trace"@,
        LogLevel::Debug => "debug"@,
        LogLevel::Info => "info"@,
        LogLevel::Warn => "warn"@,
        LogLevel::Error => "error"@,
        LogLevel::Fatal => "fatal"@,
    }
}

/// The lower-case name of a level.
pub fn level_label(level: LogLevel) -> (r: String)
    ensures
        r@ == spec_level_label(level),
{
    broadcast use vstd::string::group_string_axioms;

    match level {
        LogLevel::Trace => "trace".to_string(),
        LogLevel::Debug => "debug".to_string(),
        LogLevel::Info => "info".to_string(),
        LogLevel::Warn => "warn".to_string(),
        LogLevel::Error => "error".to_string(),
        LogLevel::Fatal => "fatal".to_string(),
    }
}

} // verus!
