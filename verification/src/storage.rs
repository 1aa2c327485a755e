//! The storage layout and the decisions of the storage scans.
//!
//! Log keys are 16 bytes: the timestamp in nanoseconds (`i64`, big-endian two's
//! complement) followed by a sequence number (`u64`, big-endian). Span keys are
//! `"{trace_id}:{span_id}"`.
use vstd::prelude::*;
use vstd::string::StrSliceExecFns;
use vstd::utf8::encode_utf8;

use crate::labels::Labels;
use crate::log::{LogEntry, LogEntryView, Timestamp, level_label, nanos_since_epoch, spec_level_label};
use crate::loki::{Direction, LabelMatcher, all_hold, all_match, matcher_views};
use crate::text::{
    chars_lt, chars_of, lemma_chars_lt_total, lemma_chars_lt_transitive,
    str_eq, str_lt, string_from_chars,
};

verus! {

/// The big-endian bytes of a `u64` (`u64::to_be_bytes`).
pub open spec fn be_bytes(x: u64) -> Seq<u8> {
    seq![
        (x >> 56u64) as u8,
        (x >> 48u64) as u8,
        (x >> 40u64) as u8,
        (x >> 32u64) as u8,
        (x >> 24u64) as u8,
        (x >> 16u64) as u8,
        (x >> 8u64) as u8,
        x as u8,
    ]
}

/// The `u64` whose big-endian bytes are `b[at..at + 8]` (`u64::from_be_bytes`).
pub open spec fn from_be_bytes(b: Seq<u8>, at: int) -> u64 {
    ((b[at] as u64) << 56u64) | ((b[at + 1] as u64) << 48u64) | ((b[at + 2] as u64) << 40u64) | ((
    b[at + 3] as u64) << 32u64) | ((b[at + 4] as u64) << 24u64) | ((b[at + 5] as u64) << 16u64) | ((
    b[at + 6] as u64) << 8u64) | (b[at + 7] as u64)
}

/// The key under which a log entry with these nanoseconds and sequence number
/// is stored.
pub open spec fn spec_log_key(ts: i64, seq: u64) -> Seq<u8> {
    be_bytes(ts as u64) + be_bytes(seq)
}

/// Bytewise lexicographic order, the order the store keeps its keys in.
pub open spec fn bytes_lt(a: Seq<u8>, b: Seq<u8>) -> bool
    decreases a.len(),
{
    if a.len() == 0 {
        b.len() > 0
    } else if b.len() == 0 {
        false
    } else if a[0] != b[0] {
        a[0] < b[0]
    } else {
        bytes_lt(a.drop_first(), b.drop_first())
    }
}

proof fn lemma_be_roundtrip(x: u64)
    ensures
        from_be_bytes(be_bytes(x), 0) == x,
{
    let b = be_bytes(x);
    assert(((((x >> 56u64) as u8) as u64) << 56u64) | ((((x >> 48u64) as u8) as u64) << 48u64) | ((
    ((x >> 40u64) as u8) as u64) << 40u64) | ((((x >> 32u64) as u8) as u64) << 32u64) | ((((x
        >> 24u64) as u8) as u64) << 24u64) | ((((x >> 16u64) as u8) as u64) << 16u64) | ((((x
        >> 8u64) as u8) as u64) << 8u64) | ((x as u8) as u64) == x) by (bit_vector);
}

fn be_bytes_exec(x: u64) -> (r: [u8; 8])
    ensures
        r@ == be_bytes(x),
{
    let r = [
        (x >> 56u64) as u8,
        (x >> 48u64) as u8,
        (x >> 40u64) as u8,
        (x >> 32u64) as u8,
        (x >> 24u64) as u8,
        (x >> 16u64) as u8,
        (x >> 8u64) as u8,
        x as u8,
    ];
    assert(r@ =~= be_bytes(x));
    r
}

/// The key of a log entry.
pub fn encode_log_key(timestamp_nanos: i64, seq: u64) -> (r: [u8; 16])
    ensures
        r@ == spec_log_key(timestamp_nanos, seq),
{
    let a = be_bytes_exec(timestamp_nanos as u64);
    let b = be_bytes_exec(seq);
    let r = [a[0], a[1], a[2], a[3], a[4], a[5], a[6], a[7], b[0], b[1], b[2], b[3], b[4], b[5], b[6], b[7]];
    assert(r@ =~= spec_log_key(timestamp_nanos, seq));
    r
}

/// The nanoseconds and sequence number a 16-byte key holds.
pub open spec fn spec_decode_log_key(key: Seq<u8>) -> Option<(i64, u64)> {
    if key.len() == 16 {
        Some((from_be_bytes(key, 0) as i64, from_be_bytes(key, 8)))
    } else {
        None
    }
}

fn from_be_exec(key: &[u8], at: usize) -> (r: u64)
    requires
        at + 8 <= key@.len(),
    ensures
        r == from_be_bytes(key@, at as int),
{
    ((key[at] as u64) << 56u64) | ((key[at + 1] as u64) << 48u64) | ((key[at + 2] as u64) << 40u64)
        | ((key[at + 3] as u64) << 32u64) | ((key[at + 4] as u64) << 24u64) | ((key[at + 5] as u64)
        << 16u64) | ((key[at + 6] as u64) << 8u64) | (key[at + 7] as u64)
}

/// The nanoseconds and sequence number of a log key, when it has 16 bytes.
pub fn decode_log_key(key: &[u8]) -> (r: Option<(i64, u64)>)
    ensures
        r == spec_decode_log_key(key@),
{
    if key.len() == 16 {
        let ts = from_be_exec(key, 0) as i64;
        let seq = from_be_exec(key, 8);
        Some((ts, seq))
    } else {
        None
    }
}

/// A log key decodes to the nanoseconds and sequence number it was made from.
pub proof fn lemma_log_key_roundtrip(ts: i64, seq: u64)
    ensures
        spec_decode_log_key(spec_log_key(ts, seq)) == Some((ts, seq)),
{
    let k = spec_log_key(ts, seq);
    lemma_be_roundtrip(ts as u64);
    lemma_be_roundtrip(seq);
    assert(k.subrange(0, 8) =~= be_bytes(ts as u64));
    assert(from_be_bytes(k, 0) == from_be_bytes(be_bytes(ts as u64), 0));
    assert(from_be_bytes(k, 8) == from_be_bytes(be_bytes(seq), 0));
    assert(((ts as u64) as i64) == ts) by (bit_vector);
}

proof fn lemma_bytes_lt_suffix(a: Seq<u8>, b: Seq<u8>, j: int)
    requires
        a.len() == b.len(),
        0 <= j < a.len(),
    ensures
        bytes_lt(a.skip(j), b.skip(j)) == (if a[j] != b[j] {
            a[j] < b[j]
        } else {
            bytes_lt(a.skip(j + 1), b.skip(j + 1))
        }),
{
    assert(a.skip(j).drop_first() =~= a.skip(j + 1));
    assert(b.skip(j).drop_first() =~= b.skip(j + 1));
}

proof fn lemma_be_order(x: u64, y: u64)
    ensures
        bytes_lt(be_bytes(x), be_bytes(y)) == (x < y),
{
    let a = be_bytes(x);
    let b = be_bytes(y);
    assert((x < y) == ((((x >> 56u64) as u8)) < (((y >> 56u64) as u8)) || ((((x >> 56u64) as u8)) == (((y >> 56u64) as u8)) && (x & 0x00FF_FFFF_FFFF_FFFFu64) < (y & 0x00FF_FFFF_FFFF_FFFFu64)))) by (bit_vector);
    assert(((x & 0x00FF_FFFF_FFFF_FFFFu64) < (y & 0x00FF_FFFF_FFFF_FFFFu64)) == ((((x >> 48u64) as u8)) < (((y >> 48u64) as u8)) || ((((x >> 48u64) as u8)) == (((y >> 48u64) as u8)) && (x & 0x0000_FFFF_FFFF_FFFFu64) < (y & 0x0000_FFFF_FFFF_FFFFu64)))) by (bit_vector);
    assert(((x & 0x0000_FFFF_FFFF_FFFFu64) < (y & 0x0000_FFFF_FFFF_FFFFu64)) == ((((x >> 40u64) as u8)) < (((y >> 40u64) as u8)) || ((((x >> 40u64) as u8)) == (((y >> 40u64) as u8)) && (x & 0x0000_00FF_FFFF_FFFFu64) < (y & 0x0000_00FF_FFFF_FFFFu64)))) by (bit_vector);
    assert(((x & 0x0000_00FF_FFFF_FFFFu64) < (y & 0x0000_00FF_FFFF_FFFFu64)) == ((((x >> 32u64) as u8)) < (((y >> 32u64) as u8)) || ((((x >> 32u64) as u8)) == (((y >> 32u64) as u8)) && (x & 0x0000_0000_FFFF_FFFFu64) < (y & 0x0000_0000_FFFF_FFFFu64)))) by (bit_vector);
    assert(((x & 0x0000_0000_FFFF_FFFFu64) < (y & 0x0000_0000_FFFF_FFFFu64)) == ((((x >> 24u64) as u8)) < (((y >> 24u64) as u8)) || ((((x >> 24u64) as u8)) == (((y >> 24u64) as u8)) && (x & 0x0000_0000_00FF_FFFFu64) < (y & 0x0000_0000_00FF_FFFFu64)))) by (bit_vector);
    assert(((x & 0x0000_0000_00FF_FFFFu64) < (y & 0x0000_0000_00FF_FFFFu64)) == ((((x >> 16u64) as u8)) < (((y >> 16u64) as u8)) || ((((x >> 16u64) as u8)) == (((y >> 16u64) as u8)) && (x & 0x0000_0000_0000_FFFFu64) < (y & 0x0000_0000_0000_FFFFu64)))) by (bit_vector);
    assert(((x & 0x0000_0000_0000_FFFFu64) < (y & 0x0000_0000_0000_FFFFu64)) == ((((x >> 8u64) as u8)) < (((y >> 8u64) as u8)) || ((((x >> 8u64) as u8)) == (((y >> 8u64) as u8)) && (x & 0x0000_0000_0000_00FFu64) < (y & 0x0000_0000_0000_00FFu64)))) by (bit_vector);
    assert(((x & 0x0000_0000_0000_00FFu64) < (y & 0x0000_0000_0000_00FFu64)) == (((x as u8)) < ((y as u8)))) by (bit_vector);
    assert(a.skip(8).len() == 0);
    assert(b.skip(8).len() == 0);
    lemma_bytes_lt_suffix(a, b, 7);
    lemma_bytes_lt_suffix(a, b, 6);
    lemma_bytes_lt_suffix(a, b, 5);
    lemma_bytes_lt_suffix(a, b, 4);
    lemma_bytes_lt_suffix(a, b, 3);
    lemma_bytes_lt_suffix(a, b, 2);
    lemma_bytes_lt_suffix(a, b, 1);
    lemma_bytes_lt_suffix(a, b, 0);
    assert(a.skip(0) =~= a);
    assert(b.skip(0) =~= b);
}

proof fn lemma_bytes_lt_concat(a: Seq<u8>, b: Seq<u8>, c: Seq<u8>, d: Seq<u8>)
    requires
        a.len() == b.len(),
    ensures
        bytes_lt(a + c, b + d) == (bytes_lt(a, b) || (a == b && bytes_lt(c, d))),
    decreases a.len(),
{
    if a.len() == 0 {
        assert(a + c =~= c);
        assert(b + d =~= d);
        assert(a =~= b);
    } else {
        assert((a + c).drop_first() =~= a.drop_first() + c);
        assert((b + d).drop_first() =~= b.drop_first() + d);
        lemma_bytes_lt_concat(a.drop_first(), b.drop_first(), c, d);
        if a[0] == b[0] {
            if a.drop_first() =~= b.drop_first() {
                assert forall|i: int| 0 <= i < a.len() implies a[i] == b[i] by {
                    if i > 0 {
                        assert(a[i] == a.drop_first()[i - 1]);
                        assert(b[i] == b.drop_first()[i - 1]);
                    }
                }
                assert(a =~= b);
            }
            if a =~= b {
                assert(a.drop_first() =~= b.drop_first());
            }
        } else {
            assert(a != b);
        }
    }
}

/// The store's key order is the order of (nanoseconds as unsigned, sequence
/// number) for any two keys: the unsigned reading keeps the order of two
/// instants on the same side of the epoch and puts every instant before the
/// epoch after every instant at or after it.
pub proof fn lemma_log_key_order_bits(ts1: i64, seq1: u64, ts2: i64, seq2: u64)
    ensures
        bytes_lt(spec_log_key(ts1, seq1), spec_log_key(ts2, seq2)) == ((ts1 as u64) < (ts2 as u64)
            || (ts1 == ts2 && seq1 < seq2)),
{
    lemma_bytes_lt_concat(be_bytes(ts1 as u64), be_bytes(ts2 as u64), be_bytes(seq1), be_bytes(seq2));
    lemma_be_order(ts1 as u64, ts2 as u64);
    lemma_be_order(seq1, seq2);
    if be_bytes(ts1 as u64) == be_bytes(ts2 as u64) {
        lemma_be_roundtrip(ts1 as u64);
        lemma_be_roundtrip(ts2 as u64);
    }
    assert(((ts1 as u64) == (ts2 as u64)) == (ts1 == ts2)) by (bit_vector);
}

/// For two instants on the same side of the epoch (both before it, or both at
/// or after it), the store's key order is the order of (nanoseconds, sequence
/// number): entries come back in time order, and entries of the same instant in
/// the order they were written.
pub proof fn lemma_log_key_order(ts1: i64, seq1: u64, ts2: i64, seq2: u64)
    requires
        (ts1 >= 0) == (ts2 >= 0),
    ensures
        bytes_lt(spec_log_key(ts1, seq1), spec_log_key(ts2, seq2)) == (ts1 < ts2 || (ts1 == ts2
            && seq1 < seq2)),
{
    lemma_log_key_order_bits(ts1, seq1, ts2, seq2);
    assert(((ts1 as u64) < (ts2 as u64)) == (ts1 < ts2)) by (bit_vector)
        requires
            (ts1 >= 0) == (ts2 >= 0),
    ;
}

/// An instant before the epoch has a key after that of every instant at or
/// after the epoch.
pub proof fn lemma_log_key_order_across_epoch(ts1: i64, seq1: u64, ts2: i64, seq2: u64)
    requires
        ts1 >= 0,
        ts2 < 0,
    ensures
        bytes_lt(spec_log_key(ts1, seq1), spec_log_key(ts2, seq2)),
{
    lemma_log_key_order_bits(ts1, seq1, ts2, seq2);
    assert((ts1 as u64) < (ts2 as u64)) by (bit_vector)
        requires
            ts1 >= 0,
            ts2 < 0,
    ;
}

// ---- span keys ----

/// The key of a span: the UTF-8 bytes of `"{trace_id}:{span_id}"`.
pub open spec fn spec_span_key(trace_id: Seq<char>, span_id: Seq<char>) -> Seq<u8> {
    encode_utf8(trace_id + seq![':'] + span_id)
}

/// The prefix shared by the keys of a trace's spans: the bytes of `"{trace_id}:"`.
pub open spec fn spec_span_key_prefix(trace_id: Seq<char>) -> Seq<u8> {
    encode_utf8(trace_id + seq![':'])
}

proof fn lemma_encode_utf8_concat(a: Seq<char>, b: Seq<char>)
    ensures
        encode_utf8(a + b) == encode_utf8(a) + encode_utf8(b),
    decreases a.len(),
{
    if a.len() == 0 {
        assert(a + b =~= b);
    } else {
        assert((a + b).drop_first() =~= a.drop_first() + b);
        assert((a + b)[0] == a[0]);
        lemma_encode_utf8_concat(a.drop_first(), b);
        assert(encode_utf8(a + b) =~= encode_utf8(a) + encode_utf8(b));
    }
}

/// Every key of a trace's spans starts with that trace's prefix, so a scan
/// from the prefix meets all of them.
pub proof fn lemma_span_key_has_prefix(trace_id: Seq<char>, span_id: Seq<char>)
    ensures
        spec_span_key(trace_id, span_id).len() >= spec_span_key_prefix(trace_id).len(),
        spec_span_key(trace_id, span_id).subrange(0, spec_span_key_prefix(trace_id).len() as int)
            == spec_span_key_prefix(trace_id),
{
    lemma_encode_utf8_concat(trace_id + seq![':'], span_id);
    let p = spec_span_key_prefix(trace_id);
    assert((encode_utf8(trace_id + seq![':']) + encode_utf8(span_id)).subrange(0, p.len() as int)
        =~= p);
}

fn utf8_of_chars(v: &Vec<char>) -> (r: Vec<u8>)
    ensures
        r@ == encode_utf8(v@),
{
    let s = string_from_chars(v);
    s.as_str().as_bytes_vec()
}

/// The key of a span.
pub fn encode_span_key(trace_id: &str, span_id: &str) -> (r: Vec<u8>)
    ensures
        r@ == spec_span_key(trace_id@, span_id@),
{
    let mut v = chars_of(trace_id);
    v.push(':');
    let tail = chars_of(span_id);
    let mut i: usize = 0;
    let ghost head = v@;
    while i < tail.len()
        invariant
            i <= tail.len(),
            v@ == head + tail@.take(i as int),
        decreases tail.len() - i,
    {
        v.push(tail[i]);
        i = i + 1;
        assert(v@ =~= head + tail@.take(i as int));
    }
    assert(tail@.take(i as int) =~= tail@);
    assert(v@ =~= trace_id@ + seq![':'] + span_id@);
    utf8_of_chars(&v)
}

/// The prefix of a trace's span keys.
pub fn span_key_prefix(trace_id: &str) -> (r: Vec<u8>)
    ensures
        r@ == spec_span_key_prefix(trace_id@),
{
    let mut v = chars_of(trace_id);
    v.push(':');
    assert(v@ =~= trace_id@ + seq![':']);
    utf8_of_chars(&v)
}

/// Whether `key` starts with `prefix` (`<[u8]>::starts_with`).
pub fn has_prefix(key: &[u8], prefix: &[u8]) -> (r: bool)
    ensures
        r == (prefix@.len() <= key@.len() && key@.subrange(0, prefix@.len() as int) == prefix@),
{
    if prefix.len() > key.len() {
        return false;
    }
    let mut i: usize = 0;
    while i < prefix.len()
        invariant
            i <= prefix.len() <= key.len(),
            forall|j: int| 0 <= j < i ==> key@[j] == prefix@[j],
        decreases prefix.len() - i,
    {
        if key[i] != prefix[i] {
            assert(key@.subrange(0, prefix@.len() as int)[i as int] != prefix@[i as int]);
            return false;
        }
        i = i + 1;
    }
    assert(key@.subrange(0, prefix@.len() as int) =~= prefix@);
    true
}

// ---- sequence numbers ----

/// The key a log entry is stored under: its instant in nanoseconds and its
/// sequence number, or `None` when the instant has no `i64` nanosecond count.
pub fn entry_log_key(timestamp: Timestamp, seq: u64) -> (r: Option<[u8; 16]>)
    ensures
        match nanos_since_epoch(timestamp.secs as int, timestamp.nanos as int) {
            Some(n) => r matches Some(k) && k@ == spec_log_key(n as i64, seq),
            None => r is None,
        },
{
    match timestamp.timestamp_nanos_opt() {
        Some(n) => Some(encode_log_key(n, seq)),
        None => None,
    }
}

/// The sequence number to continue from, given the greatest key in the log
/// store: one past the sequence number of a 16-byte key, `0` otherwise.
pub open spec fn spec_recover_sequence(last_key: Option<Seq<u8>>) -> u64 {
    match last_key {
        Some(k) => match spec_decode_log_key(k) {
            Some((_, seq)) => (seq + 1) as u64,
            None => 0,
        },
        None => 0,
    }
}

/// The sequence number to continue from after reopening the store. A last key
/// whose sequence number is already `u64::MAX` has no successor.
pub fn recover_sequence(last_key: Option<&[u8]>) -> (r: u64)
    requires
        last_key matches Some(k) ==> (spec_decode_log_key(k@) matches Some((_, seq)) ==> seq
            < u64::MAX),
    ensures
        r == spec_recover_sequence(
            match last_key {
                Some(k) => Some(k@),
                None => None,
            },
        ),
{
    match last_key {
        Some(k) => match decode_log_key(k) {
            Some((_, seq)) => seq + 1,
            None => 0,
        },
        None => 0,
    }
}

/// After a reopen, the next entry is numbered right after the last one stored,
/// so it never reuses a key of the same instant.
pub proof fn lemma_sequence_continues(ts: i64, seq: u64)
    requires
        seq < u64::MAX,
    ensures
        spec_recover_sequence(Some(spec_log_key(ts, seq))) == seq + 1,
        spec_recover_sequence(Some(spec_log_key(ts, seq))) > seq,
{
    lemma_log_key_roundtrip(ts, seq);
}

// ---- scans ----

/// Where an iteration over the log keys begins.
#[derive(Debug, Clone, Copy)]
pub enum SeekTarget {
    /// The smallest key.
    First,
    /// The greatest key.
    Last,
    /// The smallest key at or after this one.
    AtOrAfter([u8; 16]),
    /// The greatest key at or before this one.
    AtOrBefore([u8; 16]),
}

/// What to do with the key under the iterator.
#[derive(Debug, Clone, Copy, PartialEq, Eq, Structural)]
pub enum KeyVerdict {
    /// Move on without reading the entry.
    Skip,
    /// End the scan.
    Stop,
    /// Read the entry and test it.
    Examine,
}

/// Where a filtered query starts: backwards from the end bound (or the newest
/// key), forwards from the start bound (or the oldest key).
pub open spec fn seek_target_is(r: SeekTarget, direction: Direction, start: Option<i64>, end: Option<i64>) -> bool {
    match direction {
        Direction::Backward => match end {
            Some(e) => r matches SeekTarget::AtOrBefore(k) && k@ == spec_log_key(e, u64::MAX),
            None => r is Last,
        },
        Direction::Forward => match start {
            Some(s) => r matches SeekTarget::AtOrAfter(k) && k@ == spec_log_key(s, 0),
            None => r is First,
        },
    }
}

/// What a filtered query does with a key: an entry before the start bound is
/// skipped going forward and ends the scan going backward; one after the end
/// bound is skipped going backward and ends the scan going forward; keys that
/// are not 16 bytes long, and entries inside the bounds, are examined.
pub open spec fn spec_classify(key: Seq<u8>, start: Option<i64>, end: Option<i64>, direction: Direction) -> KeyVerdict {
    match spec_decode_log_key(key) {
        Some((ts, _)) => if start matches Some(s) && ts < s {
            match direction {
                Direction::Forward => KeyVerdict::Skip,
                Direction::Backward => KeyVerdict::Stop,
            }
        } else if end matches Some(e) && ts > e {
            match direction {
                Direction::Backward => KeyVerdict::Skip,
                Direction::Forward => KeyVerdict::Stop,
            }
        } else {
            KeyVerdict::Examine
        },
        None => KeyVerdict::Examine,
    }
}

/// A filtered, bounded, directed scan over the log store. The store's iterator
/// is moved by the caller; the scan decides where to start, what to do with
/// each key, and which entries to keep.
pub struct LogScan {
    matchers: Vec<LabelMatcher>,
    start: Option<i64>,
    end: Option<i64>,
    limit: usize,
    direction: Direction,
    results: Vec<LogEntry>,
}

impl LogScan {
    pub closed spec fn matchers_view(&self) -> Seq<crate::loki::MatcherSpec> {
        matcher_views(self.matchers@)
    }

    pub closed spec fn start_bound(&self) -> Option<i64> {
        self.start
    }

    pub closed spec fn end_bound(&self) -> Option<i64> {
        self.end
    }

    pub closed spec fn limit_value(&self) -> usize {
        self.limit
    }

    pub closed spec fn scan_direction(&self) -> Direction {
        self.direction
    }

    /// The entries kept so far, in scan order.
    pub closed spec fn kept(&self) -> Seq<LogEntryView> {
        self.results@.map_values(|e: LogEntry| e@)
    }

    /// A scan that has kept nothing yet.
    pub fn new(
        matchers: Vec<LabelMatcher>,
        start: Option<i64>,
        end: Option<i64>,
        limit: usize,
        direction: Direction,
    ) -> (r: LogScan)
        ensures
            r.matchers_view() == matcher_views(matchers@),
            r.start_bound() == start,
            r.end_bound() == end,
            r.limit_value() == limit,
            r.scan_direction() == direction,
            r.kept() == Seq::<LogEntryView>::empty(),
    {
        let r = LogScan { matchers, start, end, limit, direction, results: Vec::new() };
        assert(r.kept() =~= Seq::<LogEntryView>::empty());
        r
    }

    /// Where the iterator starts.
    pub fn seek_target(&self) -> (r: SeekTarget)
        ensures
            seek_target_is(r, self.scan_direction(), self.start_bound(), self.end_bound()),
    {
        match self.direction {
            Direction::Backward => match self.end {
                Some(e) => {
                    let k = encode_log_key(e, u64::MAX);
                    SeekTarget::AtOrBefore(k)
                },
                None => SeekTarget::Last,
            },
            Direction::Forward => match self.start {
                Some(s) => {
                    let k = encode_log_key(s, 0);
                    SeekTarget::AtOrAfter(k)
                },
                None => SeekTarget::First,
            },
        }
    }

    /// Whether the scan still wants entries (it has kept fewer than its limit).
    pub fn wants_more(&self) -> (r: bool)
        ensures
            r == (self.kept().len() < self.limit_value()),
    {
        self.results.len() < self.limit
    }

    /// What to do with the key under the iterator.
    pub fn classify(&self, key: &[u8]) -> (r: KeyVerdict)
        ensures
            r == spec_classify(key@, self.start_bound(), self.end_bound(), self.scan_direction()),
    {
        match decode_log_key(key) {
            Some((ts, _)) => {
                if let Some(s) = self.start {
                    if ts < s {
                        return match self.direction {
                            Direction::Forward => KeyVerdict::Skip,
                            Direction::Backward => KeyVerdict::Stop,
                        };
                    }
                }
                if let Some(e) = self.end {
                    if ts > e {
                        return match self.direction {
                            Direction::Backward => KeyVerdict::Skip,
                            Direction::Forward => KeyVerdict::Stop,
                        };
                    }
                }
                KeyVerdict::Examine
            },
            None => KeyVerdict::Examine,
        }
    }

    /// Tests an examined entry and keeps it when every matcher accepts its labels.
    pub fn offer(&mut self, entry: LogEntry)
        ensures
            final(self).matchers_view() == old(self).matchers_view(),
            final(self).start_bound() == old(self).start_bound(),
            final(self).end_bound() == old(self).end_bound(),
            final(self).limit_value() == old(self).limit_value(),
            final(self).scan_direction() == old(self).scan_direction(),
            final(self).kept() == (if all_hold(old(self).matchers_view(), entry@.labels) {
                old(self).kept().push(entry@)
            } else {
                old(self).kept()
            }),
    {
        if all_match(&self.matchers, &entry.labels) {
            let ghost ev = entry@;
            self.results.push(entry);
            assert(self.kept() =~= old(self).kept().push(ev));
        }
    }

    /// The kept entries, in scan order.
    pub fn finish(self) -> (r: Vec<LogEntry>)
        ensures
            r@.map_values(|e: LogEntry| e@) == self.kept(),
    {
        self.results
    }
}

// ---- what a filtered scan visits ----

/// The order of (nanoseconds, sequence number) pairs.
pub open spec fn pair_lt(a: (i64, u64), b: (i64, u64)) -> bool {
    a.0 < b.0 || (a.0 == b.0 && a.1 < b.1)
}

/// Whether the stored entries, given by their (nanoseconds, sequence number),
/// are listed in key order with no instant before the epoch.
pub open spec fn stored_in_order(pairs: Seq<(i64, u64)>) -> bool {
    &&& forall|i: int, j: int| 0 <= i < j < pairs.len() ==> pair_lt(#[trigger] pairs[i], #[trigger] pairs[j])
    &&& forall|i: int| 0 <= i < pairs.len() ==> #[trigger] pairs[i].0 >= 0
}

/// The key of a stored entry.
pub open spec fn pair_key(p: (i64, u64)) -> Seq<u8> {
    spec_log_key(p.0, p.1)
}

/// Whether an instant lies within the optional bounds, both included.
pub open spec fn within_bounds(ts: i64, start: Option<i64>, end: Option<i64>) -> bool {
    (start matches Some(s) ==> s <= ts) && (end matches Some(e) ==> ts <= e)
}

/// The positions of the entries within the bounds, ascending from `i`.
pub open spec fn positions_within(pairs: Seq<(i64, u64)>, i: int, start: Option<i64>, end: Option<i64>) -> Seq<int>
    decreases pairs.len() - i,
{
    if i < 0 || i >= pairs.len() {
        Seq::empty()
    } else {
        (if within_bounds(pairs[i].0, start, end) {
            seq![i]
        } else {
            Seq::empty()
        }) + positions_within(pairs, i + 1, start, end)
    }
}

/// The positions of the entries within the bounds, descending from `i`.
pub open spec fn positions_within_desc(pairs: Seq<(i64, u64)>, i: int, start: Option<i64>, end: Option<i64>) -> Seq<int>
    decreases i + 1,
{
    if i < 0 || i >= pairs.len() {
        Seq::empty()
    } else {
        (if within_bounds(pairs[i].0, start, end) {
            seq![i]
        } else {
            Seq::empty()
        }) + positions_within_desc(pairs, i - 1, start, end)
    }
}

/// The positions a forward scan examines, moving up from `i` as `spec_classify`
/// directs: skipped keys are passed, the scan ends at the first stop.
pub open spec fn forward_visits(pairs: Seq<(i64, u64)>, i: int, start: Option<i64>, end: Option<i64>) -> Seq<int>
    decreases pairs.len() - i,
{
    if i < 0 || i >= pairs.len() {
        Seq::empty()
    } else {
        match spec_classify(pair_key(pairs[i]), start, end, Direction::Forward) {
            KeyVerdict::Stop => Seq::empty(),
            KeyVerdict::Skip => forward_visits(pairs, i + 1, start, end),
            KeyVerdict::Examine => seq![i] + forward_visits(pairs, i + 1, start, end),
        }
    }
}

/// The positions a backward scan examines, moving down from `i`.
pub open spec fn backward_visits(pairs: Seq<(i64, u64)>, i: int, start: Option<i64>, end: Option<i64>) -> Seq<int>
    decreases i + 1,
{
    if i < 0 || i >= pairs.len() {
        Seq::empty()
    } else {
        match spec_classify(pair_key(pairs[i]), start, end, Direction::Backward) {
            KeyVerdict::Stop => Seq::empty(),
            KeyVerdict::Skip => backward_visits(pairs, i - 1, start, end),
            KeyVerdict::Examine => seq![i] + backward_visits(pairs, i - 1, start, end),
        }
    }
}

/// Whether `p` is where a forward scan starts: the first key at or after the
/// key of the start bound, or the first key without one.
pub open spec fn forward_seek(pairs: Seq<(i64, u64)>, start: Option<i64>, p: int) -> bool {
    match start {
        None => p == 0,
        Some(s) => {
            &&& 0 <= p <= pairs.len()
            &&& forall|j: int| 0 <= j < p ==> bytes_lt(pair_key(#[trigger] pairs[j]), spec_log_key(s, 0))
            &&& forall|j: int| p <= j < pairs.len() ==> !bytes_lt(pair_key(#[trigger] pairs[j]), spec_log_key(s, 0))
        },
    }
}

/// Whether `p` is where a backward scan starts: the last key at or before the
/// key of the end bound, or the last key without one.
pub open spec fn backward_seek(pairs: Seq<(i64, u64)>, end: Option<i64>, p: int) -> bool {
    match end {
        None => p == pairs.len() - 1,
        Some(e) => {
            &&& -1 <= p < pairs.len()
            &&& forall|j: int| 0 <= j <= p ==> !bytes_lt(spec_log_key(e, u64::MAX), pair_key(#[trigger] pairs[j]))
            &&& forall|j: int| p < j < pairs.len() ==> bytes_lt(spec_log_key(e, u64::MAX), pair_key(#[trigger] pairs[j]))
        },
    }
}

proof fn lemma_classify_pair(p: (i64, u64), start: Option<i64>, end: Option<i64>, d: Direction)
    ensures
        spec_classify(pair_key(p), start, end, d) == (if start matches Some(s) && p.0 < s {
            match d {
                Direction::Forward => KeyVerdict::Skip,
                Direction::Backward => KeyVerdict::Stop,
            }
        } else if end matches Some(e) && p.0 > e {
            match d {
                Direction::Backward => KeyVerdict::Skip,
                Direction::Forward => KeyVerdict::Stop,
            }
        } else {
            KeyVerdict::Examine
        }),
{
    lemma_log_key_roundtrip(p.0, p.1);
}

proof fn lemma_none_within(pairs: Seq<(i64, u64)>, i: int, start: Option<i64>, end: Option<i64>)
    requires
        forall|j: int| i <= j < pairs.len() ==> !within_bounds(#[trigger] pairs[j].0, start, end),
    ensures
        positions_within(pairs, i, start, end) == Seq::<int>::empty(),
    decreases pairs.len() - i,
{
    if 0 <= i < pairs.len() {
        lemma_none_within(pairs, i + 1, start, end);
        assert(!within_bounds(pairs[i].0, start, end));
        assert(positions_within(pairs, i, start, end) =~= Seq::<int>::empty());
    }
}

proof fn lemma_none_within_desc(pairs: Seq<(i64, u64)>, i: int, start: Option<i64>, end: Option<i64>)
    requires
        forall|j: int| 0 <= j <= i ==> !within_bounds(#[trigger] pairs[j].0, start, end),
    ensures
        positions_within_desc(pairs, i, start, end) == Seq::<int>::empty(),
    decreases i + 1,
{
    if 0 <= i < pairs.len() {
        lemma_none_within_desc(pairs, i - 1, start, end);
        assert(!within_bounds(pairs[i].0, start, end));
        assert(positions_within_desc(pairs, i, start, end) =~= Seq::<int>::empty());
    }
}

proof fn lemma_forward_from(pairs: Seq<(i64, u64)>, i: int, start: Option<i64>, end: Option<i64>)
    requires
        stored_in_order(pairs),
        0 <= i,
        forall|j: int| i <= j < pairs.len() ==> (start matches Some(s) ==> s <= #[trigger] pairs[j].0),
    ensures
        forward_visits(pairs, i, start, end) == positions_within(pairs, i, start, end),
    decreases pairs.len() - i,
{
    if i < pairs.len() {
        lemma_classify_pair(pairs[i], start, end, Direction::Forward);
        if end matches Some(e) && pairs[i].0 > e {
            assert forall|j: int| i <= j < pairs.len() implies !within_bounds(#[trigger] pairs[j].0, start, end) by {
                if j > i {
                    assert(pair_lt(pairs[i], pairs[j]));
                }
            }
            lemma_none_within(pairs, i, start, end);
        } else {
            lemma_forward_from(pairs, i + 1, start, end);
        }
    }
}

proof fn lemma_backward_from(pairs: Seq<(i64, u64)>, i: int, start: Option<i64>, end: Option<i64>)
    requires
        stored_in_order(pairs),
        i < pairs.len(),
        forall|j: int| 0 <= j <= i ==> (end matches Some(e) ==> #[trigger] pairs[j].0 <= e),
    ensures
        backward_visits(pairs, i, start, end) == positions_within_desc(pairs, i, start, end),
    decreases i + 1,
{
    if 0 <= i {
        lemma_classify_pair(pairs[i], start, end, Direction::Backward);
        if start matches Some(s) && pairs[i].0 < s {
            assert forall|j: int| 0 <= j <= i implies !within_bounds(#[trigger] pairs[j].0, start, end) by {
                if j < i {
                    assert(pair_lt(pairs[j], pairs[i]));
                }
            }
            lemma_none_within_desc(pairs, i, start, end);
        } else {
            lemma_backward_from(pairs, i - 1, start, end);
        }
    }
}

proof fn lemma_key_before_seek(t: i64, q: u64, s: i64)
    requires
        t >= 0,
        s >= 0,
    ensures
        bytes_lt(spec_log_key(t, q), spec_log_key(s, 0)) == (t < s),
{
    lemma_log_key_order(t, q, s, 0);
}

proof fn lemma_key_after_end(t: i64, q: u64, e: i64)
    requires
        t >= 0,
    ensures
        e >= 0 ==> bytes_lt(spec_log_key(e, u64::MAX), spec_log_key(t, q)) == (t > e),
        e < 0 ==> !bytes_lt(spec_log_key(e, u64::MAX), spec_log_key(t, q)),
{
    if e >= 0 {
        lemma_log_key_order(e, u64::MAX, t, q);
    } else {
        lemma_bytes_lt_concat(be_bytes(e as u64), be_bytes(t as u64), be_bytes(u64::MAX), be_bytes(q));
        lemma_be_order(e as u64, t as u64);
        assert((t as u64) < (e as u64)) by (bit_vector)
            requires
                t >= 0,
                e < 0,
        ;
        if be_bytes(e as u64) == be_bytes(t as u64) {
            lemma_be_roundtrip(e as u64);
            lemma_be_roundtrip(t as u64);
        }
    }
}

proof fn lemma_backward_all_after_end(pairs: Seq<(i64, u64)>, i: int, start: Option<i64>, e: i64)
    requires
        i < pairs.len(),
        forall|j: int| 0 <= j <= i ==> #[trigger] pairs[j].0 > e,
    ensures
        backward_visits(pairs, i, start, Some(e)) == Seq::<int>::empty(),
    decreases i + 1,
{
    if 0 <= i {
        lemma_classify_pair(pairs[i], start, Some(e), Direction::Backward);
        lemma_backward_all_after_end(pairs, i - 1, start, e);
    }
}

/// A forward filtered scan examines exactly the stored entries within its
/// bounds, oldest first: started where the scan seeks (the first key at or
/// after the start bound's key) and driven by `spec_classify`, it meets every
/// entry from the start bound to the end bound and no other. This needs every
/// instant, and the start bound, at or after the epoch.
pub proof fn lemma_forward_scan_visits_range(
    pairs: Seq<(i64, u64)>,
    start: Option<i64>,
    end: Option<i64>,
    p: int,
)
    requires
        stored_in_order(pairs),
        start matches Some(s) ==> s >= 0,
        forward_seek(pairs, start, p),
    ensures
        forward_visits(pairs, p, start, end) == positions_within(pairs, 0, start, end),
{
    match start {
        None => {
            lemma_forward_from(pairs, 0, start, end);
        },
        Some(s) => {
            assert forall|j: int| 0 <= j < pairs.len() implies (#[trigger] pairs[j].0 < s) == (j < p) by {
                lemma_key_before_seek(pairs[j].0, pairs[j].1, s);
            }
            lemma_forward_from(pairs, p, start, end);
            lemma_skip_outside(pairs, 0, p, start, end);
        },
    }
}

proof fn lemma_skip_outside(pairs: Seq<(i64, u64)>, i: int, p: int, start: Option<i64>, end: Option<i64>)
    requires
        0 <= i <= p <= pairs.len(),
        forall|j: int| i <= j < p ==> !within_bounds(#[trigger] pairs[j].0, start, end),
    ensures
        positions_within(pairs, i, start, end) == positions_within(pairs, p, start, end),
    decreases p - i,
{
    if i < p {
        lemma_skip_outside(pairs, i + 1, p, start, end);
        assert(!within_bounds(pairs[i].0, start, end));
        assert(positions_within(pairs, i, start, end) =~= positions_within(pairs, i + 1, start, end));
    }
}

proof fn lemma_skip_outside_desc(pairs: Seq<(i64, u64)>, i: int, p: int, start: Option<i64>, end: Option<i64>)
    requires
        -1 <= p <= i < pairs.len(),
        forall|j: int| p < j <= i ==> !within_bounds(#[trigger] pairs[j].0, start, end),
    ensures
        positions_within_desc(pairs, i, start, end) == positions_within_desc(pairs, p, start, end),
    decreases i - p,
{
    if p < i {
        lemma_skip_outside_desc(pairs, i - 1, p, start, end);
        assert(!within_bounds(pairs[i].0, start, end));
        assert(positions_within_desc(pairs, i, start, end) =~= positions_within_desc(pairs, i - 1, start, end));
    }
}

/// A backward filtered scan examines exactly the stored entries within its
/// bounds, newest first: started where the scan seeks (the last key at or
/// before the end bound's key) and driven by `spec_classify`, it meets every
/// entry from the end bound down to the start bound and no other. This needs
/// every instant at or after the epoch.
pub proof fn lemma_backward_scan_visits_range(
    pairs: Seq<(i64, u64)>,
    start: Option<i64>,
    end: Option<i64>,
    p: int,
)
    requires
        stored_in_order(pairs),
        backward_seek(pairs, end, p),
    ensures
        backward_visits(pairs, p, start, end) == positions_within_desc(pairs, pairs.len() - 1, start, end),
{
    match end {
        None => {
            lemma_backward_from(pairs, p, start, end);
        },
        Some(e) => {
            if e >= 0 {
                assert forall|j: int| 0 <= j < pairs.len() implies (#[trigger] pairs[j].0 > e) == (j > p) by {
                    lemma_key_after_end(pairs[j].0, pairs[j].1, e);
                }
                lemma_backward_from(pairs, p, start, end);
                lemma_skip_outside_desc(pairs, pairs.len() - 1, p, start, end);
            } else {
                if p < pairs.len() - 1 {
                    lemma_key_after_end(pairs[p + 1].0, pairs[p + 1].1, e);
                }
                lemma_backward_all_after_end(pairs, p, start, e);
                lemma_none_within_desc(pairs, pairs.len() - 1, start, end);
            }
        },
    }
}

// ---- what a filtered scan returns ----

/// The entries at `positions`, in that order, whose labels every matcher accepts.
pub open spec fn matching_at(
    entries: Seq<LogEntryView>,
    ms: Seq<crate::loki::MatcherSpec>,
    positions: Seq<int>,
) -> Seq<LogEntryView>
    decreases positions.len(),
{
    if positions.len() == 0 {
        Seq::empty()
    } else {
        (if all_hold(ms, entries[positions[0]].labels) {
            seq![entries[positions[0]]]
        } else {
            Seq::empty()
        }) + matching_at(entries, ms, positions.drop_first())
    }
}

/// At most the first `limit` items of `s`.
pub open spec fn first_up_to(s: Seq<LogEntryView>, limit: usize) -> Seq<LogEntryView> {
    if s.len() <= limit {
        s
    } else {
        s.take(limit as int)
    }
}

/// What a scan keeps when it moves from position `i` on, having kept `kept`,
/// as the store loop drives a `LogScan`: while it wants more (fewer than `limit`
/// kept) and a key is there, `spec_classify` decides: a stop ends the scan, a
/// skipped key is passed, an examined entry is offered and kept when every
/// matcher accepts it. A forward scan moves up, a backward one down.
pub open spec fn scan_keeps(
    pairs: Seq<(i64, u64)>,
    entries: Seq<LogEntryView>,
    ms: Seq<crate::loki::MatcherSpec>,
    start: Option<i64>,
    end: Option<i64>,
    limit: usize,
    direction: Direction,
    i: int,
    kept: Seq<LogEntryView>,
) -> Seq<LogEntryView>
    decreases (match direction {
        Direction::Forward => pairs.len() - i,
        Direction::Backward => i + 1,
    }),
{
    if i < 0 || i >= pairs.len() || kept.len() >= limit {
        kept
    } else {
        let next = match direction {
            Direction::Forward => i + 1,
            Direction::Backward => i - 1,
        };
        match spec_classify(pair_key(pairs[i]), start, end, direction) {
            KeyVerdict::Stop => kept,
            KeyVerdict::Skip => scan_keeps(pairs, entries, ms, start, end, limit, direction, next, kept),
            KeyVerdict::Examine => scan_keeps(
                pairs,
                entries,
                ms,
                start,
                end,
                limit,
                direction,
                next,
                if all_hold(ms, entries[i].labels) {
                    kept.push(entries[i])
                } else {
                    kept
                },
            ),
        }
    }
}

proof fn lemma_first_up_to_full(kept: Seq<LogEntryView>, more: Seq<LogEntryView>, limit: usize)
    requires
        kept.len() >= limit,
        kept.len() <= limit,
    ensures
        first_up_to(kept + more, limit) == kept,
{
    if more.len() > 0 {
        assert((kept + more).take(limit as int) =~= kept);
    } else {
        assert(kept + more =~= kept);
    }
}

proof fn lemma_scan_keeps_forward(
    pairs: Seq<(i64, u64)>,
    entries: Seq<LogEntryView>,
    ms: Seq<crate::loki::MatcherSpec>,
    start: Option<i64>,
    end: Option<i64>,
    limit: usize,
    i: int,
    kept: Seq<LogEntryView>,
)
    requires
        entries.len() == pairs.len(),
        0 <= i,
        kept.len() <= limit,
    ensures
        scan_keeps(pairs, entries, ms, start, end, limit, Direction::Forward, i, kept) == first_up_to(
            kept + matching_at(entries, ms, forward_visits(pairs, i, start, end)),
            limit,
        ),
    decreases pairs.len() - i,
{
    let v = forward_visits(pairs, i, start, end);
    if i >= pairs.len() {
        assert(kept + matching_at(entries, ms, v) =~= kept);
    } else if kept.len() >= limit {
        lemma_first_up_to_full(kept, matching_at(entries, ms, v), limit);
    } else {
        match spec_classify(pair_key(pairs[i]), start, end, Direction::Forward) {
            KeyVerdict::Stop => {
                assert(kept + matching_at(entries, ms, v) =~= kept);
            },
            KeyVerdict::Skip => {
                lemma_scan_keeps_forward(pairs, entries, ms, start, end, limit, i + 1, kept);
            },
            KeyVerdict::Examine => {
                let rest = forward_visits(pairs, i + 1, start, end);
                assert(v == seq![i] + rest);
                assert(v[0] == i);
                assert(v.drop_first() =~= rest);
                let k2 = if all_hold(ms, entries[i].labels) {
                    kept.push(entries[i])
                } else {
                    kept
                };
                lemma_scan_keeps_forward(pairs, entries, ms, start, end, limit, i + 1, k2);
                assert(kept + matching_at(entries, ms, v) =~= k2 + matching_at(entries, ms, rest));
            },
        }
    }
}

proof fn lemma_scan_keeps_backward(
    pairs: Seq<(i64, u64)>,
    entries: Seq<LogEntryView>,
    ms: Seq<crate::loki::MatcherSpec>,
    start: Option<i64>,
    end: Option<i64>,
    limit: usize,
    i: int,
    kept: Seq<LogEntryView>,
)
    requires
        entries.len() == pairs.len(),
        i < pairs.len(),
        kept.len() <= limit,
    ensures
        scan_keeps(pairs, entries, ms, start, end, limit, Direction::Backward, i, kept) == first_up_to(
            kept + matching_at(entries, ms, backward_visits(pairs, i, start, end)),
            limit,
        ),
    decreases i + 1,
{
    let v = backward_visits(pairs, i, start, end);
    if i < 0 {
        assert(kept + matching_at(entries, ms, v) =~= kept);
    } else if kept.len() >= limit {
        lemma_first_up_to_full(kept, matching_at(entries, ms, v), limit);
    } else {
        match spec_classify(pair_key(pairs[i]), start, end, Direction::Backward) {
            KeyVerdict::Stop => {
                assert(kept + matching_at(entries, ms, v) =~= kept);
            },
            KeyVerdict::Skip => {
                lemma_scan_keeps_backward(pairs, entries, ms, start, end, limit, i - 1, kept);
            },
            KeyVerdict::Examine => {
                let rest = backward_visits(pairs, i - 1, start, end);
                assert(v == seq![i] + rest);
                assert(v[0] == i);
                assert(v.drop_first() =~= rest);
                let k2 = if all_hold(ms, entries[i].labels) {
                    kept.push(entries[i])
                } else {
                    kept
                };
                lemma_scan_keeps_backward(pairs, entries, ms, start, end, limit, i - 1, k2);
                assert(kept + matching_at(entries, ms, v) =~= k2 + matching_at(entries, ms, rest));
            },
        }
    }
}

/// A filtered scan over the store returns the first `limit` entries (or all of
/// them, when fewer) among those within its bounds that every matcher accepts,
/// in the scan's direction: oldest first going forward, newest first going
/// backward. Here `pairs` are the stored keys' (nanoseconds, sequence number)
/// in key order, `entries` the entries stored under them, and `p` the position
/// the scan seeks to. This needs every instant, and a forward scan's start
/// bound, at or after the epoch.
pub proof fn lemma_filtered_scan_result(
    pairs: Seq<(i64, u64)>,
    entries: Seq<LogEntryView>,
    ms: Seq<crate::loki::MatcherSpec>,
    start: Option<i64>,
    end: Option<i64>,
    limit: usize,
    direction: Direction,
    p: int,
)
    requires
        stored_in_order(pairs),
        entries.len() == pairs.len(),
        direction == Direction::Forward ==> forward_seek(pairs, start, p) && (start matches Some(
            s,
        ) ==> s >= 0),
        direction == Direction::Backward ==> backward_seek(pairs, end, p),
    ensures
        scan_keeps(pairs, entries, ms, start, end, limit, direction, p, Seq::empty()) == first_up_to(
            matching_at(
                entries,
                ms,
                match direction {
                    Direction::Forward => positions_within(pairs, 0, start, end),
                    Direction::Backward => positions_within_desc(
                        pairs,
                        pairs.len() - 1,
                        start,
                        end,
                    ),
                },
            ),
            limit,
        ),
{
    let e = Seq::<LogEntryView>::empty();
    match direction {
        Direction::Forward => {
            lemma_forward_scan_visits_range(pairs, start, end, p);
            if start is None {
                assert(p == 0);
            }
            lemma_scan_keeps_forward(pairs, entries, ms, start, end, limit, p, e);
            assert(e + matching_at(entries, ms, positions_within(pairs, 0, start, end)) =~= matching_at(
                entries,
                ms,
                positions_within(pairs, 0, start, end),
            ));
        },
        Direction::Backward => {
            lemma_backward_scan_visits_range(pairs, start, end, p);
            lemma_scan_keeps_backward(pairs, entries, ms, start, end, limit, p, e);
            assert(e + matching_at(entries, ms, positions_within_desc(pairs, pairs.len() - 1, start, end))
                =~= matching_at(entries, ms, positions_within_desc(pairs, pairs.len() - 1, start, end)));
        },
    }
}

/// The positions a scan over a time range visits, moving up from `i` while
/// `range_continues` holds.
pub open spec fn range_visits(pairs: Seq<(i64, u64)>, i: int, end: Option<i64>) -> Seq<int>
    decreases pairs.len() - i,
{
    if i < 0 || i >= pairs.len() {
        Seq::empty()
    } else if end matches Some(e) && spec_decode_log_key(pair_key(pairs[i])) matches Some((ts, _)) && ts > e {
        Seq::empty()
    } else {
        seq![i] + range_visits(pairs, i + 1, end)
    }
}

proof fn lemma_range_from(pairs: Seq<(i64, u64)>, i: int, start: Option<i64>, end: Option<i64>)
    requires
        stored_in_order(pairs),
        0 <= i,
        forall|j: int| i <= j < pairs.len() ==> (start matches Some(s) ==> s <= #[trigger] pairs[j].0),
    ensures
        range_visits(pairs, i, end) == positions_within(pairs, i, start, end),
    decreases pairs.len() - i,
{
    if i < pairs.len() {
        lemma_log_key_roundtrip(pairs[i].0, pairs[i].1);
        if end matches Some(e) && pairs[i].0 > e {
            assert forall|j: int| i <= j < pairs.len() implies !within_bounds(#[trigger] pairs[j].0, start, end) by {
                if j > i {
                    assert(pair_lt(pairs[i], pairs[j]));
                }
            }
            lemma_none_within(pairs, i, start, end);
        } else {
            lemma_range_from(pairs, i + 1, start, end);
        }
    }
}

/// A scan over a time range (the one label names and values are collected
/// from) visits exactly the stored entries within the range, oldest first:
/// started at the first key at or after the start bound's key, it goes on while
/// `range_continues` holds. This needs every instant, and the start bound, at
/// or after the epoch.
pub proof fn lemma_range_scan_visits_range(
    pairs: Seq<(i64, u64)>,
    start: Option<i64>,
    end: Option<i64>,
    p: int,
)
    requires
        stored_in_order(pairs),
        start matches Some(s) ==> s >= 0,
        forward_seek(pairs, start, p),
    ensures
        range_visits(pairs, p, end) == positions_within(pairs, 0, start, end),
{
    match start {
        None => {
            lemma_range_from(pairs, 0, start, end);
        },
        Some(s) => {
            assert forall|j: int| 0 <= j < pairs.len() implies (#[trigger] pairs[j].0 < s) == (j < p) by {
                lemma_key_before_seek(pairs[j].0, pairs[j].1, s);
            }
            lemma_range_from(pairs, p, start, end);
            lemma_skip_outside(pairs, 0, p, start, end);
        },
    }
}

/// Where a scan over a time range begins: at the start bound, or at the oldest key.
pub fn range_seek_target(start: Option<i64>) -> (r: SeekTarget)
    ensures
        seek_target_is(r, Direction::Forward, start, None),
{
    match start {
        Some(s) => SeekTarget::AtOrAfter(encode_log_key(s, 0)),
        None => SeekTarget::First,
    }
}

/// Whether a scan over a time range goes on at `key`: it ends at the first
/// 16-byte key past the end bound.
pub fn range_continues(key: &[u8], end: Option<i64>) -> (r: bool)
    ensures
        r == !(end matches Some(e) && spec_decode_log_key(key@) matches Some((ts, _)) && ts > e),
{
    match end {
        Some(e) => match decode_log_key(key) {
            Some((ts, _)) => ts <= e,
            None => true,
        },
        None => true,
    }
}

// ---- sorted string sets ----

/// The characters of each string.
pub open spec fn string_views(v: Seq<String>) -> Seq<Seq<char>> {
    v.map_values(|s: String| s@)
}

/// Whether a list of strings is strictly ascending.
pub open spec fn strictly_sorted(v: Seq<Seq<char>>) -> bool {
    forall|i: int, j: int| 0 <= i < j < v.len() ==> chars_lt(#[trigger] v[i], #[trigger] v[j])
}

/// A set of strings kept in ascending order (what a `BTreeSet<String>` holds).
pub struct SortedStrings {
    items: Vec<String>,
}

impl View for SortedStrings {
    type V = Set<Seq<char>>;

    closed spec fn view(&self) -> Set<Seq<char>> {
        string_views(self.items@).to_set()
    }
}

impl SortedStrings {
    #[verifier::type_invariant]
    closed spec fn inv(&self) -> bool {
        strictly_sorted(string_views(self.items@))
    }

    /// An empty set.
    pub fn new() -> (r: SortedStrings)
        ensures
            r@ == Set::<Seq<char>>::empty(),
    {
        let r = SortedStrings { items: Vec::new() };
        assert(string_views(r.items@).to_set() =~= Set::<Seq<char>>::empty());
        r
    }

    /// Adds a string (`BTreeSet::insert`).
    pub fn insert(&mut self, s: String)
        ensures
            final(self)@ == old(self)@.insert(s@),
    {
        proof {
            use_type_invariant(&*self);
        }
        let ghost old_v = string_views(self.items@);
        let mut i: usize = 0;
        while i < self.items.len() && str_lt(self.items[i].as_str(), s.as_str())
            invariant
                i <= self.items.len(),
                old_v == string_views(self.items@),
                strictly_sorted(old_v),
                forall|j: int| 0 <= j < i ==> chars_lt(#[trigger] old_v[j], s@),
            decreases self.items.len() - i,
        {
            i = i + 1;
        }
        if i < self.items.len() && self.items[i] == s {
            assert(old_v[i as int] == s@);
            assert(self@ =~= old(self)@.insert(s@));
            return;
        }
        proof {
            if i < old_v.len() {
                lemma_chars_lt_total(old_v[i as int], s@);
            }
        }
        let mut items: Vec<String> = Vec::new();
        std::mem::swap(&mut items, &mut self.items);
        let ghost sv = s@;
        items.insert(i, s);
        proof {
            let nv = string_views(items@);
            assert(nv =~= old_v.insert(i as int, sv));
            assert forall|a: int, b: int| 0 <= a < b < nv.len() implies chars_lt(
                #[trigger] nv[a],
                #[trigger] nv[b],
            ) by {
                if b < i {
                } else if b == i {
                } else if a < i {
                    // a < i < b: old_v[a] < sv < old_v[b - 1]
                    assert(chars_lt(old_v[a], sv));
                    assert(chars_lt(sv, old_v[i as int]));
                    if b - 1 > i {
                        assert(chars_lt(old_v[i as int], old_v[b - 1]));
                        lemma_chars_lt_transitive(sv, old_v[i as int], old_v[b - 1]);
                    }
                    lemma_chars_lt_transitive(old_v[a], sv, old_v[b - 1]);
                } else if a == i {
                    if b - 1 > i {
                        assert(chars_lt(old_v[i as int], old_v[b - 1]));
                        lemma_chars_lt_transitive(sv, old_v[i as int], old_v[b - 1]);
                    }
                } else {
                }
            }
            assert(nv.to_set() =~= old_v.to_set().insert(sv)) by {
                assert forall|x: Seq<char>| nv.to_set().contains(x) <==> old_v.to_set().insert(
                    sv,
                ).contains(x) by {
                    if nv.to_set().contains(x) {
                        let k = choose|k: int| 0 <= k < nv.len() && nv[k] == x;
                        if k < i {
                            assert(old_v[k] == x);
                        } else if k > i {
                            assert(old_v[k - 1] == x);
                        }
                    }
                    if old_v.to_set().contains(x) {
                        let k = choose|k: int| 0 <= k < old_v.len() && old_v[k] == x;
                        if k < i {
                            assert(nv[k] == x);
                        } else {
                            assert(nv[k + 1] == x);
                        }
                    }
                    if x == sv {
                        assert(nv[i as int] == x);
                    }
                }
            }
        }
        self.items = items;
    }

    /// The strings in ascending order, each once.
    pub fn into_vec(self) -> (r: Vec<String>)
        ensures
            strictly_sorted(string_views(r@)),
            string_views(r@).to_set() == self@,
    {
        proof {
            use_type_invariant(&self);
        }
        self.items
    }
}

/// The names of a list of pairs.
pub open spec fn pair_names(e: Seq<(Seq<char>, Seq<char>)>) -> Seq<Seq<char>> {
    e.map_values(|p: (Seq<char>, Seq<char>)| p.0)
}

/// Adds every label name of an entry (`BTreeSet::extend` with the keys).
pub fn collect_label_names(names: &mut SortedStrings, labels: &Labels)
    ensures
        final(names)@ == old(names)@.union(labels@.dom()),
{
    let n = labels.len();
    let ghost ks = pair_names(labels.entries());
    let mut i: usize = 0;
    while i < n
        invariant
            n == labels.entries().len(),
            i <= n,
            ks == pair_names(labels.entries()),
            names@ == old(names)@.union(ks.take(i as int).to_set()),
        decreases n - i,
    {
        names.insert(labels.key_at(i).clone());
        proof {
            let a = ks.take(i as int);
            let b = ks.take(i + 1);
            assert forall|x: Seq<char>| b.to_set().contains(x) <==> a.to_set().insert(ks[i as int]).contains(x) by {
                if b.to_set().contains(x) {
                    let k = choose|k: int| 0 <= k < b.len() && b[k] == x;
                    if k < i {
                        assert(a[k] == x);
                    }
                }
                if a.to_set().contains(x) {
                    let k = choose|k: int| 0 <= k < a.len() && a[k] == x;
                    assert(b[k] == x);
                }
                if x == ks[i as int] {
                    assert(b[i as int] == x);
                }
            }
            assert(b.to_set() =~= a.to_set().insert(ks[i as int]));
            assert(names@ =~= old(names)@.union(b.to_set()));
        }
        i = i + 1;
    }
    proof {
        assert(ks.take(n as int) =~= ks);
        assert forall|x: Seq<char>| ks.to_set().contains(x) <==> labels@.dom().contains(x) by {
            if labels@.dom().contains(x) {
                assert(crate::labels::has_key(labels.entries(), x));
                let j = choose|j: int| 0 <= j < labels.entries().len() && #[trigger] labels.entries()[j].0 == x;
                assert(ks[j] == x);
            }
            if ks.to_set().contains(x) {
                let j = choose|j: int| 0 <= j < ks.len() && ks[j] == x;
                crate::labels::lemma_pairs_map_index(labels.entries(), j);
            }
        }
        assert(ks.to_set() =~= labels@.dom());
    }
}

/// The label names to report: the collected ones and `level`, ascending.
pub fn finish_label_names(names: SortedStrings) -> (r: Vec<String>)
    ensures
        strictly_sorted(string_views(r@)),
        string_views(r@).to_set() == names@.insert("level"@),
{
    let mut names = names;
    names.insert("level".to_string());
    names.into_vec()
}

/// The values a label takes in an entry: its level's lower-case name for
/// `level`, the label's value if the entry has it, nothing otherwise.
pub open spec fn label_value_of(label_name: Seq<char>, e: LogEntryView) -> Set<Seq<char>> {
    if label_name == "level"@ {
        set![spec_level_label(e.level)]
    } else if e.labels.contains_key(label_name) {
        set![e.labels[label_name]]
    } else {
        Set::empty()
    }
}

/// Adds the value an entry gives `label_name`.
pub fn collect_label_value(values: &mut SortedStrings, label_name: &str, entry: &LogEntry)
    ensures
        final(values)@ == old(values)@.union(label_value_of(label_name@, entry@)),
{
    if str_eq(label_name, "level") {
        values.insert(level_label(entry.level));
        assert(values@ =~= old(values)@.union(label_value_of(label_name@, entry@)));
    } else {
        match entry.labels.get(label_name) {
            Some(v) => {
                values.insert(v.clone());
                assert(values@ =~= old(values)@.union(label_value_of(label_name@, entry@)));
            },
            None => {
                assert(values@ =~= old(values)@.union(label_value_of(label_name@, entry@)));
            },
        }
    }
}

} // verus!
