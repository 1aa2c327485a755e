//! The plain JSON API: which store query answers a request for traces.
use vstd::prelude::*;

verus! {

/// The number of entries a request returns when it names no limit.
pub fn default_limit() -> (r: usize)
    ensures
        r == 100,
{
    100
}

/// The store query that answers a request for traces.
pub enum TraceQuery {
    /// The spans of one trace.
    ByTrace(String),
    /// The latest spans, at most this many.
    Latest(usize),
}

/// The query for a request for traces: the spans of the named trace, else the
/// latest spans up to the limit (100 when none is given).
pub fn plan_trace_query(trace_id: Option<String>, limit: Option<usize>) -> (r: TraceQuery)
    ensures
        match trace_id {
            Some(id) => r matches TraceQuery::ByTrace(t) && t@ == id@,
            None => r == TraceQuery::Latest(match limit {
                Some(l) => l,
                None => 100,
            }),
        },
{
    match trace_id {
        Some(id) => TraceQuery::ByTrace(id),
        None => TraceQuery::Latest(
            match limit {
                Some(l) => l,
                None => default_limit(),
            },
        ),
    }
}

/// What a listing request answers: what the store returned, or nothing when
/// the store failed.
pub fn listing_or_empty<T>(result: Result<Vec<T>, String>) -> (r: Vec<T>)
    ensures
        match result {
            Ok(v) => r == v,
            Err(_) => r@.len() == 0,
        },
{
    match result {
        Ok(v) => v,
        Err(_) => Vec::new(),
    }
}

} // verus!
