use rgrab::web_api::{TraceQuery, default_limit, listing_or_empty, plan_trace_query};

#[test]
fn trace_requests_pick_their_query() {
    assert_eq!(default_limit(), 100);
    assert!(matches!(plan_trace_query(Some("abc".to_string()), Some(5)), TraceQuery::ByTrace(ref t) if t == "abc"));
    assert!(matches!(plan_trace_query(None, Some(5)), TraceQuery::Latest(5)));
    assert!(matches!(plan_trace_query(None, None), TraceQuery::Latest(100)));
}

#[test]
fn failed_listings_answer_nothing() {
    assert_eq!(listing_or_empty::<u8>(Ok(vec![1, 2])), vec![1, 2]);
    assert!(listing_or_empty::<u8>(Err("down".to_string())).is_empty());
}
