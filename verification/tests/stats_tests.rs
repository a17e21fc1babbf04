use clawbit::stats::StatsCollector;

#[test]
fn new_collector_counts_nothing() {
    let stats = StatsCollector::new();
    let agg = stats.get_aggregate();
    assert_eq!(agg.total_sessions, 0);
    assert_eq!(agg.total_turns, 0);
    assert_eq!(agg.total_tool_calls, 0);
}

#[test]
fn turns_and_tool_calls_add_up() {
    let mut stats = StatsCollector::new();
    stats.record_turn("a");
    stats.record_turn("a");
    stats.record_tool_call("a", "Bash");
    stats.record_tool_call("b", "Read");
    stats.record_tool_call("b", "Read");
    stats.record_turn("c");
    let agg = stats.get_aggregate();
    assert_eq!(agg.total_sessions, 3);
    assert_eq!(agg.total_turns, 3);
    assert_eq!(agg.total_tool_calls, 3);
    assert!(stats.knows_session("a"));
    assert!(stats.knows_session("b"));
    assert!(stats.knows_session("c"));
    assert!(!stats.knows_session("d"));
}

#[test]
fn a_session_is_counted_once() {
    let mut stats = StatsCollector::new();
    for _ in 0..5 {
        stats.record_tool_call("only", "Edit");
    }
    assert_eq!(stats.get_aggregate().total_sessions, 1);
    assert_eq!(stats.get_aggregate().total_tool_calls, 5);
    assert_eq!(stats.get_aggregate().total_turns, 0);
}

#[test]
fn totals_count_calls_and_distinct_sessions() {
    let mut stats = StatsCollector::new();
    let calls: Vec<(&str, Option<&str>)> = vec![("a", None), ("b", Some("Bash")), ("a", Some("Read")), ("c", None), ("b", None), ("a", None)];
    for (i, (id, tool)) in calls.iter().enumerate() {
        match tool {
            Some(t) => stats.record_tool_call_at(id, t, i as u64),
            None => stats.record_turn_at(id, i as u64),
        }
    }
    let agg = stats.get_aggregate();
    assert_eq!(agg.total_turns, 4);
    assert_eq!(agg.total_tool_calls, 2);
    assert_eq!(agg.total_sessions, 3);
}
