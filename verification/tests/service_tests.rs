use clawbit::models::{HookEvent, HookEventType, SessionStatus, TaskState};
use clawbit::service::{event_fits_now, take_event, take_event_at};
use clawbit::session::SessionStore;
use clawbit::stats::StatsCollector;

fn event(id: &str, kind: HookEventType, tool: Option<&str>, prompt: Option<&str>) -> HookEvent {
    HookEvent {
        session_id: id.to_string(),
        event: kind,
        status: SessionStatus::Processing,
        cwd: None,
        user_prompt: prompt.map(|p| p.to_string()),
        tool: tool.map(|t| t.to_string()),
        tool_use_id: None,
        tool_input: None,
        permission_mode: None,
    }
}

#[test]
fn events_update_sessions_and_counts() {
    let mut sessions = SessionStore::new();
    let mut stats = StatsCollector::new();
    let evs = vec![
        event("a", HookEventType::SessionStart, None, None),
        event("a", HookEventType::UserPromptSubmit, None, Some("hello")),
        event("a", HookEventType::PreToolUse, Some("Bash"), None),
        event("b", HookEventType::PostToolUse, Some("Read"), None),
        event("a", HookEventType::Stop, None, None),
    ];
    let mut analysed = Vec::new();
    for e in &evs {
        assert!(event_fits_now(&sessions, &stats, e));
        analysed.push(take_event(&mut sessions, &mut stats, e));
    }
    assert_eq!(analysed, vec![false, true, false, false, false]);
    let agg = stats.get_aggregate();
    assert_eq!(agg.total_sessions, 2);
    assert_eq!(agg.total_turns, 1);
    assert_eq!(agg.total_tool_calls, 2);
    let s = sessions.get_sessions();
    assert_eq!(s.len(), 2);
    assert_eq!(s[0].task_state, TaskState::Idle);
    assert_eq!(s[0].turns, 1);
    assert_eq!(s[0].tool_calls, 1);
    assert_eq!(s[1].task_state, TaskState::Working);
}

#[test]
fn a_session_start_is_not_counted_in_stats() {
    let mut sessions = SessionStore::new();
    let mut stats = StatsCollector::new();
    take_event(&mut sessions, &mut stats, &event("a", HookEventType::SessionStart, None, None));
    assert_eq!(stats.get_aggregate().total_sessions, 0);
    assert_eq!(sessions.get_sessions().len(), 1);
}

#[test]
fn a_prompt_with_a_tool_counts_both() {
    let mut sessions = SessionStore::new();
    let mut stats = StatsCollector::new();
    let e = event("a", HookEventType::UserPromptSubmit, Some("Bash"), Some("go"));
    assert!(take_event(&mut sessions, &mut stats, &e));
    let agg = stats.get_aggregate();
    assert_eq!((agg.total_sessions, agg.total_turns, agg.total_tool_calls), (1, 1, 1));
    let s = &sessions.get_sessions()[0];
    assert_eq!((s.turns, s.tool_calls), (1, 1));
}

#[test]
fn take_event_at_records_the_time() {
    let mut sessions = SessionStore::new();
    let mut stats = StatsCollector::new();
    let now = std::time::Instant::now();
    let e = event("a", HookEventType::UserPromptSubmit, Some("Bash"), Some("hi"));
    assert!(take_event_at(&mut sessions, &mut stats, &e, now, 1_700_000_000));
    assert_eq!(sessions.get_sessions()[0].last_activity, now);
    assert_eq!(stats.get_aggregate().total_sessions, 1);
}
