use clawbit::models::{Emotion, HookEvent, HookEventType, SessionStatus, TaskState};
use clawbit::session::SessionStore;

fn event(id: &str, kind: HookEventType, tool: Option<&str>, cwd: Option<&str>) -> HookEvent {
    HookEvent {
        session_id: id.to_string(),
        event: kind,
        status: SessionStatus::Processing,
        cwd: cwd.map(|c| c.to_string()),
        user_prompt: None,
        tool: tool.map(|t| t.to_string()),
        tool_use_id: None,
        tool_input: None,
        permission_mode: None,
    }
}

#[test]
fn new_store_is_empty() {
    let store = SessionStore::new();
    assert!(store.get_sessions().is_empty());
}

#[test]
fn first_event_creates_a_session() {
    let mut store = SessionStore::new();
    let e = event("s1", HookEventType::UserPromptSubmit, None, Some("/repo"));
    assert!(store.has_room_for(&e));
    let s = store.handle_event(&e);
    assert_eq!(s.session_id, "s1");
    assert_eq!(s.task_state, TaskState::Working);
    assert_eq!(s.emotion, Emotion::Neutral);
    assert_eq!(s.cwd.as_deref(), Some("/repo"));
    assert_eq!(s.turns, 1);
    assert_eq!(s.tool_calls, 0);
    assert_eq!(s.position_index, 0);
}

#[test]
fn events_update_the_same_session() {
    let mut store = SessionStore::new();
    store.handle_event(&event("s1", HookEventType::SessionStart, None, Some("/a")));
    store.handle_event(&event("s1", HookEventType::PreToolUse, Some("Bash"), None));
    store.handle_event(&event("s1", HookEventType::PostToolUse, Some("Bash"), None));
    let s = store.handle_event(&event("s1", HookEventType::PermissionRequest, None, Some("/b")));
    assert_eq!(s.task_state, TaskState::Waiting);
    assert_eq!(s.tool_calls, 2);
    assert_eq!(s.turns, 0);
    assert_eq!(s.cwd.as_deref(), Some("/b"));
    assert_eq!(store.get_sessions().len(), 1);
}

#[test]
fn cwd_is_kept_when_the_event_has_none() {
    let mut store = SessionStore::new();
    store.handle_event(&event("s1", HookEventType::SessionStart, None, Some("/a")));
    let s = store.handle_event(&event("s1", HookEventType::Stop, None, None));
    assert_eq!(s.cwd.as_deref(), Some("/a"));
    assert_eq!(s.task_state, TaskState::Idle);
}

#[test]
fn positions_follow_arrival() {
    let mut store = SessionStore::new();
    store.handle_event(&event("a", HookEventType::SessionStart, None, None));
    store.handle_event(&event("b", HookEventType::SessionStart, None, None));
    store.handle_event(&event("a", HookEventType::Stop, None, None));
    store.handle_event(&event("c", HookEventType::PreCompact, None, None));
    let sessions = store.get_sessions();
    let ids: Vec<&str> = sessions.iter().map(|s| s.session_id.as_str()).collect();
    assert_eq!(ids, vec!["a", "b", "c"]);
    let pos: Vec<usize> = sessions.iter().map(|s| s.position_index).collect();
    assert_eq!(pos, vec![0, 1, 2]);
    assert_eq!(sessions[2].task_state, TaskState::Compacting);
}

#[test]
fn positions_are_not_reused_after_removal() {
    let mut store = SessionStore::new();
    store.handle_event(&event("a", HookEventType::SessionEnd, None, None));
    store.handle_event(&event("b", HookEventType::UserPromptSubmit, None, None));
    store.retain_recent(&vec![3_600_000_000_000, 0]);
    let s = store.handle_event(&event("c", HookEventType::SessionStart, None, None));
    assert_eq!(s.position_index, 2);
    let ids: Vec<String> = store.get_sessions().iter().map(|s| s.session_id.clone()).collect();
    assert_eq!(ids, vec!["b".to_string(), "c".to_string()]);
}

#[test]
fn update_emotion_sets_only_that_session() {
    let mut store = SessionStore::new();
    store.handle_event(&event("a", HookEventType::SessionStart, None, None));
    store.handle_event(&event("b", HookEventType::SessionStart, None, None));
    store.update_emotion("b", Emotion::Happy);
    store.update_emotion("zzz", Emotion::Sob);
    let sessions = store.get_sessions();
    assert_eq!(sessions[0].emotion, Emotion::Neutral);
    assert_eq!(sessions[1].emotion, Emotion::Happy);
    assert_eq!(sessions.len(), 2);
}

#[test]
fn sleepers_after_five_minutes() {
    let mut store = SessionStore::new();
    store.handle_event(&event("working", HookEventType::PreToolUse, Some("Read"), None));
    store.handle_event(&event("waiting", HookEventType::PermissionRequest, None, None));
    store.handle_event(&event("idle", HookEventType::Stop, None, None));
    store.handle_event(&event("recent", HookEventType::UserPromptSubmit, None, None));
    store.handle_event(&event("edge", HookEventType::PreCompact, None, None));
    let five_min: u128 = 300_000_000_000;
    store.mark_sleepers(&vec![five_min + 1, five_min * 10, five_min * 10, 1, five_min]);
    let states: Vec<TaskState> = store.get_sessions().iter().map(|s| s.task_state).collect();
    assert_eq!(
        states,
        vec![TaskState::Sleeping, TaskState::Sleeping, TaskState::Idle, TaskState::Working, TaskState::Compacting]
    );
    // A sleeping session stays asleep and keeps its counters.
    store.mark_sleepers(&vec![0, 0, 0, 0, 0]);
    let s = &store.get_sessions()[0];
    assert_eq!(s.task_state, TaskState::Sleeping);
    assert_eq!(s.tool_calls, 1);
}

#[test]
fn a_new_event_wakes_a_sleeper() {
    let mut store = SessionStore::new();
    store.handle_event(&event("a", HookEventType::UserPromptSubmit, None, None));
    store.mark_sleepers(&vec![u128::MAX]);
    assert_eq!(store.get_sessions()[0].task_state, TaskState::Sleeping);
    let s = store.handle_event(&event("a", HookEventType::UserPromptSubmit, None, None));
    assert_eq!(s.task_state, TaskState::Working);
    assert_eq!(s.turns, 2);
}

#[test]
fn idle_sessions_are_forgotten_after_an_hour() {
    let mut store = SessionStore::new();
    store.handle_event(&event("old-idle", HookEventType::SessionEnd, None, None));
    store.handle_event(&event("young-idle", HookEventType::Stop, None, None));
    store.handle_event(&event("old-busy", HookEventType::PreToolUse, Some("Bash"), None));
    store.handle_event(&event("edge-idle", HookEventType::SessionStart, None, None));
    let hour: u128 = 3_600_000_000_000;
    store.retain_recent(&vec![hour * 2, hour - 1, hour * 5, hour]);
    let ids: Vec<String> = store.get_sessions().iter().map(|s| s.session_id.clone()).collect();
    assert_eq!(ids, vec!["young-idle".to_string(), "old-busy".to_string()]);
}

#[test]
fn clock_driven_checks_keep_recent_sessions() {
    let mut store = SessionStore::new();
    store.handle_event(&event("a", HookEventType::UserPromptSubmit, None, None));
    store.handle_event(&event("b", HookEventType::Stop, None, None));
    store.check_sleepers();
    store.remove_ended();
    let sessions = store.get_sessions();
    assert_eq!(sessions.len(), 2);
    assert_eq!(sessions[0].task_state, TaskState::Working);
    assert_eq!(sessions[1].task_state, TaskState::Idle);
}

#[test]
fn room_for_counters() {
    let mut store = SessionStore::new();
    let e = event("a", HookEventType::UserPromptSubmit, Some("Bash"), None);
    assert!(store.has_room_for(&e));
    store.handle_event(&e);
    assert!(store.has_room_for(&e));
}

#[test]
fn handle_event_at_records_the_time() {
    let mut store = SessionStore::new();
    let t0 = std::time::Instant::now();
    let t1 = t0 + std::time::Duration::from_secs(10);
    let s = store.handle_event_at(&event("a", HookEventType::UserPromptSubmit, None, None), t0);
    assert_eq!(s.last_activity, t0);
    let s = store.handle_event_at(&event("a", HookEventType::PreToolUse, Some("Bash"), None), t1);
    assert_eq!(s.last_activity, t1);
    assert_eq!(s.tool_calls, 1);
    assert_eq!(s.turns, 1);
    assert_eq!(s.task_state, TaskState::Working);
}
