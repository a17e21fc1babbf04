use clawbit::hook::{build_hook_output, map_status, HookInput};
use clawbit::models::{Emotion, HookEventType, SessionStatus, TaskState};
use clawbit::state::StateMachine;

#[test]
fn event_names_read_back() {
    for t in HookEventType::all() {
        assert_eq!(HookEventType::from_name(t.name()), Some(t));
    }
    assert_eq!(HookEventType::all().len(), 9);
    assert_eq!(HookEventType::from_name("Notification"), None);
    assert_eq!(HookEventType::from_name("stop"), None);
    assert_eq!(HookEventType::from_name(""), None);
}

#[test]
fn map_status_follows_the_event() {
    assert_eq!(map_status("UserPromptSubmit"), "processing");
    assert_eq!(map_status("PreCompact"), "compacting");
    assert_eq!(map_status("SessionStart"), "waiting_for_input");
    assert_eq!(map_status("SessionEnd"), "ended");
    assert_eq!(map_status("PreToolUse"), "running_tool");
    assert_eq!(map_status("PostToolUse"), "processing");
    assert_eq!(map_status("PermissionRequest"), "waiting_for_input");
    assert_eq!(map_status("Stop"), "waiting_for_input");
    assert_eq!(map_status("SubagentStop"), "waiting_for_input");
    assert_eq!(map_status("Notification"), "unknown");
    assert_eq!(map_status(""), "unknown");
}

#[test]
fn status_words() {
    assert_eq!(SessionStatus::Processing.as_str(), "processing");
    assert_eq!(SessionStatus::WaitingForInput.as_str(), "waiting_for_input");
    assert_eq!(SessionStatus::RunningTool.as_str(), "running_tool");
    assert_eq!(SessionStatus::Compacting.as_str(), "compacting");
    assert_eq!(SessionStatus::Ended.as_str(), "ended");
    assert_eq!(SessionStatus::Unknown.as_str(), "unknown");
}

#[test]
fn next_state_per_event() {
    assert_eq!(StateMachine::next_state(&HookEventType::UserPromptSubmit), TaskState::Working);
    assert_eq!(StateMachine::next_state(&HookEventType::SessionStart), TaskState::Idle);
    assert_eq!(StateMachine::next_state(&HookEventType::PreToolUse), TaskState::Working);
    assert_eq!(StateMachine::next_state(&HookEventType::PostToolUse), TaskState::Working);
    assert_eq!(StateMachine::next_state(&HookEventType::PermissionRequest), TaskState::Waiting);
    assert_eq!(StateMachine::next_state(&HookEventType::PreCompact), TaskState::Compacting);
    assert_eq!(StateMachine::next_state(&HookEventType::Stop), TaskState::Idle);
    assert_eq!(StateMachine::next_state(&HookEventType::SubagentStop), TaskState::Idle);
    assert_eq!(StateMachine::next_state(&HookEventType::SessionEnd), TaskState::Idle);
}

#[test]
fn no_event_puts_a_session_to_sleep() {
    for t in HookEventType::all() {
        assert_ne!(StateMachine::next_state(&t), TaskState::Sleeping);
    }
}

#[test]
fn defaults() {
    assert_eq!(TaskState::default(), TaskState::Idle);
    assert_eq!(Emotion::default(), Emotion::Neutral);
}

fn input(name: &str, session: Option<&str>) -> HookInput {
    HookInput {
        hook_event_name: name.to_string(),
        session_id: session.map(|s| s.to_string()),
        cwd: Some("/work".to_string()),
        prompt: Some("hello".to_string()),
        tool_name: Some("Bash".to_string()),
        tool_use_id: Some("t1".to_string()),
        tool_input: None,
        permission_mode: Some("default".to_string()),
    }
}

#[test]
fn hook_output_passes_fields_on() {
    let out = build_hook_output(input("PreToolUse", Some("abc")));
    assert_eq!(out.session_id, "abc");
    assert_eq!(out.event, "PreToolUse");
    assert_eq!(out.status, "running_tool");
    assert_eq!(out.cwd.as_deref(), Some("/work"));
    assert_eq!(out.user_prompt.as_deref(), Some("hello"));
    assert_eq!(out.tool.as_deref(), Some("Bash"));
    assert_eq!(out.tool_use_id.as_deref(), Some("t1"));
    assert!(out.tool_input.is_none());
    assert_eq!(out.permission_mode.as_deref(), Some("default"));
}

#[test]
fn hook_output_without_session_reads_unknown() {
    let out = build_hook_output(input("Whatever", None));
    assert_eq!(out.session_id, "unknown");
    assert_eq!(out.event, "Whatever");
    assert_eq!(out.status, "unknown");
}

#[test]
fn every_status_word_reads_back() {
    let words = ["processing", "waiting_for_input", "running_tool", "compacting", "ended", "unknown"];
    for name in ["UserPromptSubmit", "SessionStart", "PreToolUse", "PostToolUse", "PermissionRequest", "PreCompact", "Stop", "SubagentStop", "SessionEnd", "Other", ""] {
        assert!(words.contains(&map_status(name)), "{}", name);
    }
}
