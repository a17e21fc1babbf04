use vstd::prelude::*;
use crate::models::{HookEventType, TaskState};

verus! {

/// Decides what a session is doing from the event it last reported.
pub struct StateMachine;

/// The task state that follows an event: a prompt or a tool call means work,
/// a permission request means waiting, compaction means compacting, and the
/// start or end of a session or of an agent's turn means idle.
pub open spec fn state_after(event: HookEventType) -> TaskState {
    match event {
        HookEventType::UserPromptSubmit => TaskState::Working,
        HookEventType::SessionStart => TaskState::Idle,
        HookEventType::PreToolUse => TaskState::Working,
        HookEventType::PostToolUse => TaskState::Working,
        HookEventType::PermissionRequest => TaskState::Waiting,
        HookEventType::PreCompact => TaskState::Compacting,
        HookEventType::Stop | HookEventType::SubagentStop => TaskState::Idle,
        HookEventType::SessionEnd => TaskState::Idle,
    }
}

impl StateMachine {
    pub fn next_state(event: &HookEventType) -> (r: TaskState)
        ensures
            r == state_after(*event),
            r != TaskState::Sleeping,
    {
        match event {
            HookEventType::UserPromptSubmit => TaskState::Working,
            HookEventType::SessionStart => TaskState::Idle,
            HookEventType::PreToolUse => TaskState::Working,
            HookEventType::PostToolUse => TaskState::Working,
            HookEventType::PermissionRequest => TaskState::Waiting,
            HookEventType::PreCompact => TaskState::Compacting,
            HookEventType::Stop | HookEventType::SubagentStop => TaskState::Idle,
            HookEventType::SessionEnd => TaskState::Idle,
        }
    }
}

/// No event puts a session to sleep: only a long silence does.
pub proof fn law_no_event_means_sleep(event: HookEventType)
    ensures
        state_after(event) != TaskState::Sleeping,
{
}

/// A prompt or a tool use, before or after, puts a session to work; a permission
/// request makes it wait; compaction makes it compact; the start or end of a
/// session or of an agent's turn makes it idle.
pub proof fn law_event_states(event: HookEventType)
    ensures
        event == HookEventType::UserPromptSubmit || event == HookEventType::PreToolUse
            || event == HookEventType::PostToolUse ==> state_after(event) == TaskState::Working,
        event == HookEventType::PermissionRequest ==> state_after(event) == TaskState::Waiting,
        event == HookEventType::PreCompact ==> state_after(event) == TaskState::Compacting,
        event == HookEventType::SessionStart || event == HookEventType::Stop || event == HookEventType::SubagentStop
            || event == HookEventType::SessionEnd ==> state_after(event) == TaskState::Idle,
{
}

} // verus!
