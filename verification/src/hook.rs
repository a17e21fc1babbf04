use vstd::prelude::*;
use std::collections::HashMap;
use crate::models::{event_of_name, status_name, HookEventType, SessionStatus};
use crate::text::owned;

verus! {

/// What the coding assistant hands the hook program.
pub struct HookInput {
    pub hook_event_name: String,
    pub session_id: Option<String>,
    pub cwd: Option<String>,
    pub prompt: Option<String>,
    pub tool_name: Option<String>,
    pub tool_use_id: Option<String>,
    pub tool_input: Option<HashMap<String, serde_json::Value>>,
    pub permission_mode: Option<String>,
}

/// What the hook program forwards to the pet.
pub struct HookOutput {
    pub session_id: String,
    pub event: String,
    pub status: String,
    pub cwd: Option<String>,
    pub user_prompt: Option<String>,
    pub tool: Option<String>,
    pub tool_use_id: Option<String>,
    pub tool_input: Option<HashMap<String, serde_json::Value>>,
    pub permission_mode: Option<String>,
}

/// The status a session has after an event: prompts and finished tool calls mean
/// processing, a tool call in flight means running a tool, compaction means
/// compacting, the end of the session means ended, and the rest mean waiting for input.
pub open spec fn status_of(t: HookEventType) -> SessionStatus {
    match t {
        HookEventType::UserPromptSubmit => SessionStatus::Processing,
        HookEventType::PreCompact => SessionStatus::Compacting,
        HookEventType::SessionStart => SessionStatus::WaitingForInput,
        HookEventType::SessionEnd => SessionStatus::Ended,
        HookEventType::PreToolUse => SessionStatus::RunningTool,
        HookEventType::PostToolUse => SessionStatus::Processing,
        HookEventType::PermissionRequest => SessionStatus::WaitingForInput,
        HookEventType::Stop => SessionStatus::WaitingForInput,
        HookEventType::SubagentStop => SessionStatus::WaitingForInput,
    }
}

/// The status word for an event name; an unknown name gives the unknown status.
pub open spec fn status_text(event: Seq<char>) -> Seq<char> {
    match event_of_name(event) {
        Some(t) => status_name(status_of(t)),
        None => status_name(SessionStatus::Unknown),
    }
}

fn status_for(t: HookEventType) -> (r: SessionStatus)
    ensures
        r == status_of(t),
{
    match t {
        HookEventType::UserPromptSubmit => SessionStatus::Processing,
        HookEventType::PreCompact => SessionStatus::Compacting,
        HookEventType::SessionStart => SessionStatus::WaitingForInput,
        HookEventType::SessionEnd => SessionStatus::Ended,
        HookEventType::PreToolUse => SessionStatus::RunningTool,
        HookEventType::PostToolUse => SessionStatus::Processing,
        HookEventType::PermissionRequest => SessionStatus::WaitingForInput,
        HookEventType::Stop => SessionStatus::WaitingForInput,
        HookEventType::SubagentStop => SessionStatus::WaitingForInput,
    }
}

/// The status word the hook program reports for the event named `event`.
pub fn map_status(event: &str) -> (r: &'static str)
    ensures
        r@ == status_text(event@),
{
    match HookEventType::from_name(event) {
        Some(t) => status_for(t).as_str(),
        None => SessionStatus::Unknown.as_str(),
    }
}

/// The message for the pet made from what the assistant handed the hook: a missing
/// session identifier reads as "unknown", the status follows the event, and the
/// rest is passed on.
pub fn build_hook_output(input: HookInput) -> (r: HookOutput)
    ensures
        r.session_id@ == (match input.session_id {
            Some(s) => s@,
            None => "unknown"@,
        }),
        r.event@ == input.hook_event_name@,
        r.status@ == status_text(input.hook_event_name@),
        r.cwd == input.cwd,
        r.user_prompt == input.prompt,
        r.tool == input.tool_name,
        r.tool_use_id == input.tool_use_id,
        r.tool_input == input.tool_input,
        r.permission_mode == input.permission_mode,
{
    let session_id = match input.session_id {
        Some(s) => s,
        None => owned("unknown"),
    };
    let status = owned(map_status(input.hook_event_name.as_str()));
    HookOutput {
        session_id,
        event: input.hook_event_name,
        status,
        cwd: input.cwd,
        user_prompt: input.prompt,
        tool: input.tool_name,
        tool_use_id: input.tool_use_id,
        tool_input: input.tool_input,
        permission_mode: input.permission_mode,
    }
}

/// Every status word the hook program sends is the word of a session status, so
/// the pet can always read it back.
pub proof fn law_status_reads_back(event: Seq<char>)
    ensures
        exists|s: SessionStatus| #[trigger] status_name(s) == status_text(event),
{
    match event_of_name(event) {
        Some(t) => {
            assert(status_name(status_of(t)) == status_text(event));
        },
        None => {
            assert(status_name(SessionStatus::Unknown) == status_text(event));
        },
    }
}

} // verus!
