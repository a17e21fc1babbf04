use vstd::prelude::*;
use crate::text::text_eq;
use std::collections::HashMap;

verus! {

/// The kinds of hook events that the coding assistant reports.
#[derive(Debug, Clone, Copy, PartialEq, Eq, Structural)]
pub enum HookEventType {
    UserPromptSubmit,
    SessionStart,
    PreToolUse,
    PostToolUse,
    PermissionRequest,
    PreCompact,
    Stop,
    SubagentStop,
    SessionEnd,
}

/// The session status that the hook program attaches to each event.
#[derive(Debug, Clone, Copy, PartialEq, Eq, Structural)]
pub enum SessionStatus {
    Processing,
    WaitingForInput,
    RunningTool,
    Compacting,
    Ended,
    Unknown,
}

/// What the pet shows a session to be doing.
#[derive(Debug, Clone, Copy, PartialEq, Eq, Structural)]
pub enum TaskState {
    Idle,
    Working,
    Sleeping,
    Compacting,
    Waiting,
}

/// The mood the pet shows for a session.
#[derive(Debug, Clone, Copy, PartialEq, Eq, Structural)]
pub enum Emotion {
    Neutral,
    Happy,
    Sad,
    Sob,
}

impl Default for TaskState {
    fn default() -> (r: Self)
        ensures
            r == TaskState::Idle,
    {
        TaskState::Idle
    }
}

impl Default for Emotion {
    fn default() -> (r: Self)
        ensures
            r == Emotion::Neutral,
    {
        Emotion::Neutral
    }
}

/// A parsed JSON value, carried through the library untouched.
#[verifier::external_type_specification]
#[verifier::external_body]
pub struct ExJsonValue(serde_json::Value);

/// An event that the hook program forwards to the pet.
#[derive(Debug, Clone)]
pub struct HookEvent {
    pub session_id: String,
    pub event: HookEventType,
    pub status: SessionStatus,
    pub cwd: Option<String>,
    pub user_prompt: Option<String>,
    pub tool: Option<String>,
    pub tool_use_id: Option<String>,
    pub tool_input: Option<HashMap<String, serde_json::Value>>,
    pub permission_mode: Option<String>,
}

/// The text held by an optional string.
pub open spec fn opt_text(o: Option<String>) -> Option<Seq<char>> {
    match o {
        Some(s) => Some(s@),
        None => None,
    }
}

/// The name under which an event type is written, in hook settings and on the wire.
pub open spec fn event_name(t: HookEventType) -> Seq<char> {
    match t {
        HookEventType::UserPromptSubmit => "UserPromptSubmit"@,
        HookEventType::SessionStart => "SessionStart"@,
        HookEventType::PreToolUse => "PreToolUse"@,
        HookEventType::PostToolUse => "PostToolUse"@,
        HookEventType::PermissionRequest => "PermissionRequest"@,
        HookEventType::PreCompact => "PreCompact"@,
        HookEventType::Stop => "Stop"@,
        HookEventType::SubagentStop => "SubagentStop"@,
        HookEventType::SessionEnd => "SessionEnd"@,
    }
}

/// The event type that a name stands for, if any.
pub open spec fn event_of_name(name: Seq<char>) -> Option<HookEventType> {
    if name == "UserPromptSubmit"@ {
        Some(HookEventType::UserPromptSubmit)
    } else if name == "SessionStart"@ {
        Some(HookEventType::SessionStart)
    } else if name == "PreToolUse"@ {
        Some(HookEventType::PreToolUse)
    } else if name == "PostToolUse"@ {
        Some(HookEventType::PostToolUse)
    } else if name == "PermissionRequest"@ {
        Some(HookEventType::PermissionRequest)
    } else if name == "PreCompact"@ {
        Some(HookEventType::PreCompact)
    } else if name == "Stop"@ {
        Some(HookEventType::Stop)
    } else if name == "SubagentStop"@ {
        Some(HookEventType::SubagentStop)
    } else if name == "SessionEnd"@ {
        Some(HookEventType::SessionEnd)
    } else {
        None
    }
}

/// Every event type, in the order in which hooks are installed.
pub open spec fn all_events() -> Seq<HookEventType> {
    seq![
        HookEventType::UserPromptSubmit,
        HookEventType::SessionStart,
        HookEventType::PreToolUse,
        HookEventType::PostToolUse,
        HookEventType::PermissionRequest,
        HookEventType::PreCompact,
        HookEventType::Stop,
        HookEventType::SubagentStop,
        HookEventType::SessionEnd,
    ]
}

/// The status word of a session status, as it travels between the hook and the pet.
pub open spec fn status_name(s: SessionStatus) -> Seq<char> {
    match s {
        SessionStatus::Processing => "processing"@,
        SessionStatus::WaitingForInput => "waiting_for_input"@,
        SessionStatus::RunningTool => "running_tool"@,
        SessionStatus::Compacting => "compacting"@,
        SessionStatus::Ended => "ended"@,
        SessionStatus::Unknown => "unknown"@,
    }
}

/// Event names are pairwise distinct, so a name stands for exactly one event type.
pub proof fn lemma_event_names_distinct()
    ensures
        forall|t: HookEventType| #[trigger] event_of_name(event_name(t)) == Some(t),
{
    reveal_strlit("UserPromptSubmit");
    reveal_strlit("SessionStart");
    reveal_strlit("PreToolUse");
    reveal_strlit("PostToolUse");
    reveal_strlit("PermissionRequest");
    reveal_strlit("PreCompact");
    reveal_strlit("Stop");
    reveal_strlit("SubagentStop");
    reveal_strlit("SessionEnd");
    assert forall|t: HookEventType| #[trigger] event_of_name(event_name(t)) == Some(t) by {
        let n = event_name(t);
        assert("UserPromptSubmit"@.len() == 16);
        assert("SessionStart"@.len() == 12);
        assert("PreToolUse"@.len() == 10);
        assert("PostToolUse"@.len() == 11);
        assert("PermissionRequest"@.len() == 17);
        assert("PreCompact"@.len() == 10);
        assert("Stop"@.len() == 4);
        assert("SubagentStop"@.len() == 12);
        assert("SessionEnd"@.len() == 10);
        assert("SessionStart"@[1] != "SubagentStop"@[1]);
        assert("PreToolUse"@[3] != "PreCompact"@[3]);
        assert("PreToolUse"@[0] != "SessionEnd"@[0]);
        assert("PreCompact"@[0] != "SessionEnd"@[0]);
    }
}

/// A name that stands for an event type is that type's name.
pub proof fn lemma_event_of_name_inverse(name: Seq<char>)
    ensures
        event_of_name(name) is Some ==> event_name(event_of_name(name)->0) == name,
{
}

impl HookEventType {
    /// The name under which this event type is written.
    pub fn name(&self) -> (r: &'static str)
        ensures
            r@ == event_name(*self),
    {
        match self {
            HookEventType::UserPromptSubmit => "UserPromptSubmit",
            HookEventType::SessionStart => "SessionStart",
            HookEventType::PreToolUse => "PreToolUse",
            HookEventType::PostToolUse => "PostToolUse",
            HookEventType::PermissionRequest => "PermissionRequest",
            HookEventType::PreCompact => "PreCompact",
            HookEventType::Stop => "Stop",
            HookEventType::SubagentStop => "SubagentStop",
            HookEventType::SessionEnd => "SessionEnd",
        }
    }

    /// The event type written under `name`, if any.
    pub fn from_name(name: &str) -> (r: Option<HookEventType>)
        ensures
            r == event_of_name(name@),
    {
        if text_eq(name, "UserPromptSubmit") {
            Some(HookEventType::UserPromptSubmit)
        } else if text_eq(name, "SessionStart") {
            Some(HookEventType::SessionStart)
        } else if text_eq(name, "PreToolUse") {
            Some(HookEventType::PreToolUse)
        } else if text_eq(name, "PostToolUse") {
            Some(HookEventType::PostToolUse)
        } else if text_eq(name, "PermissionRequest") {
            Some(HookEventType::PermissionRequest)
        } else if text_eq(name, "PreCompact") {
            Some(HookEventType::PreCompact)
        } else if text_eq(name, "Stop") {
            Some(HookEventType::Stop)
        } else if text_eq(name, "SubagentStop") {
            Some(HookEventType::SubagentStop)
        } else if text_eq(name, "SessionEnd") {
            Some(HookEventType::SessionEnd)
        } else {
            None
        }
    }

    /// Every event type, in the order in which hooks are installed.
    pub fn all() -> (r: Vec<HookEventType>)
        ensures
            r@ == all_events(),
    {
        let mut v: Vec<HookEventType> = Vec::new();
        v.push(HookEventType::UserPromptSubmit);
        v.push(HookEventType::SessionStart);
        v.push(HookEventType::PreToolUse);
        v.push(HookEventType::PostToolUse);
        v.push(HookEventType::PermissionRequest);
        v.push(HookEventType::PreCompact);
        v.push(HookEventType::Stop);
        v.push(HookEventType::SubagentStop);
        v.push(HookEventType::SessionEnd);
        assert(v@ =~= all_events());
        v
    }
}

impl SessionStatus {
    /// The status word of this status.
    pub fn as_str(&self) -> (r: &'static str)
        ensures
            r@ == status_name(*self),
    {
        match self {
            SessionStatus::Processing => "processing",
            SessionStatus::WaitingForInput => "waiting_for_input",
            SessionStatus::RunningTool => "running_tool",
            SessionStatus::Compacting => "compacting",
            SessionStatus::Ended => "ended",
            SessionStatus::Unknown => "unknown",
        }
    }
}

} // verus!
