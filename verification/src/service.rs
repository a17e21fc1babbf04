use vstd::prelude::*;
use crate::models::{HookEvent, HookEventType};
use std::time::Instant;
use crate::clock::unix_seconds_now;
use crate::session::{has_room, store_wf, event_taken, event_taken_at, taken_index, SessionStore, StoreView};
use crate::stats::{contains_key, stats_wf, tool_call_recorded_at, turn_recorded_at, StatsCollector, StatsView};

verus! {

/// The counters that `event` would raise, in the sessions and in the totals,
/// are below their limits.
pub open spec fn event_fits(sessions: StoreView, stats: StatsView, e: HookEvent) -> bool {
    let prompt = e.event == HookEventType::UserPromptSubmit;
    let tool = e.tool is Some;
    let new_session = !contains_key(stats.sessions, e.session_id@);
    &&& has_room(sessions, e)
    &&& prompt ==> stats.aggregate.total_turns < u32::MAX
    &&& tool ==> stats.aggregate.total_tool_calls < u32::MAX
    &&& (prompt || tool) && new_session ==> stats.aggregate.total_sessions < u32::MAX
}

/// `new` is `old` with what `e` counts: a prompt counts a turn, then a tool
/// named in the event counts a call of it; a session first seen starts at `start`.
pub open spec fn event_counted_at(old: StatsView, new: StatsView, e: HookEvent, start: u64) -> bool {
    let prompt = e.event == HookEventType::UserPromptSubmit;
    match e.tool {
        Some(t) => if prompt {
            exists|mid: StatsView| #[trigger] turn_recorded_at(old, mid, e.session_id@, start)
                && tool_call_recorded_at(mid, new, e.session_id@, t@, start)
        } else {
            tool_call_recorded_at(old, new, e.session_id@, t@, start)
        },
        None => if prompt { turn_recorded_at(old, new, e.session_id@, start) } else { new == old },
    }
}

/// `new` is `old` with what `e` counts, a session first seen starting at some time.
pub open spec fn event_counted(old: StatsView, new: StatsView, e: HookEvent) -> bool {
    exists|start: u64| #[trigger] event_counted_at(old, new, e, start)
}

/// What an event adds to the totals: a prompt adds one turn, a tool named in the
/// event adds one tool call, an event with neither adds nothing, and a session
/// that counts something for the first time adds one session.
pub proof fn law_event_adds_to_totals(old: StatsView, new: StatsView, e: HookEvent, start: u64)
    requires
        event_counted_at(old, new, e, start),
    ensures
        new.aggregate.total_turns == old.aggregate.total_turns
            + (if e.event == HookEventType::UserPromptSubmit { 1int } else { 0int }),
        new.aggregate.total_tool_calls == old.aggregate.total_tool_calls + (if e.tool is Some { 1int } else { 0int }),
        new.aggregate.total_sessions == old.aggregate.total_sessions
            + (if (e.event == HookEventType::UserPromptSubmit || e.tool is Some)
                && !contains_key(old.sessions, e.session_id@) { 1int } else { 0int }),
{
    if e.tool is Some && e.event == HookEventType::UserPromptSubmit {
        let mid = choose|mid: StatsView| #[trigger] turn_recorded_at(old, mid, e.session_id@, start)
            && tool_call_recorded_at(mid, new, e.session_id@, e.tool->0@, start);
        crate::stats::lemma_turn_keeps_tool_room(old, mid, e.session_id@, start);
    }
}

/// Whether `event` can be taken in without a counter passing its limit.
pub fn event_fits_now(sessions: &SessionStore, stats: &StatsCollector, event: &HookEvent) -> (r: bool)
    ensures
        r == event_fits(sessions@, stats@, *event),
{
    let prompt = event.event == HookEventType::UserPromptSubmit;
    let tool = event.tool.is_some();
    let agg = stats.get_aggregate();
    sessions.has_room_for(event)
        && (!prompt || agg.total_turns < u32::MAX)
        && (!tool || agg.total_tool_calls < u32::MAX)
        && (!(prompt || tool) || stats.knows_session(event.session_id.as_str()) || agg.total_sessions < u32::MAX)
}

/// Takes in a hook event at time `now` (`start` in seconds since the Unix
/// epoch): the session it names follows it and records `now`, and its prompt
/// and tool call are counted. Returns whether the event carries a prompt whose
/// emotion is to be analysed.
pub fn take_event_at(
    sessions: &mut SessionStore,
    stats: &mut StatsCollector,
    event: &HookEvent,
    now: Instant,
    start: u64,
) -> (analyse: bool)
    requires
        event_fits(old(sessions)@, old(stats)@, *event),
    ensures
        store_wf(final(sessions)@),
        stats_wf(final(stats)@),
        event_taken_at(old(sessions)@, final(sessions)@, *event, now),
        final(sessions)@.sessions[taken_index(old(sessions)@, *event)].last_activity == now,
        event_counted_at(old(stats)@, final(stats)@, *event, start),
        analyse == event.user_prompt is Some,
{
    sessions.handle_event_at(event, now);
    // Reading the totals brings in that the counts are well formed, for an event that counts nothing.
    let _totals = stats.get_aggregate();
    let ghost before = stats@;
    if event.event == HookEventType::UserPromptSubmit {
        stats.record_turn_at(event.session_id.as_str(), start);
    }
    let ghost mid = stats@;
    match &event.tool {
        Some(tool) => {
            proof {
                if event.event == HookEventType::UserPromptSubmit {
                    crate::stats::lemma_turn_keeps_tool_room(before, mid, event.session_id@, start);
                }
            }
            stats.record_tool_call_at(event.session_id.as_str(), tool.as_str(), start);
            proof {
                if event.event == HookEventType::UserPromptSubmit {
                    assert(turn_recorded_at(before, mid, event.session_id@, start));
                }
            }
        },
        None => {},
    }
    event.user_prompt.is_some()
}

/// Takes in a hook event now (see `take_event_at`).
pub fn take_event(sessions: &mut SessionStore, stats: &mut StatsCollector, event: &HookEvent) -> (analyse: bool)
    requires
        event_fits(old(sessions)@, old(stats)@, *event),
    ensures
        store_wf(final(sessions)@),
        stats_wf(final(stats)@),
        event_taken(old(sessions)@, final(sessions)@, *event),
        event_counted(old(stats)@, final(stats)@, *event),
        analyse == event.user_prompt is Some,
{
    let now = Instant::now();
    let start = unix_seconds_now();
    let analyse = take_event_at(sessions, stats, event, now, start);
    assert(event_counted_at(old(stats)@, stats@, *event, start));
    analyse
}

} // verus!
