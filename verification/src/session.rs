use vstd::prelude::*;
use std::time::Instant;
use crate::clock::nanos_since;
use crate::models::{opt_text, Emotion, HookEvent, HookEventType, TaskState};
use crate::state::{state_after, StateMachine};
use crate::text::text_eq;

verus! {

/// What the pet knows of one session of the coding assistant.
#[derive(Debug)]
pub struct SessionData {
    pub session_id: String,
    pub task_state: TaskState,
    pub emotion: Emotion,
    pub cwd: Option<String>,
    pub tool_calls: u32,
    pub turns: u32,
    pub last_activity: Instant,
    pub position_index: usize,
}

/// The value of a session record.
pub struct SessionView {
    pub session_id: Seq<char>,
    pub task_state: TaskState,
    pub emotion: Emotion,
    pub cwd: Option<Seq<char>>,
    pub tool_calls: u32,
    pub turns: u32,
    pub last_activity: Instant,
    pub position_index: usize,
}

impl View for SessionData {
    type V = SessionView;

    open spec fn view(&self) -> SessionView {
        SessionView {
            session_id: self.session_id@,
            task_state: self.task_state,
            emotion: self.emotion,
            cwd: opt_text(self.cwd),
            tool_calls: self.tool_calls,
            turns: self.turns,
            last_activity: self.last_activity,
            position_index: self.position_index,
        }
    }
}

/// The sessions the pet follows, each once, in the order they first reported.
pub struct SessionStore {
    state: StoreState,
}

/// The sessions of a store and the position the next new session will get.
/// The sessions are held in a `Vec` whose identifiers are distinct, in place of
/// a `HashMap` keyed by `String`: with `String` keys the specifications of std's
/// `HashMap` in vstd do not let a lookup or an insertion be proved.
struct StoreState {
    sessions: Vec<SessionData>,
    next_position: usize,
}

/// The value of a session store: its sessions, and the position the next new
/// session will get.
pub struct StoreView {
    pub sessions: Seq<SessionView>,
    pub next_position: usize,
}

impl View for StoreState {
    type V = StoreView;

    closed spec fn view(&self) -> StoreView {
        StoreView { sessions: self.sessions@.map_values(|s: SessionData| s@), next_position: self.next_position }
    }
}

impl View for SessionStore {
    type V = StoreView;

    closed spec fn view(&self) -> StoreView {
        self.state@
    }
}

impl SessionStore {
    /// Every session store is well formed (see `store_wf`).
    #[verifier::type_invariant]
    closed spec fn well_formed(self) -> bool {
        store_wf(self.state@)
    }
}

/// No two sessions share an identifier.
pub open spec fn ids_distinct(ss: Seq<SessionView>) -> bool {
    forall|i: int, j: int|
        0 <= i < ss.len() && 0 <= j < ss.len() && i != j ==> #[trigger] ss[i].session_id != #[trigger] ss[j].session_id
}

/// Every session has its own position on screen, below the next one to be given out.
pub open spec fn positions_distinct(v: StoreView) -> bool {
    &&& forall|i: int| 0 <= i < v.sessions.len() ==> #[trigger] v.sessions[i].position_index < v.next_position
    &&& forall|i: int, j: int|
        0 <= i < v.sessions.len() && 0 <= j < v.sessions.len() && i != j
            ==> #[trigger] v.sessions[i].position_index != #[trigger] v.sessions[j].position_index
}

/// What every session store keeps.
pub open spec fn store_wf(v: StoreView) -> bool {
    ids_distinct(v.sessions) && positions_distinct(v)
}

pub open spec fn has_session(ss: Seq<SessionView>, id: Seq<char>) -> bool {
    exists|i: int| 0 <= i < ss.len() && #[trigger] ss[i].session_id == id
}

/// Where the session `id` stands among `ss`.
pub open spec fn session_index(ss: Seq<SessionView>, id: Seq<char>) -> int {
    choose|i: int| 0 <= i < ss.len() && #[trigger] ss[i].session_id == id
}

/// A session as first seen in event `e`, at screen position `pos`.
pub open spec fn fresh_session(e: HookEvent, pos: usize, t: Instant) -> SessionView {
    SessionView {
        session_id: e.session_id@,
        task_state: TaskState::Idle,
        emotion: Emotion::Neutral,
        cwd: opt_text(e.cwd),
        tool_calls: 0,
        turns: 0,
        last_activity: t,
        position_index: pos,
    }
}

/// A session after event `e` at time `t`: its state follows the event, a tool
/// use counts a tool call, a prompt counts a turn, and a working directory in
/// the event replaces the one known.
pub open spec fn apply_event(s: SessionView, e: HookEvent, t: Instant) -> SessionView {
    SessionView {
        task_state: state_after(e.event),
        last_activity: t,
        tool_calls: if e.tool is Some { (s.tool_calls + 1) as u32 } else { s.tool_calls },
        turns: if e.event == HookEventType::UserPromptSubmit { (s.turns + 1) as u32 } else { s.turns },
        cwd: if e.cwd is Some { opt_text(e.cwd) } else { s.cwd },
        ..s
    }
}

/// The counters an event would raise are below their limit, and a new session
/// would still get a position.
pub open spec fn has_room(v: StoreView, e: HookEvent) -> bool {
    if has_session(v.sessions, e.session_id@) {
        let s = v.sessions[session_index(v.sessions, e.session_id@)];
        &&& e.tool is Some ==> s.tool_calls < u32::MAX
        &&& e.event == HookEventType::UserPromptSubmit ==> s.turns < u32::MAX
    } else {
        v.next_position < usize::MAX
    }
}

/// Nanoseconds of silence after which a working or waiting session falls asleep.
pub open spec fn sleep_after_nanos() -> u128 {
    300_000_000_000
}

/// Nanoseconds after which an idle session is forgotten.
pub open spec fn forget_after_nanos() -> u128 {
    3_600_000_000_000
}

/// A session silent for `elapsed` nanoseconds falls asleep: it has been silent
/// for more than five minutes and is neither idle nor already asleep.
pub open spec fn falls_asleep(s: SessionView, elapsed: u128) -> bool {
    elapsed > sleep_after_nanos() && s.task_state != TaskState::Sleeping && s.task_state != TaskState::Idle
}

/// A session silent for `elapsed` nanoseconds is kept: it is not idle, or it
/// has been silent for less than an hour.
pub open spec fn is_kept(s: SessionView, elapsed: u128) -> bool {
    s.task_state != TaskState::Idle || elapsed < forget_after_nanos()
}

/// The sessions after sleepers are marked, session `i` having been silent for `elapsed[i]`.
pub open spec fn asleep_marked(ss: Seq<SessionView>, elapsed: Seq<u128>) -> Seq<SessionView> {
    Seq::new(ss.len(), |i: int|
        if falls_asleep(ss[i], elapsed[i]) { SessionView { task_state: TaskState::Sleeping, ..ss[i] } } else { ss[i] })
}

/// The sessions kept, in order, session `i` having been silent for `elapsed[i]`.
pub open spec fn kept_sessions(ss: Seq<SessionView>, elapsed: Seq<u128>) -> Seq<SessionView>
    decreases ss.len(),
{
    if ss.len() == 0 {
        seq![]
    } else {
        let rest = kept_sessions(ss.drop_last(), elapsed.take(ss.len() - 1));
        if is_kept(ss.last(), elapsed[ss.len() - 1]) {
            rest.push(ss.last())
        } else {
            rest
        }
    }
}

/// Where the session an event names stands after the event is taken in.
pub open spec fn taken_index(old: StoreView, e: HookEvent) -> int {
    if has_session(old.sessions, e.session_id@) {
        session_index(old.sessions, e.session_id@)
    } else {
        old.sessions.len() as int
    }
}

/// `new` is `old` after event `e`, taken in at time `now`: the session `e`
/// names, created at the next position if it is new, follows the event (see
/// `apply_event`), and its last activity is `now`.
pub open spec fn event_taken_at(old: StoreView, new: StoreView, e: HookEvent, now: Instant) -> bool {
    let ss = old.sessions;
    let id = e.session_id@;
    if has_session(ss, id) {
        let i = session_index(ss, id);
        &&& new.next_position == old.next_position
        &&& new.sessions == ss.update(i, apply_event(ss[i], e, now))
    } else {
        &&& new.next_position == old.next_position + 1
        &&& new.sessions == ss.push(apply_event(fresh_session(e, old.next_position, now), e, now))
    }
}

/// `new` is `old` after event `e`, taken in at the time its session now records.
pub open spec fn event_taken(old: StoreView, new: StoreView, e: HookEvent) -> bool {
    event_taken_at(old, new, e, new.sessions[taken_index(old, e)].last_activity)
}

/// Two stores whose sessions carry the same identifiers and positions, in the
/// same order, with the same next position, are both well formed or neither.
pub proof fn lemma_wf_same_keys(v: StoreView, w: StoreView)
    requires
        store_wf(v),
        w.sessions.len() == v.sessions.len(),
        w.next_position == v.next_position,
        forall|i: int| 0 <= i < v.sessions.len() ==> (#[trigger] w.sessions[i]).session_id == v.sessions[i].session_id
            && w.sessions[i].position_index == v.sessions[i].position_index,
    ensures
        store_wf(w),
{
    assert forall|i: int, j: int| 0 <= i < w.sessions.len() && 0 <= j < w.sessions.len() && i != j
        implies #[trigger] w.sessions[i].session_id != #[trigger] w.sessions[j].session_id by {
        assert(v.sessions[i].session_id != v.sessions[j].session_id);
    }
    assert forall|i: int, j: int| 0 <= i < w.sessions.len() && 0 <= j < w.sessions.len() && i != j
        implies #[trigger] w.sessions[i].position_index != #[trigger] w.sessions[j].position_index by {
        assert(v.sessions[i].position_index != v.sessions[j].position_index);
    }
    assert forall|i: int| 0 <= i < w.sessions.len() implies #[trigger] w.sessions[i].position_index < w.next_position by {
        assert(v.sessions[i].position_index < v.next_position);
    }
}

/// Taking in an event keeps a store well formed.
pub proof fn lemma_event_taken_wf(old: StoreView, new: StoreView, e: HookEvent, now: Instant)
    requires
        store_wf(old),
        event_taken_at(old, new, e, now),
    ensures
        store_wf(new),
        new.next_position >= old.next_position,
{
    let ss = old.sessions;
    if has_session(ss, e.session_id@) {
        let i = session_index(ss, e.session_id@);
        assert forall|k: int| 0 <= k < ss.len() implies (#[trigger] new.sessions[k]).session_id == ss[k].session_id
            && new.sessions[k].position_index == ss[k].position_index by {
        }
        lemma_wf_same_keys(old, new);
    } else {
        let n = ss.len() as int;
        let w = new.sessions;
        assert(w[n].position_index == old.next_position);
        assert(w[n].session_id == e.session_id@);
        assert forall|i: int, j: int| 0 <= i < w.len() && 0 <= j < w.len() && i != j
            implies #[trigger] w[i].session_id != #[trigger] w[j].session_id by {
            if i < n && j < n {
                assert(w[i] == ss[i] && w[j] == ss[j]);
            } else if i < n {
                assert(w[i] == ss[i]);
            } else {
                assert(w[j] == ss[j]);
            }
        }
        assert forall|i: int, j: int| 0 <= i < w.len() && 0 <= j < w.len() && i != j
            implies #[trigger] w[i].position_index != #[trigger] w[j].position_index by {
            if i < n && j < n {
                assert(w[i] == ss[i] && w[j] == ss[j]);
            } else if i < n {
                assert(w[i] == ss[i]);
            } else {
                assert(w[j] == ss[j]);
            }
        }
        assert forall|i: int| 0 <= i < w.len() implies #[trigger] w[i].position_index < new.next_position by {
            if i < n {
                assert(w[i] == ss[i]);
            }
        }
    }
}

/// The sessions with the emotion of session `id` set to `emotion`, if there is one.
pub open spec fn with_emotion(ss: Seq<SessionView>, id: Seq<char>, emotion: Emotion) -> Seq<SessionView> {
    if has_session(ss, id) {
        let i = session_index(ss, id);
        ss.update(i, SessionView { emotion: emotion, ..ss[i] })
    } else {
        ss
    }
}

/// `b` follows from `a` by one operation of the store: an event taken in,
/// sleepers marked, old sessions forgotten, or an emotion set.
pub open spec fn store_step(a: StoreView, b: StoreView) -> bool {
    ||| exists|e: HookEvent, now: Instant| #[trigger] event_taken_at(a, b, e, now)
    ||| exists|el: Seq<u128>| el.len() == a.sessions.len()
        && b == (StoreView { sessions: #[trigger] asleep_marked(a.sessions, el), next_position: a.next_position })
    ||| exists|el: Seq<u128>| el.len() == a.sessions.len()
        && b == (StoreView { sessions: #[trigger] kept_sessions(a.sessions, el), next_position: a.next_position })
    ||| exists|id: Seq<char>, em: Emotion|
        b == (StoreView { sessions: #[trigger] with_emotion(a.sessions, id, em), next_position: a.next_position })
}

/// A session of `b` that was already in `a`, with the same identifier and position.
pub open spec fn carried_over(a: StoreView, t: SessionView) -> bool {
    exists|j: int| 0 <= j < a.sessions.len() && #[trigger] a.sessions[j].session_id == t.session_id
        && a.sessions[j].position_index == t.position_index
}

/// One operation keeps a store well formed, never lowers the next position, and
/// every session after it was there before or has the position that was next.
pub proof fn lemma_store_step(a: StoreView, b: StoreView)
    requires
        store_wf(a),
        store_step(a, b),
    ensures
        store_wf(b),
        a.next_position <= b.next_position,
        forall|i: int| 0 <= i < b.sessions.len() ==> carried_over(a, #[trigger] b.sessions[i])
            || b.sessions[i].position_index == a.next_position,
{
    if exists|e: HookEvent, now: Instant| #[trigger] event_taken_at(a, b, e, now) {
        let (e, now) = choose|e: HookEvent, now: Instant| #[trigger] event_taken_at(a, b, e, now);
        lemma_event_taken_wf(a, b, e, now);
        let ss = a.sessions;
        assert forall|i: int| 0 <= i < b.sessions.len() implies carried_over(a, #[trigger] b.sessions[i])
            || b.sessions[i].position_index == a.next_position by {
            if i < ss.len() {
                assert(b.sessions[i].session_id == ss[i].session_id);
                assert(b.sessions[i].position_index == ss[i].position_index);
            }
        }
    } else if exists|el: Seq<u128>| el.len() == a.sessions.len()
        && b == (StoreView { sessions: #[trigger] asleep_marked(a.sessions, el), next_position: a.next_position }) {
        let el = choose|el: Seq<u128>| el.len() == a.sessions.len()
            && b == (StoreView { sessions: #[trigger] asleep_marked(a.sessions, el), next_position: a.next_position });
        lemma_wf_same_keys(a, b);
        assert forall|i: int| 0 <= i < b.sessions.len() implies carried_over(a, #[trigger] b.sessions[i]) by {
            assert(a.sessions[i].session_id == b.sessions[i].session_id);
        }
    } else if exists|el: Seq<u128>| el.len() == a.sessions.len()
        && b == (StoreView { sessions: #[trigger] kept_sessions(a.sessions, el), next_position: a.next_position }) {
        let el = choose|el: Seq<u128>| el.len() == a.sessions.len()
            && b == (StoreView { sessions: #[trigger] kept_sessions(a.sessions, el), next_position: a.next_position });
        lemma_kept_wf(a, el);
        lemma_kept_from(a.sessions, el);
        assert forall|i: int| 0 <= i < b.sessions.len() implies carried_over(a, #[trigger] b.sessions[i]) by {
            let j = choose|j: int| 0 <= j < a.sessions.len() && a.sessions[j] == #[trigger] kept_sessions(a.sessions, el)[i];
            assert(a.sessions[j].session_id == b.sessions[i].session_id);
        }
    } else {
        let (id, em) = choose|id: Seq<char>, em: Emotion|
            b == (StoreView { sessions: #[trigger] with_emotion(a.sessions, id, em), next_position: a.next_position });
        lemma_wf_same_keys(a, b);
        assert forall|i: int| 0 <= i < b.sessions.len() implies carried_over(a, #[trigger] b.sessions[i]) by {
            assert(a.sessions[i].session_id == b.sessions[i].session_id);
        }
    }
}

/// Over any run of store operations from an empty store, the store stays well
/// formed, the next position never falls, and a session that appears gets the
/// position that was next, above every position handed out before it: positions
/// are never reused, not even after a session is forgotten.
pub proof fn law_positions_never_reused(trace: Seq<StoreView>)
    requires
        trace.len() > 0,
        trace[0].sessions.len() == 0,
        forall|k: int| 0 < k < trace.len() ==> store_step(#[trigger] trace[k - 1], trace[k]),
    ensures
        forall|k: int| 0 <= k < trace.len() ==> store_wf(#[trigger] trace[k]),
        forall|i: int, j: int| 0 <= i <= j < trace.len() ==> #[trigger] trace[i].next_position <= #[trigger] trace[j].next_position,
        forall|k: int, n: int| 0 < k < trace.len() && 0 <= n < trace[k].sessions.len()
            && !carried_over(trace[k - 1], #[trigger] trace[k].sessions[n]) ==> {
                &&& trace[k].sessions[n].position_index == trace[k - 1].next_position
                &&& forall|i: int, m: int| 0 <= i < k && 0 <= m < trace[i].sessions.len()
                    ==> #[trigger] trace[i].sessions[m].position_index < trace[k].sessions[n].position_index
            },
    decreases trace.len(),
{
    if trace.len() == 1 {
        assert(store_wf(trace[0]));
    } else {
        let prev = trace.drop_last();
        let last = trace.len() - 1;
        assert forall|k: int| 0 < k < prev.len() implies store_step(#[trigger] prev[k - 1], prev[k]) by {
            assert(prev[k - 1] == trace[k - 1] && prev[k] == trace[k]);
            assert(store_step(trace[k - 1], trace[k]));
        }
        law_positions_never_reused(prev);
        assert(store_wf(prev[last - 1]));
        assert(store_step(trace[last - 1], trace[last]));
        lemma_store_step(trace[last - 1], trace[last]);
        assert forall|k: int| 0 <= k < trace.len() implies store_wf(#[trigger] trace[k]) by {
            if k < last {
                assert(prev[k] == trace[k]);
            }
        }
        assert forall|i: int, j: int| 0 <= i <= j < trace.len() implies #[trigger] trace[i].next_position <= #[trigger] trace[j].next_position by {
            if j < last {
                assert(prev[i] == trace[i] && prev[j] == trace[j]);
            } else if i < last {
                assert(prev[i] == trace[i] && prev[last - 1] == trace[last - 1]);
                assert(prev[i].next_position <= prev[last - 1].next_position);
            }
        }
        assert forall|k: int, n: int| 0 < k < trace.len() && 0 <= n < trace[k].sessions.len()
            && !carried_over(trace[k - 1], #[trigger] trace[k].sessions[n]) implies {
                &&& trace[k].sessions[n].position_index == trace[k - 1].next_position
                &&& forall|i: int, m: int| 0 <= i < k && 0 <= m < trace[i].sessions.len()
                    ==> #[trigger] trace[i].sessions[m].position_index < trace[k].sessions[n].position_index
            } by {
            if k < last {
                assert(prev[k] == trace[k] && prev[k - 1] == trace[k - 1]);
                assert(prev[k].sessions[n] == trace[k].sessions[n]);
                assert(!carried_over(prev[k - 1], prev[k].sessions[n]));
                assert forall|i: int, m: int| 0 <= i < k && 0 <= m < trace[i].sessions.len()
                    implies #[trigger] trace[i].sessions[m].position_index < trace[k].sessions[n].position_index by {
                    assert(prev[i] == trace[i]);
                    assert(prev[i].sessions[m].position_index < prev[k].sessions[n].position_index);
                }
            } else {
                assert(trace[k].sessions[n].position_index == trace[k - 1].next_position);
                assert forall|i: int, m: int| 0 <= i < k && 0 <= m < trace[i].sessions.len()
                    implies #[trigger] trace[i].sessions[m].position_index < trace[k].sessions[n].position_index by {
                    assert(store_wf(trace[i]));
                    assert(trace[i].sessions[m].position_index < trace[i].next_position);
                    assert(trace[i].next_position <= trace[k - 1].next_position);
                }
            }
        }
    }
}

impl SessionData {
    fn copied(&self) -> (r: SessionData)
        ensures
            r@ == self@,
    {
        SessionData {
            session_id: self.session_id.clone(),
            task_state: self.task_state,
            emotion: self.emotion,
            cwd: match &self.cwd {
                Some(c) => Some(c.clone()),
                None => None,
            },
            tool_calls: self.tool_calls,
            turns: self.turns,
            last_activity: self.last_activity,
            position_index: self.position_index,
        }
    }
}

fn copy_text(o: &Option<String>) -> (r: Option<String>)
    ensures
        opt_text(r) == opt_text(*o),
{
    match o {
        Some(c) => Some(c.clone()),
        None => None,
    }
}

/// Every session kept was among the sessions before.
proof fn lemma_kept_from(ss: Seq<SessionView>, elapsed: Seq<u128>)
    ensures
        forall|i: int| 0 <= i < kept_sessions(ss, elapsed).len() ==>
            exists|j: int| 0 <= j < ss.len() && ss[j] == #[trigger] kept_sessions(ss, elapsed)[i],
        kept_sessions(ss, elapsed).len() <= ss.len(),
    decreases ss.len(),
{
    if ss.len() > 0 {
        let rest_ss = ss.drop_last();
        lemma_kept_from(rest_ss, elapsed.take(ss.len() - 1));
        let k = kept_sessions(ss, elapsed);
        let rest = kept_sessions(rest_ss, elapsed.take(ss.len() - 1));
        assert forall|i: int| 0 <= i < k.len() implies exists|j: int| 0 <= j < ss.len() && ss[j] == #[trigger] k[i] by {
            if i < rest.len() {
                assert(k[i] == rest[i]);
                let j = choose|j: int| 0 <= j < rest_ss.len() && rest_ss[j] == #[trigger] rest[i];
                assert(ss[j] == rest_ss[j]);
            } else {
                assert(k[i] == ss[ss.len() - 1]);
            }
        }
    }
}

/// Keeping some sessions keeps identifiers and positions distinct.
proof fn lemma_kept_wf(v: StoreView, elapsed: Seq<u128>)
    requires
        store_wf(v),
    ensures
        store_wf(StoreView { sessions: kept_sessions(v.sessions, elapsed), next_position: v.next_position }),
    decreases v.sessions.len(),
{
    let ss = v.sessions;
    if ss.len() > 0 {
        let rest_v = StoreView { sessions: ss.drop_last(), next_position: v.next_position };
        assert(ids_distinct(rest_v.sessions));
        assert(store_wf(rest_v));
        lemma_kept_wf(rest_v, elapsed.take(ss.len() - 1));
        lemma_kept_from(ss.drop_last(), elapsed.take(ss.len() - 1));
        lemma_kept_from(ss, elapsed);
        let k = kept_sessions(ss, elapsed);
        let rest = kept_sessions(ss.drop_last(), elapsed.take(ss.len() - 1));
        if is_kept(ss.last(), elapsed[ss.len() - 1]) {
            let last = ss.last();
            assert forall|i: int| 0 <= i < rest.len() implies #[trigger] rest[i].session_id != last.session_id
                && rest[i].position_index != last.position_index by {
                let j = choose|j: int| 0 <= j < ss.drop_last().len() && ss.drop_last()[j] == #[trigger] rest[i];
                assert(ss[j] == rest[i]);
                assert(ss[ss.len() - 1] == last);
            }
            assert forall|i: int, j: int| 0 <= i < k.len() && 0 <= j < k.len() && i != j
                implies #[trigger] k[i].session_id != #[trigger] k[j].session_id by {
                if i < rest.len() && j < rest.len() {
                    assert(k[i] == rest[i] && k[j] == rest[j]);
                } else if i < rest.len() {
                    assert(k[i] == rest[i]);
                } else {
                    assert(k[j] == rest[j]);
                }
            }
            assert forall|i: int, j: int| 0 <= i < k.len() && 0 <= j < k.len() && i != j
                implies #[trigger] k[i].position_index != #[trigger] k[j].position_index by {
                if i < rest.len() && j < rest.len() {
                    assert(k[i] == rest[i] && k[j] == rest[j]);
                } else if i < rest.len() {
                    assert(k[i] == rest[i]);
                } else {
                    assert(k[j] == rest[j]);
                }
            }
            assert forall|i: int| 0 <= i < k.len() implies #[trigger] k[i].position_index < v.next_position by {
                let j = choose|j: int| 0 <= j < ss.len() && ss[j] == #[trigger] k[i];
                assert(ss[j].position_index < v.next_position);
            }
        }
    }
}

/// Forgetting old sessions never forgets one that is not idle.
pub proof fn law_busy_sessions_kept(ss: Seq<SessionView>, elapsed: Seq<u128>, i: int)
    requires
        elapsed.len() == ss.len(),
        0 <= i < ss.len(),
        ss[i].task_state != TaskState::Idle,
    ensures
        kept_sessions(ss, elapsed).contains(ss[i]),
    decreases ss.len(),
{
    let rest = kept_sessions(ss.drop_last(), elapsed.take(ss.len() - 1));
    if i == ss.len() - 1 {
        assert(kept_sessions(ss, elapsed).last() == ss[i]);
    } else {
        law_busy_sessions_kept(ss.drop_last(), elapsed.take(ss.len() - 1), i);
        let j = choose|j: int| 0 <= j < rest.len() && rest[j] == ss.drop_last()[i];
        assert(kept_sessions(ss, elapsed)[j] == rest[j]);
    }
}

/// Marking sleepers changes nothing but the state of busy sessions silent for
/// more than five minutes, which fall asleep; idle and sleeping sessions stay as they were.
pub proof fn law_sleep_touches_only_busy(ss: Seq<SessionView>, elapsed: Seq<u128>, i: int)
    requires
        elapsed.len() == ss.len(),
        0 <= i < ss.len(),
    ensures
        asleep_marked(ss, elapsed).len() == ss.len(),
        ss[i].task_state == TaskState::Idle || ss[i].task_state == TaskState::Sleeping
            ==> asleep_marked(ss, elapsed)[i] == ss[i],
        asleep_marked(ss, elapsed)[i] == ss[i]
            || asleep_marked(ss, elapsed)[i] == (SessionView { task_state: TaskState::Sleeping, ..ss[i] }),
{
}

/// An event has room exactly when the session it names, if the store has it, can
/// count one more tool call where the event names a tool and one more turn where
/// it is a prompt, and, if the store does not have it, a position is still free.
pub proof fn law_room_is_counter_headroom(v: StoreView, e: HookEvent)
    requires
        store_wf(v),
    ensures
        has_room(v, e) <==> {
            &&& forall|i: int| 0 <= i < v.sessions.len() && #[trigger] v.sessions[i].session_id == e.session_id@ ==> {
                &&& e.tool is Some ==> v.sessions[i].tool_calls < u32::MAX
                &&& e.event == HookEventType::UserPromptSubmit ==> v.sessions[i].turns < u32::MAX
            }
            &&& (forall|i: int| 0 <= i < v.sessions.len() ==> #[trigger] v.sessions[i].session_id != e.session_id@)
                ==> v.next_position < usize::MAX
        },
{
    let ss = v.sessions;
    if has_session(ss, e.session_id@) {
        let k = session_index(ss, e.session_id@);
        assert forall|i: int| 0 <= i < ss.len() && ss[i].session_id == e.session_id@ implies i == k by {
            if i != k {
                assert(ss[i].session_id != ss[k].session_id);
            }
        }
    } else {
        assert forall|i: int| 0 <= i < ss.len() implies ss[i].session_id != e.session_id@ by {
            if ss[i].session_id == e.session_id@ {
                assert(has_session(ss, e.session_id@));
            }
        }
    }
}

/// Forgetting old sessions keeps a session exactly when it is not idle or has been
/// silent for less than an hour: an idle session silent for an hour or more is gone.
pub proof fn law_forget_only_idle_and_old(ss: Seq<SessionView>, elapsed: Seq<u128>)
    requires
        elapsed.len() == ss.len(),
        ids_distinct(ss),
    ensures
        forall|i: int| 0 <= i < ss.len() ==> (#[trigger] kept_sessions(ss, elapsed).contains(ss[i])
            <==> (ss[i].task_state != TaskState::Idle || elapsed[i] < 3_600_000_000_000)),
    decreases ss.len(),
{
    if ss.len() > 0 {
        let n = ss.len() - 1;
        let init = ss.drop_last();
        let el = elapsed.take(n);
        assert(ids_distinct(init)) by {
            assert forall|i: int, j: int| 0 <= i < init.len() && 0 <= j < init.len() && i != j
                implies #[trigger] init[i].session_id != #[trigger] init[j].session_id by {
                assert(init[i] == ss[i] && init[j] == ss[j]);
            }
        }
        law_forget_only_idle_and_old(init, el);
        lemma_kept_from(init, el);
        let rest = kept_sessions(init, el);
        let k = kept_sessions(ss, elapsed);
        assert forall|i: int| 0 <= i < ss.len() implies (#[trigger] kept_sessions(ss, elapsed).contains(ss[i])
            <==> (ss[i].task_state != TaskState::Idle || elapsed[i] < 3_600_000_000_000)) by {
            if i < n {
                assert(init[i] == ss[i] && el[i] == elapsed[i]);
                assert(ss[i] != ss[n]) by {
                    assert(ss[i].session_id != ss[n].session_id);
                }
                if rest.contains(ss[i]) {
                    let j = choose|j: int| 0 <= j < rest.len() && rest[j] == ss[i];
                    assert(k[j] == rest[j]);
                }
                if k.contains(ss[i]) {
                    let j = choose|j: int| 0 <= j < k.len() && k[j] == ss[i];
                    if j < rest.len() {
                        assert(k[j] == rest[j]);
                    }
                }
            } else {
                if is_kept(ss[n], elapsed[n]) {
                    assert(k[k.len() - 1] == ss[n]);
                } else {
                    if k.contains(ss[n]) {
                        let j = choose|j: int| 0 <= j < k.len() && k[j] == ss[n];
                        assert(k[j] == rest[j]);
                        let m = choose|m: int| 0 <= m < init.len() && init[m] == #[trigger] rest[j];
                        assert(ss[m].session_id != ss[n].session_id);
                    }
                }
            }
        }
    }
}

/// A session silent for more than five minutes that is working, waiting or
/// compacting is asleep after sleepers are marked, with every other field as it
/// was; a session silent for five minutes or less, idle or already asleep is
/// left exactly as it was.
pub proof fn law_silent_busy_sessions_sleep(ss: Seq<SessionView>, elapsed: Seq<u128>)
    requires
        elapsed.len() == ss.len(),
    ensures
        asleep_marked(ss, elapsed).len() == ss.len(),
        forall|i: int| 0 <= i < ss.len() && elapsed[i] > 300_000_000_000 && (ss[i].task_state == TaskState::Working
            || ss[i].task_state == TaskState::Waiting || ss[i].task_state == TaskState::Compacting)
            ==> #[trigger] asleep_marked(ss, elapsed)[i] == (SessionView { task_state: TaskState::Sleeping, ..ss[i] }),
        forall|i: int| 0 <= i < ss.len() && (elapsed[i] <= 300_000_000_000 || ss[i].task_state == TaskState::Idle
            || ss[i].task_state == TaskState::Sleeping)
            ==> #[trigger] asleep_marked(ss, elapsed)[i] == ss[i],
{
}

/// Setting the emotion of session `id` gives that session the emotion and changes
/// nothing else: every other session, and every other field of that one, stays
/// as it was, and the sessions keep their order.
pub proof fn law_emotion_set_for_named_session(v: StoreView, id: Seq<char>, emotion: Emotion)
    requires
        store_wf(v),
    ensures
        with_emotion(v.sessions, id, emotion).len() == v.sessions.len(),
        forall|i: int| 0 <= i < v.sessions.len() && v.sessions[i].session_id == id
            ==> #[trigger] with_emotion(v.sessions, id, emotion)[i] == (SessionView { emotion: emotion, ..v.sessions[i] }),
        forall|i: int| 0 <= i < v.sessions.len() && v.sessions[i].session_id != id
            ==> #[trigger] with_emotion(v.sessions, id, emotion)[i] == v.sessions[i],
{
    let ss = v.sessions;
    if has_session(ss, id) {
        let k = session_index(ss, id);
        assert forall|i: int| 0 <= i < ss.len() && ss[i].session_id == id implies i == k by {
            if i != k {
                assert(ss[i].session_id != ss[k].session_id);
            }
        }
    } else {
        assert forall|i: int| 0 <= i < ss.len() implies ss[i].session_id != id by {
            if ss[i].session_id == id {
                assert(has_session(ss, id));
            }
        }
    }
}

/// Taking in an event that has room (see `has_room`) changes only the session it
/// names. A session that was
/// there before keeps its identifier, position and emotion; its state becomes
/// the one the event calls for (working after a prompt or a tool use, waiting on
/// a permission request, compacting before compaction, idle otherwise); a tool use
/// adds one tool call, a prompt adds one turn, a working directory in the event
/// replaces the one known, and the time of the event becomes its last activity.
/// A session the store did not have is added last, at the next position, neutral,
/// with counters started from zero, and the next position moves on by one.
pub proof fn law_event_updates_named_session(old: StoreView, new: StoreView, e: HookEvent, now: Instant)
    requires
        store_wf(old),
        has_room(old, e),
        event_taken_at(old, new, e, now),
    ensures
        forall|i: int| 0 <= i < old.sessions.len() && old.sessions[i].session_id != e.session_id@
            ==> #[trigger] new.sessions[i] == old.sessions[i],
        forall|i: int| 0 <= i < old.sessions.len() && old.sessions[i].session_id == e.session_id@ ==> {
            let (s, t) = (old.sessions[i], #[trigger] new.sessions[i]);
            &&& new.sessions.len() == old.sessions.len()
            &&& new.next_position == old.next_position
            &&& t.session_id == s.session_id
            &&& t.position_index == s.position_index
            &&& t.emotion == s.emotion
            &&& t.task_state == state_after(e.event)
            &&& t.tool_calls == s.tool_calls + (if e.tool is Some { 1int } else { 0int })
            &&& t.turns == s.turns + (if e.event == HookEventType::UserPromptSubmit { 1int } else { 0int })
            &&& t.cwd == (if e.cwd is Some { opt_text(e.cwd) } else { s.cwd })
            &&& t.last_activity == now
        },
        !has_session(old.sessions, e.session_id@) ==> {
            let t = new.sessions[old.sessions.len() as int];
            &&& new.sessions.len() == old.sessions.len() + 1
            &&& new.next_position == old.next_position + 1
            &&& t.session_id == e.session_id@
            &&& t.position_index == old.next_position
            &&& t.emotion == Emotion::Neutral
            &&& t.task_state == state_after(e.event)
            &&& t.tool_calls == (if e.tool is Some { 1int } else { 0int })
            &&& t.turns == (if e.event == HookEventType::UserPromptSubmit { 1int } else { 0int })
            &&& t.cwd == opt_text(e.cwd)
            &&& t.last_activity == now
        },
{
    let ss = old.sessions;
    if has_session(ss, e.session_id@) {
        let k = session_index(ss, e.session_id@);
        assert forall|i: int| 0 <= i < ss.len() && ss[i].session_id == e.session_id@ implies i == k by {
            if i != k {
                assert(ss[i].session_id != ss[k].session_id);
            }
        }
    } else {
        assert forall|i: int| 0 <= i < ss.len() implies ss[i].session_id != e.session_id@ by {
            if ss[i].session_id == e.session_id@ {
                assert(has_session(ss, e.session_id@));
            }
        }
    }
}

impl StoreState {
    fn new() -> (r: Self)
        ensures
            r@.sessions == Seq::<SessionView>::empty(),
            r@.next_position == 0,
            store_wf(r@),
    {
        let r = StoreState { sessions: Vec::new(), next_position: 0 };
        assert(r@.sessions =~= Seq::<SessionView>::empty());
        r
    }

    fn position_of(&self, id: &str) -> (r: Option<usize>)
        requires
            store_wf(self@),
        ensures
            match r {
                Some(i) => i < self@.sessions.len() && has_session(self@.sessions, id@)
                    && session_index(self@.sessions, id@) == i && self@.sessions[i as int].session_id == id@,
                None => !has_session(self@.sessions, id@),
            },
    {
        let ghost ss = self@.sessions;
        let mut i: usize = 0;
        while i < self.sessions.len()
            invariant
                i <= self.sessions.len(),
                ss == self@.sessions,
                store_wf(self@),
                ss.len() == self.sessions@.len(),
                forall|j: int| 0 <= j < ss.len() ==> #[trigger] ss[j] == self.sessions@[j]@,
                forall|j: int| 0 <= j < i ==> #[trigger] ss[j].session_id != id@,
            decreases self.sessions.len() - i,
        {
            if text_eq(self.sessions[i].session_id.as_str(), id) {
                proof {
                    assert(ss[i as int].session_id == id@);
                    let k = session_index(ss, id@);
                    assert(0 <= k < ss.len() && ss[k].session_id == id@);
                    assert(ids_distinct(ss));
                }
                return Some(i);
            }
            i = i + 1;
        }
        None
    }

    /// Whether `event` can be taken in without a counter passing its limit.
    fn has_room_for(&self, event: &HookEvent) -> (r: bool)
        requires
            store_wf(self@),
        ensures
            r == has_room(self@, *event),
    {
        match self.position_of(event.session_id.as_str()) {
            Some(i) => {
                let s = &self.sessions[i];
                (event.tool.is_none() || s.tool_calls < u32::MAX)
                    && (event.event != HookEventType::UserPromptSubmit || s.turns < u32::MAX)
            },
            None => self.next_position < usize::MAX,
        }
    }

    /// Takes in an event at time `now`: the session it names is created if it is
    /// new, at the next position, and then follows the event (see `apply_event`)
    /// and records `now` as its last activity.
    fn handle_event_at(&mut self, event: &HookEvent, now: Instant) -> (r: usize)
        requires
            store_wf(old(self)@),
            has_room(old(self)@, *event),
        ensures
            store_wf(final(self)@),
            event_taken_at(old(self)@, final(self)@, *event, now),
            final(self)@.sessions[taken_index(old(self)@, *event)].last_activity == now,
            r == taken_index(old(self)@, *event),
            r < final(self)@.sessions.len(),
    {
        let new_state = StateMachine::next_state(&event.event);
        let ghost old_v = self@;
        let found = self.position_of(event.session_id.as_str());
        let idx: usize = match found {
            Some(i) => i,
            None => {
                let pos = self.next_position;
                self.next_position = self.next_position + 1;
                self.sessions.push(
                    SessionData {
                        session_id: event.session_id.clone(),
                        task_state: TaskState::Idle,
                        emotion: Emotion::Neutral,
                        cwd: copy_text(&event.cwd),
                        tool_calls: 0,
                        turns: 0,
                        last_activity: now,
                        position_index: pos,
                    },
                );
                self.sessions.len() - 1
            },
        };
        let ghost before = self.sessions@[idx as int]@;
        let s = &self.sessions[idx];
        let updated = SessionData {
            session_id: s.session_id.clone(),
            task_state: new_state,
            emotion: s.emotion,
            cwd: if event.cwd.is_some() { copy_text(&event.cwd) } else { copy_text(&s.cwd) },
            tool_calls: if event.tool.is_some() { s.tool_calls + 1 } else { s.tool_calls },
            turns: if event.event == HookEventType::UserPromptSubmit { s.turns + 1 } else { s.turns },
            last_activity: now,
            position_index: s.position_index,
        };
        let ghost t = updated.last_activity;
        assert(updated@ == apply_event(before, *event, t));
        self.sessions.set(idx, updated);
        proof {
            let ss = old_v.sessions;
            match found {
                Some(i) => {
                    assert(self@.sessions =~= ss.update(i as int, apply_event(ss[i as int], *event, t)));
                },
                None => {
                    assert(self@.sessions =~= ss.push(apply_event(fresh_session(*event, old_v.next_position, t), *event, t)));
                },
            }
            lemma_event_taken_wf(old_v, self@, *event, now);
        }
        idx
    }

    /// All sessions, in the order they first reported.
    fn get_sessions(&self) -> (r: Vec<&SessionData>)
        ensures
            r@.len() == self@.sessions.len(),
            forall|i: int| 0 <= i < r@.len() ==> (#[trigger] r@[i])@ == self@.sessions[i],
    {
        let mut out: Vec<&SessionData> = Vec::new();
        let mut i: usize = 0;
        while i < self.sessions.len()
            invariant
                i <= self.sessions.len(),
                out@.len() == i,
                forall|j: int| 0 <= j < i ==> (#[trigger] out@[j])@ == self.sessions@[j]@,
            decreases self.sessions.len() - i,
        {
            out.push(&self.sessions[i]);
            i = i + 1;
        }
        out
    }

    /// Marks sleepers, session `i` having been silent for `elapsed[i]` nanoseconds
    /// (see `falls_asleep`).
    fn mark_sleepers(&mut self, elapsed: &Vec<u128>)
        requires
            store_wf(old(self)@),
            elapsed@.len() == old(self)@.sessions.len(),
        ensures
            store_wf(final(self)@),
            final(self)@.next_position == old(self)@.next_position,
            final(self)@.sessions == asleep_marked(old(self)@.sessions, elapsed@),
    {
        let ghost ss = self@.sessions;
        let mut i: usize = 0;
        while i < self.sessions.len()
            invariant
                i <= self.sessions.len(),
                elapsed@.len() == self.sessions@.len(),
                ss.len() == self.sessions@.len(),
                self.next_position == old(self)@.next_position,
                forall|j: int| 0 <= j < ss.len() ==> (#[trigger] self.sessions@[j])@ == (
                    if j < i && falls_asleep(ss[j], elapsed@[j]) { SessionView { task_state: TaskState::Sleeping, ..ss[j] } } else { ss[j] }
                ),
            decreases self.sessions.len() - i,
        {
            let s = &self.sessions[i];
            if elapsed[i] > 300_000_000_000u128 && s.task_state != TaskState::Sleeping && s.task_state != TaskState::Idle {
                let updated = SessionData { task_state: TaskState::Sleeping, ..s.copied() };
                self.sessions.set(i, updated);
            }
            i = i + 1;
        }
        proof {
            assert(self@.sessions =~= asleep_marked(ss, elapsed@));
            lemma_wf_same_keys(old(self)@, self@);
        }
    }

    /// Keeps the sessions that are not idle or have been silent for less than an
    /// hour, session `i` having been silent for `elapsed[i]` nanoseconds.
    fn retain_recent(&mut self, elapsed: &Vec<u128>)
        requires
            store_wf(old(self)@),
            elapsed@.len() == old(self)@.sessions.len(),
        ensures
            store_wf(final(self)@),
            final(self)@.next_position == old(self)@.next_position,
            final(self)@.sessions == kept_sessions(old(self)@.sessions, elapsed@),
    {
        let ghost ss = self@.sessions;
        let mut kept: Vec<SessionData> = Vec::new();
        let mut i: usize = 0;
        while i < self.sessions.len()
            invariant
                i <= self.sessions.len(),
                elapsed@.len() == self.sessions@.len(),
                ss == self@.sessions,
                ss.len() == self.sessions@.len(),
                kept@.map_values(|s: SessionData| s@) == kept_sessions(ss.take(i as int), elapsed@.take(i as int)),
            decreases self.sessions.len() - i,
        {
            let ghost before = kept@.map_values(|s: SessionData| s@);
            assert(ss.take(i as int + 1).drop_last() =~= ss.take(i as int));
            assert(elapsed@.take(i as int + 1).take(i as int) =~= elapsed@.take(i as int));
            assert(ss[i as int] == self.sessions@[i as int]@);
            let s = &self.sessions[i];
            if s.task_state != TaskState::Idle || elapsed[i] < 3_600_000_000_000u128 {
                kept.push(s.copied());
                assert(kept@.map_values(|s: SessionData| s@) =~= before.push(ss[i as int]));
            } else {
                assert(kept@.map_values(|s: SessionData| s@) =~= before);
            }
            i = i + 1;
        }
        assert(ss.take(ss.len() as int) =~= ss);
        assert(elapsed@.take(ss.len() as int) =~= elapsed@);
        self.sessions = kept;
        proof {
            lemma_kept_wf(old(self)@, elapsed@);
        }
    }

    /// Sets the emotion shown for session `session_id`; nothing happens if there is none.
    fn update_emotion(&mut self, session_id: &str, emotion: Emotion)
        requires
            store_wf(old(self)@),
        ensures
            store_wf(final(self)@),
            final(self)@.next_position == old(self)@.next_position,
            final(self)@.sessions == with_emotion(old(self)@.sessions, session_id@, emotion),
    {
        let ghost ss = self@.sessions;
        match self.position_of(session_id) {
            Some(i) => {
                let updated = SessionData { emotion: emotion, ..self.sessions[i].copied() };
                self.sessions.set(i, updated);
                proof {
                    assert(self@.sessions =~= ss.update(i as int, SessionView { emotion: emotion, ..ss[i as int] }));
                    lemma_wf_same_keys(old(self)@, self@);
                }
            },
            None => {},
        }
    }
}

impl SessionStore {
    pub fn new() -> (r: Self)
        ensures
            r@.sessions == Seq::<SessionView>::empty(),
            r@.next_position == 0,
            store_wf(r@),
    {
        SessionStore { state: StoreState::new() }
    }

    /// Hands over this store's state, leaving an empty one in its place.
    fn take_state(&mut self) -> (r: StoreState)
        ensures
            r@ == old(self)@,
            store_wf(r@),
    {
        proof {
            use_type_invariant(&*self);
        }
        let mut st = StoreState::new();
        std::mem::swap(&mut st, &mut self.state);
        st
    }

    /// Whether `event` can be taken in without a counter passing its limit.
    pub fn has_room_for(&self, event: &HookEvent) -> (r: bool)
        ensures
            r == has_room(self@, *event),
    {
        proof {
            use_type_invariant(self);
        }
        self.state.has_room_for(event)
    }

    /// Takes in an event at time `now`: the session it names is created if it is
    /// new, at the next position, and then follows the event (see `apply_event`)
    /// and records `now` as its last activity.
    pub fn handle_event_at(&mut self, event: &HookEvent, now: Instant) -> (r: &SessionData)
        requires
            has_room(old(self)@, *event),
        ensures
            store_wf(final(self)@),
            event_taken_at(old(self)@, final(self)@, *event, now),
            final(self)@.sessions[taken_index(old(self)@, *event)].last_activity == now,
            r@ == final(self)@.sessions[taken_index(old(self)@, *event)],
    {
        let mut st = self.take_state();
        let idx = st.handle_event_at(event, now);
        self.state = st;
        &self.state.sessions[idx]
    }

    /// Takes in an event: as `handle_event_at`, at the time the clock reads now.
    pub fn handle_event(&mut self, event: &HookEvent) -> (r: &SessionData)
        requires
            has_room(old(self)@, *event),
        ensures
            store_wf(final(self)@),
            event_taken(old(self)@, final(self)@, *event),
            r@ == final(self)@.sessions[taken_index(old(self)@, *event)],
    {
        let now = Instant::now();
        self.handle_event_at(event, now)
    }

    /// All sessions, in the order they first reported.
    pub fn get_sessions(&self) -> (r: Vec<&SessionData>)
        ensures
            store_wf(self@),
            r@.len() == self@.sessions.len(),
            forall|i: int| 0 <= i < r@.len() ==> (#[trigger] r@[i])@ == self@.sessions[i],
    {
        proof {
            use_type_invariant(self);
        }
        self.state.get_sessions()
    }

    /// Marks sleepers, session `i` having been silent for `elapsed[i]` nanoseconds
    /// (see `falls_asleep`).
    pub fn mark_sleepers(&mut self, elapsed: &Vec<u128>)
        requires
            elapsed@.len() == old(self)@.sessions.len(),
        ensures
            store_wf(final(self)@),
            final(self)@.next_position == old(self)@.next_position,
            final(self)@.sessions == asleep_marked(old(self)@.sessions, elapsed@),
    {
        let mut st = self.take_state();
        st.mark_sleepers(elapsed);
        self.state = st;
    }

    /// Puts to sleep every working, waiting or compacting session that has been
    /// silent for more than five minutes; every other field stays as it was.
    pub fn check_sleepers(&mut self)
        ensures
            store_wf(final(self)@),
            final(self)@.next_position == old(self)@.next_position,
            exists|elapsed: Seq<u128>| elapsed.len() == old(self)@.sessions.len()
                && final(self)@.sessions == #[trigger] asleep_marked(old(self)@.sessions, elapsed),
    {
        let elapsed = self.silences();
        let ghost el = elapsed@;
        self.mark_sleepers(&elapsed);
        assert(self@.sessions == asleep_marked(old(self)@.sessions, el));
    }

    /// Nanoseconds each session has been silent, by the clock.
    fn silences(&self) -> (r: Vec<u128>)
        ensures
            r@.len() == self@.sessions.len(),
    {
        let mut elapsed: Vec<u128> = Vec::new();
        let mut i: usize = 0;
        while i < self.state.sessions.len()
            invariant
                i <= self.state.sessions.len(),
                elapsed@.len() == i,
            decreases self.state.sessions.len() - i,
        {
            elapsed.push(nanos_since(&self.state.sessions[i].last_activity));
            i = i + 1;
        }
        elapsed
    }

    /// Keeps the sessions that are not idle or have been silent for less than an
    /// hour, session `i` having been silent for `elapsed[i]` nanoseconds.
    pub fn retain_recent(&mut self, elapsed: &Vec<u128>)
        requires
            elapsed@.len() == old(self)@.sessions.len(),
        ensures
            store_wf(final(self)@),
            final(self)@.next_position == old(self)@.next_position,
            final(self)@.sessions == kept_sessions(old(self)@.sessions, elapsed@),
    {
        let mut st = self.take_state();
        st.retain_recent(elapsed);
        self.state = st;
    }

    /// Forgets every idle session that has been silent for an hour or more;
    /// the others stay, in order.
    pub fn remove_ended(&mut self)
        ensures
            store_wf(final(self)@),
            final(self)@.next_position == old(self)@.next_position,
            exists|elapsed: Seq<u128>| elapsed.len() == old(self)@.sessions.len()
                && final(self)@.sessions == #[trigger] kept_sessions(old(self)@.sessions, elapsed),
    {
        let elapsed = self.silences();
        let ghost el = elapsed@;
        self.retain_recent(&elapsed);
        assert(self@.sessions == kept_sessions(old(self)@.sessions, el));
    }

    /// Sets the emotion shown for session `session_id`; nothing happens if there is none.
    pub fn update_emotion(&mut self, session_id: &str, emotion: Emotion)
        ensures
            store_wf(final(self)@),
            final(self)@.next_position == old(self)@.next_position,
            final(self)@.sessions == with_emotion(old(self)@.sessions, session_id@, emotion),
    {
        let mut st = self.take_state();
        st.update_emotion(session_id, emotion);
        self.state = st;
    }
}

} // verus!
