use vstd::prelude::*;
use crate::clock::unix_seconds_now;
use crate::text::{owned, text_eq};

verus! {

/// Counts kept for one session.
#[derive(Debug, Clone)]
pub struct SessionStats {
    pub total_turns: u32,
    pub total_tool_calls: u32,
    pub total_errors: u32,
    pub session_start: u64,
    /// How many times each tool was called, each tool once; a `Vec` with distinct
    /// tool names in place of a `HashMap` keyed by `String`, for the same reason
    /// as the collector's sessions.
    pub tools_used: Vec<(String, u32)>,
}

/// Counts over all sessions.
#[derive(Debug, Clone, Copy)]
pub struct AggregateStats {
    pub total_sessions: u32,
    pub total_turns: u32,
    pub total_tool_calls: u32,
}

/// Collects usage counts per session and over all sessions.
pub struct StatsCollector {
    state: StatsState,
}

/// The counts of a collector: per session, and the totals.
/// The counts of each session are held in a `Vec` whose session identifiers are distinct, in place of
/// a `HashMap` keyed by `String`: with `String` keys the specifications of std's
/// `HashMap` in vstd do not let a lookup or an insertion be proved.
struct StatsState {
    session_stats: Vec<(String, SessionStats)>,
    aggregate: AggregateStats,
}

/// The value of a session's counts.
pub struct SessionStatsView {
    pub total_turns: u32,
    pub total_tool_calls: u32,
    pub total_errors: u32,
    pub session_start: u64,
    pub tools_used: Seq<(Seq<char>, u32)>,
}

/// The value of a collector: the counts of each session, in the order the
/// sessions were first seen, and the totals.
pub struct StatsView {
    pub sessions: Seq<(Seq<char>, SessionStatsView)>,
    pub aggregate: AggregateStats,
}

pub open spec fn tally_view(ts: Seq<(String, u32)>) -> Seq<(Seq<char>, u32)> {
    ts.map_values(|p: (String, u32)| (p.0@, p.1))
}

impl View for SessionStats {
    type V = SessionStatsView;

    open spec fn view(&self) -> SessionStatsView {
        SessionStatsView {
            total_turns: self.total_turns,
            total_tool_calls: self.total_tool_calls,
            total_errors: self.total_errors,
            session_start: self.session_start,
            tools_used: tally_view(self.tools_used@),
        }
    }
}

impl View for StatsState {
    type V = StatsView;

    closed spec fn view(&self) -> StatsView {
        StatsView {
            sessions: self.session_stats@.map_values(|p: (String, SessionStats)| (p.0@, p.1@)),
            aggregate: self.aggregate,
        }
    }
}

impl View for StatsCollector {
    type V = StatsView;

    closed spec fn view(&self) -> StatsView {
        self.state@
    }
}

impl StatsCollector {
    /// The totals of every collector are the sums of its counts (see `stats_wf`).
    #[verifier::type_invariant]
    closed spec fn well_formed(self) -> bool {
        stats_wf(self.state@)
    }
}

/// No key occurs twice.
pub open spec fn keys_distinct<V>(es: Seq<(Seq<char>, V)>) -> bool {
    forall|i: int, j: int| 0 <= i < es.len() && 0 <= j < es.len() && i != j ==> #[trigger] es[i].0 != #[trigger] es[j].0
}

pub open spec fn contains_key<V>(es: Seq<(Seq<char>, V)>, k: Seq<char>) -> bool {
    exists|i: int| 0 <= i < es.len() && #[trigger] es[i].0 == k
}

pub open spec fn index_of_key<V>(es: Seq<(Seq<char>, V)>, k: Seq<char>) -> int {
    choose|i: int| 0 <= i < es.len() && #[trigger] es[i].0 == k
}

/// The sum of the counts of a tally.
pub open spec fn tally_sum(ts: Seq<(Seq<char>, u32)>) -> int
    decreases ts.len(),
{
    if ts.len() == 0 { 0 } else { tally_sum(ts.drop_last()) + ts.last().1 }
}

/// The turns counted over all sessions.
pub open spec fn turns_sum(ss: Seq<(Seq<char>, SessionStatsView)>) -> int
    decreases ss.len(),
{
    if ss.len() == 0 { 0 } else { turns_sum(ss.drop_last()) + ss.last().1.total_turns }
}

/// The tool calls counted over all sessions.
pub open spec fn tool_calls_sum(ss: Seq<(Seq<char>, SessionStatsView)>) -> int
    decreases ss.len(),
{
    if ss.len() == 0 { 0 } else { tool_calls_sum(ss.drop_last()) + ss.last().1.total_tool_calls }
}

/// The counts of one session agree: its tool calls are those of its tally, each
/// tool is counted once, and no error is ever counted.
pub open spec fn session_stats_wf(s: SessionStatsView) -> bool {
    &&& keys_distinct(s.tools_used)
    &&& s.total_tool_calls == tally_sum(s.tools_used)
    &&& s.total_errors == 0
}

/// The totals are the sums of the sessions' counts, and each session is counted once.
pub open spec fn stats_wf(v: StatsView) -> bool {
    &&& keys_distinct(v.sessions)
    &&& forall|i: int| 0 <= i < v.sessions.len() ==> session_stats_wf(#[trigger] v.sessions[i].1)
    &&& v.aggregate.total_sessions == v.sessions.len()
    &&& v.aggregate.total_turns == turns_sum(v.sessions)
    &&& v.aggregate.total_tool_calls == tool_calls_sum(v.sessions)
}

/// The counts of a session first seen at `start` seconds after the Unix epoch.
pub open spec fn fresh_stats(start: u64) -> SessionStatsView {
    SessionStatsView { total_turns: 0, total_tool_calls: 0, total_errors: 0, session_start: start, tools_used: seq![] }
}

/// A tally with one more call of `tool`.
pub open spec fn tally_bump(ts: Seq<(Seq<char>, u32)>, tool: Seq<char>) -> Seq<(Seq<char>, u32)> {
    if contains_key(ts, tool) {
        let i = index_of_key(ts, tool);
        ts.update(i, (tool, (ts[i].1 + 1) as u32))
    } else {
        ts.push((tool, 1u32))
    }
}

pub open spec fn with_turn(s: SessionStatsView) -> SessionStatsView {
    SessionStatsView { total_turns: (s.total_turns + 1) as u32, ..s }
}

pub open spec fn with_tool_call(s: SessionStatsView, tool: Seq<char>) -> SessionStatsView {
    SessionStatsView {
        total_tool_calls: (s.total_tool_calls + 1) as u32,
        tools_used: tally_bump(s.tools_used, tool),
        ..s
    }
}

/// The sessions after `f` is applied to the counts of session `id`, a session
/// first seen getting fresh counts that started at `start`.
pub open spec fn counted(ss: Seq<(Seq<char>, SessionStatsView)>, id: Seq<char>, start: u64, f: spec_fn(SessionStatsView) -> SessionStatsView) -> Seq<(Seq<char>, SessionStatsView)> {
    if contains_key(ss, id) {
        let i = index_of_key(ss, id);
        ss.update(i, (id, f(ss[i].1)))
    } else {
        ss.push((id, f(fresh_stats(start))))
    }
}

/// The start time the counts of session `id` have after an update, a session
/// first seen being the last one.
pub open spec fn start_after(after: Seq<(Seq<char>, SessionStatsView)>) -> u64 {
    after.last().1.session_start
}

/// `new` is `old` with a turn of session `id` counted: in the session's counts,
/// fresh ones started at `start` if it is new, and in the totals.
pub open spec fn turn_recorded_at(old: StatsView, new: StatsView, id: Seq<char>, start: u64) -> bool {
    &&& new.sessions == counted(old.sessions, id, start, |s: SessionStatsView| with_turn(s))
    &&& new.aggregate.total_turns == old.aggregate.total_turns + 1
    &&& new.aggregate.total_tool_calls == old.aggregate.total_tool_calls
    &&& new.aggregate.total_sessions == old.aggregate.total_sessions + if contains_key(old.sessions, id) { 0int } else { 1int }
}

/// `new` is `old` with a call of tool `tool` by session `id` counted: in the
/// session's counts and tally, fresh ones started at `start` if it is new, and
/// in the totals.
pub open spec fn tool_call_recorded_at(old: StatsView, new: StatsView, id: Seq<char>, tool: Seq<char>, start: u64) -> bool {
    &&& new.sessions == counted(old.sessions, id, start, |s: SessionStatsView| with_tool_call(s, tool))
    &&& new.aggregate.total_tool_calls == old.aggregate.total_tool_calls + 1
    &&& new.aggregate.total_turns == old.aggregate.total_turns
    &&& new.aggregate.total_sessions == old.aggregate.total_sessions + if contains_key(old.sessions, id) { 0int } else { 1int }
}

/// A turn counted, a session first seen starting at the time its counts record.
pub open spec fn turn_recorded(old: StatsView, new: StatsView, id: Seq<char>) -> bool {
    turn_recorded_at(old, new, id, start_after(new.sessions))
}

/// A tool call counted, a session first seen starting at the time its counts record.
pub open spec fn tool_call_recorded(old: StatsView, new: StatsView, id: Seq<char>, tool: Seq<char>) -> bool {
    tool_call_recorded_at(old, new, id, tool, start_after(new.sessions))
}

/// Where the session was first seen, its counts are the last and carry the
/// start they were made with; otherwise the start does not matter.
proof fn lemma_new_session_last(
    old: Seq<(Seq<char>, SessionStatsView)>,
    new: Seq<(Seq<char>, SessionStatsView)>,
    id: Seq<char>,
    start: u64,
    f: spec_fn(SessionStatsView) -> SessionStatsView,
)
    requires
        new == counted(old, id, start, f),
        forall|s: SessionStatsView| #[trigger] f(s).session_start == s.session_start,
    ensures
        new == counted(old, id, start_after(new), f),
{
    if !contains_key(old, id) {
        assert(new.last() == (id, f(fresh_stats(start))));
        assert(f(fresh_stats(start)).session_start == start);
    }
}

/// Two sequences with the same keys, in the same order, have distinct keys or neither has.
pub proof fn lemma_same_keys<V, W>(a: Seq<(Seq<char>, V)>, b: Seq<(Seq<char>, W)>)
    requires
        keys_distinct(a),
        b.len() == a.len(),
        forall|i: int| 0 <= i < a.len() ==> (#[trigger] b[i]).0 == a[i].0,
    ensures
        keys_distinct(b),
{
    assert forall|i: int, j: int| 0 <= i < b.len() && 0 <= j < b.len() && i != j
        implies #[trigger] b[i].0 != #[trigger] b[j].0 by {
        assert(a[i].0 != a[j].0);
    }
}

/// Adding a key that is not there keeps keys distinct.
pub proof fn lemma_push_new_key<V>(a: Seq<(Seq<char>, V)>, p: (Seq<char>, V))
    requires
        keys_distinct(a),
        !contains_key(a, p.0),
    ensures
        keys_distinct(a.push(p)),
        contains_key(a.push(p), p.0),
        index_of_key(a.push(p), p.0) == a.len(),
{
    let b = a.push(p);
    assert forall|i: int, j: int| 0 <= i < b.len() && 0 <= j < b.len() && i != j
        implies #[trigger] b[i].0 != #[trigger] b[j].0 by {
        if i < a.len() && j < a.len() {
            assert(b[i] == a[i] && b[j] == a[j]);
        } else if i < a.len() {
            assert(b[i] == a[i]);
        } else {
            assert(b[j] == a[j]);
        }
    }
    assert(b[a.len() as int].0 == p.0);
    let k = index_of_key(b, p.0);
    assert(0 <= k < b.len() && b[k].0 == p.0);
}

/// Counting a turn keeps the session counted and the tool-call total as it was.
pub proof fn lemma_turn_keeps_tool_room(old: StatsView, new: StatsView, id: Seq<char>, start: u64)
    requires
        turn_recorded_at(old, new, id, start),
    ensures
        contains_key(new.sessions, id),
        new.aggregate.total_tool_calls == old.aggregate.total_tool_calls,
{
    if contains_key(old.sessions, id) {
        let i = index_of_key(old.sessions, id);
        assert(new.sessions[i].0 == id);
    } else {
        assert(new.sessions[old.sessions.len() as int].0 == id);
    }
}

/// One call of the collector: a turn of a session, or a tool call by one.
pub enum StatsCall {
    Turn(Seq<char>),
    ToolCall(Seq<char>, Seq<char>),
}

/// The session a call is about.
pub open spec fn call_session(c: StatsCall) -> Seq<char> {
    match c {
        StatsCall::Turn(id) => id,
        StatsCall::ToolCall(id, _) => id,
    }
}

/// `b` is `a` after call `c`, whatever time a session first seen starts at.
pub open spec fn call_made(a: StatsView, b: StatsView, c: StatsCall) -> bool {
    match c {
        StatsCall::Turn(id) => exists|start: u64| #[trigger] turn_recorded_at(a, b, id, start),
        StatsCall::ToolCall(id, tool) => exists|start: u64| #[trigger] tool_call_recorded_at(a, b, id, tool, start),
    }
}

/// How many of the calls are turns.
pub open spec fn turn_calls(calls: Seq<StatsCall>) -> int
    decreases calls.len(),
{
    if calls.len() == 0 {
        0
    } else {
        turn_calls(calls.drop_last()) + if calls.last() is Turn { 1int } else { 0int }
    }
}

/// How many of the calls are tool calls.
pub open spec fn tool_calls(calls: Seq<StatsCall>) -> int
    decreases calls.len(),
{
    if calls.len() == 0 {
        0
    } else {
        tool_calls(calls.drop_last()) + if calls.last() is ToolCall { 1int } else { 0int }
    }
}

/// The sessions the calls name.
pub open spec fn call_sessions(calls: Seq<StatsCall>) -> Set<Seq<char>>
    decreases calls.len(),
{
    if calls.len() == 0 {
        Set::empty()
    } else {
        call_sessions(calls.drop_last()).insert(call_session(calls.last()))
    }
}

proof fn lemma_call_sessions_finite(calls: Seq<StatsCall>)
    ensures
        call_sessions(calls).finite(),
    decreases calls.len(),
{
    if calls.len() > 0 {
        lemma_call_sessions_finite(calls.drop_last());
    }
}

/// Counting for a session keeps every key and adds the session's.
proof fn lemma_counted_keys(
    ss: Seq<(Seq<char>, SessionStatsView)>,
    id: Seq<char>,
    start: u64,
    f: spec_fn(SessionStatsView) -> SessionStatsView,
    k: Seq<char>,
)
    ensures
        contains_key(counted(ss, id, start, f), k) <==> (contains_key(ss, k) || k == id),
{
    let n = counted(ss, id, start, f);
    if contains_key(ss, id) {
        let i = index_of_key(ss, id);
        if contains_key(ss, k) {
            let j = choose|j: int| 0 <= j < ss.len() && #[trigger] ss[j].0 == k;
            assert(n[j].0 == k);
        }
        if contains_key(n, k) {
            let j = choose|j: int| 0 <= j < n.len() && #[trigger] n[j].0 == k;
            assert(ss[j].0 == k || j == i);
        }
        if k == id {
            assert(n[i].0 == k);
        }
    } else {
        if contains_key(ss, k) {
            let j = choose|j: int| 0 <= j < ss.len() && #[trigger] ss[j].0 == k;
            assert(n[j].0 == k);
        }
        if contains_key(n, k) {
            let j = choose|j: int| 0 <= j < n.len() && #[trigger] n[j].0 == k;
            if j < ss.len() {
                assert(ss[j].0 == k);
            }
        }
        if k == id {
            assert(n[ss.len() as int].0 == k);
        }
    }
}

/// Over any run of calls on a new collector, the totals count the turns, the
/// tool calls and the distinct sessions named.
pub proof fn law_totals_count_calls(calls: Seq<StatsCall>, trace: Seq<StatsView>)
    requires
        trace.len() == calls.len() + 1,
        trace[0].sessions.len() == 0,
        trace[0].aggregate.total_sessions == 0,
        trace[0].aggregate.total_turns == 0,
        trace[0].aggregate.total_tool_calls == 0,
        forall|k: int| 0 <= k < calls.len() ==> call_made(trace[k], trace[k + 1], #[trigger] calls[k]),
    ensures
        trace.last().aggregate.total_turns == turn_calls(calls),
        trace.last().aggregate.total_tool_calls == tool_calls(calls),
        trace.last().aggregate.total_sessions == call_sessions(calls).len(),
        forall|k: Seq<char>| contains_key(trace.last().sessions, k) <==> #[trigger] call_sessions(calls).contains(k),
    decreases calls.len(),
{
    lemma_call_sessions_finite(calls);
    if calls.len() == 0 {
        assert forall|k: Seq<char>| contains_key(trace.last().sessions, k) <==> #[trigger] call_sessions(calls).contains(k) by {
        }
    } else {
        let n = calls.len() - 1;
        let pc = calls.drop_last();
        let pt = trace.drop_last();
        assert forall|k: int| 0 <= k < pc.len() implies call_made(pt[k], pt[k + 1], #[trigger] pc[k]) by {
            assert(pc[k] == calls[k] && pt[k] == trace[k] && pt[k + 1] == trace[k + 1]);
        }
        law_totals_count_calls(pc, pt);
        lemma_call_sessions_finite(pc);
        let a = trace[n];
        let b = trace[n + 1];
        assert(pt.last() == a);
        assert(trace.last() == b);
        let c = calls[n];
        assert(calls.last() == c);
        assert(call_made(a, b, c));
        let id = call_session(c);
        let start: u64 = match c {
            StatsCall::Turn(i) => choose|start: u64| #[trigger] turn_recorded_at(a, b, i, start),
            StatsCall::ToolCall(i, t) => choose|start: u64| #[trigger] tool_call_recorded_at(a, b, i, t, start),
        };
        assert forall|k: Seq<char>| contains_key(b.sessions, k) <==> #[trigger] call_sessions(calls).contains(k) by {
            match c {
                StatsCall::Turn(i) => {
                    lemma_counted_keys(a.sessions, i, start, |s: SessionStatsView| with_turn(s), k);
                },
                StatsCall::ToolCall(i, t) => {
                    lemma_counted_keys(a.sessions, i, start, |s: SessionStatsView| with_tool_call(s, t), k);
                },
            }
        }
        assert(contains_key(a.sessions, id) == call_sessions(pc).contains(id));
    }
}

/// Counting a turn of session `id` adds one turn to that session's counts and
/// changes nothing else in them; the counts of every other session stay as they
/// were; a session first seen gets counts started at `start` holding that one turn.
pub proof fn law_turn_counted_for_named_session(old: StatsView, new: StatsView, id: Seq<char>, start: u64)
    requires
        stats_wf(old),
        old.aggregate.total_turns < u32::MAX,
        turn_recorded_at(old, new, id, start),
    ensures
        forall|i: int| 0 <= i < old.sessions.len() && old.sessions[i].0 != id ==> #[trigger] new.sessions[i] == old.sessions[i],
        forall|i: int| 0 <= i < old.sessions.len() && old.sessions[i].0 == id ==> {
            let (s, t) = (old.sessions[i].1, #[trigger] new.sessions[i]);
            &&& new.sessions.len() == old.sessions.len()
            &&& t.0 == id
            &&& t.1.total_turns == s.total_turns + 1
            &&& t.1.total_tool_calls == s.total_tool_calls
            &&& t.1.total_errors == s.total_errors
            &&& t.1.session_start == s.session_start
            &&& t.1.tools_used == s.tools_used
        },
        !contains_key(old.sessions, id) ==> new.sessions == old.sessions.push((id, SessionStatsView {
            total_turns: 1, total_tool_calls: 0, total_errors: 0, session_start: start, tools_used: seq![],
        })),
{
    let ss = old.sessions;
    if contains_key(ss, id) {
        let k = index_of_key(ss, id);
        lemma_sums_bound(ss, k);
        assert forall|i: int| 0 <= i < ss.len() && ss[i].0 == id implies i == k by {
            if i != k {
                assert(ss[i].0 != ss[k].0);
            }
        }
    } else {
        assert forall|i: int| 0 <= i < ss.len() implies ss[i].0 != id by {
            if ss[i].0 == id {
                assert(contains_key(ss, id));
            }
        }
    }
}

/// Counting a call of tool `tool` by session `id` adds one tool call to that
/// session's counts and one to the tally of `tool`, which joins the tally last
/// with a count of one if the session had never called it; the tally of every
/// other tool, the session's turns and start, and the counts of every other session
/// stay as they were; a session first seen gets counts started at `start` holding
/// that one call.
pub proof fn law_tool_call_counted_for_named_session(old: StatsView, new: StatsView, id: Seq<char>, tool: Seq<char>, start: u64)
    requires
        stats_wf(old),
        old.aggregate.total_tool_calls < u32::MAX,
        tool_call_recorded_at(old, new, id, tool, start),
    ensures
        forall|i: int| 0 <= i < old.sessions.len() && old.sessions[i].0 != id ==> #[trigger] new.sessions[i] == old.sessions[i],
        forall|i: int| 0 <= i < old.sessions.len() && old.sessions[i].0 == id ==> {
            let (s, t) = (old.sessions[i].1, #[trigger] new.sessions[i]);
            &&& new.sessions.len() == old.sessions.len()
            &&& t.0 == id
            &&& t.1.total_turns == s.total_turns
            &&& t.1.total_tool_calls == s.total_tool_calls + 1
            &&& t.1.total_errors == s.total_errors
            &&& t.1.session_start == s.session_start
            &&& forall|m: int| 0 <= m < s.tools_used.len() && s.tools_used[m].0 != tool
                ==> #[trigger] t.1.tools_used[m] == s.tools_used[m]
            &&& forall|m: int| 0 <= m < s.tools_used.len() && s.tools_used[m].0 == tool
                ==> #[trigger] t.1.tools_used[m] == (tool, (s.tools_used[m].1 + 1) as u32)
                    && s.tools_used[m].1 + 1 <= u32::MAX
            &&& (forall|m: int| 0 <= m < s.tools_used.len() ==> #[trigger] s.tools_used[m].0 != tool)
                ==> t.1.tools_used == s.tools_used.push((tool, 1u32))
            &&& (exists|m: int| 0 <= m < s.tools_used.len() && #[trigger] s.tools_used[m].0 == tool)
                ==> t.1.tools_used.len() == s.tools_used.len()
        },
        !contains_key(old.sessions, id) ==> new.sessions == old.sessions.push((id, SessionStatsView {
            total_turns: 0, total_tool_calls: 1, total_errors: 0, session_start: start, tools_used: seq![(tool, 1u32)],
        })),
{
    let ss = old.sessions;
    if contains_key(ss, id) {
        let k = index_of_key(ss, id);
        lemma_sums_bound(ss, k);
        assert forall|i: int| 0 <= i < ss.len() && ss[i].0 == id implies i == k by {
            if i != k {
                assert(ss[i].0 != ss[k].0);
            }
        }
        let ts = ss[k].1.tools_used;
        assert(session_stats_wf(ss[k].1));
        if contains_key(ts, tool) {
            let m0 = index_of_key(ts, tool);
            lemma_tally_sum_bound(ts, m0);
            assert forall|m: int| 0 <= m < ts.len() && ts[m].0 == tool implies m == m0 by {
                if m != m0 {
                    assert(ts[m].0 != ts[m0].0);
                }
            }
        } else {
            assert forall|m: int| 0 <= m < ts.len() implies ts[m].0 != tool by {
                if ts[m].0 == tool {
                    assert(contains_key(ts, tool));
                }
            }
        }
    } else {
        assert forall|i: int| 0 <= i < ss.len() implies ss[i].0 != id by {
            if ss[i].0 == id {
                assert(contains_key(ss, id));
            }
        }
        assert(with_tool_call(fresh_stats(start), tool).tools_used =~= seq![(tool, 1u32)]);
    }
}

proof fn lemma_tally_sum_update(ts: Seq<(Seq<char>, u32)>, i: int, p: (Seq<char>, u32))
    requires
        0 <= i < ts.len(),
    ensures
        tally_sum(ts.update(i, p)) == tally_sum(ts) - ts[i].1 + p.1,
    decreases ts.len(),
{
    let u = ts.update(i, p);
    if i == ts.len() - 1 {
        assert(u.drop_last() =~= ts.drop_last());
    } else {
        lemma_tally_sum_update(ts.drop_last(), i, p);
        assert(u.drop_last() =~= ts.drop_last().update(i, p));
    }
}

proof fn lemma_tally_sum_bound(ts: Seq<(Seq<char>, u32)>, i: int)
    requires
        0 <= i < ts.len(),
    ensures
        ts[i].1 <= tally_sum(ts),
    decreases ts.len(),
{
    if i < ts.len() - 1 {
        lemma_tally_sum_bound(ts.drop_last(), i);
    }
    lemma_tally_sum_nonneg(ts.drop_last());
}

proof fn lemma_tally_sum_nonneg(ts: Seq<(Seq<char>, u32)>)
    ensures
        tally_sum(ts) >= 0,
    decreases ts.len(),
{
    if ts.len() > 0 {
        lemma_tally_sum_nonneg(ts.drop_last());
    }
}

proof fn lemma_sums_update(ss: Seq<(Seq<char>, SessionStatsView)>, i: int, p: (Seq<char>, SessionStatsView))
    requires
        0 <= i < ss.len(),
    ensures
        turns_sum(ss.update(i, p)) == turns_sum(ss) - ss[i].1.total_turns + p.1.total_turns,
        tool_calls_sum(ss.update(i, p)) == tool_calls_sum(ss) - ss[i].1.total_tool_calls + p.1.total_tool_calls,
    decreases ss.len(),
{
    let u = ss.update(i, p);
    if i == ss.len() - 1 {
        assert(u.drop_last() =~= ss.drop_last());
    } else {
        lemma_sums_update(ss.drop_last(), i, p);
        assert(u.drop_last() =~= ss.drop_last().update(i, p));
    }
}

proof fn lemma_sums_bound(ss: Seq<(Seq<char>, SessionStatsView)>, i: int)
    requires
        0 <= i < ss.len(),
    ensures
        ss[i].1.total_turns <= turns_sum(ss),
        ss[i].1.total_tool_calls <= tool_calls_sum(ss),
        turns_sum(ss) >= 0,
        tool_calls_sum(ss) >= 0,
    decreases ss.len(),
{
    lemma_sums_nonneg(ss.drop_last());
    if i < ss.len() - 1 {
        lemma_sums_bound(ss.drop_last(), i);
    }
}

proof fn lemma_sums_nonneg(ss: Seq<(Seq<char>, SessionStatsView)>)
    ensures
        turns_sum(ss) >= 0,
        tool_calls_sum(ss) >= 0,
    decreases ss.len(),
{
    if ss.len() > 0 {
        lemma_sums_nonneg(ss.drop_last());
    }
}

proof fn lemma_sums_push(ss: Seq<(Seq<char>, SessionStatsView)>, p: (Seq<char>, SessionStatsView))
    ensures
        turns_sum(ss.push(p)) == turns_sum(ss) + p.1.total_turns,
        tool_calls_sum(ss.push(p)) == tool_calls_sum(ss) + p.1.total_tool_calls,
{
    assert(ss.push(p).drop_last() =~= ss);
}

fn copy_tally(ts: &Vec<(String, u32)>) -> (r: Vec<(String, u32)>)
    ensures
        tally_view(r@) == tally_view(ts@),
{
    let mut out: Vec<(String, u32)> = Vec::new();
    let mut i: usize = 0;
    while i < ts.len()
        invariant
            i <= ts.len(),
            out@.len() == i,
            forall|j: int| 0 <= j < i ==> (#[trigger] out@[j]).0@ == ts@[j].0@ && out@[j].1 == ts@[j].1,
        decreases ts.len() - i,
    {
        out.push((ts[i].0.clone(), ts[i].1));
        i = i + 1;
    }
    assert(tally_view(out@) =~= tally_view(ts@));
    out
}

/// The position of `key` among the keys of a tally.
fn tally_position(ts: &Vec<(String, u32)>, key: &str) -> (r: Option<usize>)
    requires
        keys_distinct(tally_view(ts@)),
    ensures
        match r {
            Some(i) => i < ts@.len() && contains_key(tally_view(ts@), key@) && index_of_key(tally_view(ts@), key@) == i,
            None => !contains_key(tally_view(ts@), key@),
        },
{
    let ghost tv = tally_view(ts@);
    let mut i: usize = 0;
    while i < ts.len()
        invariant
            i <= ts.len(),
            tv == tally_view(ts@),
            keys_distinct(tv),
            forall|j: int| 0 <= j < i ==> #[trigger] tv[j].0 != key@,
        decreases ts.len() - i,
    {
        if text_eq(ts[i].0.as_str(), key) {
            proof {
                assert(tv[i as int].0 == key@);
                let k = index_of_key(tv, key@);
                assert(0 <= k < tv.len() && tv[k].0 == key@);
            }
            return Some(i);
        }
        i = i + 1;
    }
    None
}

impl SessionStats {
    fn copied(&self) -> (r: SessionStats)
        ensures
            r@ == self@,
    {
        SessionStats {
            total_turns: self.total_turns,
            total_tool_calls: self.total_tool_calls,
            total_errors: self.total_errors,
            session_start: self.session_start,
            tools_used: copy_tally(&self.tools_used),
        }
    }
}

impl StatsState {
    fn new() -> (r: Self)
        ensures
            r@.sessions == Seq::<(Seq<char>, SessionStatsView)>::empty(),
            r@.aggregate.total_sessions == 0,
            r@.aggregate.total_turns == 0,
            r@.aggregate.total_tool_calls == 0,
            stats_wf(r@),
    {
        let r = StatsState {
            session_stats: Vec::new(),
            aggregate: AggregateStats { total_sessions: 0, total_turns: 0, total_tool_calls: 0 },
        };
        assert(r@.sessions =~= Seq::<(Seq<char>, SessionStatsView)>::empty());
        r
    }

    fn position_of(&self, session_id: &str) -> (r: Option<usize>)
        requires
            keys_distinct(self@.sessions),
        ensures
            match r {
                Some(i) => i < self@.sessions.len() && contains_key(self@.sessions, session_id@)
                    && index_of_key(self@.sessions, session_id@) == i,
                None => !contains_key(self@.sessions, session_id@),
            },
    {
        let ghost sv = self@.sessions;
        let mut i: usize = 0;
        while i < self.session_stats.len()
            invariant
                i <= self.session_stats.len(),
                sv == self@.sessions,
                keys_distinct(sv),
                forall|j: int| 0 <= j < i ==> #[trigger] sv[j].0 != session_id@,
            decreases self.session_stats.len() - i,
        {
            if text_eq(self.session_stats[i].0.as_str(), session_id) {
                proof {
                    assert(sv[i as int].0 == session_id@);
                    let k = index_of_key(sv, session_id@);
                    assert(0 <= k < sv.len() && sv[k].0 == session_id@);
                }
                return Some(i);
            }
            i = i + 1;
        }
        None
    }

    /// The position of the counts of `session_id`, fresh ones started at `start`
    /// being added for a session first seen.
    fn find_or_add(&mut self, session_id: &str, start: u64) -> (r: usize)
        requires
            stats_wf(old(self)@),
            !contains_key(old(self)@.sessions, session_id@) ==> old(self)@.aggregate.total_sessions < u32::MAX,
        ensures
            stats_wf(final(self)@),
            r < final(self)@.sessions.len(),
            final(self)@.sessions[r as int].0 == session_id@,
            contains_key(final(self)@.sessions, session_id@),
            index_of_key(final(self)@.sessions, session_id@) == r,
            final(self)@.aggregate.total_turns == old(self)@.aggregate.total_turns,
            final(self)@.aggregate.total_tool_calls == old(self)@.aggregate.total_tool_calls,
            if contains_key(old(self)@.sessions, session_id@) {
                &&& r == index_of_key(old(self)@.sessions, session_id@)
                &&& final(self)@ == old(self)@
            } else {
                &&& r == old(self)@.sessions.len()
                &&& final(self)@.sessions == old(self)@.sessions.push((session_id@, fresh_stats(start)))
                &&& final(self)@.aggregate.total_sessions == old(self)@.aggregate.total_sessions + 1
            },
    {
        match self.position_of(session_id) {
            Some(i) => i,
            None => {
                let ghost sv = self@.sessions;
                self.aggregate.total_sessions = self.aggregate.total_sessions + 1;
                let stats = SessionStats {
                    total_turns: 0,
                    total_tool_calls: 0,
                    total_errors: 0,
                    session_start: start,
                    tools_used: Vec::new(),
                };
                self.session_stats.push((owned(session_id), stats));
                let r = self.session_stats.len() - 1;
                proof {
                    let v = self@;
                    assert(v.sessions[r as int].1.tools_used =~= Seq::<(Seq<char>, u32)>::empty());
                    assert(v.sessions =~= sv.push((session_id@, fresh_stats(start))));
                    lemma_sums_push(sv, v.sessions[r as int]);
                    lemma_push_new_key(sv, (session_id@, fresh_stats(start)));
                    assert forall|a: int| 0 <= a < v.sessions.len() implies session_stats_wf(#[trigger] v.sessions[a].1) by {
                        if a < sv.len() {
                            assert(v.sessions[a] == sv[a]);
                        }
                    }
                }
                r
            },
        }
    }

    /// Counts a turn in the counts at position `i`.
    fn count_turn(&mut self, i: usize)
        requires
            stats_wf(old(self)@),
            i < old(self)@.sessions.len(),
            old(self)@.aggregate.total_turns < u32::MAX,
        ensures
            stats_wf(final(self)@),
            final(self)@.sessions == old(self)@.sessions.update(
                i as int,
                (old(self)@.sessions[i as int].0, with_turn(old(self)@.sessions[i as int].1)),
            ),
            final(self)@.aggregate == (AggregateStats { total_turns: (old(self)@.aggregate.total_turns + 1) as u32, ..old(self)@.aggregate }),
    {
        let ghost mid = self@.sessions;
        proof {
            lemma_sums_bound(mid, i as int);
        }
        let s = &self.session_stats[i].1;
        let updated = SessionStats { total_turns: s.total_turns + 1, ..s.copied() };
        let key = self.session_stats[i].0.clone();
        self.session_stats.set(i, (key, updated));
        self.aggregate.total_turns = self.aggregate.total_turns + 1;
        proof {
            let v = self@;
            assert(v.sessions =~= mid.update(i as int, (mid[i as int].0, with_turn(mid[i as int].1))));
            lemma_sums_update(mid, i as int, v.sessions[i as int]);
            lemma_same_keys(mid, v.sessions);
            assert forall|a: int| 0 <= a < v.sessions.len() implies session_stats_wf(#[trigger] v.sessions[a].1) by {
                if a != i {
                    assert(v.sessions[a] == mid[a]);
                } else {
                    assert(session_stats_wf(mid[a].1));
                }
            }
        }
    }

    /// Counts a call of tool `tool_name` in the counts at position `i`.
    fn count_tool_call(&mut self, i: usize, tool_name: &str)
        requires
            stats_wf(old(self)@),
            i < old(self)@.sessions.len(),
            old(self)@.aggregate.total_tool_calls < u32::MAX,
        ensures
            stats_wf(final(self)@),
            final(self)@.sessions == old(self)@.sessions.update(
                i as int,
                (old(self)@.sessions[i as int].0, with_tool_call(old(self)@.sessions[i as int].1, tool_name@)),
            ),
            final(self)@.aggregate == (AggregateStats { total_tool_calls: (old(self)@.aggregate.total_tool_calls + 1) as u32, ..old(self)@.aggregate }),
    {
        let ghost mid = self@.sessions;
        let ghost ms = mid[i as int].1;
        proof {
            lemma_sums_bound(mid, i as int);
            assert(session_stats_wf(ms));
        }
        let s = &self.session_stats[i].1;
        let mut tools = copy_tally(&s.tools_used);
        match tally_position(&s.tools_used, tool_name) {
            Some(k) => {
                proof {
                    lemma_tally_sum_bound(ms.tools_used, k as int);
                }
                let count = tools[k].1 + 1;
                let name = tools[k].0.clone();
                tools.set(k, (name, count));
                proof {
                    assert(tally_view(tools@) =~= ms.tools_used.update(k as int, (tool_name@, (ms.tools_used[k as int].1 + 1) as u32)));
                    lemma_tally_sum_update(ms.tools_used, k as int, (tool_name@, (ms.tools_used[k as int].1 + 1) as u32));
                    lemma_same_keys(ms.tools_used, tally_view(tools@));
                }
            },
            None => {
                tools.push((owned(tool_name), 1u32));
                proof {
                    let tv = tally_view(tools@);
                    assert(tv =~= ms.tools_used.push((tool_name@, 1u32)));
                    assert(tv.drop_last() =~= ms.tools_used);
                    lemma_push_new_key(ms.tools_used, (tool_name@, 1u32));
                }
            },
        }
        let updated = SessionStats {
            total_turns: s.total_turns,
            total_tool_calls: s.total_tool_calls + 1,
            total_errors: s.total_errors,
            session_start: s.session_start,
            tools_used: tools,
        };
        assert(updated@ == with_tool_call(ms, tool_name@));
        let key = self.session_stats[i].0.clone();
        self.session_stats.set(i, (key, updated));
        self.aggregate.total_tool_calls = self.aggregate.total_tool_calls + 1;
        proof {
            let v = self@;
            assert(v.sessions =~= mid.update(i as int, (mid[i as int].0, with_tool_call(ms, tool_name@))));
            lemma_sums_update(mid, i as int, v.sessions[i as int]);
            lemma_same_keys(mid, v.sessions);
            assert forall|a: int| 0 <= a < v.sessions.len() implies session_stats_wf(#[trigger] v.sessions[a].1) by {
                if a != i {
                    assert(v.sessions[a] == mid[a]);
                }
            }
        }
    }

    /// Whether counts are kept for session `session_id`.
    fn knows_session(&self, session_id: &str) -> (r: bool)
        requires
            keys_distinct(self@.sessions),
        ensures
            r == contains_key(self@.sessions, session_id@),
    {
        self.position_of(session_id).is_some()
    }
}

impl StatsCollector {
    pub fn new() -> (r: Self)
        ensures
            r@.sessions == Seq::<(Seq<char>, SessionStatsView)>::empty(),
            r@.aggregate.total_sessions == 0,
            r@.aggregate.total_turns == 0,
            r@.aggregate.total_tool_calls == 0,
            stats_wf(r@),
    {
        StatsCollector { state: StatsState::new() }
    }

    /// Hands over this collector's counts, leaving empty ones in their place.
    fn take_state(&mut self) -> (r: StatsState)
        ensures
            r@ == old(self)@,
            stats_wf(r@),
    {
        proof {
            use_type_invariant(&*self);
        }
        let mut st = StatsState::new();
        std::mem::swap(&mut st, &mut self.state);
        st
    }

    /// The position of the counts of `session_id`; a session first seen gets fresh
    /// counts, started at `start`, at the end, and is counted in the totals.
    fn get_or_create(&mut self, session_id: &str, start: u64) -> (r: usize)
        requires
            !contains_key(old(self)@.sessions, session_id@) ==> old(self)@.aggregate.total_sessions < u32::MAX,
        ensures
            stats_wf(final(self)@),
            r < final(self)@.sessions.len(),
            final(self)@.sessions[r as int].0 == session_id@,
            contains_key(final(self)@.sessions, session_id@),
            index_of_key(final(self)@.sessions, session_id@) == r,
            final(self)@.aggregate.total_turns == old(self)@.aggregate.total_turns,
            final(self)@.aggregate.total_tool_calls == old(self)@.aggregate.total_tool_calls,
            if contains_key(old(self)@.sessions, session_id@) {
                &&& r == index_of_key(old(self)@.sessions, session_id@)
                &&& final(self)@ == old(self)@
            } else {
                &&& r == old(self)@.sessions.len()
                &&& final(self)@.sessions == old(self)@.sessions.push((session_id@, fresh_stats(start)))
                &&& final(self)@.aggregate.total_sessions == old(self)@.aggregate.total_sessions + 1
            },
    {
        let mut st = self.take_state();
        let r = st.find_or_add(session_id, start);
        self.state = st;
        r
    }

    /// Counts a turn of session `session_id`; a session first seen starts at `start`
    /// (seconds since the Unix epoch).
    pub fn record_turn_at(&mut self, session_id: &str, start: u64)
        requires
            old(self)@.aggregate.total_turns < u32::MAX,
            !contains_key(old(self)@.sessions, session_id@) ==> old(self)@.aggregate.total_sessions < u32::MAX,
        ensures
            stats_wf(final(self)@),
            turn_recorded_at(old(self)@, final(self)@, session_id@, start),
            contains_key(final(self)@.sessions, session_id@),
    {
        let ghost old_v = self@;
        let i = self.get_or_create(session_id, start);
        let mut st = self.take_state();
        st.count_turn(i);
        self.state = st;
        proof {
            let v = self@;
            assert(v.sessions[i as int].0 == session_id@);
            if !contains_key(old_v.sessions, session_id@) {
                assert(v.sessions =~= old_v.sessions.push((session_id@, with_turn(fresh_stats(start)))));
            }
        }
    }

    /// Counts a call of tool `tool_name` by session `session_id`; a session first
    /// seen starts at `start` (seconds since the Unix epoch).
    pub fn record_tool_call_at(&mut self, session_id: &str, tool_name: &str, start: u64)
        requires
            old(self)@.aggregate.total_tool_calls < u32::MAX,
            !contains_key(old(self)@.sessions, session_id@) ==> old(self)@.aggregate.total_sessions < u32::MAX,
        ensures
            stats_wf(final(self)@),
            tool_call_recorded_at(old(self)@, final(self)@, session_id@, tool_name@, start),
            contains_key(final(self)@.sessions, session_id@),
    {
        let ghost old_v = self@;
        let i = self.get_or_create(session_id, start);
        let mut st = self.take_state();
        st.count_tool_call(i, tool_name);
        self.state = st;
        proof {
            let v = self@;
            assert(v.sessions[i as int].0 == session_id@);
            if !contains_key(old_v.sessions, session_id@) {
                assert(v.sessions =~= old_v.sessions.push((session_id@, with_tool_call(fresh_stats(start), tool_name@))));
            }
        }
    }

    /// Counts a turn of session `session_id`, a session first seen starting now.
    pub fn record_turn(&mut self, session_id: &str)
        requires
            old(self)@.aggregate.total_turns < u32::MAX,
            !contains_key(old(self)@.sessions, session_id@) ==> old(self)@.aggregate.total_sessions < u32::MAX,
        ensures
            stats_wf(final(self)@),
            turn_recorded(old(self)@, final(self)@, session_id@),
            contains_key(final(self)@.sessions, session_id@),
    {
        let start = unix_seconds_now();
        self.record_turn_at(session_id, start);
        proof {
            lemma_new_session_last(old(self)@.sessions, self@.sessions, session_id@, start, |s: SessionStatsView| with_turn(s));
        }
    }

    /// Counts a call of tool `tool_name` by session `session_id`, a session first
    /// seen starting now.
    pub fn record_tool_call(&mut self, session_id: &str, tool_name: &str)
        requires
            old(self)@.aggregate.total_tool_calls < u32::MAX,
            !contains_key(old(self)@.sessions, session_id@) ==> old(self)@.aggregate.total_sessions < u32::MAX,
        ensures
            stats_wf(final(self)@),
            tool_call_recorded(old(self)@, final(self)@, session_id@, tool_name@),
            contains_key(final(self)@.sessions, session_id@),
    {
        let start = unix_seconds_now();
        self.record_tool_call_at(session_id, tool_name, start);
        proof {
            lemma_new_session_last(old(self)@.sessions, self@.sessions, session_id@, start,
                |s: SessionStatsView| with_tool_call(s, tool_name@));
        }
    }

    /// Whether counts are kept for session `session_id`.
    pub fn knows_session(&self, session_id: &str) -> (r: bool)
        ensures
            r == contains_key(self@.sessions, session_id@),
    {
        proof {
            use_type_invariant(self);
        }
        self.state.knows_session(session_id)
    }

    /// The totals over all sessions.
    pub fn get_aggregate(&self) -> (r: &AggregateStats)
        ensures
            *r == self@.aggregate,
            stats_wf(self@),
    {
        proof {
            use_type_invariant(self);
        }
        &self.state.aggregate
    }
}
} // verus!
