use vstd::prelude::*;
use crate::json::{
    json_error_text, json_of_text, parse_json, pretty_json, to_pretty_json,
    array_of, find_key, get_member, has_key, items_view, key_at, key_index, lemma_array_view,
    lemma_key_occurs, lemma_lookup_at, lemma_object_view, lemma_set_member, lemma_set_member_same, lookup, member, object_of, pairs_view, set_member, with_member, Json,
    JsonView,
};
use crate::models::{all_events, event_name, event_of_name, lemma_event_names_distinct, HookEventType};
use crate::text::{owned, text_eq};

verus! {

/// The hook handler entry that runs `cmd`.
pub open spec fn command_entry(cmd: Seq<char>) -> JsonView {
    JsonView::Object(seq![("type"@, JsonView::Str("command"@)), ("command"@, JsonView::Str(cmd))])
}

/// A matcher group holding the one handler that runs `cmd`.
pub open spec fn hook_group(matcher: Option<Seq<char>>, cmd: Seq<char>) -> JsonView {
    let handlers = ("hooks"@, JsonView::Array(seq![command_entry(cmd)]));
    match matcher {
        Some(m) => JsonView::Object(seq![("matcher"@, JsonView::Str(m)), handlers]),
        None => JsonView::Object(seq![handlers]),
    }
}

/// The configuration installed for an event: compaction is hooked for both of its
/// triggers, tool and permission events match every tool, the others take no matcher.
pub open spec fn hook_config(t: HookEventType, cmd: Seq<char>) -> JsonView {
    match t {
        HookEventType::PreCompact => JsonView::Array(
            seq![hook_group(Some("auto"@), cmd), hook_group(Some("manual"@), cmd)],
        ),
        HookEventType::PreToolUse | HookEventType::PostToolUse | HookEventType::PermissionRequest =>
            JsonView::Array(seq![hook_group(Some(".*"@), cmd)]),
        _ => JsonView::Array(seq![hook_group(None, cmd)]),
    }
}

/// A handler runs `cmd`.
pub open spec fn runs_command(h: JsonView, cmd: Seq<char>) -> bool {
    member(h, "command"@) == Some(JsonView::Str(cmd))
}

/// A matcher group has a handler that runs `cmd`.
pub open spec fn group_runs_command(g: JsonView, cmd: Seq<char>) -> bool {
    match member(g, "hooks"@) {
        Some(JsonView::Array(hs)) => exists|i: int| 0 <= i < hs.len() && #[trigger] runs_command(hs[i], cmd),
        _ => false,
    }
}

/// An event's configuration has a group with a handler that runs `cmd`.
pub open spec fn event_runs_command(v: JsonView, cmd: Seq<char>) -> bool {
    match v {
        JsonView::Array(gs) => exists|i: int| 0 <= i < gs.len() && #[trigger] group_runs_command(gs[i], cmd),
        _ => false,
    }
}

/// A member of the hooks object after installation: an event whose configuration
/// does not yet run `cmd` gets the configuration for that event.
pub open spec fn refreshed_member(p: (Seq<char>, JsonView), cmd: Seq<char>) -> (Seq<char>, JsonView) {
    match event_of_name(p.0) {
        Some(t) => if event_runs_command(p.1, cmd) { p } else { (p.0, hook_config(t, cmd)) },
        None => p,
    }
}

/// The members added for the events of `events` that `hs` has no member for, in order.
pub open spec fn missing_members(hs: Seq<(Seq<char>, JsonView)>, events: Seq<HookEventType>, cmd: Seq<char>) -> Seq<(Seq<char>, JsonView)>
    decreases events.len(),
{
    if events.len() == 0 {
        seq![]
    } else {
        let t = events.last();
        let rest = missing_members(hs, events.drop_last(), cmd);
        if has_key(hs, event_name(t)) {
            rest
        } else {
            rest.push((event_name(t), hook_config(t, cmd)))
        }
    }
}

/// The members of the hooks object after installation.
pub open spec fn installed_members(hs: Seq<(Seq<char>, JsonView)>, cmd: Seq<char>) -> Seq<(Seq<char>, JsonView)> {
    Seq::new(hs.len(), |i: int| refreshed_member(hs[i], cmd)) + missing_members(hs, all_events(), cmd)
}

/// The members of a settings document.
pub open spec fn settings_members(settings: JsonView) -> Seq<(Seq<char>, JsonView)> {
    match settings {
        JsonView::Object(es) => es,
        _ => seq![],
    }
}

/// The members of the hooks object of a settings document; none if it has none.
pub open spec fn hooks_members(settings: JsonView) -> Seq<(Seq<char>, JsonView)> {
    match member(settings, "hooks"@) {
        Some(JsonView::Object(h)) => h,
        _ => seq![],
    }
}

/// Settings into which hooks can be written: an object or null, whose hooks
/// member, if there is one, is an object or null.
pub open spec fn can_install(settings: JsonView) -> bool {
    &&& (settings is Object || settings is Null)
    &&& match member(settings, "hooks"@) {
        None => true,
        Some(JsonView::Object(_)) => true,
        Some(JsonView::Null) => true,
        _ => false,
    }
}

/// Settings with the hooks that run `cmd` installed.
pub open spec fn installed(settings: JsonView, cmd: Seq<char>) -> JsonView {
    JsonView::Object(
        set_member(
            settings_members(settings),
            "hooks"@,
            JsonView::Object(installed_members(hooks_members(settings), cmd)),
        ),
    )
}

/// The groups of `gs` that have no handler running `cmd`, in order.
pub open spec fn groups_without(gs: Seq<JsonView>, cmd: Seq<char>) -> Seq<JsonView>
    decreases gs.len(),
{
    if gs.len() == 0 {
        seq![]
    } else {
        let rest = groups_without(gs.drop_last(), cmd);
        if group_runs_command(gs.last(), cmd) {
            rest
        } else {
            rest.push(gs.last())
        }
    }
}

/// The members of the hooks object after removal: each event's groups lose those
/// that run `cmd`, and an event left with no group loses its member.
pub open spec fn stripped_members(hs: Seq<(Seq<char>, JsonView)>, cmd: Seq<char>) -> Seq<(Seq<char>, JsonView)>
    decreases hs.len(),
{
    if hs.len() == 0 {
        seq![]
    } else {
        let rest = stripped_members(hs.drop_last(), cmd);
        let p = hs.last();
        if event_of_name(p.0) is Some && p.1 is Array {
            let kept = groups_without(p.1->Array_0, cmd);
            if kept.len() == 0 {
                rest
            } else {
                rest.push((p.0, JsonView::Array(kept)))
            }
        } else {
            rest.push(p)
        }
    }
}

/// Settings with the hooks that run `cmd` removed; settings without a hooks object are kept.
pub open spec fn uninstalled(settings: JsonView, cmd: Seq<char>) -> JsonView {
    match settings {
        JsonView::Object(es) => match lookup(es, "hooks"@) {
            Some(JsonView::Object(h)) => JsonView::Object(
                set_member(es, "hooks"@, JsonView::Object(stripped_members(h, cmd))),
            ),
            _ => settings,
        },
        _ => settings,
    }
}

fn command_entry_doc(cmd: &str) -> (r: Json)
    ensures
        r@ == command_entry(cmd@),
{
    let mut es: Vec<(String, Json)> = Vec::new();
    es.push((owned("type"), Json::Str(owned("command"))));
    es.push((owned("command"), Json::Str(owned(cmd))));
    let r = object_of(es);
    assert(r@->Object_0 =~= command_entry(cmd@)->Object_0);
    r
}

fn hook_group_doc(matcher: Option<&str>, cmd: &str) -> (r: Json)
    ensures
        r@ == hook_group(match matcher { Some(m) => Some(m@), None => None }, cmd@),
{
    let mut handlers: Vec<Json> = Vec::new();
    handlers.push(command_entry_doc(cmd));
    let handlers = array_of(handlers);
    assert(handlers@->Array_0 =~= seq![command_entry(cmd@)]);
    let mut es: Vec<(String, Json)> = Vec::new();
    match matcher {
        Some(m) => {
            es.push((owned("matcher"), Json::Str(owned(m))));
        },
        None => {},
    }
    es.push((owned("hooks"), handlers));
    let r = object_of(es);
    assert(r@->Object_0 =~= hook_group(match matcher { Some(m) => Some(m@), None => None }, cmd@)->Object_0);
    r
}

fn hook_config_doc(t: HookEventType, cmd: &str) -> (r: Json)
    ensures
        r@ == hook_config(t, cmd@),
{
    let mut groups: Vec<Json> = Vec::new();
    match t {
        HookEventType::PreCompact => {
            groups.push(hook_group_doc(Some("auto"), cmd));
            groups.push(hook_group_doc(Some("manual"), cmd));
        },
        HookEventType::PreToolUse | HookEventType::PostToolUse | HookEventType::PermissionRequest => {
            groups.push(hook_group_doc(Some(".*"), cmd));
        },
        _ => {
            groups.push(hook_group_doc(None, cmd));
        },
    }
    let r = array_of(groups);
    assert(r@->Array_0 =~= hook_config(t, cmd@)->Array_0);
    r
}

fn runs_command_doc(h: &Json, cmd: &str) -> (r: bool)
    ensures
        r == runs_command(h@, cmd@),
{
    match get_member(h, "command") {
        Some(Json::Str(s)) => text_eq(s.as_str(), cmd),
        _ => false,
    }
}

#[verifier::loop_isolation(false)]
fn group_runs_command_doc(g: &Json, cmd: &str) -> (r: bool)
    ensures
        r == group_runs_command(g@, cmd@),
{
    match get_member(g, "hooks") {
        Some(Json::Array(hs)) => {
            proof {
                lemma_array_view(*hs);
            }
            let mut i: usize = 0;
            while i < hs.len()
                invariant
                    i <= hs.len(),
                    forall|j: int| 0 <= j < i ==> !runs_command(#[trigger] hs@[j]@, cmd@),
                decreases hs.len() - i,
            {
                if runs_command_doc(&hs[i], cmd) {
                    assert(runs_command(items_view(hs@)[i as int], cmd@));
                    return true;
                }
                i = i + 1;
            }
            assert forall|j: int| 0 <= j < items_view(hs@).len() implies !runs_command(#[trigger] items_view(hs@)[j], cmd@) by {
                assert(!runs_command(hs@[j]@, cmd@));
            }
            false
        },
        _ => false,
    }
}

#[verifier::loop_isolation(false)]
fn event_runs_command_doc(v: &Json, cmd: &str) -> (r: bool)
    ensures
        r == event_runs_command(v@, cmd@),
{
    match v {
        Json::Array(gs) => {
            proof {
                lemma_array_view(*gs);
            }
            let mut i: usize = 0;
            while i < gs.len()
                invariant
                    i <= gs.len(),
                    forall|j: int| 0 <= j < i ==> !group_runs_command(#[trigger] gs@[j]@, cmd@),
                decreases gs.len() - i,
            {
                if group_runs_command_doc(&gs[i], cmd) {
                    assert(group_runs_command(items_view(gs@)[i as int], cmd@));
                    return true;
                }
                i = i + 1;
            }
            assert forall|j: int| 0 <= j < items_view(gs@).len() implies !group_runs_command(#[trigger] items_view(gs@)[j], cmd@) by {
                assert(!group_runs_command(gs@[j]@, cmd@));
            }
            false
        },
        _ => false,
    }
}


fn installed_members_of(hs: &Vec<(String, Json)>, cmd: &str) -> (r: Vec<(String, Json)>)
    ensures
        pairs_view(r@) == installed_members(pairs_view(hs@), cmd@),
{
    let ghost hv = pairs_view(hs@);
    let mut out: Vec<(String, Json)> = Vec::new();
    let mut i: usize = 0;
    while i < hs.len()
        invariant
            i <= hs.len(),
            hv == pairs_view(hs@),
            out@.len() == i,
            forall|j: int| 0 <= j < i ==> ((#[trigger] out@[j]).0@, out@[j].1@) == refreshed_member(hv[j], cmd@),
        decreases hs.len() - i,
    {
        let key = &hs[i].0;
        let value = &hs[i].1;
        match HookEventType::from_name(key.as_str()) {
            Some(t) => {
                if event_runs_command_doc(value, cmd) {
                    out.push((key.clone(), value.deep_copy()));
                } else {
                    out.push((key.clone(), hook_config_doc(t, cmd)));
                }
            },
            None => {
                out.push((key.clone(), value.deep_copy()));
            },
        }
        i = i + 1;
    }
    let ghost mapped = Seq::new(hv.len(), |j: int| refreshed_member(hv[j], cmd@));
    assert(pairs_view(out@) =~= mapped);
    let events = HookEventType::all();
    let mut k: usize = 0;
    while k < events.len()
        invariant
            k <= events.len(),
            events@ == all_events(),
            hv == pairs_view(hs@),
            pairs_view(out@) == mapped + missing_members(hv, events@.take(k as int), cmd@),
        decreases events.len() - k,
    {
        let t = events[k];
        let ghost before = pairs_view(out@);
        assert(events@.take(k as int + 1).drop_last() =~= events@.take(k as int));
        assert(events@.take(k as int + 1).last() == t);
        if find_key(hs, t.name()).is_none() {
            out.push((owned(t.name()), hook_config_doc(t, cmd)));
            assert(pairs_view(out@) =~= before.push((event_name(t), hook_config(t, cmd@))));
        } else {
            assert(pairs_view(out@) =~= before);
        }
        k = k + 1;
    }
    assert(events@.take(events@.len() as int) =~= events@);
    out
}

/// Whether hooks can be written into `settings` (see `can_install`).
pub fn can_install_hooks(settings: &Json) -> (r: bool)
    ensures
        r == can_install(settings@),
{
    match settings {
        Json::Object(_) | Json::Null => {
            match get_member(settings, "hooks") {
                None => true,
                Some(Json::Object(_)) => true,
                Some(Json::Null) => true,
                Some(_) => false,
            }
        },
        _ => false,
    }
}

/// Installs, into a settings document, the hooks that run `command` for every event:
/// an event whose configuration already has a handler running `command` is left
/// as it is, any other gets the configuration for that event, and a settings
/// document without a hooks member gets one.
pub fn with_hooks_installed(settings: &Json, command: &str) -> (r: Json)
    requires
        can_install(settings@),
    ensures
        r@ == installed(settings@, command@),
{
    let empty: Vec<(String, Json)> = Vec::new();
    let top: &Vec<(String, Json)> = match settings {
        Json::Object(es) => es,
        _ => &empty,
    };
    proof {
        lemma_object_view(*top);
        lemma_object_view(empty);
        assert(settings_members(settings@) == pairs_view(top@));
    }
    let hooks: &Vec<(String, Json)> = match find_key(top, "hooks") {
        Some(i) => {
            proof {
                crate::json::lemma_lookup_at(pairs_view(top@), "hooks"@, i as int);
            }
            match &top[i].1 {
                Json::Object(h) => {
                    proof {
                        lemma_object_view(*h);
                    }
                    h
                },
                _ => &empty,
            }
        },
        None => &empty,
    };
    assert(hooks_members(settings@) == pairs_view(hooks@));
    let new_hooks = installed_members_of(hooks, command);
    let new_hooks = object_of(new_hooks);
    object_of(with_member(top, "hooks", new_hooks))
}

fn groups_without_command(gs: &Vec<Json>, cmd: &str) -> (r: Vec<Json>)
    ensures
        items_view(r@) == groups_without(items_view(gs@), cmd@),
{
    let mut out: Vec<Json> = Vec::new();
    let mut i: usize = 0;
    while i < gs.len()
        invariant
            i <= gs.len(),
            items_view(out@) == groups_without(items_view(gs@).take(i as int), cmd@),
        decreases gs.len() - i,
    {
        let ghost before = items_view(out@);
        assert(items_view(gs@).take(i as int + 1).drop_last() =~= items_view(gs@).take(i as int));
        assert(items_view(gs@).take(i as int + 1).last() == gs@[i as int]@);
        if !group_runs_command_doc(&gs[i], cmd) {
            out.push(gs[i].deep_copy());
            assert(items_view(out@) =~= before.push(gs@[i as int]@));
        } else {
            assert(items_view(out@) =~= before);
        }
        i = i + 1;
    }
    assert(items_view(gs@).take(gs@.len() as int) =~= items_view(gs@));
    out
}

fn stripped_members_of(hs: &Vec<(String, Json)>, cmd: &str) -> (r: Vec<(String, Json)>)
    ensures
        pairs_view(r@) == stripped_members(pairs_view(hs@), cmd@),
{
    let mut out: Vec<(String, Json)> = Vec::new();
    let mut i: usize = 0;
    while i < hs.len()
        invariant
            i <= hs.len(),
            pairs_view(out@) == stripped_members(pairs_view(hs@).take(i as int), cmd@),
        decreases hs.len() - i,
    {
        let ghost before = pairs_view(out@);
        let ghost p = pairs_view(hs@)[i as int];
        assert(pairs_view(hs@).take(i as int + 1).drop_last() =~= pairs_view(hs@).take(i as int));
        assert(pairs_view(hs@).take(i as int + 1).last() == p);
        let key = &hs[i].0;
        let value = &hs[i].1;
        let is_event = HookEventType::from_name(key.as_str()).is_some();
        match value {
            Json::Array(gs) => {
                if is_event {
                    proof {
                        lemma_array_view(*gs);
                    }
                    let kept = groups_without_command(gs, cmd);
                    if kept.len() > 0 {
                        let k = key.clone();
                        let doc = array_of(kept);
                        out.push((k, doc));
                        assert(pairs_view(out@) =~= before.push((p.0, JsonView::Array(groups_without(p.1->Array_0, cmd@)))));
                    } else {
                        assert(pairs_view(out@) =~= before);
                    }
                } else {
                    out.push((key.clone(), value.deep_copy()));
                    assert(pairs_view(out@) =~= before.push(p));
                }
            },
            _ => {
                out.push((key.clone(), value.deep_copy()));
                assert(pairs_view(out@) =~= before.push(p));
            },
        }
        i = i + 1;
    }
    assert(pairs_view(hs@).take(hs@.len() as int) =~= pairs_view(hs@));
    out
}

/// Removes, from a settings document, every matcher group whose handlers run
/// `command`, from the configuration of every event; an event left with no group
/// loses its member. Settings without a hooks object are returned as they are.
pub fn with_hooks_removed(settings: &Json, command: &str) -> (r: Json)
    ensures
        r@ == uninstalled(settings@, command@),
{
    match settings {
        Json::Object(top) => {
            proof {
                lemma_object_view(*top);
            }
            match find_key(top, "hooks") {
                Some(i) => {
                    proof {
                        crate::json::lemma_lookup_at(pairs_view(top@), "hooks"@, i as int);
                    }
                    match &top[i].1 {
                        Json::Object(h) => {
                            proof {
                                lemma_object_view(*h);
                            }
                            let new_hooks = object_of(stripped_members_of(h, command));
                            object_of(with_member(top, "hooks", new_hooks))
                        },
                        _ => settings.deep_copy(),
                    }
                },
                None => settings.deep_copy(),
            }
        },
        _ => settings.deep_copy(),
    }
}


/// The settings document a settings file holds: its JSON, or an empty object
/// where there is no file or its text is not JSON.
pub open spec fn settings_document(content: Option<Seq<char>>) -> JsonView {
    match content {
        Some(t) => match json_of_text(t) {
            Some(d) => d,
            None => JsonView::Object(seq![]),
        },
        None => JsonView::Object(seq![]),
    }
}

/// The text of a settings file with the hooks that run `command` installed, from
/// the file's text (`None` where there is no file). No text comes back where the
/// settings cannot take hooks (see `can_install`).
pub fn install_into_settings_text(content: Option<&str>, command: &str) -> (r: Option<String>)
    ensures
        ({
            let d = settings_document(match content { Some(t) => Some(t@), None => None });
            &&& (r is Some <==> can_install(d))
            &&& (r matches Some(t) ==> t@ == pretty_json(installed(d, command@)))
        }),
{
    let settings = match content {
        Some(t) => match parse_json(t) {
            Ok(d) => d,
            Err(_) => crate::json::empty_object(),
        },
        None => crate::json::empty_object(),
    };
    if !can_install_hooks(&settings) {
        return None;
    }
    Some(to_pretty_json(&with_hooks_installed(&settings, command)))
}

/// The text of a settings file with the hooks that run `command` removed, from
/// the file's text; the parser's message where the text is not JSON.
pub fn remove_from_settings_text(content: &str, command: &str) -> (r: Result<String, String>)
    ensures
        match json_of_text(content@) {
            Some(d) => r matches Ok(t) && t@ == pretty_json(uninstalled(d, command@)),
            None => r matches Err(e) && e@ == json_error_text(content@),
        },
{
    match parse_json(content) {
        Ok(d) => Ok(to_pretty_json(&with_hooks_removed(&d, command))),
        Err(e) => Err(e),
    }
}

/// The configuration installed for an event runs the command it was made for.
pub proof fn lemma_config_runs_command(t: HookEventType, cmd: Seq<char>)
    ensures
        event_runs_command(hook_config(t, cmd), cmd),
        hook_config(t, cmd) is Array,
        forall|i: int| 0 <= i < hook_config(t, cmd)->Array_0.len()
            ==> group_runs_command(#[trigger] hook_config(t, cmd)->Array_0[i], cmd),
{
    reveal_strlit("hooks");
    reveal_strlit("matcher");
    reveal_strlit("command");
    reveal_strlit("type");
    assert("hooks"@.len() != "matcher"@.len());
    assert("command"@.len() != "type"@.len());
    let e = command_entry(cmd);
    lemma_lookup_at(e->Object_0, "command"@, 1);
    assert(runs_command(e, cmd));
    assert forall|m: Option<Seq<char>>| #[trigger] group_runs_command(hook_group(m, cmd), cmd) by {
        let g = hook_group(m, cmd);
        match m {
            Some(_) => {
                lemma_lookup_at(g->Object_0, "hooks"@, 1);
            },
            None => {
                lemma_lookup_at(g->Object_0, "hooks"@, 0);
            },
        }
        let hs = member(g, "hooks"@)->0->Array_0;
        assert(runs_command(hs[0], cmd));
    }
    let c = hook_config(t, cmd);
    assert(group_runs_command(c->Array_0[0], cmd));
}

/// Removing the groups that run `cmd` from groups that all run it leaves none.
proof fn lemma_groups_without_all(gs: Seq<JsonView>, cmd: Seq<char>)
    requires
        forall|i: int| 0 <= i < gs.len() ==> group_runs_command(#[trigger] gs[i], cmd),
    ensures
        groups_without(gs, cmd) == Seq::<JsonView>::empty(),
    decreases gs.len(),
{
    if gs.len() > 0 {
        assert(group_runs_command(gs[gs.len() - 1], cmd));
        lemma_groups_without_all(gs.drop_last(), cmd);
    }
}

/// Removal works member by member.
proof fn lemma_stripped_concat(a: Seq<(Seq<char>, JsonView)>, b: Seq<(Seq<char>, JsonView)>, cmd: Seq<char>)
    ensures
        stripped_members(a + b, cmd) == stripped_members(a, cmd) + stripped_members(b, cmd),
    decreases b.len(),
{
    if b.len() == 0 {
        assert(a + b =~= a);
        assert(stripped_members(a, cmd) + stripped_members(b, cmd) =~= stripped_members(a, cmd));
    } else {
        lemma_stripped_concat(a, b.drop_last(), cmd);
        assert((a + b).drop_last() =~= a + b.drop_last());
        assert((a + b).last() == b.last());
        let sa = stripped_members(a, cmd);
        let sb = stripped_members(b.drop_last(), cmd);
        let p = b.last();
        if event_of_name(p.0) is Some && p.1 is Array {
            let kept = groups_without(p.1->Array_0, cmd);
            if kept.len() > 0 {
                assert((sa + sb).push((p.0, JsonView::Array(kept))) =~= sa + sb.push((p.0, JsonView::Array(kept))));
            }
        } else {
            assert((sa + sb).push(p) =~= sa + sb.push(p));
        }
    }
}

/// Members that name no event come through removal as they were.
proof fn lemma_stripped_no_events(h: Seq<(Seq<char>, JsonView)>, cmd: Seq<char>)
    requires
        forall|i: int| 0 <= i < h.len() ==> event_of_name((#[trigger] h[i]).0) is None,
    ensures
        stripped_members(h, cmd) == h,
    decreases h.len(),
{
    if h.len() > 0 {
        assert(event_of_name(h[h.len() - 1].0) is None);
        lemma_stripped_no_events(h.drop_last(), cmd);
        assert(h.drop_last().push(h.last()) =~= h);
    }
}

/// The members that installation adds are all taken out again by removal.
proof fn lemma_stripped_missing(h: Seq<(Seq<char>, JsonView)>, events: Seq<HookEventType>, cmd: Seq<char>)
    ensures
        stripped_members(missing_members(h, events, cmd), cmd) == Seq::<(Seq<char>, JsonView)>::empty(),
    decreases events.len(),
{
    if events.len() > 0 {
        lemma_stripped_missing(h, events.drop_last(), cmd);
        let t = events.last();
        let rest = missing_members(h, events.drop_last(), cmd);
        if !has_key(h, event_name(t)) {
            let m = rest.push((event_name(t), hook_config(t, cmd)));
            lemma_event_names_distinct();
            lemma_config_runs_command(t, cmd);
            lemma_groups_without_all(hook_config(t, cmd)->Array_0, cmd);
            assert(m.drop_last() =~= rest);
        }
    }
}

/// Setting a member twice is setting it to the second value.
proof fn lemma_set_member_twice(es: Seq<(Seq<char>, JsonView)>, key: Seq<char>, v1: JsonView, v2: JsonView)
    ensures
        set_member(set_member(es, key, v1), key, v2) == set_member(es, key, v2),
{
    let e1 = set_member(es, key, v1);
    if has_key(es, key) {
        let i = key_index(es, key);
        assert(key_at(es, key, i));
        assert(key_at(e1, key, i));
        lemma_lookup_at(e1, key, i);
        assert(set_member(e1, key, v2) =~= set_member(es, key, v2));
    } else {
        crate::json::lemma_absent_nowhere(es, key);
        let n = es.len() as int;
        assert(key_at(e1, key, n));
        lemma_lookup_at(e1, key, n);
        assert(set_member(e1, key, v2) =~= set_member(es, key, v2));
    }
}

/// No member of the hooks object names an event.
pub open spec fn names_no_event(h: Seq<(Seq<char>, JsonView)>) -> bool {
    forall|i: int| 0 <= i < h.len() ==> event_of_name((#[trigger] h[i]).0) is None
}

/// Removing the hooks right after installing them into settings that held no
/// hooks for any event gives the settings back: the hooks member returns to what
/// it was, or is an empty object where there was none.
pub proof fn law_uninstall_undoes_install(settings: JsonView, cmd: Seq<char>)
    requires
        settings is Object,
        match member(settings, "hooks"@) {
            None => true,
            Some(JsonView::Object(h)) => names_no_event(h),
            _ => false,
        },
    ensures
        uninstalled(installed(settings, cmd), cmd)
            == JsonView::Object(set_member(settings->Object_0, "hooks"@, JsonView::Object(hooks_members(settings)))),
        member(settings, "hooks"@) is Some ==> uninstalled(installed(settings, cmd), cmd) == settings,
{
    let es = settings->Object_0;
    let h = hooks_members(settings);
    let im = installed_members(h, cmd);
    let m = missing_members(h, all_events(), cmd);
    let mapped = Seq::new(h.len(), |j: int| refreshed_member(h[j], cmd));
    assert(mapped =~= h);
    assert(im == mapped + m);
    lemma_set_member(es, "hooks"@, JsonView::Object(im), "hooks"@);
    lemma_stripped_concat(h, m, cmd);
    lemma_stripped_no_events(h, cmd);
    lemma_stripped_missing(h, all_events(), cmd);
    assert(stripped_members(im, cmd) =~= h);
    lemma_set_member_twice(es, "hooks"@, JsonView::Object(im), JsonView::Object(h));
    if member(settings, "hooks"@) is Some {
        lemma_set_member_same(es, "hooks"@, JsonView::Object(h));
    }
}

/// Every member added for a missing event holds that event's configuration.
proof fn lemma_missing_members_shape(hs: Seq<(Seq<char>, JsonView)>, events: Seq<HookEventType>, cmd: Seq<char>)
    ensures
        forall|i: int| 0 <= i < missing_members(hs, events, cmd).len() ==> exists|t: HookEventType|
            #[trigger] missing_members(hs, events, cmd)[i] == (event_name(t), hook_config(t, cmd)),
    decreases events.len(),
{
    if events.len() > 0 {
        lemma_missing_members_shape(hs, events.drop_last(), cmd);
        let rest = missing_members(hs, events.drop_last(), cmd);
        let m = missing_members(hs, events, cmd);
        assert forall|i: int| 0 <= i < m.len() implies exists|t: HookEventType|
            #[trigger] m[i] == (event_name(t), hook_config(t, cmd)) by {
            if i < rest.len() {
                assert(m[i] == rest[i]);
            } else {
                assert(m[i] == (event_name(events.last()), hook_config(events.last(), cmd)));
            }
        }
    }
}

/// An event of `events` that `hs` has no member for gets one among the added members.
proof fn lemma_missing_members_cover(hs: Seq<(Seq<char>, JsonView)>, events: Seq<HookEventType>, cmd: Seq<char>, t: HookEventType)
    requires
        events.contains(t),
        !has_key(hs, event_name(t)),
    ensures
        exists|i: int| 0 <= i < missing_members(hs, events, cmd).len()
            && (#[trigger] missing_members(hs, events, cmd)[i]).0 == event_name(t),
    decreases events.len(),
{
    let m = missing_members(hs, events, cmd);
    if events.last() == t {
        assert(m[m.len() - 1].0 == event_name(t));
    } else {
        let k = choose|k: int| 0 <= k < events.len() && events[k] == t;
        assert(events.drop_last()[k] == t);
        lemma_missing_members_cover(hs, events.drop_last(), cmd, t);
        let rest = missing_members(hs, events.drop_last(), cmd);
        let i = choose|i: int| 0 <= i < rest.len() && (#[trigger] rest[i]).0 == event_name(t);
        assert(m[i] == rest[i]);
    }
}

/// No member is added when every event of `events` already has one.
proof fn lemma_missing_members_none(hs: Seq<(Seq<char>, JsonView)>, events: Seq<HookEventType>, cmd: Seq<char>)
    requires
        forall|i: int| 0 <= i < events.len() ==> has_key(hs, event_name(#[trigger] events[i])),
    ensures
        missing_members(hs, events, cmd) == Seq::<(Seq<char>, JsonView)>::empty(),
    decreases events.len(),
{
    if events.len() > 0 {
        assert(has_key(hs, event_name(events[events.len() - 1])));
        lemma_missing_members_none(hs, events.drop_last(), cmd);
    }
}

/// After installation, every member of the hooks object that names an event runs `cmd`.
proof fn lemma_installed_members_run(hs: Seq<(Seq<char>, JsonView)>, cmd: Seq<char>)
    ensures
        forall|i: int| 0 <= i < installed_members(hs, cmd).len()
            && event_of_name((#[trigger] installed_members(hs, cmd)[i]).0) is Some
            ==> event_runs_command(installed_members(hs, cmd)[i].1, cmd),
{
    let im = installed_members(hs, cmd);
    let m = missing_members(hs, all_events(), cmd);
    lemma_missing_members_shape(hs, all_events(), cmd);
    lemma_event_names_distinct();
    assert forall|i: int| 0 <= i < im.len() && event_of_name((#[trigger] im[i]).0) is Some implies event_runs_command(im[i].1, cmd) by {
        if i < hs.len() {
            let t = event_of_name(hs[i].0)->0;
            lemma_config_runs_command(t, cmd);
        } else {
            assert(im[i] == m[i - hs.len()]);
            let t = choose|t: HookEventType| #[trigger] m[i - hs.len()] == (event_name(t), hook_config(t, cmd));
            lemma_config_runs_command(t, cmd);
        }
    }
}

/// After installation, the hooks object has a member for every event.
proof fn lemma_installed_members_cover(hs: Seq<(Seq<char>, JsonView)>, cmd: Seq<char>, t: HookEventType)
    ensures
        has_key(installed_members(hs, cmd), event_name(t)),
{
    let im = installed_members(hs, cmd);
    let name = event_name(t);
    if has_key(hs, name) {
        let i = key_index(hs, name);
        assert(key_at(hs, name, i));
        assert(im[i].0 == name);
        lemma_key_occurs(im, name, i);
    } else {
        let k: int = match t {
            HookEventType::UserPromptSubmit => 0,
            HookEventType::SessionStart => 1,
            HookEventType::PreToolUse => 2,
            HookEventType::PostToolUse => 3,
            HookEventType::PermissionRequest => 4,
            HookEventType::PreCompact => 5,
            HookEventType::Stop => 6,
            HookEventType::SubagentStop => 7,
            HookEventType::SessionEnd => 8,
        };
        assert(all_events()[k] == t);
        lemma_missing_members_cover(hs, all_events(), cmd, t);
        let m = missing_members(hs, all_events(), cmd);
        let i = choose|i: int| 0 <= i < m.len() && (#[trigger] m[i]).0 == name;
        assert(im[hs.len() + i] == m[i]);
        lemma_key_occurs(im, name, hs.len() + i);
    }
}

/// Installation writes, for every event, a configuration with a handler that runs the command.
pub proof fn law_install_covers_every_event(settings: JsonView, cmd: Seq<char>, t: HookEventType)
    requires
        can_install(settings),
    ensures
        ({
            let hooks = member(installed(settings, cmd), "hooks"@);
            &&& hooks matches Some(JsonView::Object(h))
            &&& lookup(h, event_name(t)) matches Some(v)
            &&& event_runs_command(v, cmd)
        }),
{
    let im = installed_members(hooks_members(settings), cmd);
    lemma_set_member(settings_members(settings), "hooks"@, JsonView::Object(im), "hooks"@);
    lemma_installed_members_cover(hooks_members(settings), cmd, t);
    lemma_installed_members_run(hooks_members(settings), cmd);
    lemma_event_names_distinct();
    let i = key_index(im, event_name(t));
    assert(key_at(im, event_name(t), i));
    assert(event_of_name(im[i].0) == Some(t));
}

/// Installing into settings that hold the installed hooks changes nothing.
pub proof fn law_install_idempotent(settings: JsonView, cmd: Seq<char>)
    requires
        can_install(settings),
    ensures
        can_install(installed(settings, cmd)),
        installed(installed(settings, cmd), cmd) == installed(settings, cmd),
{
    let hs = hooks_members(settings);
    let im = installed_members(hs, cmd);
    let es1 = set_member(settings_members(settings), "hooks"@, JsonView::Object(im));
    let s1 = installed(settings, cmd);
    lemma_set_member(settings_members(settings), "hooks"@, JsonView::Object(im), "hooks"@);
    assert(hooks_members(s1) == im);
    lemma_installed_members_run(hs, cmd);
    lemma_event_names_distinct();
    assert forall|i: int| 0 <= i < im.len() implies #[trigger] refreshed_member(im[i], cmd) == im[i] by {
        if event_of_name(im[i].0) is Some {
            crate::models::lemma_event_of_name_inverse(im[i].0);
            assert(event_runs_command(im[i].1, cmd));
        }
    }
    assert forall|i: int| 0 <= i < all_events().len() implies has_key(im, event_name(#[trigger] all_events()[i])) by {
        lemma_installed_members_cover(hs, cmd, all_events()[i]);
    }
    lemma_missing_members_none(im, all_events(), cmd);
    assert(installed_members(im, cmd) =~= im);
    lemma_set_member_same(es1, "hooks"@, JsonView::Object(im));
}

/// The groups kept after removal have no handler that runs `cmd`.
proof fn lemma_groups_without(gs: Seq<JsonView>, cmd: Seq<char>)
    ensures
        forall|i: int| 0 <= i < groups_without(gs, cmd).len() ==> !group_runs_command(#[trigger] groups_without(gs, cmd)[i], cmd),
    decreases gs.len(),
{
    if gs.len() > 0 {
        lemma_groups_without(gs.drop_last(), cmd);
        let gw = groups_without(gs, cmd);
        let rest = groups_without(gs.drop_last(), cmd);
        assert forall|i: int| 0 <= i < gw.len() implies !group_runs_command(#[trigger] gw[i], cmd) by {
            if i < rest.len() {
                assert(gw[i] == rest[i]);
            }
        }
    }
}

proof fn lemma_stripped_members(hs: Seq<(Seq<char>, JsonView)>, cmd: Seq<char>)
    ensures
        forall|i: int| 0 <= i < stripped_members(hs, cmd).len()
            && event_of_name((#[trigger] stripped_members(hs, cmd)[i]).0) is Some
            && stripped_members(hs, cmd)[i].1 is Array
            ==> !event_runs_command(stripped_members(hs, cmd)[i].1, cmd)
                && stripped_members(hs, cmd)[i].1->Array_0.len() > 0,
    decreases hs.len(),
{
    if hs.len() > 0 {
        lemma_stripped_members(hs.drop_last(), cmd);
        let p = hs.last();
        if event_of_name(p.0) is Some && p.1 is Array {
            lemma_groups_without(p.1->Array_0, cmd);
        }
        let sm = stripped_members(hs, cmd);
        let rest = stripped_members(hs.drop_last(), cmd);
        assert forall|i: int| 0 <= i < sm.len() && event_of_name((#[trigger] sm[i]).0) is Some && sm[i].1 is Array
            implies !event_runs_command(sm[i].1, cmd) && sm[i].1->Array_0.len() > 0 by {
            if i < rest.len() {
                assert(sm[i] == rest[i]);
            }
        }
    }
}

/// After removal, no event of the hooks object keeps a group that runs the command,
/// and no event is left with an empty list of groups.
pub proof fn law_uninstall_removes_command(settings: JsonView, cmd: Seq<char>, i: int)
    requires
        member(settings, "hooks"@) matches Some(JsonView::Object(_)),
        0 <= i < hooks_members(uninstalled(settings, cmd)).len(),
        event_of_name(hooks_members(uninstalled(settings, cmd))[i].0) is Some,
        hooks_members(uninstalled(settings, cmd))[i].1 is Array,
    ensures
        !event_runs_command(hooks_members(uninstalled(settings, cmd))[i].1, cmd),
        hooks_members(uninstalled(settings, cmd))[i].1->Array_0.len() > 0,
{
    let es = settings->Object_0;
    let h = member(settings, "hooks"@)->0->Object_0;
    lemma_set_member(es, "hooks"@, JsonView::Object(stripped_members(h, cmd)), "hooks"@);
    lemma_stripped_members(h, cmd);
    assert(hooks_members(uninstalled(settings, cmd)) == stripped_members(h, cmd));
}

/// Removing the hooks right after installing them leaves no event with a group
/// that runs the command, nor with an empty list of groups.
pub proof fn law_install_then_uninstall(settings: JsonView, cmd: Seq<char>, i: int)
    requires
        can_install(settings),
        0 <= i < hooks_members(uninstalled(installed(settings, cmd), cmd)).len(),
        event_of_name(hooks_members(uninstalled(installed(settings, cmd), cmd))[i].0) is Some,
        hooks_members(uninstalled(installed(settings, cmd), cmd))[i].1 is Array,
    ensures
        !event_runs_command(hooks_members(uninstalled(installed(settings, cmd), cmd))[i].1, cmd),
{
    let im = installed_members(hooks_members(settings), cmd);
    lemma_set_member(settings_members(settings), "hooks"@, JsonView::Object(im), "hooks"@);
    law_uninstall_removes_command(installed(settings, cmd), cmd, i);
}

/// Installation leaves every member of the hooks object that names no event as it was.
pub proof fn law_install_keeps_other_hooks(settings: JsonView, cmd: Seq<char>, key: Seq<char>)
    requires
        can_install(settings),
        event_of_name(key) is None,
    ensures
        lookup(hooks_members(installed(settings, cmd)), key) == lookup(hooks_members(settings), key),
{
    let hs = hooks_members(settings);
    let im = installed_members(hs, cmd);
    lemma_set_member(settings_members(settings), "hooks"@, JsonView::Object(im), "hooks"@);
    assert(hooks_members(installed(settings, cmd)) == im);
    lemma_missing_members_shape(hs, all_events(), cmd);
    lemma_event_names_distinct();
    if has_key(hs, key) {
        let i = key_index(hs, key);
        assert(key_at(hs, key, i));
        assert(key_at(im, key, i));
        lemma_lookup_at(im, key, i);
    } else {
        crate::json::lemma_absent_nowhere(hs, key);
        let m = missing_members(hs, all_events(), cmd);
        assert forall|j: int| 0 <= j < im.len() implies im[j].0 != key by {
            if j >= hs.len() {
                assert(im[j] == m[j - hs.len()]);
                let t = choose|t: HookEventType| #[trigger] m[j - hs.len()] == (event_name(t), hook_config(t, cmd));
                assert(event_of_name(event_name(t)) == Some(t));
            }
        }
        crate::json::lemma_key_absent(im, key);
    }
}

/// Installing and removing hooks leave every settings member other than the hooks alone.
pub proof fn law_other_settings_untouched(settings: JsonView, cmd: Seq<char>, key: Seq<char>)
    requires
        settings is Object,
        key != "hooks"@,
    ensures
        member(installed(settings, cmd), key) == member(settings, key),
        member(uninstalled(settings, cmd), key) == member(settings, key),
{
    let es = settings->Object_0;
    lemma_set_member(es, "hooks"@, JsonView::Object(installed_members(hooks_members(settings), cmd)), key);
    if let Some(JsonView::Object(h)) = lookup(es, "hooks"@) {
        lemma_set_member(es, "hooks"@, JsonView::Object(stripped_members(h, cmd)), key);
    }
}

/// Handler `k` of matcher group `g` runs `cmd`: the group's handlers are a list,
/// and the one at position `k` has `cmd` as its command.
pub open spec fn handler_in_group(g: JsonView, k: int, cmd: Seq<char>) -> bool {
    &&& member(g, "hooks"@) matches Some(JsonView::Array(hd))
    &&& 0 <= k < hd.len()
    &&& member(hd[k], "command"@) == Some(JsonView::Str(cmd))
}

/// Group `j` of an event's configuration has, at position `k`, a handler that runs `cmd`.
pub open spec fn handler_at(config: JsonView, j: int, k: int, cmd: Seq<char>) -> bool {
    &&& config matches JsonView::Array(gs)
    &&& 0 <= j < gs.len()
    &&& handler_in_group(gs[j], k, cmd)
}

/// A group has a handler running `cmd` exactly when one of its handlers, at some position, does.
proof fn lemma_group_runs_command_at(g: JsonView, cmd: Seq<char>)
    ensures
        group_runs_command(g, cmd) <==> exists|k: int| #[trigger] handler_in_group(g, k, cmd),
{
    if group_runs_command(g, cmd) {
        let hd = member(g, "hooks"@)->0->Array_0;
        let k = choose|k: int| 0 <= k < hd.len() && #[trigger] runs_command(hd[k], cmd);
        assert(handler_in_group(g, k, cmd));
    }
    if exists|k: int| #[trigger] handler_in_group(g, k, cmd) {
        let k = choose|k: int| #[trigger] handler_in_group(g, k, cmd);
        let hd = member(g, "hooks"@)->0->Array_0;
        assert(runs_command(hd[k], cmd));
    }
}

/// Installation leaves the configuration of an event as it is when any of its
/// groups, wherever it stands, has a handler, wherever it stands, that runs `cmd`;
/// an event with no such handler gets the configuration for that event; a member
/// that names no event is kept. The members keep their order, and the events that
/// had no member follow them.
pub proof fn law_install_refreshes_events(hs: Seq<(Seq<char>, JsonView)>, cmd: Seq<char>, i: int)
    requires
        0 <= i < hs.len(),
    ensures
        installed_members(hs, cmd).len() >= hs.len(),
        event_of_name(hs[i].0) is None ==> installed_members(hs, cmd)[i] == hs[i],
        event_of_name(hs[i].0) is Some && (exists|j: int, k: int| #[trigger] handler_at(hs[i].1, j, k, cmd))
            ==> installed_members(hs, cmd)[i] == hs[i],
        event_of_name(hs[i].0) is Some && !(exists|j: int, k: int| #[trigger] handler_at(hs[i].1, j, k, cmd))
            ==> installed_members(hs, cmd)[i] == (hs[i].0, hook_config(event_of_name(hs[i].0)->0, cmd)),
{
    let im = installed_members(hs, cmd);
    assert(im[i] == refreshed_member(hs[i], cmd));
    let v = hs[i].1;
    if exists|j: int, k: int| #[trigger] handler_at(v, j, k, cmd) {
        let (j, k) = choose|j: int, k: int| #[trigger] handler_at(v, j, k, cmd);
        let gs = v->Array_0;
        lemma_group_runs_command_at(gs[j], cmd);
        assert(group_runs_command(gs[j], cmd));
        assert(event_runs_command(v, cmd));
    } else {
        if event_runs_command(v, cmd) {
            let gs = v->Array_0;
            let j = choose|j: int| 0 <= j < gs.len() && #[trigger] group_runs_command(gs[j], cmd);
            lemma_group_runs_command_at(gs[j], cmd);
            let k = choose|k: int| #[trigger] handler_in_group(gs[j], k, cmd);
            assert(handler_at(v, j, k, cmd));
        }
    }
}

/// Removal keeps, in their order, exactly the groups of an event that have no
/// handler running `cmd`.
pub proof fn law_removal_keeps_other_groups(gs: Seq<JsonView>, cmd: Seq<char>)
    ensures
        groups_without(gs, cmd) == gs.filter(|g: JsonView| forall|k: int| !#[trigger] handler_in_group(g, k, cmd)),
    decreases gs.len(),
{
    reveal(Seq::filter);
    if gs.len() > 0 {
        law_removal_keeps_other_groups(gs.drop_last(), cmd);
        lemma_group_runs_command_at(gs.last(), cmd);
    }
}

/// After removal, every member of the hooks object that names no event, or whose
/// configuration is not a list of groups, is still there; an event keeps the list
/// of its groups that have no handler running `cmd`, in order, unless that list is empty.
pub proof fn law_removal_keeps_other_members(hs: Seq<(Seq<char>, JsonView)>, cmd: Seq<char>, i: int)
    requires
        0 <= i < hs.len(),
    ensures
        !(event_of_name(hs[i].0) is Some && hs[i].1 is Array) ==> stripped_members(hs, cmd).contains(hs[i]),
        event_of_name(hs[i].0) is Some && hs[i].1 is Array && groups_without(hs[i].1->Array_0, cmd).len() > 0
            ==> stripped_members(hs, cmd).contains((hs[i].0, JsonView::Array(
                hs[i].1->Array_0.filter(|g: JsonView| forall|k: int| !#[trigger] handler_in_group(g, k, cmd))))),
    decreases hs.len(),
{
    let p = hs[i];
    if event_of_name(p.0) is Some && p.1 is Array {
        law_removal_keeps_other_groups(p.1->Array_0, cmd);
    }
    let sm = stripped_members(hs, cmd);
    let rest = stripped_members(hs.drop_last(), cmd);
    if i == hs.len() - 1 {
        if !(event_of_name(p.0) is Some && p.1 is Array) || groups_without(p.1->Array_0, cmd).len() > 0 {
            assert(sm[sm.len() - 1] == sm.last());
        }
    } else {
        law_removal_keeps_other_members(hs.drop_last(), cmd, i);
        assert(hs.drop_last()[i] == p);
        if !(event_of_name(p.0) is Some && p.1 is Array) {
            let j = choose|j: int| 0 <= j < rest.len() && rest[j] == p;
            assert(sm[j] == rest[j]);
        } else if groups_without(p.1->Array_0, cmd).len() > 0 {
            let q = (p.0, JsonView::Array(groups_without(p.1->Array_0, cmd)));
            let j = choose|j: int| 0 <= j < rest.len() && rest[j] == q;
            assert(sm[j] == rest[j]);
        }
    }
}

} // verus!
