use clawbit::installer::{can_install_hooks, with_hooks_installed, with_hooks_removed};
use clawbit::json::{get_member, Json};

const CMD: &str = "/home/u/.config/hooks/clawbit-hook";

fn s(x: &str) -> Json {
    Json::Str(x.to_string())
}

fn obj(members: Vec<(&str, Json)>) -> Json {
    Json::Object(members.into_iter().map(|(k, v)| (k.to_string(), v)).collect())
}

fn arr(items: Vec<Json>) -> Json {
    Json::Array(items)
}

fn entry(cmd: &str) -> Json {
    obj(vec![("type", s("command")), ("command", s(cmd))])
}

fn keys(v: &Json) -> Vec<String> {
    match v {
        Json::Object(es) => es.iter().map(|(k, _)| k.clone()).collect(),
        _ => panic!("not an object"),
    }
}

fn groups<'a>(settings: &'a Json, event: &str) -> &'a Vec<Json> {
    let hooks = get_member(settings, "hooks").expect("hooks");
    match get_member(hooks, event) {
        Some(Json::Array(gs)) => gs,
        other => panic!("no groups for {}: {:?}", event, other.is_some()),
    }
}

fn matcher(g: &Json) -> Option<String> {
    match get_member(g, "matcher") {
        Some(Json::Str(m)) => Some(m.clone()),
        _ => None,
    }
}

fn runs(g: &Json, cmd: &str) -> bool {
    match get_member(g, "hooks") {
        Some(Json::Array(hs)) => hs.iter().any(|h| matches!(get_member(h, "command"), Some(Json::Str(c)) if c == cmd)),
        _ => false,
    }
}

const EVENTS: [&str; 9] = [
    "UserPromptSubmit",
    "SessionStart",
    "PreToolUse",
    "PostToolUse",
    "PermissionRequest",
    "PreCompact",
    "Stop",
    "SubagentStop",
    "SessionEnd",
];

#[test]
fn install_into_empty_settings() {
    let settings = obj(vec![]);
    assert!(can_install_hooks(&settings));
    let out = with_hooks_installed(&settings, CMD);
    assert_eq!(keys(&out), vec!["hooks".to_string()]);
    let hooks = get_member(&out, "hooks").unwrap();
    assert_eq!(keys(hooks), EVENTS.iter().map(|e| e.to_string()).collect::<Vec<_>>());
    for e in EVENTS {
        let gs = groups(&out, e);
        assert!(gs.iter().all(|g| runs(g, CMD)), "{}", e);
    }
    let pc = groups(&out, "PreCompact");
    assert_eq!(pc.len(), 2);
    assert_eq!(matcher(&pc[0]).as_deref(), Some("auto"));
    assert_eq!(matcher(&pc[1]).as_deref(), Some("manual"));
    for e in ["PreToolUse", "PostToolUse", "PermissionRequest"] {
        let gs = groups(&out, e);
        assert_eq!(gs.len(), 1);
        assert_eq!(matcher(&gs[0]).as_deref(), Some(".*"));
    }
    for e in ["UserPromptSubmit", "SessionStart", "Stop", "SubagentStop", "SessionEnd"] {
        let gs = groups(&out, e);
        assert_eq!(gs.len(), 1);
        assert_eq!(matcher(&gs[0]), None);
        assert_eq!(keys(&gs[0]), vec!["hooks".to_string()]);
    }
    let handler = match get_member(&groups(&out, "Stop")[0], "hooks") {
        Some(Json::Array(hs)) => &hs[0],
        _ => panic!(),
    };
    assert!(matches!(get_member(handler, "type"), Some(Json::Str(t)) if t == "command"));
}

#[test]
fn install_into_null_settings() {
    let out = with_hooks_installed(&Json::Null, CMD);
    assert_eq!(keys(&out), vec!["hooks".to_string()]);
    for e in EVENTS {
        assert!(groups(&out, e).iter().all(|g| runs(g, CMD)));
    }
}

#[test]
fn install_twice_changes_nothing() {
    let settings = obj(vec![("theme", s("dark")), ("hooks", obj(vec![("Notification", arr(vec![]))]))]);
    let once = with_hooks_installed(&settings, CMD);
    let twice = with_hooks_installed(&once, CMD);
    assert_eq!(once, twice);
}

#[test]
fn install_keeps_other_settings_and_hooks() {
    let other_group = obj(vec![("hooks", arr(vec![entry("/usr/bin/other")]))]);
    let settings = obj(vec![
        ("theme", s("dark")),
        ("hooks", obj(vec![("Notification", arr(vec![other_group])), ("Stop", arr(vec![obj(vec![("hooks", arr(vec![entry("/usr/bin/other")]))])]))])),
        ("model", s("opus")),
    ]);
    let out = with_hooks_installed(&settings, CMD);
    assert_eq!(keys(&out), vec!["theme".to_string(), "hooks".to_string(), "model".to_string()]);
    assert!(matches!(get_member(&out, "theme"), Some(Json::Str(t)) if t == "dark"));
    let hooks = get_member(&out, "hooks").unwrap();
    let hk = keys(hooks);
    assert_eq!(hk[0], "Notification");
    assert_eq!(hk[1], "Stop");
    assert_eq!(hk.len(), 1 + EVENTS.len());
    assert!(runs(&groups(&out, "Notification")[0], "/usr/bin/other"));
    // An event whose groups do not run the command is replaced by the configuration.
    let stop = groups(&out, "Stop");
    assert_eq!(stop.len(), 1);
    assert!(runs(&stop[0], CMD));
    assert!(!runs(&stop[0], "/usr/bin/other"));
}

#[test]
fn install_keeps_an_event_that_already_runs_the_command() {
    let mine = obj(vec![("matcher", s("Bash")), ("hooks", arr(vec![entry("/x"), entry(CMD)]))]);
    let settings = obj(vec![("hooks", obj(vec![("PreToolUse", arr(vec![obj(vec![("hooks", arr(vec![entry("/y")]))]), mine]))]))]);
    let out = with_hooks_installed(&settings, CMD);
    let gs = groups(&out, "PreToolUse");
    assert_eq!(gs.len(), 2);
    assert_eq!(matcher(&gs[1]).as_deref(), Some("Bash"));
    assert!(runs(&gs[0], "/y"));
}

#[test]
fn install_replaces_an_event_that_is_not_a_list() {
    let settings = obj(vec![("hooks", obj(vec![("Stop", s("oops"))]))]);
    let out = with_hooks_installed(&settings, CMD);
    assert!(runs(&groups(&out, "Stop")[0], CMD));
}

#[test]
fn install_into_null_hooks() {
    let settings = obj(vec![("hooks", Json::Null)]);
    assert!(can_install_hooks(&settings));
    let out = with_hooks_installed(&settings, CMD);
    assert_eq!(keys(&out), vec!["hooks".to_string()]);
    assert_eq!(keys(get_member(&out, "hooks").unwrap()).len(), 9);
}

#[test]
fn settings_that_cannot_take_hooks() {
    assert!(!can_install_hooks(&arr(vec![])));
    assert!(!can_install_hooks(&s("x")));
    assert!(!can_install_hooks(&Json::Bool(true)));
    assert!(!can_install_hooks(&obj(vec![("hooks", arr(vec![]))])));
    assert!(!can_install_hooks(&obj(vec![("hooks", s("x"))])));
    assert!(can_install_hooks(&obj(vec![("other", arr(vec![]))])));
}

#[test]
fn uninstall_removes_what_install_added() {
    let settings = obj(vec![("theme", s("dark"))]);
    let installed = with_hooks_installed(&settings, CMD);
    let removed = with_hooks_removed(&installed, CMD);
    assert_eq!(keys(&removed), vec!["theme".to_string(), "hooks".to_string()]);
    assert!(keys(get_member(&removed, "hooks").unwrap()).is_empty());
}

#[test]
fn uninstall_keeps_other_groups() {
    let other = obj(vec![("hooks", arr(vec![entry("/usr/bin/other")]))]);
    let mine = obj(vec![("matcher", s(".*")), ("hooks", arr(vec![entry(CMD)]))]);
    let settings = obj(vec![(
        "hooks",
        obj(vec![
            ("PreToolUse", arr(vec![other, mine])),
            ("Stop", arr(vec![obj(vec![("hooks", arr(vec![entry(CMD)]))])])),
            ("Notification", arr(vec![obj(vec![("hooks", arr(vec![entry(CMD)]))])])),
            ("SessionEnd", s("not a list")),
            ("SessionStart", arr(vec![])),
        ]),
    )]);
    let out = with_hooks_removed(&settings, CMD);
    let hooks = get_member(&out, "hooks").unwrap();
    assert_eq!(keys(hooks), vec!["PreToolUse".to_string(), "Notification".to_string(), "SessionEnd".to_string()]);
    let pre = groups(&out, "PreToolUse");
    assert_eq!(pre.len(), 1);
    assert!(runs(&pre[0], "/usr/bin/other"));
    // Events the hooks do not install are not touched.
    assert!(runs(&groups(&out, "Notification")[0], CMD));
}

#[test]
fn uninstall_without_hooks_changes_nothing() {
    let settings = obj(vec![("theme", s("dark"))]);
    let out = with_hooks_removed(&settings, CMD);
    assert_eq!(out, settings);
    let settings = obj(vec![("hooks", arr(vec![]))]);
    let out = with_hooks_removed(&settings, CMD);
    assert_eq!(out, settings);
    let out = with_hooks_removed(&Json::Null, CMD);
    assert!(matches!(out, Json::Null));
}
