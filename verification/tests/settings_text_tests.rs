use clawbit::installer::{install_into_settings_text, remove_from_settings_text};
use serde_json::Value;

const CMD: &str = "/home/u/.config/hooks/clawbit-hook";

const EVENTS: [&str; 9] = [
    "UserPromptSubmit",
    "SessionStart",
    "PreToolUse",
    "PostToolUse",
    "PermissionRequest",
    "PreCompact",
    "Stop",
    "SubagentStop",
    "SessionEnd",
];

fn runs(groups: &Value, cmd: &str) -> bool {
    groups.as_array().map(|gs| {
        gs.iter().any(|g| {
            g["hooks"].as_array().map(|hs| hs.iter().any(|h| h["command"].as_str() == Some(cmd))).unwrap_or(false)
        })
    }).unwrap_or(false)
}

#[test]
fn install_without_a_file() {
    let text = install_into_settings_text(None, CMD).expect("installable");
    let v: Value = serde_json::from_str(&text).unwrap();
    for e in EVENTS {
        assert!(runs(&v["hooks"][e], CMD), "{}", e);
    }
    assert_eq!(v["hooks"]["PreCompact"][0]["matcher"], "auto");
    assert_eq!(v["hooks"]["PreCompact"][1]["matcher"], "manual");
    assert_eq!(v["hooks"]["PreToolUse"][0]["matcher"], ".*");
    assert!(text.contains('\n'), "pretty output spans lines");
}

#[test]
fn install_over_text_that_is_not_json() {
    let a = install_into_settings_text(Some("not json {"), CMD).unwrap();
    let b = install_into_settings_text(None, CMD).unwrap();
    assert_eq!(a, b);
}

#[test]
fn install_keeps_other_settings_text() {
    let text = install_into_settings_text(Some("{\"theme\": \"dark\", \"n\": 3}"), CMD).unwrap();
    let v: Value = serde_json::from_str(&text).unwrap();
    assert_eq!(v["theme"], "dark");
    assert_eq!(v["n"], 3);
    assert_eq!(install_into_settings_text(Some(&text), CMD).unwrap(), text);
}

#[test]
fn install_refuses_settings_that_are_not_an_object() {
    assert_eq!(install_into_settings_text(Some("[1, 2]"), CMD), None);
    assert_eq!(install_into_settings_text(Some("{\"hooks\": 5}"), CMD), None);
    assert!(install_into_settings_text(Some("null"), CMD).is_some());
}

#[test]
fn remove_after_install_gives_the_settings_back() {
    let original = "{\"theme\": \"dark\", \"hooks\": {\"Notification\": [{\"hooks\": [{\"type\": \"command\", \"command\": \"/x\"}]}]}}";
    let installed = install_into_settings_text(Some(original), CMD).unwrap();
    let removed = remove_from_settings_text(&installed, CMD).unwrap();
    let back: Value = serde_json::from_str(&removed).unwrap();
    let orig: Value = serde_json::from_str(original).unwrap();
    assert_eq!(back, orig);
}

#[test]
fn remove_after_install_leaves_an_empty_hooks_object() {
    let installed = install_into_settings_text(Some("{\"theme\": \"dark\"}"), CMD).unwrap();
    let removed = remove_from_settings_text(&installed, CMD).unwrap();
    let back: Value = serde_json::from_str(&removed).unwrap();
    let expected: Value = serde_json::from_str("{\"theme\": \"dark\", \"hooks\": {}}").unwrap();
    assert_eq!(back, expected);
}

#[test]
fn remove_reports_text_that_is_not_json() {
    let err = remove_from_settings_text("{oops", CMD).unwrap_err();
    let expected = serde_json::from_str::<Value>("{oops").unwrap_err().to_string();
    assert_eq!(err, expected);
}

#[test]
fn numbers_in_the_settings_are_written_back_as_serde_writes_them() {
    let original = "{\"a\": 0.30000000000000004, \"b\": 1.2345678901234567e-200, \"c\": 9.999999999999999e307, \"d\": 123456789012345678901234567890, \"e\": -17, \"f\": 18446744073709551615, \"g\": 2.2250738585072014e-308, \"h\": 1e5}";
    let expected: Value = serde_json::from_str(original).unwrap();
    let installed = install_into_settings_text(Some(original), CMD).unwrap();
    for k in ["a", "b", "c", "d", "e", "f", "g", "h"] {
        let line = format!("\"{}\": {}", k, expected[k]);
        assert!(installed.contains(&line), "{}", line);
    }
    let removed = remove_from_settings_text(&installed, CMD).unwrap();
    let mut expected_text = expected.clone();
    expected_text["hooks"] = serde_json::Value::Object(serde_json::Map::new());
    assert_eq!(removed, serde_json::to_string_pretty(&expected_text).unwrap());
}
