use clawbit::ipc::split_lines;

fn std_lines(s: &str) -> Vec<String> {
    s.lines().map(|l| l.to_string()).collect()
}

#[test]
fn lines_match_std() {
    let cases = [
        "",
        "one",
        "one\n",
        "one\ntwo",
        "one\r\ntwo\r\n",
        "\n",
        "\n\n",
        "a\n\nb",
        "trailing cr\r",
        "cr\rinside\n",
        "\r\n",
        "ünïcödé\nλ\r\n€",
        "{\"session_id\":\"a\"}\n{\"session_id\":\"b\"}\n",
    ];
    for c in cases {
        assert_eq!(split_lines(c), std_lines(c), "{:?}", c);
    }
}

#[test]
fn lines_of_messages() {
    assert_eq!(split_lines("a\r\nb\n"), vec!["a".to_string(), "b".to_string()]);
    assert!(split_lines("").is_empty());
}
