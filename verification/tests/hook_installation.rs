//! Installing hooks into settings.
use doctrack::hooks::{install, setup_hooks, Event, HooksError, Refusal};

fn parse(s: &str) -> serde_json::Value {
    serde_json::from_str(s).unwrap()
}

const SESSION: &str =
    "if [ -d .doctrack ]; then DOCTRACK_ROOT=\"$(pwd)\" doctrack-mcp --coverage 2>/dev/null; fi";
const POST: &str = "NOTE=$(cat | jq -r '.tool_input.path // empty'); if [ -n \"$NOTE\" ] && [ -d .doctrack ]; then DOCTRACK_ROOT=\"$(pwd)\" doctrack-mcp --validate-note \"$NOTE\" 2>/dev/null; fi";

#[test]
fn hooks_are_installed_into_empty_settings() {
    for content in [None, Some(""), Some(" \n\t\u{3000}"), Some("{}")] {
        let v = parse(&setup_hooks(content).unwrap());
        assert_eq!(v.as_object().unwrap().len(), 1);
        let hooks = v["hooks"].as_object().unwrap();
        assert_eq!(hooks.len(), 2);
        let start = &v["hooks"]["SessionStart"];
        assert_eq!(start.as_array().unwrap().len(), 1);
        assert_eq!(start[0].as_object().unwrap().len(), 1);
        assert_eq!(start[0]["hooks"].as_array().unwrap().len(), 1);
        assert_eq!(start[0]["hooks"][0]["type"], "command");
        assert_eq!(start[0]["hooks"][0]["command"], SESSION);
        assert_eq!(
            start[0]["hooks"][0]["statusMessage"],
            "Doctrack: checking vault..."
        );
        let post = &v["hooks"]["PostToolUse"];
        assert_eq!(post[0].as_object().unwrap().len(), 2);
        assert_eq!(
            post[0]["matcher"],
            "mcp__obsidian__write_note|mcp__obsidian__patch_note"
        );
        assert_eq!(post[0]["hooks"][0]["command"], POST);
        assert_eq!(
            post[0]["hooks"][0]["statusMessage"],
            "Doctrack: validating note..."
        );
    }
}

#[test]
fn other_settings_are_kept() {
    let before = r#"{"model": "x", "hooks": {"Stop": [1], "SessionStart": [{"a": "b"}]}, "n": 1.5}"#;
    let v = parse(&setup_hooks(Some(before)).unwrap());
    assert_eq!(v["model"], "x");
    assert_eq!(v["n"], 1.5);
    assert_eq!(v["hooks"]["Stop"], parse("[1]"));
    let start = v["hooks"]["SessionStart"].as_array().unwrap();
    assert_eq!(start.len(), 2);
    assert_eq!(start[0], parse(r#"{"a": "b"}"#));
    assert_eq!(v["hooks"]["PostToolUse"].as_array().unwrap().len(), 1);
}

#[test]
fn installing_twice_keeps_other_events() {
    let once = setup_hooks(Some(r#"{"hooks": {"Stop": [1], "SessionStart": [2]}, "a": 3}"#)).unwrap();
    let twice = setup_hooks(Some(&once)).unwrap();
    assert_eq!(parse(&twice), parse(&once));
    assert_eq!(parse(&twice)["hooks"]["Stop"][0], 1);
    assert_eq!(parse(&twice)["hooks"]["SessionStart"].as_array().unwrap().len(), 2);
    assert_eq!(parse(&twice)["a"], 3);
}

#[test]
fn installing_twice_adds_nothing() {
    let once = setup_hooks(Some(r#"{"k": [true, null]}"#)).unwrap();
    let twice = setup_hooks(Some(&once)).unwrap();
    assert_eq!(once, twice);
}

#[test]
fn a_hook_that_is_there_is_not_added_again() {
    let before = r#"{"hooks": {"SessionStart": [{"hooks": [{"command": "my-doctrack-wrapper"}]}]}}"#;
    let v = parse(&setup_hooks(Some(before)).unwrap());
    assert_eq!(v["hooks"]["SessionStart"], parse(before)["hooks"]["SessionStart"]);
    assert_eq!(v["hooks"]["PostToolUse"].as_array().unwrap().len(), 1);
}

#[test]
fn settings_of_another_shape_are_refused() {
    let path = "/p/settings.json";
    let e = setup_hooks(Some("{broken")).unwrap_err();
    assert!(matches!(&e, HooksError::NotJson(_)));
    let m = e.message(path);
    assert!(m.starts_with("/p/settings.json is not valid JSON (key must be a string"));
    assert!(m.ends_with(") — fix or remove it, then re-run --setup-hooks"));

    let e = setup_hooks(Some("[]")).unwrap_err();
    assert_eq!(e, HooksError::Refused(Refusal::TopLevel));
    assert_eq!(
        e.message(path),
        "/p/settings.json must contain a JSON object at the top level"
    );

    let e = setup_hooks(Some(r#"{"hooks": []}"#)).unwrap_err();
    assert_eq!(e, HooksError::Refused(Refusal::Hooks));
    assert_eq!(
        e.message(path),
        "/p/settings.json has a non-object `hooks` entry — refusing to overwrite it"
    );

    let e = setup_hooks(Some(r#"{"hooks": {"SessionStart": {}}}"#)).unwrap_err();
    assert_eq!(
        e,
        HooksError::Refused(Refusal::EventHooks(Event::SessionStart))
    );
    assert_eq!(
        e.message(path),
        "/p/settings.json has a non-array `hooks.SessionStart` entry — refusing to overwrite it"
    );

    let e = setup_hooks(Some(r#"{"hooks": {"PostToolUse": "x"}}"#)).unwrap_err();
    assert_eq!(
        e,
        HooksError::Refused(Refusal::EventHooks(Event::PostToolUse))
    );
}

#[test]
fn installing_works_on_values() {
    let settings = parse(r#"{"hooks": {"SessionStart": ["doctrack"], "PostToolUse": ["Doctrack"]}}"#);
    let after = install(settings).unwrap();
    // The name is looked for as it is written.
    assert_eq!(after["hooks"]["SessionStart"].as_array().unwrap().len(), 1);
    assert_eq!(after["hooks"]["PostToolUse"].as_array().unwrap().len(), 2);
    assert_eq!(install(parse("3")).unwrap_err(), Refusal::TopLevel);
}
