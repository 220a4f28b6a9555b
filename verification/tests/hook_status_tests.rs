use deckhand::hook_status::{hook_status_of, parse_hook_status, HookStatus, EVENTS};
use deckhand::json::parse_json;

const SHIM: &str = "c:/repo/target/debug/deckhand-shim.exe";
const QUOTED: &str = r#""'c:/repo/target/debug/deckhand-shim.exe'""#;

fn group(command_json: &str, matcher: bool, extra: &str) -> String {
    let m = if matcher { r#""matcher": "*", "# } else { "" };
    format!(r#"{{{m}"hooks": [{{"type": "command", "command": {command_json}, "async": true{extra}}}]}}"#)
}

fn default_group(event: &str) -> String {
    let matcher = ["PreToolUse", "PostToolUse", "PostToolUseFailure"].contains(&event);
    group(QUOTED, matcher, "")
}

/// The settings text with one group per event; `edit` may replace an
/// event's group or drop the event altogether.
fn settings_with(edit: &dyn Fn(&str) -> Option<Option<String>>) -> String {
    let mut entries: Vec<String> = Vec::new();
    for event in EVENTS {
        let g = match edit(event) {
            None => Some(default_group(event)),
            Some(replaced) => replaced,
        };
        if let Some(g) = g {
            entries.push(format!(r#""{event}": [{g}]"#));
        }
    }
    format!(r#"{{"hooks": {{{}}}}}"#, entries.join(", "))
}

fn installed_settings() -> String {
    settings_with(&|_| None)
}

#[test]
fn twelve_events_pinned() {
    assert_eq!(EVENTS.len(), 12);
}

#[test]
fn fully_installed_reads_installed() {
    let json = installed_settings();
    assert_eq!(parse_hook_status(&json, SHIM), HookStatus::Installed);
}

#[test]
fn a_raw_unquoted_path_reads_outdated() {
    let settings = settings_with(&|e| {
        if e == "SessionStart" {
            Some(Some(group(r#""c:/repo/target/debug/deckhand-shim.exe""#, false, "")))
        } else {
            None
        }
    });
    assert_eq!(parse_hook_status(&settings, SHIM), HookStatus::Outdated);
}

#[test]
fn a_leftover_timeout_reads_outdated() {
    let settings = settings_with(&|e| if e == "Stop" { Some(Some(group(QUOTED, false, r#", "timeout": 5"#))) } else { None });
    assert_eq!(parse_hook_status(&settings, SHIM), HookStatus::Outdated);
}

#[test]
fn a_missing_event_reads_outdated_when_others_are_current() {
    let settings = settings_with(&|e| if e == "SessionEnd" { Some(None) } else { None });
    assert_eq!(parse_hook_status(&settings, SHIM), HookStatus::Outdated);
}

#[test]
fn no_hooks_key_reads_missing() {
    assert_eq!(parse_hook_status("{}", SHIM), HookStatus::Missing);
}

#[test]
fn a_hooks_key_naming_none_of_the_twelve_events_reads_missing() {
    let settings = format!(r#"{{"hooks": {{"SomeOtherTool": [{}]}}}}"#, group(QUOTED, false, ""));
    assert_eq!(parse_hook_status(&settings, SHIM), HookStatus::Missing);
}

#[test]
fn a_different_tools_hook_on_the_same_event_reads_missing_not_outdated() {
    let settings = r#"{"hooks": {"SessionStart": [{"hooks": [{"type": "command", "command": "python other.py"}]}]}}"#;
    assert_eq!(parse_hook_status(settings, SHIM), HookStatus::Missing);
}

#[test]
fn invalid_json_reads_unreadable() {
    assert_eq!(parse_hook_status("not json", SHIM), HookStatus::Unreadable);
}

#[test]
fn shim_path_comparison_is_case_and_slash_insensitive() {
    let settings = installed_settings();
    let backslash_shim = r"C:\REPO\target\debug\DECKHAND-SHIM.exe";
    assert_eq!(parse_hook_status(&settings, backslash_shim), HookStatus::Installed);
}

// ---- beyond the scenarios above ----

#[test]
fn a_hooks_value_that_is_not_an_object_reads_missing() {
    assert_eq!(parse_hook_status(r#"{"hooks": []}"#, SHIM), HookStatus::Missing);
    assert_eq!(parse_hook_status(r#"{"hooks": "x"}"#, SHIM), HookStatus::Missing);
}

#[test]
fn a_group_with_two_hooks_reads_outdated() {
    let two = format!(
        r#"{{"hooks": [{{"type": "command", "command": {QUOTED}, "async": true}}, {{"type": "command", "command": {QUOTED}, "async": true}}]}}"#
    );
    let settings = settings_with(&|e| if e == "Stop" { Some(Some(two.clone())) } else { None });
    assert_eq!(parse_hook_status(&settings, SHIM), HookStatus::Outdated);
}

#[test]
fn an_escaped_quote_inside_the_token_is_unwrapped() {
    let shim = "c:/it's/deckhand-shim.exe";
    let escaped = r#""'c:/it'\\''s/deckhand-shim.exe'""#;
    let mut entries: Vec<String> = Vec::new();
    for event in EVENTS {
        entries.push(format!(r#""{event}": [{}]"#, group(escaped, false, "")));
    }
    let settings = format!(r#"{{"hooks": {{{}}}}}"#, entries.join(", "));
    assert_eq!(parse_hook_status(&settings, shim), HookStatus::Installed);
}

#[test]
fn hook_status_of_reads_an_already_parsed_file() {
    let root = parse_json(installed_settings().as_bytes()).unwrap();
    assert_eq!(hook_status_of(&root, SHIM), HookStatus::Installed);
    assert_eq!(hook_status_of(&root, "c:/elsewhere/deckhand-shim.exe"), HookStatus::Missing);
}
