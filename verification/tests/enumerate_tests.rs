use deckhand::enumerate::{parse, register, rows_from_json, Row};
use deckhand::host::Host;
use deckhand::json::parse_json;
use deckhand::registry::{Registry, ENUM_GRACE_MS};
use deckhand::state::{Session, SessionState};

fn sess<'a>(r: &'a Registry, id: &str) -> &'a Session {
    r.session(id).expect("the session is known")
}

fn rows_of(text: &str) -> Vec<Row> {
    parse(text.as_bytes()).expect("a parsable scan")
}

#[test]
fn a_bare_array_parses() {
    let rows = parse(br#"[{"sessionId": "s1"}]"#).unwrap();
    assert_eq!(rows.len(), 1);
    assert_eq!(rows[0].id, "s1");
}

#[test]
fn an_object_wrapping_the_array_under_any_key_parses() {
    let rows = parse(br#"{"agents": [{"sessionId": "s1"}]}"#).unwrap();
    assert_eq!(rows.len(), 1);
    assert_eq!(rows[0].id, "s1");
}

#[test]
fn rows_missing_session_id_are_skipped() {
    let rows = parse(br#"[{"cwd": "C:/dev/a"}, {"sessionId": "s1"}]"#).unwrap();
    assert_eq!(rows.len(), 1);
    assert_eq!(rows[0].id, "s1");
}

#[test]
fn a_non_string_session_id_is_skipped() {
    let rows = parse(br#"[{"sessionId": 5}, {"sessionId": "s1"}]"#).unwrap();
    assert_eq!(rows.len(), 1);
    assert_eq!(rows[0].id, "s1");
}

#[test]
fn pid_as_u64_lands_as_u32() {
    let rows = parse(br#"[{"sessionId": "s1", "pid": 4242}]"#).unwrap();
    assert_eq!(rows[0].pid, Some(4242u32));
}

#[test]
fn status_is_parsed_when_present_as_a_string_and_none_otherwise() {
    let rows = parse(
        br#"[
            {"sessionId": "s1", "status": "busy"},
            {"sessionId": "s2"},
            {"sessionId": "s3", "status": 5}
        ]"#,
    )
    .unwrap();
    assert_eq!(rows[0].status.as_deref(), Some("busy"));
    assert_eq!(rows[1].status, None, "an older CLI with no status key must parse fine");
    assert_eq!(rows[2].status, None, "a non-string status must not be coerced");
}

#[test]
fn started_at_is_parsed_when_present_as_a_number_and_none_otherwise() {
    let rows = parse(
        br#"[
            {"sessionId": "s1", "startedAt": 1789492719945},
            {"sessionId": "s2"},
            {"sessionId": "s3", "startedAt": "not a number"}
        ]"#,
    )
    .unwrap();
    assert_eq!(rows[0].started_at_ms, Some(1_789_492_719_945));
    assert_eq!(rows[1].started_at_ms, None, "an older CLI with no startedAt key must parse fine");
    assert_eq!(rows[2].started_at_ms, None, "a non-numeric startedAt must not be coerced");
}

#[test]
fn register_stores_started_at_on_the_session_for_supersede_to_read() {
    let rows = rows_of(r#"[{"sessionId": "s1", "startedAt": 1789492719945}]"#);
    let mut reg = Registry::default();
    register(&mut reg, &rows, 10);
    assert_eq!(sess(&reg, "s1").started_at_ms, Some(1_789_492_719_945));
}

#[test]
fn register_reports_a_change_when_started_at_alone_flips_supersession() {
    let rows = |started: bool| {
        let (sa, sb) = if started { (r#", "startedAt": 100"#, r#", "startedAt": 200"#) } else { ("", "") };
        rows_of(&format!(
            r#"[{{"sessionId": "a", "name": "a", "cwd": "C:/dev/deckhand", "pid": 111, "status": "idle"{sa}}},
                {{"sessionId": "b", "name": "b", "cwd": "C:/dev/deckhand", "pid": 222, "status": "idle"{sb}}}]"#
        ))
    };
    let mut reg = Registry::default();
    assert!(register(&mut reg, &rows(false), 10));
    for id in ["a", "b"] {
        let s = reg.sessions.iter_mut().find(|s| s.id == id).unwrap();
        s.host = Some(Host::VsCode);
        s.parent_pid = Some(4242);
    }
    assert_eq!(reg.snapshot(11).tiles.len(), 2, "tied on first-seen, neither is hidden");

    assert!(register(&mut reg, &rows(true), 20), "a startedAt-only change must report a change");
    assert_eq!(reg.snapshot(21).tiles.len(), 1, "with start times known, the older row is hidden");
    assert!(!register(&mut reg, &rows(true), 30), "an identical follow-up scan is a no-op");
}

#[test]
fn empty_array_gives_some_empty() {
    let rows = parse(b"[]").unwrap();
    assert!(rows.is_empty());
}

#[test]
fn invalid_json_gives_none() {
    assert!(parse(b"not json").is_none());
}

#[test]
fn a_top_level_string_or_number_gives_none() {
    assert!(parse(b"\"hello\"").is_none());
    assert!(parse(b"42").is_none());
}

#[test]
fn register_prunes_a_bound_session_a_successful_run_no_longer_reports() {
    let mut reg = Registry::default();
    assert!(register(&mut reg, &rows_of(r#"[{"sessionId": "s1"}]"#), 0));
    let later = ENUM_GRACE_MS + 1;
    let rows = rows_of(r#"[{"sessionId": "s2"}]"#);
    assert!(register(&mut reg, &rows, later));
    assert!(!reg.is_bound("s1"), "a session missing from a successful run must be pruned");
    assert!(reg.is_bound("s2"));
}

#[test]
fn register_never_prunes_within_the_grace_window() {
    let mut reg = Registry::default();
    assert!(register(&mut reg, &rows_of(r#"[{"sessionId": "s1"}]"#), 0));
    let rows = rows_of(r#"[{"sessionId": "s2"}]"#);
    register(&mut reg, &rows, 10);
    assert!(reg.is_bound("s1"), "a session inside the grace window must survive");
}

#[test]
fn register_fills_id_label_cwd_and_pid_with_unknown_state() {
    let rows = rows_of(r#"[{"sessionId": "s1", "name": "My Session", "cwd": "C:/dev/undertow", "pid": 555}]"#);
    let mut reg = Registry::default();
    assert!(register(&mut reg, &rows, 10));
    let s = sess(&reg, "s1");
    assert_eq!(s.label, "My Session", "a name wins over the cwd-derived label");
    assert_eq!(s.cwd.as_deref(), Some("C:/dev/undertow"));
    assert_eq!(s.pid, Some(555));
    assert_eq!(s.state, SessionState::Unknown);
}

// ---- beyond the scenarios above ----

#[test]
fn an_object_with_no_array_value_gives_none() {
    assert!(parse(br#"{"agents": 3, "other": "x"}"#).is_none());
}

#[test]
fn a_pid_too_large_for_u32_is_cut_to_32_bits() {
    let rows = parse(br#"[{"sessionId": "s1", "pid": 4294967298}]"#).unwrap();
    assert_eq!(rows[0].pid, Some(2));
}

#[test]
fn rows_from_json_reads_an_already_parsed_value() {
    let v = parse_json(br#"[{"sessionId": "s1", "name": "n", "cwd": "C:/x"}]"#).unwrap();
    let rows = rows_from_json(&v).unwrap();
    assert_eq!(rows.len(), 1);
    assert_eq!(rows[0].name.as_deref(), Some("n"));
    assert_eq!(rows[0].cwd.as_deref(), Some("C:/x"));
}

#[test]
fn register_lists_every_reported_session_in_order() {
    let mut reg = Registry::default();
    let rows = rows_of(r#"[{"sessionId": "x"}, {"sessionId": "y"}, {"sessionId": "z"}]"#);
    assert!(register(&mut reg, &rows, 5));
    assert_eq!(reg.bindings, vec!["x".to_string(), "y".to_string(), "z".to_string()]);
}
