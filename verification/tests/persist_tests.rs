use deckhand::contact::{parse_contact, request_head};
use deckhand::persist::{contact_body, SavedBinding, Settings};
use deckhand::registry::Registry;
use deckhand::state::{Session, SessionState};

fn sess<'a>(r: &'a Registry, id: &str) -> &'a Session {
    r.session(id).expect("the session is known")
}

fn saved(id: &str, label: &str, derived: bool) -> Option<SavedBinding> {
    Some(SavedBinding { id: id.to_string(), label: label.to_string(), derived })
}

/// What a restart reads back: the saved rows of one registry restored
/// into a fresh one.
fn restart(reg: &Registry, now_ms: i64) -> Registry {
    let rows: Vec<Option<SavedBinding>> = reg.saved_bindings().into_iter().map(Some).collect();
    let mut fresh = Registry::default();
    fresh.restore_bindings(&rows, now_ms);
    fresh
}

#[test]
fn contact_file_bytes_are_the_exact_shim_contract() {
    assert_eq!(contact_body(4242, "abc123"), "{\"port\":4242,\"token\":\"abc123\"}");
}

#[test]
fn bindings_round_trip_preserves_order_id_and_label() {
    let mut reg = Registry::default();
    reg.ensure_session("s1", "My Label", 1);
    reg.bindings.push("s1".to_string());
    let reg2 = restart(&reg, 5);
    assert_eq!(reg2.bindings, vec!["s1".to_string()]);
    assert_eq!(sess(&reg2, "s1").label, "My Label");
    assert!(!sess(&reg2, "s1").label_is_derived, "a real name stays real across a restart");
}

#[test]
fn a_derived_label_stays_replaceable_across_a_restart_and_a_legacy_entry_loads_as_derived() {
    let mut reg = Registry::default();
    reg.ensure_session("s1", "deckhand", 1);
    reg.sessions.iter_mut().find(|s| s.id == "s1").unwrap().label_is_derived = true;
    reg.bindings.push("s1".to_string());
    let reg2 = restart(&reg, 5);
    assert!(sess(&reg2, "s1").label_is_derived);

    // An entry written before the flag existed reads as derived.
    let mut reg3 = Registry::default();
    reg3.restore_bindings(&[saved("old", "ATDev-Marketing", true)], 5);
    assert!(sess(&reg3, "old").label_is_derived, "a file from before the flag lets the scan's name replace its label once");
    reg3.register_enumerated("old", Some("atdev-marketing-73"), None, None, None, 6);
    assert_eq!(sess(&reg3, "old").label, "atdev-marketing-73");
}

#[test]
fn a_bound_id_the_registry_has_never_seen_materialises_as_unknown_with_the_saved_label() {
    let list = vec![None, saved("ghost", "Ghost Session", false), None, None, None, None];
    let mut reg = Registry::default();
    reg.restore_bindings(&list, 99);
    assert_eq!(reg.bindings, vec!["ghost".to_string()], "the null gaps must be filtered, not preserved as empty rows");
    let s = sess(&reg, "ghost");
    assert_eq!(s.label, "Ghost Session");
    assert_eq!(s.state, SessionState::Unknown, "the cold start promise: grey, never guessed");
}

#[test]
fn a_saved_list_longer_than_the_old_six_slot_limit_loads_in_full() {
    let list: Vec<Option<SavedBinding>> = (0..9).map(|i| saved(&format!("s{i}"), &format!("L{i}"), false)).collect();
    let mut reg = Registry::default();
    reg.restore_bindings(&list, 1);
    let expected: Vec<String> = (0..9).map(|i| format!("s{i}")).collect();
    assert_eq!(reg.bindings, expected);
    assert_eq!(reg.sessions.len(), 9);
}

#[test]
fn legacy_null_slots_are_dropped_and_the_remaining_order_is_kept() {
    let list = vec![saved("s1", "L1", false), None, saved("s2", "L2", false), None, None, None];
    let mut reg = Registry::default();
    reg.restore_bindings(&list, 1);
    assert_eq!(reg.bindings, vec!["s1".to_string(), "s2".to_string()]);
}

#[test]
fn hide_unknown_defaults_false_with_no_file() {
    assert!(!Settings::default().hide_unknown);
}

#[test]
fn always_on_top_defaults_true_with_no_file() {
    assert!(Settings::default().always_on_top, "the window starts always-on-top");
}

// ---- beyond the scenarios above ----

#[test]
fn a_restored_row_keeps_an_existing_session_and_is_not_bound_twice() {
    let mut reg = Registry::default();
    reg.apply_hook(
        &deckhand::json::parse_json(br#"{"hook_event_name": "UserPromptSubmit", "session_id": "s1"}"#).unwrap(),
        1,
    );
    reg.restore_bindings(&[saved("s1", "saved", false), saved("s1", "saved", false)], 2);
    assert_eq!(reg.bindings, vec!["s1".to_string()]);
    assert_eq!(sess(&reg, "s1").state, SessionState::Thinking, "a live session is not replaced by its placeholder");
    assert_eq!(sess(&reg, "s1").label, "");
}

#[test]
fn a_bound_row_with_no_record_saves_as_a_blank_derived_label() {
    let mut reg = Registry::default();
    reg.bindings.push("lost".to_string());
    let rows = reg.saved_bindings();
    assert_eq!(rows.len(), 1);
    assert_eq!(rows[0].id, "lost");
    assert_eq!(rows[0].label, "");
    assert!(rows[0].derived);
}

#[test]
fn the_shim_reads_back_the_contact_file() {
    let body = contact_body(65535, "f00d");
    assert_eq!(parse_contact(&body), Some((65535, "f00d".to_string())));
}

#[test]
fn a_contact_file_without_a_port_or_token_is_refused() {
    assert_eq!(parse_contact(r#"{"token":"abc"}"#), None);
    assert_eq!(parse_contact(r#"{"port":4242}"#), None);
    assert_eq!(parse_contact(r#"{"port":70000,"token":"abc"}"#), None);
    assert_eq!(parse_contact("garbage"), None);
}

#[test]
fn the_shim_request_head_is_exact() {
    assert_eq!(
        request_head(4242, "abc", 7),
        "POST /hook HTTP/1.1\r\nHost: 127.0.0.1:4242\r\nX-Deckhand-Token: abc\r\nContent-Type: application/json\r\nContent-Length: 7\r\nConnection: close\r\n\r\n"
    );
}
