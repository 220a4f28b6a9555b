use deckhand::host::Host;
use deckhand::json::{parse_json, Json};
use deckhand::registry::{Activation, Registry, ENUM_GRACE_MS};
use deckhand::state::{Session, SessionState, T_UNKNOWN_MS};

fn j(text: &str) -> Json {
    parse_json(text.as_bytes()).expect("test payload is valid JSON")
}

fn hook(r: &mut Registry, payload: &str, now: i64) -> bool {
    r.apply_hook(&j(payload), now)
}

fn start(r: &mut Registry, id: &str, now: i64) {
    hook(r, &format!(r#"{{"hook_event_name": "SessionStart", "source": "startup", "session_id": "{}"}}"#, id), now);
}

fn sess<'a>(r: &'a Registry, id: &str) -> &'a Session {
    r.session(id).expect("the session is known")
}

fn sess_mut<'a>(r: &'a mut Registry, id: &str) -> &'a mut Session {
    r.sessions.iter_mut().find(|s| s.id == id).expect("the session is known")
}

fn nobody() -> Vec<String> {
    Vec::new()
}

#[test]
fn first_event_appends_to_an_empty_list() {
    let mut r = Registry::default();
    hook(&mut r, r#"{"hook_event_name": "SessionStart", "source": "startup", "session_id": "s1", "cwd": "C:/dev/a"}"#, 1);
    assert_eq!(r.bindings, vec!["s1".to_string()]);
}

#[test]
fn sessions_bind_in_the_order_they_are_first_heard() {
    let mut r = Registry::default();
    for i in 0..8 {
        start(&mut r, &format!("s{i}"), 1);
    }
    let expected: Vec<String> = (0..8).map(|i| format!("s{i}")).collect();
    assert_eq!(r.bindings, expected, "there is no fixed slot count: an eighth session still gets a row");
}

#[test]
fn an_event_that_does_not_change_state_still_binds_a_new_session() {
    let mut r = Registry::default();
    let changed = hook(&mut r, r#"{"hook_event_name": "SessionEnd", "reason": "resume", "session_id": "s1"}"#, 1);
    assert!(changed, "binding a brand new session is itself a repaint-worthy change");
    assert!(r.is_bound("s1"));
}

#[test]
fn a_session_that_ends_leaves_the_list_but_keeps_its_record() {
    let mut r = Registry::default();
    start(&mut r, "s1", 1);
    assert!(r.is_bound("s1"));
    hook(&mut r, r#"{"hook_event_name": "SessionEnd", "reason": "exit", "session_id": "s1"}"#, 2);
    assert!(!r.is_bound("s1"), "an ended session must leave the list");
    assert!(r.session("s1").is_some(), "the session record itself must survive");
}

#[test]
fn removing_a_row_above_the_selection_keeps_the_same_session_selected() {
    let mut r = Registry::default();
    for id in ["s1", "s2", "s3"] {
        start(&mut r, id, 1);
    }
    assert!(r.select(2, 2));
    hook(&mut r, r#"{"hook_event_name": "SessionEnd", "reason": "exit", "session_id": "s1"}"#, 3);
    assert_eq!(r.bindings, vec!["s2".to_string(), "s3".to_string()]);
    assert_eq!(r.selected, Some(1), "selection follows s3 to its new index");
}

#[test]
fn removing_the_selected_row_clears_the_selection() {
    let mut r = Registry::default();
    for id in ["s1", "s2"] {
        start(&mut r, id, 1);
    }
    assert!(r.select(1, 2));
    hook(&mut r, r#"{"hook_event_name": "SessionEnd", "reason": "exit", "session_id": "s2"}"#, 3);
    assert_eq!(r.selected, None);
    assert!(!r.select(1, 4), "the old index is out of range and must not select anything");
}

#[test]
fn activating_a_session_by_id_survives_a_removal_above_it() {
    let mut r = Registry::default();
    for id in ["a", "b", "c"] {
        start(&mut r, id, 1);
    }
    hook(&mut r, r#"{"hook_event_name": "Stop", "session_id": "b"}"#, 2);
    assert_eq!(sess(&r, "b").state, SessionState::Complete);

    hook(&mut r, r#"{"hook_event_name": "SessionEnd", "reason": "exit", "session_id": "a"}"#, 3);
    assert_eq!(r.bindings, vec!["b".to_string(), "c".to_string()], "b is now row 0, not row 1");

    let activation = r.begin_activation("b", 4);
    let Activation::Go(request) = activation else {
        panic!("b is still bound; this must not be a miss");
    };
    assert_eq!(request.session_id, "b");
    assert_eq!(r.selected, Some(0), "b's current index is selected, not a stale one the caller might hold");
    assert_eq!(sess(&r, "b").state, SessionState::Idle, "activating b acknowledges its own unread complete");
    assert_eq!(sess(&r, "c").unread_since_ms, None, "c was never touched");
}

#[test]
fn a_request_built_by_begin_activation_is_unaffected_by_a_later_removal() {
    let mut r = Registry::default();
    for id in ["a", "b"] {
        hook(
            &mut r,
            &format!(r#"{{"hook_event_name": "SessionStart", "source": "startup", "session_id": "{id}", "cwd": "C:/dev/{id}"}}"#),
            1,
        );
    }
    let Activation::Go(request) = r.begin_activation("b", 2) else {
        panic!("b is bound")
    };
    hook(&mut r, r#"{"hook_event_name": "SessionEnd", "reason": "exit", "session_id": "a"}"#, 3);
    assert_eq!(request.session_id, "b");
    assert_eq!(request.dir.as_deref(), Some("b"));
}

#[test]
fn activating_a_session_removed_before_the_click_arrives_is_a_miss() {
    let mut r = Registry::default();
    for id in ["a", "b", "c"] {
        start(&mut r, id, 1);
    }
    hook(&mut r, r#"{"hook_event_name": "SessionEnd", "reason": "exit", "session_id": "b"}"#, 2);
    assert_eq!(r.bindings, vec!["a".to_string(), "c".to_string()]);

    let activation = r.begin_activation("b", 3);
    assert_eq!(activation, Activation::Miss);
    assert_eq!(r.selected, None, "a miss must not select anything, including whatever now sits in b's old row");
}

#[test]
fn a_lagging_enumeration_does_not_rebind_an_ended_session_or_its_pid() {
    let mut r = Registry::default();
    start(&mut r, "s1", 1);
    hook(&mut r, r#"{"hook_event_name": "SessionEnd", "reason": "exit", "session_id": "s1"}"#, 2);
    assert_eq!(sess(&r, "s1").pid, None, "SessionEnd already cleared it");
    assert!(!r.register_enumerated("s1", None, None, Some(7), None, 3));
    assert!(!r.is_bound("s1"), "hooks saw it end; the enumeration is stale");
    assert_eq!(sess(&r, "s1").pid, None, "a stale scan must not repopulate the pid either");
}

#[test]
fn a_straggler_event_after_session_end_stays_ended_and_off_the_list() {
    let mut r = Registry::default();
    start(&mut r, "s1", 1);
    hook(&mut r, r#"{"hook_event_name": "SessionEnd", "reason": "exit", "session_id": "s1"}"#, 2);
    assert!(!r.is_bound("s1"));

    let changed = hook(&mut r, r#"{"hook_event_name": "Stop", "session_id": "s1"}"#, 3);
    assert!(!changed, "a straggler must not be an observable change");
    assert_eq!(sess(&r, "s1").state, SessionState::Ended);
    assert!(!r.is_bound("s1"), "a straggler Stop must not re-list an ended session");

    let changed2 = hook(
        &mut r,
        r#"{"hook_event_name": "PostToolUseFailure", "session_id": "s1", "error": "boom", "is_interrupt": false}"#,
        4,
    );
    assert!(!changed2);
    assert_eq!(sess(&r, "s1").state, SessionState::Ended);
    assert!(!r.is_bound("s1"), "a straggler failure must not re-list an ended session either");
}

#[test]
fn a_session_start_after_session_end_revives_and_rejoins_the_list() {
    let mut r = Registry::default();
    start(&mut r, "s1", 1);
    hook(&mut r, r#"{"hook_event_name": "SessionEnd", "reason": "exit", "session_id": "s1"}"#, 2);
    assert!(!r.is_bound("s1"));

    let changed = hook(&mut r, r#"{"hook_event_name": "SessionStart", "source": "resume", "session_id": "s1"}"#, 3);
    assert!(changed);
    assert_eq!(sess(&r, "s1").state, SessionState::Idle);
    assert!(r.is_bound("s1"), "a resume after SessionEnd rejoins the list");
}

#[test]
fn enumerated_sessions_do_not_overwrite_observed_state() {
    let mut r = Registry::default();
    hook(&mut r, r#"{"hook_event_name": "UserPromptSubmit", "session_id": "s1"}"#, 1);
    r.register_enumerated("s1", Some("name"), None, None, None, 2);
    assert_eq!(
        sess(&r, "s1").state,
        SessionState::Thinking,
        "an enumeration row must not grey out a session with observed state"
    );
}

#[test]
fn enumeration_binds_a_session_a_hook_never_reported() {
    let mut r = Registry::default();
    assert!(r.register_enumerated("other-repo", Some("undertow"), Some("C:/dev/undertow"), Some(1), None, 1));
    assert!(r.is_bound("other-repo"));
    assert_eq!(sess(&r, "other-repo").state, SessionState::Unknown);
}

#[test]
fn events_without_a_session_id_are_dropped() {
    let mut r = Registry::default();
    assert!(!hook(&mut r, r#"{"hook_event_name": "Stop"}"#, 1));
    assert!(r.sessions.is_empty());
}

#[test]
fn select_on_a_bound_row_returns_true_and_runs_on_selected() {
    let mut r = Registry::default();
    hook(&mut r, r#"{"hook_event_name": "Stop", "session_id": "s1"}"#, 1);
    assert_eq!(sess(&r, "s1").state, SessionState::Complete);
    assert!(r.select(0, 2));
    assert_eq!(sess(&r, "s1").state, SessionState::Idle, "on_selected clears complete to idle");
    assert!(sess(&r, "s1").unread_since_ms.is_none(), "on_selected clears the unread mark");
}

#[test]
fn select_out_of_range_returns_false() {
    let mut r = Registry::default();
    assert!(!r.select(0, 1), "an empty list has no row 0 to select");
    start(&mut r, "s1", 1);
    assert!(!r.select(5, 2), "there is no row past the end of the list");
}

#[test]
fn tick_flips_a_quiet_session_to_unknown_once() {
    let mut r = Registry::default();
    hook(&mut r, r#"{"hook_event_name": "UserPromptSubmit", "session_id": "s1"}"#, 1);
    assert!(r.tick(1 + T_UNKNOWN_MS + 1));
    assert_eq!(sess(&r, "s1").state, SessionState::Unknown);
    assert!(!r.tick(1 + T_UNKNOWN_MS + 2), "an immediate second tick has nothing left to flip");
}

#[test]
fn snapshot_has_one_tile_per_bound_session_with_correct_indices_and_selected_flag() {
    let mut r = Registry::default();
    start(&mut r, "s1", 1);
    start(&mut r, "s2", 1);
    r.select(0, 2);
    let snap = r.snapshot(3);
    assert_eq!(snap.tiles.len(), 2);
    for (i, t) in snap.tiles.iter().enumerate() {
        assert_eq!(t.index, i);
        assert_eq!(t.selected, i == 0);
        assert!(t.session.is_some());
    }
}

#[test]
fn snapshot_on_an_empty_registry_has_no_tiles() {
    let r = Registry::default();
    assert!(r.snapshot(1).tiles.is_empty());
}

#[test]
fn snapshot_carries_hide_unknown_and_still_lists_every_tile() {
    let mut r = Registry::default();
    start(&mut r, "s1", 1);
    r.hide_unknown = true;
    let snap = r.snapshot(2);
    assert!(snap.hide_unknown);
    assert_eq!(snap.tiles.len(), 1, "hide_unknown must not remove a tile from the snapshot itself");
}

#[test]
fn register_enumerated_corrects_a_cwd_poisoned_by_a_subagent_payload() {
    let mut r = Registry::default();
    hook(&mut r, r#"{"hook_event_name": "UserPromptSubmit", "session_id": "s1"}"#, 1);
    sess_mut(&mut r, "s1").cwd = Some("C:/dev/wrong-subagent-dir".to_string());
    assert!(r.register_enumerated("s1", None, Some("C:/dev/undertow"), None, None, 2));
    assert_eq!(sess(&r, "s1").cwd.as_deref(), Some("C:/dev/undertow"));
}

#[test]
fn register_enumerated_fills_a_blank_label_from_cwd_but_never_overwrites_one() {
    let mut r = Registry::default();
    hook(&mut r, r#"{"hook_event_name": "UserPromptSubmit", "session_id": "s1"}"#, 1);
    assert_eq!(sess(&r, "s1").label, "");
    r.register_enumerated("s1", None, Some("C:/dev/undertow"), None, None, 2);
    assert_eq!(sess(&r, "s1").label, "undertow", "a blank label is filled in from the corrected cwd");

    hook(&mut r, r#"{"hook_event_name": "UserPromptSubmit", "session_id": "s2"}"#, 1);
    sess_mut(&mut r, "s2").label = "custom name".to_string();
    r.register_enumerated("s2", None, Some("C:/dev/undertow"), None, None, 2);
    assert_eq!(sess(&r, "s2").label, "custom name", "a non-derived label is never overwritten");

    hook(
        &mut r,
        r#"{"hook_event_name": "SessionStart", "source": "startup", "session_id": "s3", "cwd": "C:/dev/deckhand"}"#,
        1,
    );
    assert_eq!(sess(&r, "s3").label, "deckhand", "the hook derives a label from cwd exactly like enumeration does");
    r.register_enumerated("s3", Some("deckhand-e4"), None, None, None, 2);
    assert_eq!(sess(&r, "s3").label, "deckhand-e4", "a scan name replaces a label that was only ever derived from cwd");

    r.register_enumerated("s3", None, Some("C:/dev/deckhand-renamed"), None, None, 3);
    assert_eq!(sess(&r, "s3").label, "deckhand-e4", "a real name outlives a later cwd-only scan row");

    hook(
        &mut r,
        r#"{"hook_event_name": "SessionStart", "source": "startup", "session_id": "s4", "cwd": "C:/dev/deckhand"}"#,
        1,
    );
    assert!(sess(&r, "s4").label_is_derived);
    assert!(
        r.register_enumerated("s4", Some("deckhand"), Some("C:/dev/deckhand"), None, None, 2),
        "accepting a real name is a change even when its text already matches"
    );
    assert!(!sess(&r, "s4").label_is_derived, "the flag clears on the name's source, not its text");
    assert!(
        !r.register_enumerated("s4", Some("deckhand"), Some("C:/dev/deckhand"), None, None, 3),
        "the same row again is a no-op"
    );
    r.register_enumerated("s4", None, Some("C:/dev/deckhand-renamed"), None, None, 4);
    assert_eq!(
        sess(&r, "s4").label,
        "deckhand",
        "a real name equal to the old directory name still outlives a cwd-only row"
    );
}

#[test]
fn register_enumerated_replaces_a_changed_pid_and_preserves_label_and_state() {
    let mut r = Registry::default();
    hook(&mut r, r#"{"hook_event_name": "UserPromptSubmit", "session_id": "s1", "cwd": "C:/dev/a"}"#, 1);
    sess_mut(&mut r, "s1").pid = Some(111);
    assert!(r.register_enumerated("s1", None, None, Some(222), None, 2));
    assert_eq!(sess(&r, "s1").pid, Some(222), "a different enumerated pid replaces the stored one");
    assert_eq!(sess(&r, "s1").label, "a", "replacing the pid must not disturb the label");
    assert_eq!(sess(&r, "s1").state, SessionState::Thinking, "replacing the pid must not disturb state");
}

#[test]
fn register_enumerated_is_a_no_op_when_the_enumerated_pid_matches() {
    let mut r = Registry::default();
    hook(&mut r, r#"{"hook_event_name": "UserPromptSubmit", "session_id": "s1"}"#, 1);
    sess_mut(&mut r, "s1").pid = Some(111);
    assert!(!r.register_enumerated("s1", None, None, Some(111), None, 2), "the same pid must report no change");
    assert_eq!(sess(&r, "s1").pid, Some(111));
}

#[test]
fn register_enumerated_with_no_pid_preserves_the_stored_one() {
    let mut r = Registry::default();
    hook(&mut r, r#"{"hook_event_name": "UserPromptSubmit", "session_id": "s1"}"#, 1);
    sess_mut(&mut r, "s1").pid = Some(111);
    assert!(!r.register_enumerated("s1", None, None, None, None, 2), "a scan that saw no pid must not clear it");
    assert_eq!(sess(&r, "s1").pid, Some(111));
}

#[test]
fn a_resumed_session_gets_the_new_enumerated_pid_after_end_and_resume() {
    let mut r = Registry::default();
    start(&mut r, "s1", 1);
    r.register_enumerated("s1", None, None, Some(111), None, 2);
    assert_eq!(sess(&r, "s1").pid, Some(111));

    hook(&mut r, r#"{"hook_event_name": "SessionEnd", "reason": "exit", "session_id": "s1"}"#, 3);
    assert_eq!(sess(&r, "s1").pid, None, "SessionEnd clears the pid: the OS may reuse it for anything");

    hook(&mut r, r#"{"hook_event_name": "SessionStart", "source": "resume", "session_id": "s1"}"#, 4);
    assert!(r.is_bound("s1"), "the revived session rejoins the list");

    assert!(r.register_enumerated("s1", None, None, Some(222), None, 5));
    assert_eq!(sess(&r, "s1").pid, Some(222), "the new OS process's pid replaces the stale one");
}

#[test]
fn an_ended_session_listed_by_a_later_scan_stays_unbound_with_no_pid() {
    let mut r = Registry::default();
    start(&mut r, "s1", 1);
    r.register_enumerated("s1", None, None, Some(111), None, 2);
    hook(&mut r, r#"{"hook_event_name": "SessionEnd", "reason": "exit", "session_id": "s1"}"#, 3);
    assert_eq!(sess(&r, "s1").pid, None);

    assert!(!r.register_enumerated("s1", None, None, Some(999), None, 4));
    assert!(!r.is_bound("s1"));
    assert_eq!(sess(&r, "s1").pid, None, "an ended session's pid must not be repopulated by a later scan");
}

#[test]
fn prune_drops_a_bound_session_absent_from_a_successful_enumeration() {
    let mut r = Registry::default();
    start(&mut r, "s1", 1);
    let present = nobody();
    assert!(r.prune_missing(&present, 1 + ENUM_GRACE_MS + 1));
    assert!(!r.is_bound("s1"));
    assert!(r.session("s1").is_some(), "pruning drops the binding, not the session record");
}

#[test]
fn prune_keeps_a_session_present_in_the_enumeration() {
    let mut r = Registry::default();
    start(&mut r, "s1", 1);
    let present = vec!["s1".to_string()];
    assert!(!r.prune_missing(&present, 1 + ENUM_GRACE_MS + 1));
    assert!(r.is_bound("s1"));
}

#[test]
fn prune_keeps_a_session_missing_from_enumeration_but_heard_from_recently() {
    let mut r = Registry::default();
    start(&mut r, "s1", 100);
    let present = nobody();
    assert!(!r.prune_missing(&present, 100 + ENUM_GRACE_MS - 1));
    assert!(r.is_bound("s1"), "a session heard from moments ago must survive a lagging enumeration");
}

#[test]
fn a_failed_enumeration_must_call_prune_missing_never() {
    let mut r = Registry::default();
    start(&mut r, "s1", 1);
    let empty_present = nobody();
    assert!(r.prune_missing(&empty_present, 1 + ENUM_GRACE_MS + 1));
    assert!(!r.is_bound("s1"), "an empty present-set does prune, which is why callers must gate on success");
}

#[test]
fn a_session_with_a_live_watch_survives_a_scan_that_omits_it() {
    let mut r = Registry::default();
    start(&mut r, "s1", 1);
    r.set_watch("s1", false);
    let present = nobody();
    assert!(!r.prune_missing(&present, 1 + ENUM_GRACE_MS + 1), "a live handle beats a scan that omits the session");
    assert!(r.is_bound("s1"));
}

#[test]
fn a_session_with_no_watch_is_pruned_as_before() {
    let mut r = Registry::default();
    start(&mut r, "s1", 1);
    let present = nobody();
    assert!(r.prune_missing(&present, 1 + ENUM_GRACE_MS + 1));
    assert!(!r.is_bound("s1"), "a session with no held handle is pruned exactly as before");
}

#[test]
fn an_exited_watch_ends_and_unbinds_the_session_on_tick() {
    let mut r = Registry::default();
    hook(&mut r, r#"{"hook_event_name": "UserPromptSubmit", "session_id": "s1"}"#, 1);
    r.set_watch("s1", false);
    r.set_watch("s1", true);
    assert!(r.tick(2));
    assert_eq!(sess(&r, "s1").state, SessionState::Ended);
    assert!(!r.is_bound("s1"), "a process-exit tick unbinds the row exactly like SessionEnd does");
    let snap = r.snapshot(3);
    assert!(snap.tiles.is_empty(), "the snapshot must no longer list the ended session");
}

#[test]
fn a_session_start_after_an_exited_watch_revives_it() {
    let mut r = Registry::default();
    hook(&mut r, r#"{"hook_event_name": "UserPromptSubmit", "session_id": "s1"}"#, 1);
    r.set_watch("s1", true);
    assert!(r.tick(2));
    assert!(!r.is_bound("s1"));

    let changed = hook(&mut r, r#"{"hook_event_name": "SessionStart", "source": "resume", "session_id": "s1"}"#, 3);
    assert!(changed);
    assert!(r.is_bound("s1"), "only a fresh SessionStart revives a row an exited watch ended");
    assert_eq!(sess(&r, "s1").state, SessionState::Idle);
}

#[test]
fn alive_idle_survives_a_twenty_minute_quiet_tick() {
    let mut r = Registry::default();
    start(&mut r, "s1", 1);
    r.set_watch("s1", false);
    let twenty_min = 20 * 60 * 1000;
    assert!(!r.tick(1 + twenty_min));
    assert_eq!(sess(&r, "s1").state, SessionState::Idle, "idle must not grey while the process is alive");
    assert!(r.is_bound("s1"));
}

#[test]
fn a_changed_pid_replaces_the_watch() {
    let mut r = Registry::default();
    hook(&mut r, r#"{"hook_event_name": "UserPromptSubmit", "session_id": "s1"}"#, 1);
    r.set_watch("s1", true);

    assert!(r.register_enumerated("s1", None, None, Some(u32::MAX), None, 2));
    // The probe for the new pid could not open a handle: no watch at all.
    let probes = r.take_probes();
    assert_eq!(probes, vec![("s1".to_string(), u32::MAX)]);
    r.attach_probe("s1", false, Host::Console, None);
    assert!(r.is_bound("s1"), "replacing the pid must not itself unbind the session");
    assert!(!r.tick(3), "the stale exited watch must no longer be the one attached to this session");
    assert!(r.is_bound("s1"));
    assert_eq!(sess(&r, "s1").state, SessionState::Thinking);
}

#[test]
fn note_started_at_sets_the_value_only_when_some() {
    let mut r = Registry::default();
    hook(&mut r, r#"{"hook_event_name": "UserPromptSubmit", "session_id": "s1"}"#, 1);
    r.note_started_at("s1", Some(1000));
    assert_eq!(sess(&r, "s1").started_at_ms, Some(1000));
    r.note_started_at("s1", None);
    assert_eq!(sess(&r, "s1").started_at_ms, Some(1000), "a scan reporting no startedAt this time must not clear it");
}

#[test]
fn note_started_at_on_an_unknown_id_is_a_harmless_no_op() {
    let mut r = Registry::default();
    assert!(!r.note_started_at("nobody", Some(1000)));
    assert!(r.sessions.is_empty());
}

#[test]
fn note_started_at_reports_a_change_only_when_the_stored_value_moves() {
    let mut r = Registry::default();
    hook(&mut r, r#"{"hook_event_name": "UserPromptSubmit", "session_id": "s1"}"#, 1);
    assert!(r.note_started_at("s1", Some(1000)), "first sighting of a startedAt is a change");
    assert!(!r.note_started_at("s1", Some(1000)), "the same value again is not");
    assert!(!r.note_started_at("s1", None), "a scan without one changes nothing");
    assert!(r.note_started_at("s1", Some(2000)), "a moved value is a change");
    assert_eq!(sess(&r, "s1").started_at_ms, Some(2000));
}

#[test]
fn note_started_at_leaves_an_ended_session_alone() {
    let mut r = Registry::default();
    start(&mut r, "s1", 1);
    hook(&mut r, r#"{"hook_event_name": "SessionEnd", "session_id": "s1"}"#, 2);
    assert_eq!(sess(&r, "s1").state, SessionState::Ended);
    assert!(!r.note_started_at("s1", Some(1000)));
    assert_eq!(sess(&r, "s1").started_at_ms, None);
}

fn bind_vscode_session(r: &mut Registry, id: &str, pid: u32, parent_pid: u32, cwd: &str, now_ms: i64) {
    hook(
        r,
        &format!(r#"{{"hook_event_name": "SessionStart", "source": "startup", "session_id": "{id}", "cwd": "{cwd}"}}"#),
        now_ms,
    );
    let s = sess_mut(r, id);
    s.pid = Some(pid);
    s.host = Some(Host::VsCode);
    s.parent_pid = Some(parent_pid);
}

#[test]
fn snapshot_hides_a_superseded_session_but_keeps_its_binding() {
    let mut r = Registry::default();
    bind_vscode_session(&mut r, "old", 1, 100, "C:/dev/deckhand", 1);
    bind_vscode_session(&mut r, "new", 2, 100, "C:/dev/deckhand", 2);
    hook(&mut r, r#"{"hook_event_name": "UserPromptSubmit", "session_id": "new"}"#, 3);

    let snap = r.snapshot(4);
    let ids: Vec<Option<String>> = snap.tiles.iter().map(|t| t.session.as_ref().map(|s| s.id.clone())).collect();
    assert_eq!(ids, vec![Some("new".to_string())], "old is hidden from the tiles the surface renders");
    assert!(r.is_bound("old"), "old keeps its place in bindings; it is hidden, not unbound");
    assert!(
        r.superseded_ids().iter().any(|id| id == "old"),
        "the window is sized off this same set"
    );
}

#[test]
fn superseded_ids_come_in_list_order_each_once() {
    let mut r = Registry::default();
    bind_vscode_session(&mut r, "first", 1, 100, "C:/dev/deckhand", 1);
    bind_vscode_session(&mut r, "second", 2, 100, "C:/dev/deckhand", 2);
    bind_vscode_session(&mut r, "third", 3, 100, "C:/dev/deckhand", 3);
    assert_eq!(r.superseded_ids(), vec!["first".to_string(), "second".to_string()]);
}

#[test]
fn a_superseded_session_reappears_once_it_stops_qualifying() {
    let mut r = Registry::default();
    bind_vscode_session(&mut r, "old", 1, 100, "C:/dev/deckhand", 1);
    bind_vscode_session(&mut r, "new", 2, 100, "C:/dev/deckhand", 2);
    hook(&mut r, r#"{"hook_event_name": "UserPromptSubmit", "session_id": "new"}"#, 3);
    assert_eq!(r.snapshot(4).tiles.len(), 1, "old starts hidden");

    hook(&mut r, r#"{"hook_event_name": "UserPromptSubmit", "session_id": "old"}"#, 5);
    let snap = r.snapshot(6);
    assert_eq!(snap.tiles.len(), 2, "old shows again with no extra bookkeeping");
}

#[test]
fn a_selected_row_that_becomes_superseded_disappears_and_returns_selected() {
    let mut r = Registry::default();
    bind_vscode_session(&mut r, "old", 1, 100, "C:/dev/deckhand", 1);
    assert!(r.select(0, 2));

    bind_vscode_session(&mut r, "new", 2, 100, "C:/dev/deckhand", 3);
    hook(&mut r, r#"{"hook_event_name": "UserPromptSubmit", "session_id": "new"}"#, 4);

    let snap = r.snapshot(5);
    assert!(snap.tiles.iter().all(|t| !t.selected), "the selected row is hidden along with the session");

    hook(&mut r, r#"{"hook_event_name": "UserPromptSubmit", "session_id": "old"}"#, 6);
    let snap2 = r.snapshot(7);
    let old_tile = snap2
        .tiles
        .iter()
        .find(|t| t.session.as_ref().map(|s| s.id.as_str()) == Some("old"))
        .unwrap();
    assert!(old_tile.selected, "the old selection survives the round trip with no extra bookkeeping");
}

#[test]
fn a_session_with_no_pid_is_never_superseded_through_the_registry() {
    let mut r = Registry::default();
    hook(
        &mut r,
        r#"{"hook_event_name": "SessionStart", "source": "startup", "session_id": "old", "cwd": "C:/dev/deckhand"}"#,
        1,
    );
    bind_vscode_session(&mut r, "new", 2, 100, "C:/dev/deckhand", 2);
    hook(&mut r, r#"{"hook_event_name": "UserPromptSubmit", "session_id": "new"}"#, 3);
    assert_eq!(r.snapshot(4).tiles.len(), 2, "old has no pid, so it is never a supersession candidate");
}

// ---- beyond the scenarios above ----

#[test]
fn a_learned_pid_is_queued_once_for_a_probe_and_the_probe_fills_the_host() {
    let mut r = Registry::default();
    assert!(r.register_enumerated("s1", None, None, Some(42), None, 1));
    assert_eq!(r.take_probes(), vec![("s1".to_string(), 42)]);
    assert!(r.take_probes().is_empty(), "the queue is emptied by taking it");
    r.attach_probe("s1", true, Host::VsCode, Some(7));
    assert_eq!(sess(&r, "s1").host, Some(Host::VsCode));
    assert_eq!(sess(&r, "s1").parent_pid, Some(7));
    assert!(!r.register_enumerated("s1", None, None, Some(42), None, 2));
    assert!(r.take_probes().is_empty(), "the same pid again queues nothing");
}

#[test]
fn visible_rows_counts_bound_rows_less_the_superseded() {
    let mut r = Registry::default();
    assert_eq!(r.visible_rows(), 0);
    bind_vscode_session(&mut r, "old", 1, 100, "C:/dev/deckhand", 1);
    bind_vscode_session(&mut r, "new", 2, 100, "C:/dev/deckhand", 2);
    hook(&mut r, r#"{"hook_event_name": "UserPromptSubmit", "session_id": "new"}"#, 3);
    assert_eq!(r.bindings.len(), 2);
    assert_eq!(r.visible_rows(), 1);
}

#[test]
fn ensure_session_materialises_an_unknown_row_once() {
    let mut r = Registry::default();
    r.ensure_session("s9", "saved label", 5);
    assert!(!r.is_bound("s9"), "a placeholder is not bound by itself");
    assert_eq!(sess(&r, "s9").label, "saved label");
    assert_eq!(sess(&r, "s9").state, SessionState::Unknown);
    r.ensure_session("s9", "other", 6);
    assert_eq!(r.sessions.len(), 1);
    assert_eq!(sess(&r, "s9").label, "saved label", "an existing record keeps its label");
}
