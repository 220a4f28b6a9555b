use deckhand::json::{parse_json, Json};
use deckhand::state::{
    dir_name, parse_question, truncate, InputKind, Session, SessionState, T_UNKNOWN_MS,
};

fn j(text: &str) -> Json {
    parse_json(text.as_bytes()).expect("test payload is valid JSON")
}

fn s() -> Session {
    Session::new("test".to_string(), 0)
}

fn ev(session: &mut Session, now: i64, payload: &str) -> bool {
    session.apply_hook(&j(payload), now)
}

#[test]
fn session_start_registers_and_goes_idle() {
    let mut x = s();
    ev(&mut x, 1, r#"{"hook_event_name": "SessionStart", "source": "startup", "cwd": "C:\\Users\\o\\dev\\undertow"}"#);
    assert_eq!(x.state, SessionState::Idle);
    assert_eq!(x.label, "undertow");
}

#[test]
fn compaction_is_not_a_lifecycle_change() {
    let mut x = s();
    ev(&mut x, 1, r#"{"hook_event_name": "UserPromptSubmit"}"#);
    ev(&mut x, 2, r#"{"hook_event_name": "SessionStart", "source": "compact"}"#);
    assert_eq!(x.state, SessionState::Thinking, "compaction must not flip a live blue tile white");
}

#[test]
fn clear_and_resume_are_not_endings() {
    let mut x = s();
    ev(&mut x, 1, r#"{"hook_event_name": "UserPromptSubmit"}"#);
    ev(&mut x, 2, r#"{"hook_event_name": "SessionEnd", "reason": "clear"}"#);
    assert_eq!(x.state, SessionState::Thinking);
    ev(&mut x, 3, r#"{"hook_event_name": "SessionEnd", "reason": "resume"}"#);
    assert_eq!(x.state, SessionState::Thinking);
    ev(&mut x, 4, r#"{"hook_event_name": "SessionEnd", "reason": "exit"}"#);
    assert_eq!(x.state, SessionState::Ended);
}

#[test]
fn ask_user_question_is_amber_with_kind_question() {
    let mut x = s();
    ev(&mut x, 1, r#"{
        "hook_event_name": "PreToolUse",
        "tool_name": "AskUserQuestion",
        "tool_use_id": "t1",
        "tool_input": {"questions": [{"question": "Which?", "options": [{"label": "Full option A"}, {"label": "Full option B"}]}]}
    }"#);
    assert_eq!(x.state, SessionState::NeedsInput);
    assert_eq!(x.detail_kind, Some(InputKind::Question));
    assert_eq!(x.question.as_deref(), Some("Which?"));
    assert_eq!(x.options, vec!["Full option A", "Full option B"]);
    assert_eq!(x.open_ops.len(), 1, "every PreToolUse opens an operation");
}

#[test]
fn ordinary_tool_call_is_thinking_and_brackets() {
    let mut x = s();
    ev(&mut x, 1, r#"{"hook_event_name": "PreToolUse", "tool_name": "Bash", "tool_use_id": "t1"}"#);
    assert_eq!(x.state, SessionState::Thinking);
    assert_eq!(x.detail_tool.as_deref(), Some("Bash"));
    assert_eq!(x.open_ops.len(), 1);
    ev(&mut x, 2, r#"{"hook_event_name": "PostToolUse", "tool_name": "Bash", "tool_use_id": "t1"}"#);
    assert!(x.open_ops.is_empty(), "PostToolUse closes the operation");
    assert_eq!(x.state, SessionState::Thinking);
}

#[test]
fn tool_failure_keeps_the_turn_alive() {
    let mut x = s();
    ev(&mut x, 1, r#"{"hook_event_name": "PreToolUse", "tool_name": "Bash", "tool_use_id": "t1"}"#);
    ev(&mut x, 2, r#"{"hook_event_name": "PostToolUseFailure", "tool_name": "Bash", "tool_use_id": "t1", "error": "Exit code 101\nlots of compiler output", "is_interrupt": false}"#);
    assert_eq!(x.state, SessionState::Thinking, "a failed tool call is not a failed turn");
    assert!(x.open_ops.is_empty());
    assert_eq!(x.error.as_ref().unwrap().kind, "tool_failure");
    assert!(x.error.as_ref().unwrap().message.as_ref().unwrap().starts_with("Exit code 101"));
}

#[test]
fn an_interrupt_closes_every_open_operation() {
    let mut x = s();
    ev(&mut x, 1, r#"{"hook_event_name": "PreToolUse", "tool_name": "Bash", "tool_use_id": "t1"}"#);
    ev(&mut x, 2, r#"{"hook_event_name": "PreToolUse", "tool_name": "Read", "tool_use_id": "t2"}"#);
    assert_eq!(x.open_ops.len(), 2);
    ev(&mut x, 3, r#"{"hook_event_name": "PostToolUseFailure", "tool_name": "Bash", "tool_use_id": "t1", "error": "interrupted", "is_interrupt": true}"#);
    assert!(x.open_ops.is_empty(), "an interrupt closes every open operation, not just its own");
    assert_eq!(x.error.as_ref().unwrap().kind, "interrupt");
}

#[test]
fn error_detail_is_truncated_to_panel_size() {
    let mut x = s();
    let long = "x".repeat(5000);
    let payload = format!(
        r#"{{"hook_event_name": "PostToolUseFailure", "tool_name": "Bash", "error": "{}", "is_interrupt": false}}"#,
        long
    );
    ev(&mut x, 1, &payload);
    assert!(x.error.as_ref().unwrap().message.as_ref().unwrap().len() <= 203);
}

#[test]
fn permission_denied_keeps_blue_and_closes_the_bracket() {
    let mut x = s();
    ev(&mut x, 1, r#"{"hook_event_name": "PreToolUse", "tool_name": "Bash", "tool_use_id": "t1"}"#);
    ev(&mut x, 2, r#"{"hook_event_name": "PermissionDenied", "tool_use_id": "t1", "reason": "Blocked by classifier"}"#);
    assert_eq!(x.state, SessionState::Thinking);
    assert!(x.open_ops.is_empty(), "a denial ends the operation");
}

#[test]
fn notification_needs_input_carries_no_kind() {
    let mut x = s();
    ev(&mut x, 1, r#"{"hook_event_name": "Notification", "notification_type": "agent_needs_input"}"#);
    assert_eq!(x.state, SessionState::NeedsInput);
    assert_eq!(x.detail_kind, None, "no guessed kind: neither Approve nor Answer may light");
    ev(&mut x, 2, r#"{"hook_event_name": "Notification", "notification_type": "agent_completed"}"#);
    assert_eq!(x.state, SessionState::Idle);
    assert!(!ev(&mut x, 3, r#"{"hook_event_name": "Notification", "notification_type": "something_new"}"#));
}

#[test]
fn stop_is_green_only_with_an_empty_ledger() {
    let mut x = s();
    ev(&mut x, 1, r#"{"hook_event_name": "SubagentStart"}"#);
    assert_eq!(x.children, 1);
    ev(&mut x, 2, r#"{"hook_event_name": "Stop"}"#);
    assert_eq!(x.state, SessionState::Thinking, "complete is unreachable while the ledger is non-empty");
    ev(&mut x, 3, r#"{"hook_event_name": "SubagentStop"}"#);
    assert_eq!(x.state, SessionState::Complete, "green arrives when the ledger empties");
    assert!(x.unread_since_ms.is_some());
}

#[test]
fn duplicate_subagent_start_is_idempotent() {
    let mut x = s();
    ev(&mut x, 1, r#"{"hook_event_name": "SubagentStart", "agent_id": "a1", "agent_type": "Explore"}"#);
    ev(&mut x, 2, r#"{"hook_event_name": "SubagentStart", "agent_id": "a1", "agent_type": "Explore"}"#);
    assert_eq!(x.children, 1, "the same update delivered twice must not change anything");
    ev(&mut x, 3, r#"{"hook_event_name": "SubagentStop", "agent_id": "a1"}"#);
    assert_eq!(x.children, 0);
    assert!(x.open_ops.is_empty(), "the subagent bracket closed by agent_id");
}

#[test]
fn subagent_stop_never_closes_an_unrelated_bracket() {
    let mut x = s();
    ev(&mut x, 1, r#"{"hook_event_name": "PreToolUse", "tool_name": "Bash", "tool_use_id": "t1"}"#);
    ev(&mut x, 2, r#"{"hook_event_name": "SubagentStop", "agent_id": "ghost"}"#);
    assert_eq!(x.open_ops.len(), 1, "a stop for an unseen child must not close a tool bracket");
}

#[test]
fn children_never_move_the_parent_colour() {
    let mut x = s();
    ev(&mut x, 1, r#"{"hook_event_name": "UserPromptSubmit"}"#);
    ev(&mut x, 2, r#"{"hook_event_name": "SubagentStart"}"#);
    assert_eq!(x.state, SessionState::Thinking);
    ev(&mut x, 3, r#"{"hook_event_name": "SubagentStop"}"#);
    assert_eq!(x.state, SessionState::Thinking);
}

#[test]
fn stop_failure_is_red_with_a_typed_error() {
    let mut x = s();
    ev(&mut x, 1, r#"{"hook_event_name": "StopFailure", "error": {"type": "api_error"}}"#);
    assert_eq!(x.state, SessionState::Error);
    assert_eq!(x.error.as_ref().unwrap().kind, "api_error");
}

#[test]
fn selection_clears_green_to_white() {
    let mut x = s();
    ev(&mut x, 1, r#"{"hook_event_name": "Stop"}"#);
    assert_eq!(x.state, SessionState::Complete);
    assert!(x.on_selected(2));
    assert_eq!(x.state, SessionState::Idle);
    assert!(x.unread_since_ms.is_none());
}

#[test]
fn t_unknown_greys_and_never_reds() {
    let mut x = s();
    ev(&mut x, 1, r#"{"hook_event_name": "UserPromptSubmit"}"#);
    assert!(!x.tick(T_UNKNOWN_MS, false));
    assert!(x.tick(T_UNKNOWN_MS + 2, false));
    assert_eq!(x.state, SessionState::Unknown);
    assert!(x.heard, "a timed-out session was heard from; the surface words it apart from never-heard");
    ev(&mut x, T_UNKNOWN_MS + 3, r#"{"hook_event_name": "UserPromptSubmit"}"#);
    assert_eq!(x.state, SessionState::Thinking);
}

#[test]
fn scan_colours_an_unheard_session_for_each_recognised_status() {
    for (status, want) in [
        ("busy", SessionState::Thinking),
        ("shell", SessionState::Thinking),
        ("waiting", SessionState::NeedsInput),
        ("idle", SessionState::Idle),
    ] {
        let mut x = s();
        assert!(!x.heard);
        assert!(x.apply_scan_state(Some(status), 1), "status {status} must colour an unheard session");
        assert_eq!(x.state, want, "status {status}");
        assert!(!x.heard, "the scan must never set heard");
    }
}

#[test]
fn scan_with_an_unrecognised_status_leaves_the_session_unknown() {
    let mut x = s();
    assert!(!x.apply_scan_state(Some("frobnicating"), 1));
    assert_eq!(x.state, SessionState::Unknown);
    assert!(!x.apply_scan_state(None, 2));
    assert_eq!(x.state, SessionState::Unknown);
}

#[test]
fn a_heard_complete_session_stays_complete_when_the_scan_says_idle() {
    let mut x = s();
    ev(&mut x, 1, r#"{"hook_event_name": "Stop"}"#);
    assert_eq!(x.state, SessionState::Complete);
    assert!(!x.apply_scan_state(Some("idle"), 2), "a hook has already coloured this session");
    assert_eq!(x.state, SessionState::Complete);
}

#[test]
fn a_heard_then_unknown_session_is_recoloured_by_the_scan() {
    let mut x = s();
    ev(&mut x, 1, r#"{"hook_event_name": "UserPromptSubmit"}"#);
    assert!(x.tick(1 + T_UNKNOWN_MS + 1, false));
    assert_eq!(x.state, SessionState::Unknown);
    assert!(x.heard);
    assert!(x.apply_scan_state(Some("busy"), 1 + T_UNKNOWN_MS + 2));
    assert_eq!(x.state, SessionState::Thinking, "unknown is recolourable even once heard");
}

#[test]
fn alive_idle_survives_twenty_minutes_of_silence() {
    let mut x = s();
    ev(&mut x, 1, r#"{"hook_event_name": "SessionStart", "source": "startup"}"#);
    assert_eq!(x.state, SessionState::Idle);
    let twenty_min = 20 * 60 * 1000;
    assert!(!x.tick(1 + twenty_min, true));
    assert_eq!(x.state, SessionState::Idle, "an idle session must not grey while its process is alive");
}

#[test]
fn alive_thinking_with_scan_busy_stays_thinking_after_twenty_minutes() {
    let mut x = s();
    ev(&mut x, 1, r#"{"hook_event_name": "UserPromptSubmit"}"#);
    x.note_seen(Some("busy"), 2);
    let twenty_min = 20 * 60 * 1000;
    assert!(!x.tick(1 + twenty_min, true));
    assert_eq!(x.state, SessionState::Thinking, "the scan still confirms the turn is in flight");
}

#[test]
fn alive_thinking_with_scan_idle_greys_after_fifteen_minutes() {
    let mut x = s();
    ev(&mut x, 1, r#"{"hook_event_name": "UserPromptSubmit"}"#);
    x.note_seen(Some("idle"), 2);
    assert!(x.tick(1 + T_UNKNOWN_MS + 1, true), "the two channels disagree, so the colour is no longer trustworthy");
    assert_eq!(x.state, SessionState::Unknown);
}

#[test]
fn alive_needs_input_never_greys() {
    let mut x = s();
    ev(&mut x, 1, r#"{"hook_event_name": "Notification", "notification_type": "agent_needs_input"}"#);
    assert_eq!(x.state, SessionState::NeedsInput);
    let one_hour = 60 * 60 * 1000;
    assert!(!x.tick(1 + one_hour, true));
    assert_eq!(x.state, SessionState::NeedsInput);
}

#[test]
fn not_alive_idle_stays_idle_when_the_scan_is_more_recent_than_the_hooks() {
    let mut x = s();
    ev(&mut x, 1, r#"{"hook_event_name": "SessionStart", "source": "startup"}"#);
    let twenty_min = 20 * 60 * 1000;
    let five_min = 5 * 60 * 1000;
    x.note_seen(Some("idle"), 1 + twenty_min - five_min);
    assert!(!x.tick(1 + twenty_min, false), "the scan saw it only five minutes ago");
    assert_eq!(x.state, SessionState::Idle);
}

#[test]
fn thinking_survives_a_single_disagreeing_scan() {
    let mut x = s();
    ev(&mut x, 1, r#"{"hook_event_name": "UserPromptSubmit"}"#);
    assert!(!x.apply_scan_state(Some("idle"), 2));
    assert_eq!(x.state, SessionState::Thinking);
    assert_eq!(x.scan_disagreements, 1);
}

#[test]
fn a_second_consecutive_disagreeing_scan_flips_thinking_to_idle() {
    let mut x = s();
    ev(&mut x, 1, r#"{"hook_event_name": "SubagentStart", "agent_id": "a1"}"#);
    ev(&mut x, 2, r#"{"hook_event_name": "PreToolUse", "tool_name": "Bash", "tool_use_id": "t1"}"#);
    ev(&mut x, 3, r#"{"hook_event_name": "Stop"}"#);
    assert_eq!(x.state, SessionState::Thinking, "complete is unreachable while the ledger is non-empty");
    assert!(x.pending_complete);
    assert!(!x.apply_scan_state(Some("idle"), 4), "one disagreeing scan is not enough");
    assert_eq!(x.state, SessionState::Thinking);
    assert!(x.apply_scan_state(Some("idle"), 5), "a second consecutive disagreeing scan flips it");
    assert_eq!(x.state, SessionState::Idle);
    assert!(x.open_ops.is_empty(), "a session the CLI calls idle has nothing in flight");
    assert_eq!(x.children, 0);
    assert!(!x.pending_complete);
    assert_eq!(x.scan_disagreements, 0, "the counter resets once it fires");
}

#[test]
fn a_hook_event_between_two_disagreeing_scans_resets_the_count() {
    let mut x = s();
    ev(&mut x, 1, r#"{"hook_event_name": "UserPromptSubmit"}"#);
    assert!(!x.apply_scan_state(Some("idle"), 2));
    assert_eq!(x.scan_disagreements, 1);
    ev(&mut x, 3, r#"{"hook_event_name": "PreToolUse", "tool_name": "Bash", "tool_use_id": "t1"}"#);
    assert_eq!(x.scan_disagreements, 0, "any hook event resets the count");
    assert!(!x.apply_scan_state(Some("idle"), 4), "this is only the first disagreement again");
    assert_eq!(x.state, SessionState::Thinking);
}

#[test]
fn complete_flips_to_thinking_after_two_busy_scans() {
    let mut x = s();
    ev(&mut x, 1, r#"{"hook_event_name": "Stop"}"#);
    assert_eq!(x.state, SessionState::Complete);
    assert!(!x.apply_scan_state(Some("busy"), 2));
    assert!(x.apply_scan_state(Some("busy"), 3));
    assert_eq!(x.state, SessionState::Thinking, "a lost UserPromptSubmit is recovered from the scan");
}

#[test]
fn error_flips_to_thinking_after_two_busy_scans() {
    let mut x = s();
    ev(&mut x, 1, r#"{"hook_event_name": "StopFailure", "error": {"type": "api_error"}}"#);
    assert_eq!(x.state, SessionState::Error);
    assert!(!x.apply_scan_state(Some("busy"), 2));
    assert!(x.apply_scan_state(Some("busy"), 3));
    assert_eq!(x.state, SessionState::Thinking);
    assert!(x.error.is_none(), "the tie-break mirrors UserPromptSubmit, which clears error");
}

#[test]
fn needs_input_never_flips_to_idle() {
    let mut x = s();
    ev(&mut x, 1, r#"{"hook_event_name": "Notification", "notification_type": "agent_needs_input"}"#);
    assert!(!x.apply_scan_state(Some("idle"), 2));
    assert!(!x.apply_scan_state(Some("idle"), 3));
    assert_eq!(x.state, SessionState::NeedsInput, "needs_input never counts as a disagreement, in any case");
}

#[test]
fn thinking_never_flips_on_waiting() {
    let mut x = s();
    ev(&mut x, 1, r#"{"hook_event_name": "UserPromptSubmit"}"#);
    assert!(!x.apply_scan_state(Some("waiting"), 2));
    assert!(!x.apply_scan_state(Some("waiting"), 3));
    assert_eq!(x.state, SessionState::Thinking, "waiting is the scan's own amber, not a disagreement");
}

#[test]
fn idle_agreeing_with_idle_is_a_no_op_and_never_counts() {
    let mut x = s();
    ev(&mut x, 1, r#"{"hook_event_name": "SessionStart", "source": "startup"}"#);
    assert_eq!(x.state, SessionState::Idle);
    assert!(!x.apply_scan_state(Some("idle"), 2));
    assert!(!x.apply_scan_state(Some("idle"), 3));
    assert_eq!(x.state, SessionState::Idle);
    assert_eq!(x.scan_disagreements, 0, "plain agreement is never a disagreement");
}

#[test]
fn an_unrecognised_scan_between_two_disagreeing_ones_resets_the_count() {
    let mut x = s();
    ev(&mut x, 1, r#"{"hook_event_name": "UserPromptSubmit"}"#);
    assert!(!x.apply_scan_state(Some("idle"), 2));
    assert!(!x.apply_scan_state(Some("frobnicating"), 3), "an unrecognised status resets the count");
    assert!(!x.apply_scan_state(Some("idle"), 4), "only the first disagreement again after the reset");
    assert_eq!(x.state, SessionState::Thinking);
}

#[test]
fn the_immediate_path_still_colours_an_unheard_session_on_the_first_scan() {
    let mut x = s();
    assert!(!x.heard);
    assert!(x.apply_scan_state(Some("idle"), 1), "an unheard session is coloured on the first scan, not the second");
    assert_eq!(x.state, SessionState::Idle);
    assert_eq!(x.scan_disagreements, 0);
}

#[test]
fn process_exited_ends_the_session_and_session_start_revives_it() {
    let mut x = s();
    x.pid = Some(4242);
    ev(&mut x, 1, r#"{"hook_event_name": "UserPromptSubmit"}"#);
    assert!(x.process_exited(2));
    assert_eq!(x.state, SessionState::Ended);
    assert_eq!(x.pid, None);
    assert!(!x.process_exited(3), "an already-ended session is a no-op");

    assert!(ev(&mut x, 4, r#"{"hook_event_name": "SessionStart", "source": "resume"}"#));
    assert_eq!(x.state, SessionState::Idle, "a resume after process_exited revives the session exactly like after SessionEnd");
}

#[test]
fn a_session_first_seen_by_enumeration_is_unknown_not_idle() {
    let x = Session::new("enumerated".to_string(), 5);
    assert_eq!(x.state, SessionState::Unknown, "never guess idle");
    assert!(!x.heard, "no hook event has arrived yet");
}

#[test]
fn unrecognised_events_update_liveness_only() {
    let mut x = s();
    ev(&mut x, 1, r#"{"hook_event_name": "UserPromptSubmit"}"#);
    let changed = ev(&mut x, 2, r#"{"hook_event_name": "SomeFutureEvent"}"#);
    assert!(!changed);
    assert_eq!(x.state, SessionState::Thinking);
    assert_eq!(x.last_event_at_ms, 2, "liveness still updates");
}

#[test]
fn an_unrecognised_event_takes_nothing_from_its_payload() {
    let mut x = s();
    ev(&mut x, 1, r#"{"hook_event_name": "UserPromptSubmit"}"#);
    let changed = ev(&mut x, 2, r#"{"hook_event_name": "SomeFutureEvent", "permission_mode": "auto", "cwd": "C:\\dev\\elsewhere"}"#);
    assert!(!changed);
    assert_eq!(x.permission_mode, None);
    assert_eq!(x.cwd, None);
    assert_eq!(x.label, "");
    assert_eq!(x.last_event_at_ms, 2);
    assert!(x.heard);
}

#[test]
fn a_subagent_payload_arriving_first_does_not_set_cwd() {
    let mut x = s();
    ev(&mut x, 1, r#"{
        "hook_event_name": "SubagentStart",
        "agent_id": "a1",
        "agent_type": "Explore",
        "cwd": "C:\\Users\\o\\dev\\undertow\\subagent-scratch"
    }"#);
    assert_eq!(x.cwd, None, "a subagent's own cwd must never be taken as the session's");
    assert_eq!(x.label, "", "no cwd means no derived label either");
    ev(&mut x, 2, r#"{"hook_event_name": "UserPromptSubmit", "cwd": "C:\\Users\\o\\dev\\undertow"}"#);
    assert_eq!(x.cwd.as_deref(), Some("C:\\Users\\o\\dev\\undertow"));
    assert_eq!(x.label, "undertow");
}

#[test]
fn permission_mode_travels_on_any_payload() {
    let mut x = s();
    ev(&mut x, 1, r#"{"hook_event_name": "UserPromptSubmit", "permission_mode": "auto"}"#);
    assert_eq!(x.permission_mode.as_deref(), Some("auto"));
}

#[test]
fn dir_name_handles_windows_posix_trailing_and_edge_cases() {
    assert_eq!(dir_name("C:\\Users\\o\\dev\\undertow"), "undertow");
    assert_eq!(dir_name("/home/o/dev/undertow"), "undertow");
    assert_eq!(dir_name("/home/o/dev/undertow/"), "undertow", "a trailing separator must not leave an empty name");
    assert_eq!(dir_name("bare-name"), "bare-name");
    assert_eq!(dir_name(""), "");
}

#[test]
fn truncate_at_and_past_the_boundary() {
    assert_eq!(truncate("hello", 5), "hello", "exactly at the boundary must not be cut");
    assert_eq!(truncate("hello!", 5), "hello...", "one byte past the boundary is cut and marked");
}

#[test]
fn parse_question_reads_the_first_question_and_its_option_labels() {
    let input = j(r#"{"questions": [{"question": "Which?", "options": [{"label": "A"}, {"label": "B"}]}]}"#);
    let (q, opts) = parse_question(Some(&input));
    assert_eq!(q.as_deref(), Some("Which?"));
    assert_eq!(opts, vec!["A", "B"]);
}

#[test]
fn parse_question_on_missing_or_malformed_input_gives_no_question_and_no_options() {
    assert_eq!(parse_question(None), (None, Vec::new()));
    assert_eq!(parse_question(Some(&j(r#"{"not_questions": []}"#))), (None, Vec::new()));
    assert_eq!(parse_question(Some(&j(r#"{"questions": []}"#))), (None, Vec::new()));
    assert_eq!(parse_question(Some(&j(r#"{"questions": [{"no_question_field": true}]}"#))), (None, Vec::new()));
}

#[test]
fn post_tool_use_closes_only_the_matching_operation() {
    let mut x = s();
    ev(&mut x, 1, r#"{"hook_event_name": "PreToolUse", "tool_name": "Bash", "tool_use_id": "t1"}"#);
    ev(&mut x, 2, r#"{"hook_event_name": "PreToolUse", "tool_name": "Read", "tool_use_id": "t2"}"#);
    ev(&mut x, 3, r#"{"hook_event_name": "PostToolUse", "tool_name": "Bash", "tool_use_id": "t1"}"#);
    assert_eq!(x.open_ops.len(), 1);
    assert_eq!(x.open_ops[0].id.as_deref(), Some("t2"), "the unrelated operation stays open");
}

#[test]
fn post_tool_use_failure_without_interrupt_closes_only_its_own_op() {
    let mut x = s();
    ev(&mut x, 1, r#"{"hook_event_name": "PreToolUse", "tool_name": "Bash", "tool_use_id": "t1"}"#);
    ev(&mut x, 2, r#"{"hook_event_name": "PreToolUse", "tool_name": "Read", "tool_use_id": "t2"}"#);
    let long = "z".repeat(300);
    let payload = format!(
        r#"{{"hook_event_name": "PostToolUseFailure", "tool_name": "Bash", "tool_use_id": "t1", "error": "{}", "is_interrupt": false}}"#,
        long
    );
    ev(&mut x, 3, &payload);
    assert_eq!(x.open_ops.len(), 1);
    assert_eq!(x.open_ops[0].id.as_deref(), Some("t2"), "a non-interrupt failure closes only its own bracket");
    assert!(x.error.as_ref().unwrap().message.as_ref().unwrap().ends_with("..."), "the long error text is truncated");
}

#[test]
fn stop_with_live_children_sets_pending_complete_flag() {
    let mut x = s();
    ev(&mut x, 1, r#"{"hook_event_name": "SubagentStart", "agent_id": "a1"}"#);
    ev(&mut x, 2, r#"{"hook_event_name": "Stop"}"#);
    assert!(x.pending_complete, "green is deferred while a child is still open");
    ev(&mut x, 3, r#"{"hook_event_name": "SubagentStop", "agent_id": "a1"}"#);
    assert!(!x.pending_complete, "the flag clears once the ledger empties");
    assert_eq!(x.state, SessionState::Complete);
}

#[test]
fn notification_with_an_unknown_type_only_updates_liveness() {
    let mut x = s();
    ev(&mut x, 1, r#"{"hook_event_name": "UserPromptSubmit"}"#);
    let changed = ev(&mut x, 5, r#"{"hook_event_name": "Notification", "notification_type": "mystery"}"#);
    assert!(!changed);
    assert_eq!(x.state, SessionState::Thinking, "an unrecognised notification type must not move state");
    assert_eq!(x.last_event_at_ms, 5, "liveness still updates");
}

#[test]
fn ended_session_ignores_every_event_except_session_start() {
    let mut x = s();
    ev(&mut x, 1, r#"{"hook_event_name": "SessionEnd", "reason": "exit"}"#);
    assert_eq!(x.state, SessionState::Ended);
    assert!(!ev(&mut x, 2, r#"{"hook_event_name": "Stop"}"#), "a straggler Stop must report no change");
    assert_eq!(x.state, SessionState::Ended, "a straggler Stop must not revive an ended session");
    assert!(
        !ev(&mut x, 3, r#"{"hook_event_name": "PostToolUseFailure", "error": "boom", "is_interrupt": false}"#),
        "a straggler PostToolUseFailure must report no change"
    );
    assert_eq!(x.state, SessionState::Ended, "a straggler failure must not revive an ended session either");
    assert!(x.error.is_none(), "an ignored straggler must not even record its error detail");
}

#[test]
fn session_end_clears_the_pid() {
    let mut x = s();
    x.pid = Some(4242);
    ev(&mut x, 1, r#"{"hook_event_name": "SessionEnd", "reason": "exit"}"#);
    assert_eq!(x.pid, None, "the OS may reuse an ended session's pid for something else entirely");
}

#[test]
fn session_start_revives_an_ended_session() {
    let mut x = s();
    ev(&mut x, 1, r#"{"hook_event_name": "SessionEnd", "reason": "exit"}"#);
    assert_eq!(x.state, SessionState::Ended);
    assert!(ev(&mut x, 2, r#"{"hook_event_name": "SessionStart", "source": "resume"}"#));
    assert_eq!(x.state, SessionState::Idle, "a resume legitimately revives an ended session");
}

#[test]
fn state_since_ms_moves_only_on_a_state_change() {
    let mut x = s();
    ev(&mut x, 1, r#"{"hook_event_name": "UserPromptSubmit"}"#);
    assert_eq!(x.state_since_ms, 1);
    ev(&mut x, 5, r#"{"hook_event_name": "PreToolUse", "tool_name": "Bash", "tool_use_id": "t1"}"#);
    assert_eq!(x.state_since_ms, 1, "staying in thinking must not bump the timestamp");
    ev(&mut x, 9, r#"{"hook_event_name": "Stop"}"#);
    assert_eq!(x.state_since_ms, 9, "an actual state change updates it");
}
