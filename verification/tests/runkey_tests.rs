use deckhand::runkey::{compare_run_value, run_value_for_exe, toggle_change, RunValueChange, StartWithWindowsState};

const THIS_EXE: &str = r"C:\Users\owen\dev\deckhand\target\debug\deckhand.exe";

#[test]
fn run_value_for_exe_is_double_quoted() {
    assert_eq!(run_value_for_exe(THIS_EXE), format!("\"{THIS_EXE}\""));
}

#[test]
fn no_value_compares_off() {
    assert_eq!(compare_run_value(None, THIS_EXE), StartWithWindowsState::Off);
}

#[test]
fn a_quoted_value_matching_this_exe_compares_on_this_exe() {
    let stored = format!("\"{THIS_EXE}\"");
    assert_eq!(compare_run_value(Some(&stored), THIS_EXE), StartWithWindowsState::OnThisExe);
}

#[test]
fn an_unquoted_value_matching_this_exe_still_compares_on_this_exe() {
    assert_eq!(compare_run_value(Some(THIS_EXE), THIS_EXE), StartWithWindowsState::OnThisExe);
}

#[test]
fn comparison_is_case_insensitive() {
    let stored = format!("\"{}\"", THIS_EXE.to_uppercase());
    assert_eq!(compare_run_value(Some(&stored), THIS_EXE), StartWithWindowsState::OnThisExe);
}

#[test]
fn a_value_naming_a_different_exe_compares_on_other_exe() {
    let other = r"D:\old-deckhand\deckhand.exe";
    let stored = format!("\"{other}\"");
    assert_eq!(
        compare_run_value(Some(&stored), THIS_EXE),
        StartWithWindowsState::OnOtherExe { path: other.to_string() }
    );
}

// ---- beyond the scenarios above ----

#[test]
fn the_toggle_turns_this_exe_off_and_anything_else_on() {
    assert_eq!(toggle_change(&StartWithWindowsState::OnThisExe, THIS_EXE), RunValueChange::Delete);
    assert_eq!(
        toggle_change(&StartWithWindowsState::Off, THIS_EXE),
        RunValueChange::Write(format!("\"{THIS_EXE}\""))
    );
    assert_eq!(
        toggle_change(&StartWithWindowsState::OnOtherExe { path: "x".to_string() }, THIS_EXE),
        RunValueChange::Write(format!("\"{THIS_EXE}\""))
    );
}

#[test]
fn a_lone_quote_is_not_stripped() {
    assert_eq!(
        compare_run_value(Some("\""), THIS_EXE),
        StartWithWindowsState::OnOtherExe { path: "\"".to_string() }
    );
}

#[test]
fn surrounding_whitespace_is_trimmed_before_the_quotes_come_off() {
    let stored = format!("  \"{THIS_EXE}\" ");
    assert_eq!(compare_run_value(Some(&stored), THIS_EXE), StartWithWindowsState::OnThisExe);
}

#[test]
fn the_written_value_reads_back_as_this_exe_for_any_path() {
    for exe in [THIS_EXE, "", " C:\\odd path\\deckhand.exe ", "\"", "x"] {
        let written = run_value_for_exe(exe);
        assert_eq!(compare_run_value(Some(&written), exe), StartWithWindowsState::OnThisExe, "path {exe:?}");
    }
}
