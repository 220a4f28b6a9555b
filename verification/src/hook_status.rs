//! Whether the twelve-event Deckhand hook group is registered in the
//! user-level agent CLI settings, for the settings panel's Hooks row.
//! A pure function of the settings file's text and the current shim
//! path; finding and reading the real file is the application's.

use vstd::prelude::*;

use crate::json::{Json, JsonV, jget, oarr, ostr, field_from, parse_json, parsed_json, lemma_object_view, lemma_array_view};
use crate::text::{chars_of, string_of, to_lowercase, lowercase_spec, occurs_at, occurs_here, same_text};
use vstd::string::StringSliceAdditionalSpecFns;

verus! {

/// The twelve events the hook installer registers.
pub const EVENTS: [&'static str; 12] = [
    "SessionStart",
    "UserPromptSubmit",
    "PreToolUse",
    "PostToolUse",
    "PostToolUseFailure",
    "SubagentStart",
    "SubagentStop",
    "Notification",
    "PermissionDenied",
    "Stop",
    "StopFailure",
    "SessionEnd",
];

/// The same twelve names, as the contracts read them.
pub open spec fn event_names() -> Seq<Seq<char>> {
    seq![
        "SessionStart"@,
        "UserPromptSubmit"@,
        "PreToolUse"@,
        "PostToolUse"@,
        "PostToolUseFailure"@,
        "SubagentStart"@,
        "SubagentStop"@,
        "Notification"@,
        "PermissionDenied"@,
        "Stop"@,
        "StopFailure"@,
        "SessionEnd"@,
    ]
}

#[derive(Debug, Clone, Copy, PartialEq, Eq, Structural)]
pub enum HookStatus {
    /// Every event carries exactly the group the installer writes today:
    /// one hook, the current shim path, single-quoted, no timeout.
    Installed,
    /// Some event carries a Deckhand group, but not every event does, or
    /// one present is stale (a raw unquoted path, a leftover timeout).
    Outdated,
    /// No event carries a Deckhand group; also a file with no `hooks`.
    Missing,
    /// The file exists but is not valid JSON, or could not be read.
    Unreadable,
}

#[derive(Debug, Clone, Copy, PartialEq, Eq, Structural)]
pub enum GroupMatch {
    Current,
    Outdated,
}

/// Backslashes turned to forward slashes.
pub open spec fn slashed(s: Seq<char>) -> Seq<char> {
    s.map_values(|c: char| if c == '\\' { '/' } else { c })
}

/// A path in comparable form: slashes unified, then lowercased.
pub open spec fn shim_norm(s: Seq<char>) -> Seq<char> {
    lowercase_spec(slashed(s))
}

/// A single-quoted shell token: at least two characters, a quote at
/// each end.
pub open spec fn quoted(s: Seq<char>) -> bool {
    s.len() >= 2 && s[0] == '\'' && s[s.len() - 1] == '\''
}

/// Every non-overlapping `pat`, left to right, replaced by `rep`.
pub open spec fn replace_all(s: Seq<char>, pat: Seq<char>, rep: Seq<char>) -> Seq<char>
    decreases s.len(),
{
    if s.len() == 0 || pat.len() == 0 {
        s
    } else if occurs_at(s, pat, 0) {
        rep + replace_all(s.skip(pat.len() as int), pat, rep)
    } else {
        seq![s[0]] + replace_all(s.skip(1), pat, rep)
    }
}

/// A shell token unwrapped: a quoted token loses its quotes and its
/// `'\''` escapes; anything else is returned unchanged.
pub open spec fn unquote(s: Seq<char>) -> Seq<char> {
    if quoted(s) {
        replace_all(s.subrange(1, s.len() - 1), "'\\''"@, "'"@)
    } else {
        s
    }
}

/// Whether one group of `hooks.<Event>` is Deckhand's for this shim and,
/// if so, whether it is exactly today's form. `None`: not Deckhand's (a
/// different tool's hook, or more than one hook in the group).
pub open spec fn group_match_spec(group: JsonV, norm: Seq<char>) -> Option<GroupMatch> {
    match oarr(jget(group, "hooks"@)) {
        None => None,
        Some(hooks) => if hooks.len() != 1 {
            None
        } else {
            match ostr(jget(hooks[0], "command"@)) {
                None => None,
                Some(cmd) => if shim_norm(unquote(cmd)) != norm {
                    None
                } else if quoted(cmd) && jget(hooks[0], "timeout"@) is None {
                    Some(GroupMatch::Current)
                } else {
                    Some(GroupMatch::Outdated)
                },
            }
        },
    }
}

/// The first group among `groups[i..]` that is Deckhand's.
pub open spec fn first_match(groups: Seq<JsonV>, norm: Seq<char>, i: int) -> Option<GroupMatch>
    decreases groups.len() - i,
{
    if i < 0 || i >= groups.len() {
        None
    } else {
        match group_match_spec(groups[i], norm) {
            Some(m) => Some(m),
            None => first_match(groups, norm, i + 1),
        }
    }
}

/// What one event carries in the `hooks` object.
pub open spec fn event_match(hooks: JsonV, event: Seq<char>, norm: Seq<char>) -> Option<GroupMatch> {
    match oarr(jget(hooks, event)) {
        Some(groups) => first_match(groups, norm, 0),
        None => None,
    }
}

/// The status of a parsed settings file for this shim path: `Missing`
/// without a `hooks` object; otherwise `Installed` when every event is
/// current, `Outdated` when any carries a Deckhand group, else `Missing`.
pub open spec fn status_spec(root: JsonV, shim_path: Seq<char>) -> HookStatus {
    match jget(root, "hooks"@) {
        Some(JsonV::Object(f)) => {
            let hooks = JsonV::Object(f);
            let norm = shim_norm(shim_path);
            if forall|k: int| 0 <= k < 12 ==> event_match(hooks, #[trigger] event_names()[k], norm) == Some(GroupMatch::Current) {
                HookStatus::Installed
            } else if exists|k: int| 0 <= k < 12 && event_match(hooks, #[trigger] event_names()[k], norm) is Some {
                HookStatus::Outdated
            } else {
                HookStatus::Missing
            }
        },
        _ => HookStatus::Missing,
    }
}

fn slash_all(s: &str) -> (r: Vec<char>)
    ensures
        r@ == slashed(s@),
{
    let cs = chars_of(s);
    let mut out: Vec<char> = Vec::new();
    let mut i: usize = 0;
    while i < cs.len()
        invariant
            cs@ == s@,
            i <= cs@.len(),
            out@ == slashed(cs@.take(i as int)),
        decreases cs@.len() - i,
    {
        proof {
            assert(slashed(cs@.take(i + 1)) =~= slashed(cs@.take(i as int)).push(
                if cs@[i as int] == '\\' { '/' } else { cs@[i as int] },
            ));
        }
        if cs[i] == '\\' {
            out.push('/');
        } else {
            out.push(cs[i]);
        }
        i = i + 1;
    }
    proof {
        assert(cs@.take(cs@.len() as int) =~= cs@);
    }
    out
}

/// Case- and slash-insensitive comparable form of a path.
fn normalize(path: &str) -> (r: String)
    ensures
        r@ == shim_norm(path@),
{
    let s = slash_all(path);
    let t = string_of(s.as_slice());
    to_lowercase(t.as_str())
}

fn is_quoted_chars(cs: &Vec<char>) -> (r: bool)
    ensures
        r == quoted(cs@),
{
    cs.len() >= 2 && cs[0] == '\'' && cs[cs.len() - 1] == '\''
}

/// Whether `command` is a single-quoted shell token.
fn is_quoted_token(command: &str) -> (r: bool)
    ensures
        r == quoted(command@),
{
    let cs = chars_of(command);
    is_quoted_chars(&cs)
}

proof fn lemma_replace_step(s: Seq<char>, pat: Seq<char>, rep: Seq<char>, i: int)
    requires
        0 <= i < s.len(),
        pat.len() > 0,
    ensures
        occurs_at(s, pat, i) ==> replace_all(s.skip(i), pat, rep) == rep + replace_all(s.skip(i + pat.len()), pat, rep),
        !occurs_at(s, pat, i) ==> replace_all(s.skip(i), pat, rep) == seq![s[i]] + replace_all(s.skip(i + 1), pat, rep),
{
    let t = s.skip(i);
    assert(t.len() > 0);
    if occurs_at(s, pat, i) {
        assert(t.subrange(0, pat.len() as int) =~= s.subrange(i, i + pat.len()));
        assert(t.skip(pat.len() as int) =~= s.skip(i + pat.len()));
    } else {
        if occurs_at(t, pat, 0) {
            assert(t.subrange(0, pat.len() as int) =~= s.subrange(i, i + pat.len()));
        }
        assert(t.skip(1) =~= s.skip(i + 1));
    }
}

/// The characters `cs[from..to]` with every `'\''` turned back into `'`.
fn unescape_quotes(cs: &Vec<char>, from: usize, to: usize) -> (r: Vec<char>)
    requires
        from <= to <= cs@.len(),
    ensures
        r@ == replace_all(cs@.subrange(from as int, to as int), "'\\''"@, "'"@),
{
    let pat: Vec<char> = chars_of("'\\''");
    proof {
        reveal_strlit("'\\''");
        reveal_strlit("'");
    }
    let ghost s = cs@.subrange(from as int, to as int);
    let mut sub: Vec<char> = Vec::new();
    let mut j: usize = from;
    while j < to
        invariant
            from <= j <= to <= cs@.len(),
            sub@ == cs@.subrange(from as int, j as int),
        decreases to - j,
    {
        sub.push(cs[j]);
        j = j + 1;
    }
    let mut out: Vec<char> = Vec::new();
    let mut i: usize = 0;
    proof {
        assert(s.skip(0) =~= s);
        assert(out@ + replace_all(s.skip(0), pat@, "'"@) =~= replace_all(s, pat@, "'"@));
    }
    while i < sub.len()
        invariant
            sub@ == s,
            "'"@ == seq!['\''],
            pat@ == "'\\''"@,
            pat@.len() == 4,
            i <= s.len(),
            out@ + replace_all(s.skip(i as int), pat@, "'"@) == replace_all(s, pat@, "'"@),
        decreases s.len() - i,
    {
        proof {
            lemma_replace_step(s, pat@, "'"@, i as int);
        }
        if sub.len() - i >= 4 && occurs_here(&sub, &pat, i) {
            out.push('\'');
            proof {
                assert(out@ =~= out@.drop_last() + "'"@);
                assert(out@.drop_last() + ("'"@ + replace_all(s.skip(i + 4), pat@, "'"@)) =~= out@ + replace_all(s.skip(i + 4), pat@, "'"@));
            }
            i = i + 4;
        } else {
            proof {
                if sub.len() - i < 4 {
                    assert(!occurs_at(s, pat@, i as int));
                }
            }
            let ghost o = out@;
            out.push(sub[i]);
            proof {
                assert(o + (seq![s[i as int]] + replace_all(s.skip(i + 1), pat@, "'"@)) =~= out@ + replace_all(s.skip(i + 1), pat@, "'"@));
            }
            i = i + 1;
        }
    }
    proof {
        assert(s.skip(s.len() as int) =~= Seq::<char>::empty());
        assert(out@ + Seq::<char>::empty() =~= out@);
    }
    out
}

/// A quoted shell token unwrapped (see `unquote`).
fn unwrap_shell_token(command: &str) -> (r: String)
    ensures
        r@ == unquote(command@),
{
    let cs = chars_of(command);
    if is_quoted_chars(&cs) {
        let inner = unescape_quotes(&cs, 1, cs.len() - 1);
        string_of(inner.as_slice())
    } else {
        string_of(cs.as_slice())
    }
}

/// Whether `group` is Deckhand's for this shim (see `group_match_spec`).
fn group_match(group: &Json, norm: &str) -> (r: Option<GroupMatch>)
    ensures
        r == group_match_spec(group@, norm@),
{
    let hooks = match group.get("hooks") {
        Some(h) => match h.as_array() {
            Some(a) => a,
            None => return None,
        },
        None => return None,
    };
    if hooks.len() != 1 {
        return None;
    }
    let hook = &hooks[0];
    proof {
        assert(hooks@.map_values(|e: Json| e@)[0] == hook@);
    }
    let command = match hook.get("command") {
        Some(c) => match c.as_str() {
            Some(s) => s,
            None => return None,
        },
        None => return None,
    };
    let unwrapped = unwrap_shell_token(command.as_str());
    let n = normalize(unwrapped.as_str());
    if !same_text(n.as_str(), norm) {
        return None;
    }
    let has_timeout = hook.get("timeout").is_some();
    if is_quoted_token(command.as_str()) && !has_timeout {
        Some(GroupMatch::Current)
    } else {
        Some(GroupMatch::Outdated)
    }
}

fn event_match_exec(hooks: &Json, event: &str, norm: &str) -> (r: Option<GroupMatch>)
    ensures
        r == event_match(hooks@, event@, norm@),
{
    let groups = match hooks.get(event) {
        Some(g) => match g.as_array() {
            Some(a) => a,
            None => return None,
        },
        None => return None,
    };
    let ghost gv = oarr(jget(hooks@, event@))->0;
    proof {
        assert(gv.len() == groups@.len());
    }
    let mut i: usize = 0;
    while i < groups.len()
        invariant
            gv == oarr(jget(hooks@, event@))->0,
            oarr(jget(hooks@, event@)) is Some,
            gv.len() == groups@.len(),
            forall|k: int| 0 <= k < groups@.len() ==> gv[k] == (#[trigger] groups@[k])@,
            i <= groups@.len(),
            first_match(gv, norm@, 0) == first_match(gv, norm@, i as int),
        decreases groups@.len() - i,
    {
        let m = group_match(&groups[i], norm);
        proof {
            assert(gv[i as int] == groups@[i as int]@);
        }
        if m.is_some() {
            proof {
                assert(first_match(gv, norm@, i as int) == m);
            }
            return m;
        }
        i = i + 1;
    }
    None
}

/// The event name at `k` among the twelve.
fn event_at(k: usize) -> (e: &'static str)
    requires
        k < 12,
    ensures
        e@ == event_names()[k as int],
{
    proof {
        reveal_strlit("SessionStart");
        reveal_strlit("UserPromptSubmit");
        reveal_strlit("PreToolUse");
        reveal_strlit("PostToolUse");
        reveal_strlit("PostToolUseFailure");
        reveal_strlit("SubagentStart");
        reveal_strlit("SubagentStop");
        reveal_strlit("Notification");
        reveal_strlit("PermissionDenied");
        reveal_strlit("Stop");
        reveal_strlit("StopFailure");
        reveal_strlit("SessionEnd");
    }
    match k {
        0 => "SessionStart",
        1 => "UserPromptSubmit",
        2 => "PreToolUse",
        3 => "PostToolUse",
        4 => "PostToolUseFailure",
        5 => "SubagentStart",
        6 => "SubagentStop",
        7 => "Notification",
        8 => "PermissionDenied",
        9 => "Stop",
        10 => "StopFailure",
        _ => "SessionEnd",
    }
}

/// The status of an already parsed settings file (see `status_spec`).
pub fn hook_status_of(root: &Json, shim_path: &str) -> (s: HookStatus)
    ensures
        s == status_spec(root@, shim_path@),
{
    let hooks = match root.get("hooks") {
        Some(h) => h,
        None => return HookStatus::Missing,
    };
    match hooks {
        Json::Object(_) => {},
        _ => {
            proof {
                assert(!(hooks@ is Object)) by {
                    reveal_with_fuel(<Json as View>::view, 1);
                }
            }
            return HookStatus::Missing;
        },
    }
    proof {
        lemma_object_view(*hooks);
    }
    let norm = normalize(shim_path);
    let mut any_present = false;
    let mut all_current = true;
    let mut k: usize = 0;
    while k < 12
        invariant
            hooks@ is Object,
            norm@ == shim_norm(shim_path@),
            k <= 12,
            all_current == forall|j: int| 0 <= j < k ==> event_match(hooks@, #[trigger] event_names()[j], norm@)
                == Some(GroupMatch::Current),
            any_present == exists|j: int| 0 <= j < k && event_match(hooks@, #[trigger] event_names()[j], norm@) is Some,
        decreases 12 - k,
    {
        let event = event_at(k);
        let m = event_match_exec(hooks, event, norm.as_str());
        match m {
            Some(GroupMatch::Current) => {
                any_present = true;
            },
            Some(GroupMatch::Outdated) => {
                any_present = true;
                all_current = false;
            },
            None => {
                all_current = false;
            },
        }
        k = k + 1;
    }
    if all_current {
        HookStatus::Installed
    } else if any_present {
        HookStatus::Outdated
    } else {
        HookStatus::Missing
    }
}

/// The status the panel's Hooks row shows, from the settings file's raw
/// text and the current shim path: `Unreadable` when the text is not
/// JSON, otherwise the parsed file's status.
pub fn parse_hook_status(settings_json: &str, shim_path: &str) -> (s: HookStatus)
    ensures
        match parsed_json(settings_json.spec_bytes()) {
            None => s == HookStatus::Unreadable,
            Some(root) => s == status_spec(root, shim_path@),
        },
{
    match parse_json(settings_json.as_bytes()) {
        Some(root) => hook_status_of(&root, shim_path),
        None => HookStatus::Unreadable,
    }
}

/// A file without a `hooks` object reads as `Missing`, never as
/// `Outdated` or `Installed`; and `Installed` needs every one of the
/// twelve events current.
pub proof fn law_installed_needs_every_event(root: JsonV, shim_path: Seq<char>, k: int)
    requires
        0 <= k < 12,
    ensures
        !(jget(root, "hooks"@) matches Some(JsonV::Object(_))) ==> status_spec(root, shim_path) == HookStatus::Missing,
        status_spec(root, shim_path) == HookStatus::Installed ==> event_match(
            jget(root, "hooks"@)->0,
            event_names()[k],
            shim_norm(shim_path),
        ) == Some(GroupMatch::Current),
{
}

} // verus!
