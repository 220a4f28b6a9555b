//! The session state machine. One instance per session; this is the only
//! place a status colour is decided. Transitions follow the
//! status-inference table: hook events, scan sightings, selection, a
//! process that exited, and the `T_unknown` deadline.

use vstd::prelude::*;

use crate::host::Host;
use crate::json::{Json, JsonV, jget, oget, ostr, obool, oarr, oview, ostring, field_from, get_str, get_bool, lemma_object_view};
use crate::text::{chars_of, string_of_range, opt_text, texts, same_text, owned, clone_opt, clone_texts};

verus! {

#[derive(Debug, Clone, Copy, PartialEq, Eq, Structural)]
pub enum SessionState {
    Idle,
    Thinking,
    NeedsInput,
    Complete,
    Error,
    Ended,
    Unknown,
}

#[derive(Debug, Clone, Copy, PartialEq, Eq, Structural)]
pub enum InputKind {
    /// Reserved for the permission gate; no event produces it yet.
    Permission,
    Question,
}

/// An open operation for the liveness bracket: opened by `PreToolUse` or
/// `SubagentStart`, closed by its partner.
#[derive(Debug)]
pub struct OpenOp {
    /// The `tool_use_id` (or subagent `agent_id`) where the payload
    /// carries one.
    pub id: Option<String>,
    pub tool: String,
    pub opened_at_ms: i64,
}

#[verifier::ext_equal]
pub struct OpenOpV {
    pub id: Option<Seq<char>>,
    pub tool: Seq<char>,
    pub opened_at_ms: i64,
}

impl View for OpenOp {
    type V = OpenOpV;

    open spec fn view(&self) -> OpenOpV {
        OpenOpV { id: opt_text(self.id), tool: self.tool@, opened_at_ms: self.opened_at_ms }
    }
}

#[derive(Debug)]
pub struct ErrorDetail {
    pub kind: String,
    pub message: Option<String>,
}

#[verifier::ext_equal]
pub struct ErrorDetailV {
    pub kind: Seq<char>,
    pub message: Option<Seq<char>>,
}

impl View for ErrorDetail {
    type V = ErrorDetailV;

    open spec fn view(&self) -> ErrorDetailV {
        ErrorDetailV { kind: self.kind@, message: opt_text(self.message) }
    }
}

/// `T_unknown`: the silence after which a colour is no longer trusted.
pub const T_UNKNOWN_MS: i64 = 900_000;

/// Consecutive scans, with no hook between them, that must contradict a
/// hook-set colour before the scan's own colour wins.
pub const SCAN_TIEBREAK_SCANS: u32 = 2;

/// Everything the daemon knows about one session.
#[derive(Debug)]
pub struct Session {
    pub id: String,
    pub label: String,
    /// The label was derived from `cwd` rather than a real name, and a
    /// real name may still replace it.
    pub label_is_derived: bool,
    pub cwd: Option<String>,
    pub permission_mode: Option<String>,
    pub pid: Option<u32>,
    /// Host classification of the session's process, once its pid is known.
    pub host: Option<Host>,
    /// The session's process's immediate parent pid, once known.
    pub parent_pid: Option<u32>,
    /// The scan's own `startedAt`, when a scan reported one.
    pub started_at_ms: Option<i64>,
    /// When the daemon first heard of this session at all.
    pub first_seen_ms: i64,
    pub state: SessionState,
    pub state_since_ms: i64,
    pub detail_kind: Option<InputKind>,
    pub detail_tool: Option<String>,
    pub question: Option<String>,
    pub options: Vec<String>,
    pub error: Option<ErrorDetail>,
    /// The child ledger's size: open subagents only.
    pub children: u32,
    /// The ledger itself: `agent_id` per open child.
    pub child_ids: Vec<String>,
    pub open_ops: Vec<OpenOp>,
    pub last_event_at_ms: i64,
    /// The last time a successful scan listed this session.
    pub last_seen_ms: i64,
    /// The raw `status` of the latest scan that listed this session.
    pub scan_status: Option<String>,
    /// Some hook event has arrived for this session in this run.
    pub heard: bool,
    pub unread_since_ms: Option<i64>,
    /// A turn ended while children were live; green waits for the ledger
    /// to empty.
    pub pending_complete: bool,
    /// Consecutive disagreeing scans with no hook event between them.
    pub scan_disagreements: u32,
}

#[verifier::ext_equal]
pub struct SessionV {
    pub id: Seq<char>,
    pub label: Seq<char>,
    pub label_is_derived: bool,
    pub cwd: Option<Seq<char>>,
    pub permission_mode: Option<Seq<char>>,
    pub pid: Option<u32>,
    pub host: Option<Host>,
    pub parent_pid: Option<u32>,
    pub started_at_ms: Option<i64>,
    pub first_seen_ms: i64,
    pub state: SessionState,
    pub state_since_ms: i64,
    pub detail_kind: Option<InputKind>,
    pub detail_tool: Option<Seq<char>>,
    pub question: Option<Seq<char>>,
    pub options: Seq<Seq<char>>,
    pub error: Option<ErrorDetailV>,
    pub children: u32,
    pub child_ids: Seq<Seq<char>>,
    pub open_ops: Seq<OpenOpV>,
    pub last_event_at_ms: i64,
    pub last_seen_ms: i64,
    pub scan_status: Option<Seq<char>>,
    pub heard: bool,
    pub unread_since_ms: Option<i64>,
    pub pending_complete: bool,
    pub scan_disagreements: u32,
}

pub open spec fn opt_error(e: Option<ErrorDetail>) -> Option<ErrorDetailV> {
    match e {
        Some(d) => Some(d@),
        None => None,
    }
}

pub open spec fn ops_view(v: Seq<OpenOp>) -> Seq<OpenOpV> {
    v.map_values(|o: OpenOp| o@)
}

impl View for Session {
    type V = SessionV;

    open spec fn view(&self) -> SessionV {
        SessionV {
            id: self.id@,
            label: self.label@,
            label_is_derived: self.label_is_derived,
            cwd: opt_text(self.cwd),
            permission_mode: opt_text(self.permission_mode),
            pid: self.pid,
            host: self.host,
            parent_pid: self.parent_pid,
            started_at_ms: self.started_at_ms,
            first_seen_ms: self.first_seen_ms,
            state: self.state,
            state_since_ms: self.state_since_ms,
            detail_kind: self.detail_kind,
            detail_tool: opt_text(self.detail_tool),
            question: opt_text(self.question),
            options: texts(self.options@),
            error: opt_error(self.error),
            children: self.children,
            child_ids: texts(self.child_ids@),
            open_ops: ops_view(self.open_ops@),
            last_event_at_ms: self.last_event_at_ms,
            last_seen_ms: self.last_seen_ms,
            scan_status: opt_text(self.scan_status),
            heard: self.heard,
            unread_since_ms: self.unread_since_ms,
            pending_complete: self.pending_complete,
            scan_disagreements: self.scan_disagreements,
        }
    }
}

impl Clone for OpenOp {
    fn clone(&self) -> (r: Self)
        ensures
            r@ == self@,
    {
        OpenOp { id: clone_opt(&self.id), tool: self.tool.clone(), opened_at_ms: self.opened_at_ms }
    }
}

impl Clone for ErrorDetail {
    fn clone(&self) -> (r: Self)
        ensures
            r@ == self@,
    {
        ErrorDetail { kind: self.kind.clone(), message: clone_opt(&self.message) }
    }
}

fn clone_error(e: &Option<ErrorDetail>) -> (r: Option<ErrorDetail>)
    ensures
        opt_error(r) == opt_error(*e),
{
    match e {
        Some(d) => Some(d.clone()),
        None => None,
    }
}

fn clone_ops(v: &Vec<OpenOp>) -> (r: Vec<OpenOp>)
    ensures
        ops_view(r@) == ops_view(v@),
{
    let mut out: Vec<OpenOp> = Vec::new();
    let mut i: usize = 0;
    while i < v.len()
        invariant
            i <= v@.len(),
            out@.len() == i,
            forall|k: int| 0 <= k < i ==> (#[trigger] out@[k])@ == v@[k]@,
        decreases v@.len() - i,
    {
        out.push(v[i].clone());
        i = i + 1;
    }
    assert(ops_view(out@) =~= ops_view(v@));
    out
}

impl Clone for Session {
    fn clone(&self) -> (r: Self)
        ensures
            r@ == self@,
    {
        Session {
            id: self.id.clone(),
            label: self.label.clone(),
            label_is_derived: self.label_is_derived,
            cwd: clone_opt(&self.cwd),
            permission_mode: clone_opt(&self.permission_mode),
            pid: self.pid,
            host: self.host,
            parent_pid: self.parent_pid,
            started_at_ms: self.started_at_ms,
            first_seen_ms: self.first_seen_ms,
            state: self.state,
            state_since_ms: self.state_since_ms,
            detail_kind: self.detail_kind,
            detail_tool: clone_opt(&self.detail_tool),
            question: clone_opt(&self.question),
            options: clone_texts(&self.options),
            error: clone_error(&self.error),
            children: self.children,
            child_ids: clone_texts(&self.child_ids),
            open_ops: clone_ops(&self.open_ops),
            last_event_at_ms: self.last_event_at_ms,
            last_seen_ms: self.last_seen_ms,
            scan_status: clone_opt(&self.scan_status),
            heard: self.heard,
            unread_since_ms: self.unread_since_ms,
            pending_complete: self.pending_complete,
            scan_disagreements: self.scan_disagreements,
        }
    }
}

// ---- Text rules -----------------------------------------------------

pub open spec fn is_sep(c: char) -> bool {
    c == '/' || c == '\\'
}

/// The end of `p[..n]` once trailing separators are trimmed.
pub open spec fn trimmed_end(p: Seq<char>, n: int) -> int
    decreases n,
{
    if n <= 0 {
        0
    } else if is_sep(p[n - 1]) {
        trimmed_end(p, n - 1)
    } else {
        n
    }
}

/// The start of the last segment of `p[..n]`: just past its last
/// separator, or 0 when it has none.
pub open spec fn segment_start(p: Seq<char>, n: int) -> int
    decreases n,
{
    if n <= 0 {
        0
    } else if is_sep(p[n - 1]) {
        n
    } else {
        segment_start(p, n - 1)
    }
}

/// The last path segment, either separator accepted, trailing
/// separators ignored.
pub open spec fn dir_name_spec(p: Seq<char>) -> Seq<char> {
    let e = trimmed_end(p, p.len() as int);
    p.subrange(segment_start(p, e), e)
}

proof fn lemma_trimmed_end_bounds(p: Seq<char>, n: int)
    requires
        0 <= n <= p.len(),
    ensures
        0 <= trimmed_end(p, n) <= n,
    decreases n,
{
    if n > 0 && is_sep(p[n - 1]) {
        lemma_trimmed_end_bounds(p, n - 1);
    }
}

proof fn lemma_segment_start_bounds(p: Seq<char>, n: int)
    requires
        0 <= n <= p.len(),
    ensures
        0 <= segment_start(p, n) <= n,
    decreases n,
{
    if n > 0 && !is_sep(p[n - 1]) {
        lemma_segment_start_bounds(p, n - 1);
    }
}

/// The directory name of a path: its last segment, with `\` and `/`
/// both read as separators and trailing separators ignored.
pub fn dir_name(path: &str) -> (r: String)
    ensures
        r@ == dir_name_spec(path@),
{
    let cs = chars_of(path);
    let mut e: usize = cs.len();
    proof {
        lemma_trimmed_end_bounds(cs@, cs@.len() as int);
    }
    while e > 0 && (cs[e - 1] == '/' || cs[e - 1] == '\\')
        invariant
            e <= cs@.len(),
            trimmed_end(cs@, cs@.len() as int) == trimmed_end(cs@, e as int),
        decreases e,
    {
        e = e - 1;
    }
    let mut st: usize = e;
    while st > 0 && !(cs[st - 1] == '/' || cs[st - 1] == '\\')
        invariant
            st <= e <= cs@.len(),
            e == trimmed_end(cs@, cs@.len() as int),
            segment_start(cs@, e as int) == segment_start(cs@, st as int),
        decreases st,
    {
        st = st - 1;
    }
    string_of_range(&cs, st, e)
}

/// UTF-8 width of one character.
pub open spec fn utf8_width(c: char) -> nat {
    if (c as u32) < 0x80 {
        1
    } else if (c as u32) < 0x800 {
        2
    } else if (c as u32) < 0x10000 {
        3
    } else {
        4
    }
}

/// UTF-8 length in bytes of a character sequence.
pub open spec fn utf8_len(s: Seq<char>) -> nat
    decreases s.len(),
{
    if s.len() == 0 {
        0
    } else {
        utf8_len(s.drop_last()) + utf8_width(s.last())
    }
}

/// The most leading characters, counting up from `k`, whose UTF-8
/// length stays within `max` bytes.
pub open spec fn fit_count(s: Seq<char>, max: nat, k: int) -> int
    decreases s.len() - k,
{
    if 0 <= k < s.len() && utf8_len(s.take(k + 1)) <= max {
        fit_count(s, max, k + 1)
    } else {
        k
    }
}

/// Detail text clipped to what a panel can show: unchanged within `max`
/// bytes, else the longest whole-character prefix within `max` bytes
/// followed by `...`.
pub open spec fn truncate_spec(s: Seq<char>, max: nat) -> Seq<char> {
    if utf8_len(s) <= max {
        s
    } else {
        s.take(fit_count(s, max, 0)) + "..."@
    }
}

proof fn lemma_utf8_len_step(s: Seq<char>, k: int)
    requires
        0 <= k < s.len(),
    ensures
        utf8_len(s.take(k + 1)) == utf8_len(s.take(k)) + utf8_width(s[k]),
{
    assert(s.take(k + 1).drop_last() =~= s.take(k));
}

proof fn lemma_fit_count_bounds(s: Seq<char>, max: nat, k: int)
    requires
        0 <= k <= s.len(),
    ensures
        k <= fit_count(s, max, k) <= s.len(),
    decreases s.len() - k,
{
    if k < s.len() && utf8_len(s.take(k + 1)) <= max {
        lemma_fit_count_bounds(s, max, k + 1);
    }
}

fn char_width(c: char) -> (w: usize)
    ensures
        w == utf8_width(c),
{
    let u = c as u32;
    if u < 0x80 {
        1
    } else if u < 0x800 {
        2
    } else if u < 0x10000 {
        3
    } else {
        4
    }
}

/// Clip detail text to what a tile or panel can honestly show.
pub fn truncate(text: &str, max: usize) -> (r: String)
    ensures
        r@ == truncate_spec(text@, max as nat),
{
    let cs = chars_of(text);
    // Walk forward, keeping the byte count of the prefix; stop at the
    // first character that would pass `max`.
    let mut k: usize = 0;
    let mut bytes: usize = 0;
    proof {
        assert(cs@.take(0) =~= Seq::<char>::empty());
    }
    while k < cs.len()
        invariant
            k <= cs@.len(),
            bytes == utf8_len(cs@.take(k as int)),
            bytes <= max,
            fit_count(cs@, max as nat, 0) == fit_count(cs@, max as nat, k as int),
        ensures
            k <= cs@.len(),
            bytes == utf8_len(cs@.take(k as int)),
            fit_count(cs@, max as nat, 0) == fit_count(cs@, max as nat, k as int),
            k < cs@.len() ==> utf8_len(cs@.take(k + 1)) > max,
        decreases cs@.len() - k,
    {
        let w = char_width(cs[k]);
        proof {
            lemma_utf8_len_step(cs@, k as int);
        }
        if w > max - bytes {
            break;
        }
        bytes = bytes + w;
        k = k + 1;
    }
    proof {
        assert(cs@.take(cs@.len() as int) =~= cs@);
    }
    if k == cs.len() {
        // The whole text fits.
        return string_of_range(&cs, 0, k);
    }
    proof {
        // utf8_len only grows with the prefix, so the whole text does not
        // fit once one prefix does not.
        lemma_utf8_len_prefix_mono(cs@, k as int + 1, cs@.len() as int);
    }
    let head = string_of_range(&cs, 0, k);
    assert(cs@.subrange(0, k as int) =~= cs@.take(k as int));
    head.concat("...")
}

proof fn lemma_utf8_len_prefix_mono(s: Seq<char>, a: int, b: int)
    requires
        0 <= a <= b <= s.len(),
    ensures
        utf8_len(s.take(a)) <= utf8_len(s.take(b)),
    decreases b - a,
{
    if a < b {
        lemma_utf8_len_prefix_mono(s, a, b - 1);
        lemma_utf8_len_step(s, b - 1);
    }
}


// ---- The hook transition, stated over views -------------------------

/// The hook events the state machine acts on; anything else is `Other`.
#[derive(Debug, Clone, Copy, PartialEq, Eq, Structural)]
pub enum HookEvent {
    SessionStart,
    UserPromptSubmit,
    PreToolUse,
    PostToolUse,
    PostToolUseFailure,
    PermissionDenied,
    Notification,
    Stop,
    StopFailure,
    SubagentStart,
    SubagentStop,
    SessionEnd,
    Other,
}

pub open spec fn event_named(n: Seq<char>) -> HookEvent {
    if n == "SessionStart"@ {
        HookEvent::SessionStart
    } else if n == "UserPromptSubmit"@ {
        HookEvent::UserPromptSubmit
    } else if n == "PreToolUse"@ {
        HookEvent::PreToolUse
    } else if n == "PostToolUse"@ {
        HookEvent::PostToolUse
    } else if n == "PostToolUseFailure"@ {
        HookEvent::PostToolUseFailure
    } else if n == "PermissionDenied"@ {
        HookEvent::PermissionDenied
    } else if n == "Notification"@ {
        HookEvent::Notification
    } else if n == "Stop"@ {
        HookEvent::Stop
    } else if n == "StopFailure"@ {
        HookEvent::StopFailure
    } else if n == "SubagentStart"@ {
        HookEvent::SubagentStart
    } else if n == "SubagentStop"@ {
        HookEvent::SubagentStop
    } else if n == "SessionEnd"@ {
        HookEvent::SessionEnd
    } else {
        HookEvent::Other
    }
}

/// The event a payload names in `hook_event_name`.
pub open spec fn event_of(p: JsonV) -> HookEvent {
    match ostr(jget(p, "hook_event_name"@)) {
        Some(n) => event_named(n),
        None => HookEvent::Other,
    }
}

/// Move to `st` (the timestamp moves only on a real change), dropping
/// question detail outside `NeedsInput` and the unread mark outside
/// `Complete`.
pub open spec fn with_state(s: SessionV, st: SessionState, now: i64) -> SessionV {
    let s1 = if s.state != st {
        SessionV { state: st, state_since_ms: now, ..s }
    } else {
        s
    };
    let s2 = if st != SessionState::NeedsInput {
        SessionV { detail_kind: None, question: None, options: Seq::empty(), ..s1 }
    } else {
        s1
    };
    if st != SessionState::Complete {
        SessionV { unread_since_ms: None, ..s2 }
    } else {
        s2
    }
}

/// Index of the newest operation in `ops[..n]` with this id, or -1.
pub open spec fn last_op_with_id(ops: Seq<OpenOpV>, id: Seq<char>, n: int) -> int
    decreases n,
{
    if n <= 0 {
        -1
    } else if ops[n - 1].id == Some(id) {
        n - 1
    } else {
        last_op_with_id(ops, id, n - 1)
    }
}

/// Index of the newest operation in `ops[..n]` for this tool, or -1.
pub open spec fn last_op_with_tool(ops: Seq<OpenOpV>, tool: Seq<char>, n: int) -> int
    decreases n,
{
    if n <= 0 {
        -1
    } else if ops[n - 1].tool == tool {
        n - 1
    } else {
        last_op_with_tool(ops, tool, n - 1)
    }
}

/// Which operation a closing event closes: by id when given and found,
/// else by tool name newest-first, else the newest open operation (-1
/// when none is open).
pub open spec fn close_index(ops: Seq<OpenOpV>, id: Option<Seq<char>>, tool: Option<Seq<char>>) -> int {
    let by_id = match id {
        Some(i) => last_op_with_id(ops, i, ops.len() as int),
        None => -1,
    };
    if by_id >= 0 {
        by_id
    } else {
        let by_tool = match tool {
            Some(t) => last_op_with_tool(ops, t, ops.len() as int),
            None => -1,
        };
        if by_tool >= 0 {
            by_tool
        } else {
            ops.len() - 1
        }
    }
}

pub open spec fn close_op_spec(ops: Seq<OpenOpV>, id: Option<Seq<char>>, tool: Option<Seq<char>>) -> Seq<OpenOpV> {
    let i = close_index(ops, id, tool);
    if 0 <= i < ops.len() {
        ops.remove(i)
    } else {
        ops
    }
}

/// An option's label: its `label` string, else the option itself when
/// it is a bare string.
pub open spec fn option_label(o: JsonV) -> Option<Seq<char>> {
    match ostr(jget(o, "label"@)) {
        Some(l) => Some(l),
        None => ostr(Some(o)),
    }
}

pub open spec fn option_labels(a: Seq<JsonV>) -> Seq<Seq<char>>
    decreases a.len(),
{
    if a.len() == 0 {
        Seq::empty()
    } else {
        let rest = option_labels(a.drop_last());
        match option_label(a.last()) {
            Some(l) => rest.push(l),
            None => rest,
        }
    }
}

/// The first entry of an `AskUserQuestion` input's `questions` array.
pub open spec fn first_question(input: Option<JsonV>) -> Option<JsonV> {
    match oarr(oget(input, "questions"@)) {
        Some(a) => if a.len() > 0 {
            Some(a[0])
        } else {
            None
        },
        None => None,
    }
}

/// The first question's text and its option labels; absent pieces give
/// no question and no options.
pub open spec fn question_of(input: Option<JsonV>) -> (Option<Seq<char>>, Seq<Seq<char>>) {
    match first_question(input) {
        None => (None, Seq::empty()),
        Some(q) => (
            ostr(jget(q, "question"@)),
            match oarr(jget(q, "options"@)) {
                Some(a) => option_labels(a),
                None => Seq::empty(),
            },
        ),
    }
}

/// `StopFailure`'s error kind: the `error` string itself, or an error
/// object's `type` (else `kind`) string, else `api_error`.
pub open spec fn failure_kind(e: Option<JsonV>) -> Seq<char> {
    match e {
        Some(JsonV::Str(s)) => s,
        Some(JsonV::Object(f)) => {
            let t = field_from(f, "type"@, 0);
            let picked = if t is Some {
                t
            } else {
                field_from(f, "kind"@, 0)
            };
            match ostr(picked) {
                Some(k) => k,
                None => "api_error"@,
            }
        },
        _ => "api_error"@,
    }
}

/// What every non-ignored event records before its own transition:
/// liveness, `heard`, a reset tie-break count, the permission mode, and,
/// for the session's own (non-subagent) payloads, a first `cwd` and a
/// label derived from it when there is none yet.
pub open spec fn liveness_update(s: SessionV, p: JsonV, now: i64) -> SessionV {
    let s1 = SessionV {
        last_event_at_ms: now,
        heard: true,
        scan_disagreements: 0,
        permission_mode: match ostr(jget(p, "permission_mode"@)) {
            Some(m) => Some(m),
            None => s.permission_mode,
        },
        ..s
    };
    if jget(p, "agent_id"@) is None {
        match ostr(jget(p, "cwd"@)) {
            Some(c) => SessionV {
                cwd: if s1.cwd is None {
                    Some(c)
                } else {
                    s1.cwd
                },
                label: if s1.label.len() == 0 {
                    dir_name_spec(c)
                } else {
                    s1.label
                },
                label_is_derived: if s1.label.len() == 0 {
                    true
                } else {
                    s1.label_is_derived
                },
                ..s1
            },
            None => s1,
        }
    } else {
        s1
    }
}

/// The lifecycle-ending move: ledger, open operations and pid cleared,
/// state `Ended`.
pub open spec fn end_spec(s: SessionV, now: i64) -> SessionV {
    with_state(
        SessionV {
            children: 0,
            child_ids: Seq::empty(),
            open_ops: Seq::empty(),
            pending_complete: false,
            pid: None,
            ..s
        },
        SessionState::Ended,
        now,
    )
}

/// Index of the first child id equal to `id` at or after `i`, or -1.
pub open spec fn first_child(ids: Seq<Seq<char>>, id: Seq<char>, i: int) -> int
    decreases ids.len() - i,
{
    if i < 0 || i >= ids.len() {
        -1
    } else if ids[i] == id {
        i
    } else {
        first_child(ids, id, i + 1)
    }
}

/// `SubagentStop`: the named child leaves the ledger (else, for an
/// unseen child, the newest one does), its bracket closes, and a
/// deferred complete lands once the ledger is empty.
pub open spec fn subagent_stop_spec(s: SessionV, aid: Option<Seq<char>>, now: i64) -> SessionV {
    let pos = match aid {
        Some(a) => first_child(s.child_ids, a, 0),
        None => -1,
    };
    let s1 = if pos >= 0 {
        SessionV {
            child_ids: s.child_ids.remove(pos),
            open_ops: close_op_spec(s.open_ops, Some(s.child_ids[pos]), None),
            ..s
        }
    } else if s.child_ids.len() > 0 {
        SessionV {
            child_ids: s.child_ids.drop_last(),
            open_ops: close_op_spec(s.open_ops, Some(s.child_ids.last()), None),
            ..s
        }
    } else {
        s
    };
    let s2 = SessionV { children: s1.child_ids.len() as u32, ..s1 };
    if s2.children == 0 && s2.pending_complete {
        SessionV {
            unread_since_ms: Some(now),
            ..with_state(SessionV { pending_complete: false, ..s2 }, SessionState::Complete, now)
        }
    } else {
        s2
    }
}

/// `SubagentStart`: a child not already in the ledger (or one with no
/// id) joins it and opens a bracket; a duplicate delivery changes
/// nothing.
pub open spec fn subagent_start_spec(s: SessionV, p: JsonV, now: i64) -> SessionV {
    let aid = match ostr(jget(p, "agent_id"@)) {
        Some(a) => a,
        None => Seq::empty(),
    };
    if aid.len() == 0 || !s.child_ids.contains(aid) {
        let at = match ostr(jget(p, "agent_type"@)) {
            Some(t) => t,
            None => "subagent"@,
        };
        let ids = s.child_ids.push(aid);
        SessionV {
            child_ids: ids,
            open_ops: s.open_ops.push(OpenOpV { id: Some(aid), tool: at, opened_at_ms: now }),
            children: ids.len() as u32,
            ..s
        }
    } else {
        s
    }
}

/// The per-event transition, applied after `liveness_update`; the flag
/// says whether anything observable changed.
pub open spec fn event_step(s: SessionV, p: JsonV, now: i64) -> (SessionV, bool) {
    let tool = ostr(jget(p, "tool_name"@));
    let tuid = ostr(jget(p, "tool_use_id"@));
    match event_of(p) {
        HookEvent::SessionStart => if ostr(jget(p, "source"@)) == Some("compact"@) {
            (s, false)
        } else {
            (
                with_state(
                    SessionV {
                        children: 0,
                        child_ids: Seq::empty(),
                        open_ops: Seq::empty(),
                        pending_complete: false,
                        error: None,
                        detail_tool: None,
                        ..s
                    },
                    SessionState::Idle,
                    now,
                ),
                true,
            )
        },
        HookEvent::UserPromptSubmit => (
            with_state(SessionV { pending_complete: false, error: None, ..s }, SessionState::Thinking, now),
            true,
        ),
        HookEvent::PreToolUse => {
            let t = match tool {
                Some(t) => t,
                None => "(unknown tool)"@,
            };
            let s1 = SessionV {
                open_ops: s.open_ops.push(OpenOpV { id: tuid, tool: t, opened_at_ms: now }),
                ..s
            };
            if t == "AskUserQuestion"@ {
                let qo = question_of(jget(p, "tool_input"@));
                (
                    SessionV {
                        detail_kind: Some(InputKind::Question),
                        question: qo.0,
                        options: qo.1,
                        ..with_state(s1, SessionState::NeedsInput, now)
                    },
                    true,
                )
            } else {
                (SessionV { detail_tool: Some(t), ..with_state(s1, SessionState::Thinking, now) }, true)
            }
        },
        HookEvent::PostToolUse => (
            with_state(SessionV { open_ops: close_op_spec(s.open_ops, tuid, tool), ..s }, SessionState::Thinking, now),
            true,
        ),
        HookEvent::PermissionDenied => (
            with_state(SessionV { open_ops: close_op_spec(s.open_ops, tuid, tool), ..s }, SessionState::Thinking, now),
            true,
        ),
        HookEvent::PostToolUseFailure => {
            let interrupt = obool(jget(p, "is_interrupt"@)) == Some(true);
            let ops = if interrupt {
                Seq::empty()
            } else {
                close_op_spec(s.open_ops, tuid, tool)
            };
            let err = ErrorDetailV {
                kind: if interrupt {
                    "interrupt"@
                } else {
                    "tool_failure"@
                },
                message: match ostr(jget(p, "error"@)) {
                    Some(m) => Some(truncate_spec(m, 200)),
                    None => None,
                },
            };
            (with_state(SessionV { open_ops: ops, error: Some(err), ..s }, SessionState::Thinking, now), true)
        },
        HookEvent::Notification => {
            let nt = ostr(jget(p, "notification_type"@));
            if nt == Some("agent_needs_input"@) {
                (SessionV { detail_kind: None, ..with_state(s, SessionState::NeedsInput, now) }, true)
            } else if nt == Some("agent_completed"@) {
                (with_state(s, SessionState::Idle, now), true)
            } else {
                (s, false)
            }
        },
        HookEvent::Stop => if s.children > 0 {
            (with_state(SessionV { pending_complete: true, ..s }, SessionState::Thinking, now), true)
        } else {
            (SessionV { unread_since_ms: Some(now), ..with_state(s, SessionState::Complete, now) }, true)
        },
        HookEvent::StopFailure => (
            with_state(
                SessionV {
                    error: Some(ErrorDetailV { kind: failure_kind(jget(p, "error"@)), message: None }),
                    ..s
                },
                SessionState::Error,
                now,
            ),
            true,
        ),
        HookEvent::SubagentStart => (subagent_start_spec(s, p, now), true),
        HookEvent::SubagentStop => (subagent_stop_spec(s, ostr(jget(p, "agent_id"@)), now), true),
        HookEvent::SessionEnd => {
            let r = ostr(jget(p, "reason"@));
            if r == Some("clear"@) || r == Some("resume"@) {
                (s, false)
            } else {
                (end_spec(s, now), true)
            }
        },
        HookEvent::Other => (s, false),
    }
}

/// One hook event applied to a session: an ended session ignores every
/// event but `SessionStart`; otherwise liveness is recorded and the
/// event's own transition runs.
pub open spec fn hook_step(s: SessionV, p: JsonV, now: i64) -> (SessionV, bool) {
    if s.state == SessionState::Ended && event_of(p) != HookEvent::SessionStart {
        (s, false)
    } else if event_of(p) == HookEvent::Other {
        (heard_from(s, now), false)
    } else {
        event_step(liveness_update(s, p, now), p, now)
    }
}

/// The liveness every event records, and all an event the machine does
/// not recognise records: the time, that the hooks have spoken, and the
/// tie-break count cleared.
pub open spec fn heard_from(s: SessionV, now: i64) -> SessionV {
    SessionV { last_event_at_ms: now, heard: true, scan_disagreements: 0, ..s }
}


// ---- Proof helpers ----------------------------------------------------

proof fn lemma_last_op_with_id_range(ops: Seq<OpenOpV>, id: Seq<char>, n: int)
    requires
        0 <= n <= ops.len(),
    ensures
        -1 <= last_op_with_id(ops, id, n) < n,
    decreases n,
{
    if n > 0 && ops[n - 1].id != Some(id) {
        lemma_last_op_with_id_range(ops, id, n - 1);
    }
}

proof fn lemma_last_op_with_tool_range(ops: Seq<OpenOpV>, tool: Seq<char>, n: int)
    requires
        0 <= n <= ops.len(),
    ensures
        -1 <= last_op_with_tool(ops, tool, n) < n,
    decreases n,
{
    if n > 0 && ops[n - 1].tool != tool {
        lemma_last_op_with_tool_range(ops, tool, n - 1);
    }
}

proof fn lemma_first_child(ids: Seq<Seq<char>>, id: Seq<char>, i: int)
    requires
        0 <= i <= ids.len(),
    ensures
        first_child(ids, id, i) == -1 ==> forall|k: int| i <= k < ids.len() ==> ids[k] != id,
        first_child(ids, id, i) != -1 ==> i <= first_child(ids, id, i) < ids.len()
            && ids[first_child(ids, id, i)] == id,
    decreases ids.len() - i,
{
    if i < ids.len() && ids[i] != id {
        lemma_first_child(ids, id, i + 1);
    }
}

// ---- Exec helpers -------------------------------------------------------

/// The newest operation carrying this id.
fn find_op_by_id(ops: &Vec<OpenOp>, id: &String) -> (r: Option<usize>)
    ensures
        match r {
            Some(i) => i < ops@.len() && i as int == last_op_with_id(ops_view(ops@), id@, ops@.len() as int),
            None => last_op_with_id(ops_view(ops@), id@, ops@.len() as int) == -1,
        },
{
    let ghost v = ops_view(ops@);
    let mut n: usize = ops.len();
    while n > 0
        invariant
            v == ops_view(ops@),
            n <= ops@.len(),
            last_op_with_id(v, id@, ops@.len() as int) == last_op_with_id(v, id@, n as int),
        decreases n,
    {
        let matches = match &ops[n - 1].id {
            Some(x) => same_text(x.as_str(), id.as_str()),
            None => false,
        };
        assert(v[n - 1] == ops@[n - 1]@);
        if matches {
            return Some(n - 1);
        }
        n = n - 1;
    }
    None
}

/// The newest operation for this tool.
fn find_op_by_tool(ops: &Vec<OpenOp>, tool: &String) -> (r: Option<usize>)
    ensures
        match r {
            Some(i) => i < ops@.len() && i as int == last_op_with_tool(ops_view(ops@), tool@, ops@.len() as int),
            None => last_op_with_tool(ops_view(ops@), tool@, ops@.len() as int) == -1,
        },
{
    let ghost v = ops_view(ops@);
    let mut n: usize = ops.len();
    while n > 0
        invariant
            v == ops_view(ops@),
            n <= ops@.len(),
            last_op_with_tool(v, tool@, ops@.len() as int) == last_op_with_tool(v, tool@, n as int),
        decreases n,
    {
        assert(v[n - 1] == ops@[n - 1]@);
        if same_text(ops[n - 1].tool.as_str(), tool.as_str()) {
            return Some(n - 1);
        }
        n = n - 1;
    }
    None
}

/// Which operation a closing event closes (see `close_index`).
fn close_target(ops: &Vec<OpenOp>, id: Option<&String>, tool: Option<&String>) -> (r: Option<usize>)
    ensures
        match r {
            Some(i) => i < ops@.len() && i as int == close_index(ops_view(ops@), ostring(id), ostring(tool)),
            None => !(0 <= close_index(ops_view(ops@), ostring(id), ostring(tool)) < ops@.len()),
        },
{
    let by_id = match id {
        Some(i) => find_op_by_id(ops, i),
        None => None,
    };
    if by_id.is_some() {
        return by_id;
    }
    let by_tool = match tool {
        Some(t) => find_op_by_tool(ops, t),
        None => None,
    };
    if by_tool.is_some() {
        return by_tool;
    }
    if ops.len() == 0 {
        None
    } else {
        Some(ops.len() - 1)
    }
}

/// The index of the first child id equal to `id`.
fn child_position(ids: &Vec<String>, id: &String) -> (r: Option<usize>)
    ensures
        match r {
            Some(i) => i < ids@.len() && i as int == first_child(texts(ids@), id@, 0),
            None => first_child(texts(ids@), id@, 0) == -1,
        },
{
    let ghost t = texts(ids@);
    let mut i: usize = 0;
    while i < ids.len()
        invariant
            t == texts(ids@),
            i <= ids@.len(),
            first_child(t, id@, 0) == first_child(t, id@, i as int),
        decreases ids@.len() - i,
    {
        assert(t[i as int] == ids@[i as int]@);
        if same_text(ids[i].as_str(), id.as_str()) {
            return Some(i);
        }
        i = i + 1;
    }
    None
}

/// An option's label (see `option_label`).
fn label_of_option(o: &Json) -> (r: Option<String>)
    ensures
        opt_text(r) == option_label(o@),
{
    match get_str(o, "label") {
        Some(l) => Some(l.clone()),
        None => match o.as_str() {
            Some(s) => Some(s.clone()),
            None => None,
        },
    }
}

/// The first question and its option labels out of an `AskUserQuestion`
/// tool input. Every step is defensive: absent pieces give an amber with
/// no options rather than a failure.
pub fn parse_question(tool_input: Option<&Json>) -> (r: (Option<String>, Vec<String>))
    ensures
        opt_text(r.0) == question_of(oview(tool_input)).0,
        texts(r.1@) == question_of(oview(tool_input)).1,
{
    let input = match tool_input {
        Some(i) => i,
        None => {
            let e: Vec<String> = Vec::new();
            assert(texts(e@) =~= Seq::<Seq<char>>::empty());
            return (None, e);
        },
    };
    let questions = match input.get("questions") {
        Some(q) => q,
        None => {
            let e: Vec<String> = Vec::new();
            assert(texts(e@) =~= Seq::<Seq<char>>::empty());
            return (None, e);
        },
    };
    let arr = match questions.as_array() {
        Some(a) => a,
        None => {
            let e: Vec<String> = Vec::new();
            assert(texts(e@) =~= Seq::<Seq<char>>::empty());
            return (None, e);
        },
    };
    if arr.len() == 0 {
        let e: Vec<String> = Vec::new();
        assert(texts(e@) =~= Seq::<Seq<char>>::empty());
        return (None, e);
    }
    let q = &arr[0];
    assert(first_question(oview(tool_input)) == Some(q@));
    let text = match get_str(q, "question") {
        Some(t) => Some(t.clone()),
        None => None,
    };
    let mut options: Vec<String> = Vec::new();
    match q.get("options") {
        Some(o) => match o.as_array() {
            Some(opts) => {
                let ghost views = opts@.map_values(|e: Json| e@);
                let mut i: usize = 0;
                while i < opts.len()
                    invariant
                        views == opts@.map_values(|e: Json| e@),
                        i <= opts@.len(),
                        texts(options@) == option_labels(views.take(i as int)),
                    decreases opts@.len() - i,
                {
                    let label = label_of_option(&opts[i]);
                    proof {
                        assert(views.take(i + 1).drop_last() =~= views.take(i as int));
                        assert(views.take(i + 1).last() == opts@[i as int]@);
                    }
                    match label {
                        Some(l) => {
                            options.push(l);
                            assert(texts(options@) =~= option_labels(views.take(i + 1)));
                        },
                        None => {
                            assert(texts(options@) =~= option_labels(views.take(i + 1)));
                        },
                    }
                    i = i + 1;
                }
                assert(views.take(opts@.len() as int) =~= views);
            },
            None => {
                assert(texts(options@) =~= Seq::<Seq<char>>::empty());
            },
        },
        None => {
            assert(texts(options@) =~= Seq::<Seq<char>>::empty());
        },
    }
    (text, options)
}

/// `StopFailure`'s error kind (see `failure_kind`).
fn failure_kind_of(e: Option<&Json>) -> (k: String)
    ensures
        k@ == failure_kind(oview(e)),
{
    match e {
        Some(Json::Str(s)) => s.clone(),
        Some(j) => {
            match j {
                Json::Object(_) => {
                    let t = j.get("type");
                    let picked = if t.is_some() {
                        t
                    } else {
                        j.get("kind")
                    };
                    match picked {
                        Some(v) => match v.as_str() {
                            Some(k) => k.clone(),
                            None => owned("api_error"),
                        },
                        None => owned("api_error"),
                    }
                },
                _ => owned("api_error"),
            }
        },
        None => owned("api_error"),
    }
}

/// The event a payload names.
pub fn event_of_payload(p: &Json) -> (e: HookEvent)
    ensures
        e == event_of(p@),
{
    let n = match get_str(p, "hook_event_name") {
        Some(n) => n,
        None => return HookEvent::Other,
    };
    let n = n.as_str();
    if same_text(n, "SessionStart") {
        HookEvent::SessionStart
    } else if same_text(n, "UserPromptSubmit") {
        HookEvent::UserPromptSubmit
    } else if same_text(n, "PreToolUse") {
        HookEvent::PreToolUse
    } else if same_text(n, "PostToolUse") {
        HookEvent::PostToolUse
    } else if same_text(n, "PostToolUseFailure") {
        HookEvent::PostToolUseFailure
    } else if same_text(n, "PermissionDenied") {
        HookEvent::PermissionDenied
    } else if same_text(n, "Notification") {
        HookEvent::Notification
    } else if same_text(n, "Stop") {
        HookEvent::Stop
    } else if same_text(n, "StopFailure") {
        HookEvent::StopFailure
    } else if same_text(n, "SubagentStart") {
        HookEvent::SubagentStart
    } else if same_text(n, "SubagentStop") {
        HookEvent::SubagentStop
    } else if same_text(n, "SessionEnd") {
        HookEvent::SessionEnd
    } else {
        HookEvent::Other
    }
}

/// Whether an optional string holds exactly `lit`.
fn is_text(o: Option<&String>, lit: &str) -> (r: bool)
    ensures
        r == (ostring(o) == Some(lit@)),
{
    match o {
        Some(s) => same_text(s.as_str(), lit),
        None => false,
    }
}


// ---- Scan, selection, exit and deadline rules, stated over views -------

/// A fresh session, first seen by enumeration or by its first event:
/// `Unknown`, never idle.
pub open spec fn new_spec(id: Seq<char>, now: i64) -> SessionV {
    SessionV {
        id: id,
        label: Seq::empty(),
        label_is_derived: false,
        cwd: None,
        permission_mode: None,
        pid: None,
        host: None,
        parent_pid: None,
        started_at_ms: None,
        first_seen_ms: now,
        state: SessionState::Unknown,
        state_since_ms: now,
        detail_kind: None,
        detail_tool: None,
        question: None,
        options: Seq::empty(),
        error: None,
        children: 0,
        child_ids: Seq::empty(),
        open_ops: Seq::empty(),
        last_event_at_ms: now,
        last_seen_ms: 0,
        scan_status: None,
        heard: false,
        unread_since_ms: None,
        pending_complete: false,
        scan_disagreements: 0,
    }
}

/// Selecting a row: green clears to idle, an error is acknowledged the
/// same way; nothing else changes.
pub open spec fn select_step(s: SessionV, now: i64) -> (SessionV, bool) {
    if s.state == SessionState::Complete || s.state == SessionState::Error {
        (with_state(SessionV { error: None, ..s }, SessionState::Idle, now), true)
    } else {
        (s, false)
    }
}

/// The colour a scan status maps to: `busy`/`shell` a turn in flight,
/// `waiting` needs input, `idle` idle, anything else nothing.
pub open spec fn scan_mapped(status: Option<Seq<char>>) -> Option<SessionState> {
    if status == Some("busy"@) || status == Some("shell"@) {
        Some(SessionState::Thinking)
    } else if status == Some("waiting"@) {
        Some(SessionState::NeedsInput)
    } else if status == Some("idle"@) {
        Some(SessionState::Idle)
    } else {
        None
    }
}

/// A scan contradicts a hook-set colour: `Thinking` against `idle`, or
/// `Idle`/`Complete`/`Error` against a turn in flight.
pub open spec fn scan_disagrees(st: SessionState, mapped: Option<SessionState>) -> bool {
    (st == SessionState::Thinking && mapped == Some(SessionState::Idle)) || ((st == SessionState::Idle
        || st == SessionState::Complete || st == SessionState::Error) && mapped == Some(
        SessionState::Thinking,
    ))
}

/// A scan's status applied to a session: immediate for a session no
/// hook has coloured (or one sitting in `unknown`); for a hook-coloured
/// one, only the second consecutive disagreeing scan recolours it.
pub open spec fn scan_step(s: SessionV, status: Option<Seq<char>>, now: i64) -> (SessionV, bool) {
    let m = scan_mapped(status);
    if s.state == SessionState::Ended {
        (s, false)
    } else if !s.heard || s.state == SessionState::Unknown {
        let s0 = SessionV { scan_disagreements: 0, ..s };
        match m {
            None => (s0, false),
            Some(st) => if s.state == st {
                (s0, false)
            } else {
                (with_state(s0, st, now), true)
            },
        }
    } else if !scan_disagrees(s.state, m) {
        (SessionV { scan_disagreements: 0, ..s }, false)
    } else if s.scan_disagreements + 1 < SCAN_TIEBREAK_SCANS {
        (SessionV { scan_disagreements: (s.scan_disagreements + 1) as u32, ..s }, false)
    } else if m == Some(SessionState::Idle) {
        (
            with_state(
                SessionV {
                    scan_disagreements: 0,
                    open_ops: Seq::empty(),
                    children: 0,
                    child_ids: Seq::empty(),
                    pending_complete: false,
                    ..s
                },
                SessionState::Idle,
                now,
            ),
            true,
        )
    } else {
        (
            with_state(
                SessionV { scan_disagreements: 0, pending_complete: false, error: None, ..s },
                SessionState::Thinking,
                now,
            ),
            true,
        )
    }
}

/// A scan whose status says a turn is in flight well enough that hook
/// silence is not trouble.
pub open spec fn scan_in_flight(status: Option<Seq<char>>) -> bool {
    status == Some("busy"@) || status == Some("shell"@) || status == Some("waiting"@)
}

/// The `T_unknown` deadline. Without a live process handle, silence from
/// both hooks and scans past `T_unknown` greys the session; with one,
/// only a `Thinking` session greys, once hooks are silent past
/// `T_unknown` and the scan does not say the turn is still in flight.
/// Never to error.
pub open spec fn tick_step(s: SessionV, now: i64, alive: bool) -> (SessionV, bool) {
    if s.state == SessionState::Ended || s.state == SessionState::Unknown {
        (s, false)
    } else if !alive {
        let last = if s.last_event_at_ms >= s.last_seen_ms {
            s.last_event_at_ms
        } else {
            s.last_seen_ms
        };
        if now - last > T_UNKNOWN_MS {
            (with_state(s, SessionState::Unknown, now), true)
        } else {
            (s, false)
        }
    } else if s.state == SessionState::Thinking && now - s.last_event_at_ms > T_UNKNOWN_MS
        && !scan_in_flight(s.scan_status) {
        (with_state(s, SessionState::Unknown, now), true)
    } else {
        (s, false)
    }
}

/// The tick's subtraction cannot overflow for this session.
pub open spec fn tick_fits(s: SessionV, now: i64) -> bool {
    &&& i64::MIN <= now - s.last_event_at_ms <= i64::MAX
    &&& i64::MIN <= now - s.last_seen_ms <= i64::MAX
}

/// A transition never changes which session it is about.
pub proof fn lemma_steps_keep_id(s: SessionV, p: JsonV, status: Option<Seq<char>>, now: i64, alive: bool)
    ensures
        hook_step(s, p, now).0.id == s.id,
        scan_step(s, status, now).0.id == s.id,
        tick_step(s, now, alive).0.id == s.id,
        select_step(s, now).0.id == s.id,
        end_spec(s, now).id == s.id,
{
}

/// Only a lifecycle ending ends a session: a scan, the deadline and a
/// selection never do.
pub proof fn lemma_quiet_steps_never_end(s: SessionV, status: Option<Seq<char>>, now: i64, alive: bool)
    requires
        s.state != SessionState::Ended,
    ensures
        scan_step(s, status, now).0.state != SessionState::Ended,
        tick_step(s, now, alive).0.state != SessionState::Ended,
        select_step(s, now).0.state != SessionState::Ended,
{
}

// ---- Laws of the state machine --------------------------------------

/// An ended session ignores every hook event except `SessionStart`: a
/// straggler after the end changes nothing and is no change to report.
pub proof fn law_an_ended_session_ignores_all_but_session_start(s: SessionV, p: JsonV, now: i64)
    requires
        s.state == SessionState::Ended,
        event_of(p) != HookEvent::SessionStart,
    ensures
        hook_step(s, p, now) == (s, false),
{
}

/// A `SessionStart` that is not a compaction revives an ended session to
/// idle; nothing else does.
pub proof fn law_only_session_start_revives(s: SessionV, p: JsonV, now: i64)
    requires
        s.state == SessionState::Ended,
    ensures
        hook_step(s, p, now).0.state != SessionState::Ended <==> (event_of(p) == HookEvent::SessionStart
            && ostr(jget(p, "source"@)) != Some("compact"@)),
        hook_step(s, p, now).0.state != SessionState::Ended ==> hook_step(s, p, now).0.state == SessionState::Idle,
{
}

/// Silence past `T_unknown` only ever greys a session: the deadline never
/// turns one red, never ends one, and moves nothing but to `Unknown`.
pub proof fn law_the_deadline_only_greys(s: SessionV, now: i64, alive: bool)
    ensures
        tick_step(s, now, alive).0.state == s.state || tick_step(s, now, alive).0.state == SessionState::Unknown,
        tick_step(s, now, alive).1 ==> tick_step(s, now, alive).0.state == SessionState::Unknown,
{
}

/// A session that is alive by its process handle and idle, amber or
/// green never greys, however long hooks stay silent.
pub proof fn law_a_live_quiet_session_never_greys(s: SessionV, now: i64)
    requires
        s.state != SessionState::Thinking,
    ensures
        tick_step(s, now, true) == (s, false),
{
}

/// A session turns green only with an empty child ledger.
pub proof fn law_green_only_with_an_empty_ledger(s: SessionV, p: JsonV, now: i64)
    requires
        s.state != SessionState::Complete,
        hook_step(s, p, now).0.state == SessionState::Complete,
    ensures
        hook_step(s, p, now).0.children == 0,
{
}

/// Scans never count as hearing from a session, never take a colour
/// from a hook-coloured session on a single disagreement, and when the
/// tie-break does recolour one, only ever to thinking or idle.
pub proof fn law_scans_defer_to_hooks(s: SessionV, status: Option<Seq<char>>, now: i64)
    ensures
        scan_step(s, status, now).0.heard == s.heard,
        s.heard && s.state != SessionState::Unknown && s.scan_disagreements == 0 ==> scan_step(s, status, now).0.state
            == s.state,
        s.heard && s.state != SessionState::Unknown && scan_step(s, status, now).0.state != s.state
            ==> scan_step(s, status, now).0.state == SessionState::Thinking || scan_step(s, status, now).0.state
            == SessionState::Idle,
{
}

/// The question, its options and the input kind describe a request the
/// hooks reported and the session is still waiting on: outside
/// `NeedsInput`, and before any hook has spoken, there are none.
pub open spec fn request_details_consistent(s: SessionV) -> bool {
    (s.state != SessionState::NeedsInput || !s.heard) ==> (s.question is None && s.options.len() == 0
        && s.detail_kind is None)
}

/// A fresh session holds no request details, and every move a session
/// makes (a hook event, a scan, the deadline tick, a selection, the
/// process's exit) keeps the request details consistent with its
/// colour: an invariant of every reachable session.
pub proof fn law_request_details_follow_the_colour(
    id: Seq<char>,
    s: SessionV,
    p: JsonV,
    status: Option<Seq<char>>,
    now: i64,
    alive: bool,
)
    requires
        request_details_consistent(s),
    ensures
        request_details_consistent(new_spec(id, now)),
        request_details_consistent(hook_step(s, p, now).0),
        request_details_consistent(scan_step(s, status, now).0),
        request_details_consistent(tick_step(s, now, alive).0),
        request_details_consistent(select_step(s, now).0),
        request_details_consistent(end_spec(s, now)),
{
    if !(s.state == SessionState::Ended && event_of(p) != HookEvent::SessionStart) && event_of(p)
        != HookEvent::Other {
        let l = liveness_update(s, p, now);
        assert(l.state == s.state && l.question == s.question && l.options == s.options && l.detail_kind
            == s.detail_kind);
        if event_of(p) == HookEvent::SubagentStop {
            let aid = ostr(jget(p, "agent_id"@));
            assert(request_details_consistent(subagent_stop_spec(l, aid, now)));
        }
        assert(request_details_consistent(event_step(l, p, now).0));
    }
}

/// A scan never sets what only a hook can report: on any session whose
/// request details are consistent it leaves `heard`, the question, its
/// options, the input kind and the tool as they were. It reports a
/// change exactly when the colour moved, leaves an ended session alone,
/// and only ever colours thinking, needs-input or idle.
pub proof fn law_a_scan_never_sets_what_hooks_report(s: SessionV, status: Option<Seq<char>>, now: i64)
    requires
        request_details_consistent(s),
    ensures
        scan_step(s, status, now).0.heard == s.heard,
        scan_step(s, status, now).0.question == s.question,
        scan_step(s, status, now).0.options == s.options,
        scan_step(s, status, now).0.detail_kind == s.detail_kind,
        scan_step(s, status, now).0.detail_tool == s.detail_tool,
        scan_step(s, status, now).1 == (scan_step(s, status, now).0.state != s.state),
        s.state == SessionState::Ended ==> scan_step(s, status, now) == (s, false),
        scan_step(s, status, now).1 ==> (scan_step(s, status, now).0.state == SessionState::Thinking
            || scan_step(s, status, now).0.state == SessionState::NeedsInput || scan_step(s, status, now).0.state
            == SessionState::Idle),
{
}

/// A new prompt starts a new turn: the session is thinking, nothing is
/// left unread, and no complete deferred from the previous turn is
/// pending any more; so a subagent that finishes after the prompt keeps
/// the session thinking and can never turn the new turn green.
pub proof fn law_a_new_prompt_cancels_a_deferred_complete(
    s: SessionV,
    prompt: JsonV,
    stop: JsonV,
    now: i64,
    later: i64,
)
    requires
        s.state != SessionState::Ended,
        event_of(prompt) == HookEvent::UserPromptSubmit,
        event_of(stop) == HookEvent::SubagentStop,
    ensures
        hook_step(s, prompt, now).0.state == SessionState::Thinking,
        !hook_step(s, prompt, now).0.pending_complete,
        hook_step(s, prompt, now).0.unread_since_ms is None,
        hook_step(hook_step(s, prompt, now).0, stop, later).0.state == SessionState::Thinking,
        hook_step(hook_step(s, prompt, now).0, stop, later).0.unread_since_ms is None,
{
    let s1 = hook_step(s, prompt, now).0;
    let l = liveness_update(s1, stop, later);
    assert(l.state == s1.state && l.pending_complete == s1.pending_complete && l.unread_since_ms
        == s1.unread_since_ms);
    let aid = ostr(jget(stop, "agent_id"@));
    assert(subagent_stop_spec(l, aid, later).state == SessionState::Thinking);
}

/// A live session whose latest scan says a turn is in flight (`busy`, a
/// `shell` command, or `waiting` on the user) never greys at the tick,
/// however long the hooks have been silent: the tick changes nothing.
pub proof fn law_a_live_session_mid_turn_never_greys(s: SessionV, now: i64)
    requires
        s.scan_status == Some("busy"@) || s.scan_status == Some("shell"@) || s.scan_status == Some("waiting"@),
    ensures
        tick_step(s, now, true) == (s, false),
{
}

/// An event the machine does not recognise (no `hook_event_name`, or a
/// name it does not know) updates liveness and nothing else, and reports
/// no change; a `Notification` of a type it does not know moves no
/// colour and reports no change either.
pub proof fn law_an_unrecognised_event_updates_liveness_only(s: SessionV, p: JsonV, now: i64)
    requires
        s.state != SessionState::Ended,
    ensures
        event_of(p) == HookEvent::Other ==> hook_step(s, p, now) == (
        SessionV { last_event_at_ms: now, heard: true, scan_disagreements: 0, ..s }, false),
        (event_of(p) == HookEvent::Notification && ostr(jget(p, "notification_type"@)) != Some(
            "agent_needs_input"@,
        ) && ostr(jget(p, "notification_type"@)) != Some("agent_completed"@)) ==> {
            &&& !hook_step(s, p, now).1
            &&& hook_step(s, p, now).0.state == s.state
            &&& hook_step(s, p, now).0.state_since_ms == s.state_since_ms
            &&& hook_step(s, p, now).0.open_ops == s.open_ops
            &&& hook_step(s, p, now).0.children == s.children
            &&& hook_step(s, p, now).0.error == s.error
            &&& hook_step(s, p, now).0.last_event_at_ms == now
        },
{
}

/// A compaction's `SessionStart`, and a `SessionEnd` for a `/clear` or a
/// resume, are not lifecycle changes: the colour stays, and no change is
/// reported.
pub proof fn law_compaction_clear_and_resume_keep_the_colour(s: SessionV, p: JsonV, now: i64)
    requires
        s.state != SessionState::Ended,
        (event_of(p) == HookEvent::SessionStart && ostr(jget(p, "source"@)) == Some("compact"@)) || (event_of(p)
            == HookEvent::SessionEnd && (ostr(jget(p, "reason"@)) == Some("clear"@) || ostr(jget(p, "reason"@))
            == Some("resume"@))),
    ensures
        hook_step(s, p, now) == (liveness_update(s, p, now), false),
        hook_step(s, p, now).0.state == s.state,
        hook_step(s, p, now).0.pid == s.pid,
{
}

/// A subagent's payload (one carrying `agent_id`) never sets the
/// session's cwd or the label derived from it: its cwd is the
/// subagent's own.
pub proof fn law_a_subagent_payload_never_sets_cwd(s: SessionV, p: JsonV, now: i64)
    requires
        jget(p, "agent_id"@) is Some,
    ensures
        hook_step(s, p, now).0.cwd == s.cwd,
        hook_step(s, p, now).0.label == s.label,
{
}

/// A second tick at the same moment has nothing left to change.
pub proof fn law_a_session_ticks_once_per_moment(s: SessionV, now: i64, alive: bool)
    ensures
        !tick_step(tick_step(s, now, alive).0, now, alive).1,
        tick_step(tick_step(s, now, alive).0, now, alive).0 == tick_step(s, now, alive).0,
{
}

/// With no child in the ledger, a `SubagentStop` (for a child never seen)
/// closes no bracket: every tool operation stays open.
pub proof fn law_a_stop_for_an_unseen_child_closes_nothing(s: SessionV, p: JsonV, now: i64)
    requires
        s.state != SessionState::Ended,
        event_of(p) == HookEvent::SubagentStop,
        s.child_ids.len() == 0,
    ensures
        hook_step(s, p, now).0.open_ops == s.open_ops,
        hook_step(s, p, now).0.children == 0,
{
}

proof fn lemma_utf8_concat(a: Seq<char>, b: Seq<char>)
    ensures
        utf8_len(a + b) == utf8_len(a) + utf8_len(b),
    decreases b.len(),
{
    if b.len() > 0 {
        lemma_utf8_concat(a, b.drop_last());
        assert((a + b).drop_last() =~= a + b.drop_last());
    } else {
        assert(a + b =~= a);
    }
}

proof fn lemma_fit_count_fits(s: Seq<char>, max: nat, k: int)
    requires
        0 <= k <= s.len(),
        utf8_len(s.take(k)) <= max,
    ensures
        utf8_len(s.take(fit_count(s, max, k))) <= max,
    decreases s.len() - k,
{
    if k < s.len() && utf8_len(s.take(k + 1)) <= max {
        lemma_fit_count_fits(s, max, k + 1);
    }
}

/// Clipped detail text never runs past the panel: within `max` bytes it
/// is left as it is, and a clipped one is at most `max` bytes and the
/// three-byte ellipsis.
pub proof fn law_clipped_text_fits_the_panel(s: Seq<char>, max: nat)
    ensures
        utf8_len(s) <= max ==> truncate_spec(s, max) == s,
        utf8_len(truncate_spec(s, max)) <= max + 3,
{
    if utf8_len(s) > max {
        assert(s.take(0) =~= Seq::<char>::empty());
        lemma_fit_count_fits(s, max, 0);
        let head = s.take(fit_count(s, max, 0));
        lemma_utf8_concat(head, "..."@);
        reveal_strlit("...");
        assert("..."@.drop_last().drop_last().drop_last() =~= Seq::<char>::empty());
        assert(utf8_len("..."@) == 3) by {
            reveal_with_fuel(utf8_len, 4);
        }
    }
}

/// The tick only ever greys: an ended or already grey session is left as
/// it is; otherwise it reports a change exactly when the colour moved,
/// and then the colour is unknown, stamped now. It never touches what
/// the hooks recorded: heard, the error, the open operations, the child
/// count, or the last event's time.
pub proof fn law_a_tick_only_ever_greys(s: SessionV, now: i64, alive: bool)
    ensures
        (s.state == SessionState::Ended || s.state == SessionState::Unknown) ==> tick_step(s, now, alive) == (s, false),
        tick_step(s, now, alive).1 == (tick_step(s, now, alive).0.state != s.state),
        tick_step(s, now, alive).1 ==> tick_step(s, now, alive).0.state == SessionState::Unknown
            && tick_step(s, now, alive).0.state_since_ms == now,
        tick_step(s, now, alive).0.heard == s.heard,
        tick_step(s, now, alive).0.error == s.error,
        tick_step(s, now, alive).0.open_ops == s.open_ops,
        tick_step(s, now, alive).0.children == s.children,
        tick_step(s, now, alive).0.last_event_at_ms == s.last_event_at_ms,
{
}

/// Every hook event a session takes resets the scan tie-break count.
pub proof fn law_a_hook_resets_the_tie_break(s: SessionV, p: JsonV, now: i64)
    requires
        s.state != SessionState::Ended,
    ensures
        hook_step(s, p, now).0.scan_disagreements == 0,
{
}

/// `state_since_ms` moves only when the state itself does, whatever
/// moves the session: a hook, a scan, the deadline or a selection.
pub proof fn law_state_since_moves_only_on_a_state_change(
    s: SessionV,
    p: JsonV,
    status: Option<Seq<char>>,
    now: i64,
    alive: bool,
)
    ensures
        hook_step(s, p, now).0.state == s.state ==> hook_step(s, p, now).0.state_since_ms == s.state_since_ms,
        scan_step(s, status, now).0.state == s.state ==> scan_step(s, status, now).0.state_since_ms == s.state_since_ms,
        tick_step(s, now, alive).0.state == s.state ==> tick_step(s, now, alive).0.state_since_ms == s.state_since_ms,
        select_step(s, now).0.state == s.state ==> select_step(s, now).0.state_since_ms == s.state_since_ms,
{
}

/// A duplicate `SubagentStart` for a child already in the ledger leaves
/// the ledger and the open operations as the first delivery left them.
pub proof fn law_duplicate_subagent_start_is_idempotent(s: SessionV, p: JsonV, now: i64, later: i64)
    requires
        s.state != SessionState::Ended,
        event_of(p) == HookEvent::SubagentStart,
        ostr(jget(p, "agent_id"@)) matches Some(a) && a.len() > 0,
    ensures
        hook_step(hook_step(s, p, now).0, p, later).0.child_ids == hook_step(s, p, now).0.child_ids,
        hook_step(hook_step(s, p, now).0, p, later).0.children == hook_step(s, p, now).0.children,
        hook_step(hook_step(s, p, now).0, p, later).0.open_ops == hook_step(s, p, now).0.open_ops,
        hook_step(hook_step(s, p, now).0, p, later).0.state == hook_step(s, p, now).0.state,
{
    let a = ostr(jget(p, "agent_id"@))->0;
    let s1 = hook_step(s, p, now).0;
    assert(s1.child_ids.contains(a)) by {
        let l = liveness_update(s, p, now);
        if !l.child_ids.contains(a) {
            assert(s1.child_ids[l.child_ids.len() as int] == a);
        }
    }
}

/// Selecting a row clears green or red to idle and otherwise leaves the
/// session exactly as it was.
pub proof fn law_selection_acknowledges_green_and_red(s: SessionV, now: i64)
    ensures
        (s.state == SessionState::Complete || s.state == SessionState::Error) ==> select_step(s, now).0.state
            == SessionState::Idle && select_step(s, now).0.unread_since_ms is None,
        !(s.state == SessionState::Complete || s.state == SessionState::Error) ==> select_step(s, now) == (s, false),
{
}

impl Session {
    /// A session first seen by enumeration or by an event: `Unknown`.
    pub fn new(id: String, now_ms: i64) -> (s: Session)
        ensures
            s@ == new_spec(id@, now_ms),
    {
        let s = Session {
            id,
            label: String::new(),
            label_is_derived: false,
            cwd: None,
            permission_mode: None,
            pid: None,
            host: None,
            parent_pid: None,
            started_at_ms: None,
            first_seen_ms: now_ms,
            state: SessionState::Unknown,
            state_since_ms: now_ms,
            detail_kind: None,
            detail_tool: None,
            question: None,
            options: Vec::new(),
            error: None,
            children: 0,
            child_ids: Vec::new(),
            open_ops: Vec::new(),
            last_event_at_ms: now_ms,
            last_seen_ms: 0,
            scan_status: None,
            heard: false,
            unread_since_ms: None,
            pending_complete: false,
            scan_disagreements: 0,
        };
        assert(s@ =~= new_spec(id@, now_ms));
        s
    }

    fn set_state(&mut self, st: SessionState, now_ms: i64)
        ensures
            final(self)@ == with_state(old(self)@, st, now_ms),
    {
        if self.state != st {
            self.state = st;
            self.state_since_ms = now_ms;
        }
        if st != SessionState::NeedsInput {
            self.detail_kind = None;
            self.question = None;
            self.options.clear();
            assert(texts(self.options@) =~= Seq::<Seq<char>>::empty());
        }
        if st != SessionState::Complete {
            self.unread_since_ms = None;
        }
    }

    fn open_op(&mut self, id: Option<String>, tool: String, now_ms: i64)
        ensures
            final(self)@ == (SessionV {
                open_ops: old(self)@.open_ops.push(OpenOpV { id: opt_text(id), tool: tool@, opened_at_ms: now_ms }),
                ..old(self)@
            }),
    {
        let op = OpenOp { id, tool, opened_at_ms: now_ms };
        self.open_ops.push(op);
        assert(ops_view(self.open_ops@) =~= ops_view(old(self).open_ops@).push(op@));
    }

    /// Close by id when given, else by tool name newest-first, else the
    /// newest open operation.
    fn close_op(&mut self, id: Option<&String>, tool: Option<&String>)
        ensures
            final(self)@ == (SessionV {
                open_ops: close_op_spec(old(self)@.open_ops, ostring(id), ostring(tool)),
                ..old(self)@
            }),
    {
        let target = close_target(&self.open_ops, id, tool);
        match target {
            Some(i) => {
                self.open_ops.remove(i);
                assert(ops_view(self.open_ops@) =~= ops_view(old(self).open_ops@).remove(i as int));
            },
            None => {},
        }
    }

    /// Liveness, `heard`, the tie-break reset, the permission mode and,
    /// for the session's own payloads, a first cwd and derived label.
    fn note_event(&mut self, p: &Json, now_ms: i64)
        ensures
            final(self)@ == liveness_update(old(self)@, p@, now_ms),
    {
        self.last_event_at_ms = now_ms;
        self.heard = true;
        self.scan_disagreements = 0;
        match get_str(p, "permission_mode") {
            Some(m) => {
                self.permission_mode = Some(m.clone());
            },
            None => {},
        }
        if p.get("agent_id").is_none() {
            match get_str(p, "cwd") {
                Some(c) => {
                    if self.cwd.is_none() {
                        self.cwd = Some(c.clone());
                    }
                    if self.label.as_str().is_empty() {
                        self.label = dir_name(c.as_str());
                        self.label_is_derived = true;
                    }
                },
                None => {},
            }
        }
    }

    fn end_session(&mut self, now_ms: i64)
        ensures
            final(self)@ == end_spec(old(self)@, now_ms),
    {
        self.children = 0;
        self.child_ids.clear();
        self.open_ops.clear();
        self.pending_complete = false;
        self.pid = None;
        proof {
            assert(texts(self.child_ids@) =~= Seq::<Seq<char>>::empty());
            assert(ops_view(self.open_ops@) =~= Seq::<OpenOpV>::empty());
        }
        self.set_state(SessionState::Ended, now_ms);
    }

    fn on_session_start(&mut self, p: &Json, now_ms: i64) -> (changed: bool)
        requires
            event_of(p@) == HookEvent::SessionStart,
        ensures
            final(self)@ == event_step(old(self)@, p@, now_ms).0,
            changed == event_step(old(self)@, p@, now_ms).1,
    {
        if is_text(get_str(p, "source"), "compact") {
            return false;
        }
        self.children = 0;
        self.child_ids.clear();
        self.open_ops.clear();
        self.pending_complete = false;
        self.error = None;
        self.detail_tool = None;
        proof {
            assert(texts(self.child_ids@) =~= Seq::<Seq<char>>::empty());
            assert(ops_view(self.open_ops@) =~= Seq::<OpenOpV>::empty());
        }
        self.set_state(SessionState::Idle, now_ms);
        true
    }

    fn on_pre_tool_use(&mut self, p: &Json, now_ms: i64) -> (changed: bool)
        requires
            event_of(p@) == HookEvent::PreToolUse,
        ensures
            final(self)@ == event_step(old(self)@, p@, now_ms).0,
            changed == event_step(old(self)@, p@, now_ms).1,
    {
        let tool = match get_str(p, "tool_name") {
            Some(t) => t.clone(),
            None => owned("(unknown tool)"),
        };
        let id = match get_str(p, "tool_use_id") {
            Some(i) => Some(i.clone()),
            None => None,
        };
        let ask = same_text(tool.as_str(), "AskUserQuestion");
        if ask {
            self.open_op(id, tool, now_ms);
            let (q, opts) = parse_question(p.get("tool_input"));
            self.set_state(SessionState::NeedsInput, now_ms);
            self.detail_kind = Some(InputKind::Question);
            self.question = q;
            self.options = opts;
        } else {
            let shown = tool.clone();
            self.open_op(id, tool, now_ms);
            self.set_state(SessionState::Thinking, now_ms);
            self.detail_tool = Some(shown);
        }
        true
    }

    fn on_tool_failure(&mut self, p: &Json, now_ms: i64) -> (changed: bool)
        requires
            event_of(p@) == HookEvent::PostToolUseFailure,
        ensures
            final(self)@ == event_step(old(self)@, p@, now_ms).0,
            changed == event_step(old(self)@, p@, now_ms).1,
    {
        let interrupt = match get_bool(p, "is_interrupt") {
            Some(b) => b,
            None => false,
        };
        if interrupt {
            self.open_ops.clear();
            assert(ops_view(self.open_ops@) =~= Seq::<OpenOpV>::empty());
        } else {
            self.close_op(get_str(p, "tool_use_id"), get_str(p, "tool_name"));
        }
        let kind = if interrupt {
            owned("interrupt")
        } else {
            owned("tool_failure")
        };
        let message = match get_str(p, "error") {
            Some(m) => Some(truncate(m.as_str(), 200)),
            None => None,
        };
        self.error = Some(ErrorDetail { kind, message });
        self.set_state(SessionState::Thinking, now_ms);
        true
    }

    fn on_subagent_start(&mut self, p: &Json, now_ms: i64) -> (changed: bool)
        requires
            event_of(p@) == HookEvent::SubagentStart,
        ensures
            final(self)@ == event_step(old(self)@, p@, now_ms).0,
            changed == event_step(old(self)@, p@, now_ms).1,
    {
        let agent_id = match get_str(p, "agent_id") {
            Some(a) => a.clone(),
            None => String::new(),
        };
        let pos = child_position(&self.child_ids, &agent_id);
        proof {
            lemma_first_child(texts(self.child_ids@), agent_id@, 0);
            if first_child(texts(self.child_ids@), agent_id@, 0) == -1 {
                assert(!texts(self.child_ids@).contains(agent_id@));
            } else {
                assert(texts(self.child_ids@).contains(agent_id@));
            }
        }
        if agent_id.as_str().is_empty() || pos.is_none() {
            let agent_type = match get_str(p, "agent_type") {
                Some(t) => t.clone(),
                None => owned("subagent"),
            };
            let id_copy = agent_id.clone();
            self.child_ids.push(agent_id);
            assert(texts(self.child_ids@) =~= texts(old(self).child_ids@).push(id_copy@));
            self.open_op(Some(id_copy), agent_type, now_ms);
            self.children = self.child_ids.len() as u32;
        }
        true
    }

    fn on_subagent_stop(&mut self, p: &Json, now_ms: i64) -> (changed: bool)
        requires
            event_of(p@) == HookEvent::SubagentStop,
        ensures
            final(self)@ == event_step(old(self)@, p@, now_ms).0,
            changed == event_step(old(self)@, p@, now_ms).1,
    {
        let pos = match get_str(p, "agent_id") {
            Some(a) => child_position(&self.child_ids, a),
            None => None,
        };
        proof {
            lemma_first_child(texts(self.child_ids@), ostr(jget(p@, "agent_id"@))->0, 0);
        }
        match pos {
            Some(i) => {
                let id = self.child_ids.remove(i);
                assert(texts(self.child_ids@) =~= texts(old(self).child_ids@).remove(i as int));
                self.close_op(Some(&id), None);
            },
            None => {
                if self.child_ids.len() > 0 {
                    let id = self.child_ids.pop().unwrap();
                    assert(texts(self.child_ids@) =~= texts(old(self).child_ids@).drop_last());
                    self.close_op(Some(&id), None);
                }
            },
        }
        self.children = self.child_ids.len() as u32;
        if self.children == 0 && self.pending_complete {
            self.pending_complete = false;
            self.set_state(SessionState::Complete, now_ms);
            self.unread_since_ms = Some(now_ms);
        }
        true
    }

    fn on_event(&mut self, event: HookEvent, p: &Json, now_ms: i64) -> (changed: bool)
        requires
            event == event_of(p@),
        ensures
            final(self)@ == event_step(old(self)@, p@, now_ms).0,
            changed == event_step(old(self)@, p@, now_ms).1,
    {
        match event {
            HookEvent::SessionStart => self.on_session_start(p, now_ms),
            HookEvent::UserPromptSubmit => {
                self.pending_complete = false;
                self.error = None;
                self.set_state(SessionState::Thinking, now_ms);
                true
            },
            HookEvent::PreToolUse => self.on_pre_tool_use(p, now_ms),
            HookEvent::PostToolUse => {
                self.close_op(get_str(p, "tool_use_id"), get_str(p, "tool_name"));
                self.set_state(SessionState::Thinking, now_ms);
                true
            },
            HookEvent::PostToolUseFailure => self.on_tool_failure(p, now_ms),
            HookEvent::PermissionDenied => {
                // A call refused by something that is not you: the tile
                // stays blue and the bracket closes, no more.
                self.close_op(get_str(p, "tool_use_id"), get_str(p, "tool_name"));
                self.set_state(SessionState::Thinking, now_ms);
                true
            },
            HookEvent::Notification => {
                let nt = get_str(p, "notification_type");
                if is_text(nt, "agent_needs_input") {
                    // No kind: the payload does not say which sort of
                    // prompt it is.
                    self.set_state(SessionState::NeedsInput, now_ms);
                    self.detail_kind = None;
                    true
                } else if is_text(nt, "agent_completed") {
                    self.set_state(SessionState::Idle, now_ms);
                    true
                } else {
                    false
                }
            },
            HookEvent::Stop => {
                if self.children > 0 {
                    // Green while work continues would be a lie.
                    self.pending_complete = true;
                    self.set_state(SessionState::Thinking, now_ms);
                } else {
                    self.set_state(SessionState::Complete, now_ms);
                    self.unread_since_ms = Some(now_ms);
                }
                true
            },
            HookEvent::StopFailure => {
                let kind = failure_kind_of(p.get("error"));
                self.error = Some(ErrorDetail { kind, message: None });
                self.set_state(SessionState::Error, now_ms);
                true
            },
            HookEvent::SubagentStart => self.on_subagent_start(p, now_ms),
            HookEvent::SubagentStop => self.on_subagent_stop(p, now_ms),
            HookEvent::SessionEnd => {
                let r = get_str(p, "reason");
                if is_text(r, "clear") || is_text(r, "resume") {
                    // Each is followed by a new SessionStart under a
                    // session that never stopped.
                    return false;
                }
                self.end_session(now_ms);
                true
            },
            HookEvent::Other => false,
        }
    }

    /// Apply one hook event. Returns true if anything observable changed.
    /// An ended session ignores every event but `SessionStart`;
    /// unrecognised events update liveness and nothing else.
    pub fn apply_hook(&mut self, payload: &Json, now_ms: i64) -> (changed: bool)
        ensures
            final(self)@ == hook_step(old(self)@, payload@, now_ms).0,
            changed == hook_step(old(self)@, payload@, now_ms).1,
    {
        let event = event_of_payload(payload);
        if self.state == SessionState::Ended && event != HookEvent::SessionStart {
            return false;
        }
        if event == HookEvent::Other {
            self.last_event_at_ms = now_ms;
            self.heard = true;
            self.scan_disagreements = 0;
            return false;
        }
        self.note_event(payload, now_ms);
        self.on_event(event, payload, now_ms)
    }

    /// The surface selected this row. Green clears to idle; an error is
    /// acknowledged the same way.
    pub fn on_selected(&mut self, now_ms: i64) -> (changed: bool)
        ensures
            final(self)@ == select_step(old(self)@, now_ms).0,
            changed == select_step(old(self)@, now_ms).1,
    {
        match self.state {
            SessionState::Complete | SessionState::Error => {
                self.error = None;
                self.set_state(SessionState::Idle, now_ms);
                true
            },
            _ => false,
        }
    }

    /// True for the scan statuses under which hook silence is not read
    /// as trouble.
    fn scan_says_in_flight(&self) -> (r: bool)
        ensures
            r == scan_in_flight(self@.scan_status),
    {
        match &self.scan_status {
            Some(s) => same_text(s.as_str(), "busy") || same_text(s.as_str(), "shell") || same_text(
                s.as_str(),
                "waiting",
            ),
            None => false,
        }
    }

    /// Record that a successful scan listed this session. Never touches
    /// `heard` or the colour.
    pub fn note_seen(&mut self, status: Option<&str>, now_ms: i64)
        ensures
            final(self)@ == (SessionV {
                last_seen_ms: now_ms,
                scan_status: match status {
                    Some(t) => Some(t@),
                    None => None,
                },
                ..old(self)@
            }),
    {
        self.last_seen_ms = now_ms;
        self.scan_status = match status {
            Some(t) => Some(owned(t)),
            None => None,
        };
    }

    /// Colour a session from the scan's own status (see `scan_step`).
    /// Returns true if the state actually changed.
    pub fn apply_scan_state(&mut self, status: Option<&str>, now_ms: i64) -> (changed: bool)
        ensures
            final(self)@ == scan_step(old(self)@, opt_str(status), now_ms).0,
            changed == scan_step(old(self)@, opt_str(status), now_ms).1,
    {
        if self.state == SessionState::Ended {
            return false;
        }
        let mapped = map_scan_status(status);
        if !self.heard || self.state == SessionState::Unknown {
            self.scan_disagreements = 0;
            let st = match mapped {
                Some(st) => st,
                None => return false,
            };
            if self.state == st {
                return false;
            }
            self.set_state(st, now_ms);
            return true;
        }
        let disagrees = match (self.state, mapped) {
            (SessionState::Thinking, Some(SessionState::Idle)) => true,
            (SessionState::Idle, Some(SessionState::Thinking)) => true,
            (SessionState::Complete, Some(SessionState::Thinking)) => true,
            (SessionState::Error, Some(SessionState::Thinking)) => true,
            _ => false,
        };
        if !disagrees {
            self.scan_disagreements = 0;
            return false;
        }
        if self.scan_disagreements < SCAN_TIEBREAK_SCANS - 1 {
            self.scan_disagreements = self.scan_disagreements + 1;
            return false;
        }
        self.scan_disagreements = 0;
        match mapped {
            Some(SessionState::Idle) => {
                // A session the CLI calls idle has nothing in flight.
                self.open_ops.clear();
                self.children = 0;
                self.child_ids.clear();
                self.pending_complete = false;
                proof {
                    assert(texts(self.child_ids@) =~= Seq::<Seq<char>>::empty());
                    assert(ops_view(self.open_ops@) =~= Seq::<OpenOpV>::empty());
                }
                self.set_state(SessionState::Idle, now_ms);
            },
            _ => {
                // A new turn whose own event was lost.
                self.pending_complete = false;
                self.error = None;
                self.set_state(SessionState::Thinking, now_ms);
            },
        }
        true
    }

    /// The session's process is confirmed gone with no `SessionEnd`:
    /// ended the same way. A no-op on a session already ended.
    pub fn process_exited(&mut self, now_ms: i64) -> (changed: bool)
        ensures
            old(self)@.state == SessionState::Ended ==> final(self)@ == old(self)@ && !changed,
            old(self)@.state != SessionState::Ended ==> final(self)@ == end_spec(old(self)@, now_ms) && changed,
    {
        if self.state == SessionState::Ended {
            return false;
        }
        self.end_session(now_ms);
        true
    }

    /// The `T_unknown` deadline (see `tick_step`). `alive` is whether a
    /// live process handle is held for this session right now.
    pub fn tick(&mut self, now_ms: i64, alive: bool) -> (changed: bool)
        requires
            tick_fits(old(self)@, now_ms),
        ensures
            final(self)@ == tick_step(old(self)@, now_ms, alive).0,
            changed == tick_step(old(self)@, now_ms, alive).1,
    {
        if self.state == SessionState::Ended || self.state == SessionState::Unknown {
            return false;
        }
        if !alive {
            let last_seen = if self.last_event_at_ms >= self.last_seen_ms {
                self.last_event_at_ms
            } else {
                self.last_seen_ms
            };
            if now_ms - last_seen > T_UNKNOWN_MS {
                self.set_state(SessionState::Unknown, now_ms);
                return true;
            }
            return false;
        }
        if self.state == SessionState::Thinking && now_ms - self.last_event_at_ms > T_UNKNOWN_MS
            && !self.scan_says_in_flight() {
            self.set_state(SessionState::Unknown, now_ms);
            return true;
        }
        false
    }
}

/// The view of an optional borrowed text.
pub open spec fn opt_str(o: Option<&str>) -> Option<Seq<char>> {
    match o {
        Some(t) => Some(t@),
        None => None,
    }
}

/// The colour a scan status maps to (see `scan_mapped`).
fn map_scan_status(status: Option<&str>) -> (r: Option<SessionState>)
    ensures
        r == scan_mapped(opt_str(status)),
{
    match status {
        Some(t) => if same_text(t, "busy") || same_text(t, "shell") {
            Some(SessionState::Thinking)
        } else if same_text(t, "waiting") {
            Some(SessionState::NeedsInput)
        } else if same_text(t, "idle") {
            Some(SessionState::Idle)
        } else {
            None
        },
        None => None,
    }
}

} // verus!
