//! Crash restart: the policy that decides, when the daemon exits, whether
//! its watchdog relaunches it, bounded by a short backoff so a stuck
//! configuration cannot restart forever; and the append-only ledger of
//! past restarts that policy reads. Waiting on processes, reading and
//! appending the ledger file, and relaunching are the application's.

use vstd::prelude::*;

use crate::decimal::{decimal_i64, decimal_u64, digits_of, i64_text, parse_i64, parse_i64_spec, is_digit, lemma_digits_of, law_i64_text_round_trips};
use crate::split::{char_vecs, lines_of, split_lines, split_words, words_of, pieces, nonempty, is_newline, lemma_pieces_concat, lemma_pieces_single};
use crate::window_match::is_ws;
use crate::text::chars_of;

verus! {

/// The sliding window a restart must fall inside to count against the
/// cap: ten minutes.
pub const RESTART_WINDOW_MS: i64 = 600_000;

/// Restarts allowed inside `RESTART_WINDOW_MS` before the watchdog gives
/// up rather than restart yet again.
pub const MAX_RESTARTS_IN_WINDOW: usize = 3;

#[derive(Debug, Clone, Copy, PartialEq, Eq, Structural)]
pub enum Decision {
    /// Exit code 0: a Quit or any other normal shutdown. Never restarted.
    CleanExit,
    Restart,
    GaveUp,
}

/// How many of the recorded restarts fall inside the window before `now`.
pub open spec fn recent_restarts(history: Seq<i64>, now: i64) -> nat
    decreases history.len(),
{
    if history.len() == 0 {
        0
    } else {
        recent_restarts(history.drop_last(), now) + if now - history.last() < RESTART_WINDOW_MS {
            1nat
        } else {
            0nat
        }
    }
}

/// The exit code and the restarts on record decide: a clean exit is
/// never restarted; a crash with fewer than the cap of restarts inside
/// the window is; otherwise the watchdog gives up.
pub open spec fn decide_spec(exit_code: u32, history: Seq<i64>, now: i64) -> Decision {
    if exit_code == 0 {
        Decision::CleanExit
    } else if recent_restarts(history, now) >= MAX_RESTARTS_IN_WINDOW {
        Decision::GaveUp
    } else {
        Decision::Restart
    }
}

/// Every elapsed time the policy computes is an `i64`.
pub open spec fn elapsed_fit(history: Seq<i64>, now: i64) -> bool {
    forall|i: int| 0 <= i < history.len() ==> i64::MIN <= now - #[trigger] history[i] <= i64::MAX
}

proof fn lemma_recent_le(history: Seq<i64>, now: i64)
    ensures
        recent_restarts(history, now) <= history.len(),
    decreases history.len(),
{
    if history.len() > 0 {
        lemma_recent_le(history.drop_last(), now);
    }
}

/// Decide what to do about a process that just exited (see
/// `decide_spec`).
pub fn decide(exit_code: u32, history_ms: &[i64], now_ms: i64) -> (d: Decision)
    requires
        elapsed_fit(history_ms@, now_ms),
    ensures
        d == decide_spec(exit_code, history_ms@, now_ms),
{
    if exit_code == 0 {
        return Decision::CleanExit;
    }
    let mut recent: usize = 0;
    let mut i: usize = 0;
    while i < history_ms.len()
        invariant
            elapsed_fit(history_ms@, now_ms),
            i <= history_ms@.len(),
            recent == recent_restarts(history_ms@.take(i as int), now_ms),
            recent <= i,
        decreases history_ms@.len() - i,
    {
        proof {
            assert(history_ms@.take(i + 1).drop_last() =~= history_ms@.take(i as int));
        }
        if now_ms - history_ms[i] < RESTART_WINDOW_MS {
            recent = recent + 1;
        }
        i = i + 1;
    }
    proof {
        assert(history_ms@.take(history_ms@.len() as int) =~= history_ms@);
    }
    if recent >= MAX_RESTARTS_IN_WINDOW {
        Decision::GaveUp
    } else {
        Decision::Restart
    }
}

/// The ledger tag a decision is written with; a clean exit writes
/// nothing.
pub open spec fn tag_of(d: Decision) -> Option<Seq<char>> {
    match d {
        Decision::CleanExit => None,
        Decision::Restart => Some("restart"@),
        Decision::GaveUp => Some("gave-up"@),
    }
}

/// One ledger line: `<ms> <exit code> <tag>` and a newline.
pub open spec fn line_spec(now: i64, exit_code: u32, tag: Seq<char>) -> Seq<char> {
    i64_text(now) + " "@ + digits_of(exit_code as nat) + " "@ + tag + "\n"@
}

/// The ledger line for a decision, `None` for a clean exit, which the
/// ledger never records.
pub fn ledger_line(now_ms: i64, exit_code: u32, decision: Decision) -> (line: Option<String>)
    ensures
        match tag_of(decision) {
            Some(t) => line matches Some(l) && l@ == line_spec(now_ms, exit_code, t),
            None => line is None,
        },
{
    let tag = match decision {
        Decision::CleanExit => return None,
        Decision::Restart => "restart",
        Decision::GaveUp => "gave-up",
    };
    proof {
        reveal_strlit("restart");
        reveal_strlit("gave-up");
        reveal_strlit(" ");
        reveal_strlit("\n");
    }
    let mut line = decimal_i64(now_ms);
    line = line.concat(" ");
    let code = decimal_u64(exit_code as u64);
    line = line.concat(code.as_str());
    line = line.concat(" ");
    line = line.concat(tag);
    line = line.concat("\n");
    Some(line)
}

/// The restart a ledger line records: exactly three words, the first an
/// `i64` timestamp, the third `restart`. A `gave-up` line, a line with
/// an extra field, or anything else records none.
pub open spec fn restart_of(line: Seq<char>) -> Option<i64> {
    let w = words_of(line);
    if w.len() == 3 && w[2] == "restart"@ {
        parse_i64_spec(w[0])
    } else {
        None
    }
}

pub open spec fn restarts_in(lines: Seq<Seq<char>>) -> Seq<i64>
    decreases lines.len(),
{
    if lines.len() == 0 {
        Seq::empty()
    } else {
        let r = restarts_in(lines.drop_last());
        match restart_of(lines.last()) {
            Some(t) => r.push(t),
            None => r,
        }
    }
}

/// Every restart the ledger records, oldest first; a malformed line is
/// skipped rather than failing the whole read.
pub open spec fn ledger_restarts(body: Seq<char>) -> Seq<i64> {
    restarts_in(lines_of(body))
}

fn restart_of_line(line: &Vec<char>) -> (r: Option<i64>)
    ensures
        r == restart_of(line@),
{
    let words = split_words(line);
    if words.len() != 3 {
        return None;
    }
    let tag: Vec<char> = chars_of("restart");
    proof {
        reveal_strlit("restart");
        assert(char_vecs(words@)[2] == words@[2]@);
    }
    if !crate::text::same_chars(&words[2], &tag) {
        return None;
    }
    proof {
        assert(char_vecs(words@)[0] == words@[0]@);
    }
    parse_i64(&words[0])
}

/// The restarts a ledger body records (see `ledger_restarts`).
pub fn parse_ledger(body: &str) -> (out: Vec<i64>)
    ensures
        out@ == ledger_restarts(body@),
{
    let cs = chars_of(body);
    let lines = split_lines(&cs);
    let ghost ls = char_vecs(lines@);
    let mut out: Vec<i64> = Vec::new();
    let mut i: usize = 0;
    while i < lines.len()
        invariant
            ls == char_vecs(lines@),
            ls == lines_of(body@),
            i <= lines@.len(),
            out@ == restarts_in(ls.take(i as int)),
        decreases lines@.len() - i,
    {
        proof {
            assert(ls.take(i + 1).drop_last() =~= ls.take(i as int));
            assert(ls.take(i + 1).last() == lines@[i as int]@);
        }
        if let Some(t) = restart_of_line(&lines[i]) {
            out.push(t);
        }
        i = i + 1;
    }
    proof {
        assert(ls.take(ls.len() as int) =~= ls);
    }
    out
}

/// A clean exit is never restarted, whatever the history.
pub proof fn law_a_clean_exit_is_never_restarted(history: Seq<i64>, now: i64)
    ensures
        decide_spec(0, history, now) == Decision::CleanExit,
{
}

/// A crash is restarted whenever fewer restarts than the cap fall in the
/// window; in particular a first crash with no history always is.
pub proof fn law_a_crash_under_the_cap_restarts(exit_code: u32, history: Seq<i64>, now: i64)
    requires
        exit_code != 0,
        history.len() < MAX_RESTARTS_IN_WINDOW,
    ensures
        decide_spec(exit_code, history, now) == Decision::Restart,
{
    lemma_recent_le(history, now);
}

/// Restarts outside the window never count against the cap.
pub proof fn law_old_restarts_do_not_count(exit_code: u32, history: Seq<i64>, now: i64)
    requires
        exit_code != 0,
        forall|i: int| 0 <= i < history.len() ==> now - #[trigger] history[i] >= RESTART_WINDOW_MS,
    ensures
        decide_spec(exit_code, history, now) == Decision::Restart,
    decreases history.len(),
{
    lemma_none_recent(history, now);
}

proof fn lemma_none_recent(history: Seq<i64>, now: i64)
    requires
        forall|i: int| 0 <= i < history.len() ==> now - #[trigger] history[i] >= RESTART_WINDOW_MS,
    ensures
        recent_restarts(history, now) == 0,
    decreases history.len(),
{
    if history.len() > 0 {
        assert forall|i: int| 0 <= i < history.drop_last().len() implies now - #[trigger] history.drop_last()[i]
            >= RESTART_WINDOW_MS by {
            assert(history.drop_last()[i] == history[i]);
        }
        lemma_none_recent(history.drop_last(), now);
        assert(now - history[history.len() - 1] >= RESTART_WINDOW_MS);
    }
}


proof fn lemma_restarts_concat(x: Seq<Seq<char>>, y: Seq<Seq<char>>)
    ensures
        restarts_in(x + y) == restarts_in(x) + restarts_in(y),
    decreases y.len(),
{
    if y.len() == 0 {
        assert(x + y =~= x);
        assert(restarts_in(x) + restarts_in(y) =~= restarts_in(x));
    } else {
        lemma_restarts_concat(x, y.drop_last());
        assert((x + y).drop_last() =~= x + y.drop_last());
        assert((x + y).last() == y.last());
        match restart_of(y.last()) {
            Some(t) => {
                assert((restarts_in(x) + restarts_in(y.drop_last())).push(t) =~= restarts_in(x) + restarts_in(
                    y.drop_last(),
                ).push(t));
            },
            None => {},
        }
    }
}

/// The text of a ledger entry is one word each: a timestamp, an exit
/// code, a tag.
proof fn lemma_entry_words(tt: Seq<char>, d: Seq<char>, tag: Seq<char>)
    requires
        tt.len() > 0 && d.len() > 0 && tag.len() > 0,
        forall|i: int| 0 <= i < tt.len() ==> !is_ws(#[trigger] tt[i]) && !is_newline(tt[i]),
        forall|i: int| 0 <= i < d.len() ==> !is_ws(#[trigger] d[i]) && !is_newline(d[i]),
        forall|i: int| 0 <= i < tag.len() ==> !is_ws(#[trigger] tag[i]) && !is_newline(tag[i]),
    ensures
        words_of(tt + " "@ + d + " "@ + tag) == seq![tt, d, tag],
        forall|i: int| 0 <= i < (tt + " "@ + d + " "@ + tag).len() ==> !is_newline(
            #[trigger] (tt + " "@ + d + " "@ + tag)[i],
        ),
{
    reveal_strlit(" ");
    let ws = |c: char| is_ws(c);
    let rest = d + seq![' '] + tag;
    assert(tt + " "@ + d + " "@ + tag =~= tt + seq![' '] + rest);
    lemma_pieces_concat(tt, ' ', rest, ws);
    lemma_pieces_concat(d, ' ', tag, ws);
    lemma_pieces_single(tt, ws);
    lemma_pieces_single(d, ws);
    lemma_pieces_single(tag, ws);
    let ps = seq![tt] + (seq![d] + seq![tag]);
    assert(ps =~= seq![tt, d, tag]);
    reveal_with_fuel(nonempty, 4);
    assert(seq![tt, d, tag].drop_last() =~= seq![tt, d]);
    assert(seq![tt, d].drop_last() =~= seq![tt]);
    assert(seq![tt].drop_last() =~= Seq::<Seq<char>>::empty());
    assert(nonempty(seq![tt, d, tag]) =~= seq![tt, d, tag]);
}

/// The ledger round trips: appending a decision's line to a ledger
/// (empty, or ending in a newline, as every line this writes does)
/// adds that decision's timestamp to what it records when the decision
/// was a restart, and nothing otherwise.
pub proof fn law_the_ledger_round_trips(body: Seq<char>, now: i64, exit_code: u32, decision: Decision)
    requires
        body.len() == 0 || body[body.len() - 1] == '\n',
        decision != Decision::CleanExit,
    ensures
        ledger_restarts(body + line_spec(now, exit_code, tag_of(decision)->0)) == ledger_restarts(body) + (
        if decision == Decision::Restart {
            seq![now]
        } else {
            Seq::empty()
        }),
{
    reveal_strlit("restart");
    reveal_strlit("gave-up");
    reveal_strlit("\n");
    let nl = |c: char| is_newline(c);
    let tag = tag_of(decision)->0;
    let tt = i64_text(now);
    let d = digits_of(exit_code as nat);
    lemma_digits_of(exit_code as nat);
    law_i64_text_round_trips(now);
    if now < 0 {
        lemma_digits_of((-(now as int)) as nat);
    } else {
        lemma_digits_of(now as nat);
    }
    assert forall|i: int| 0 <= i < tt.len() implies !is_ws(#[trigger] tt[i]) && !is_newline(tt[i]) by {
        if now < 0 {
            if i > 0 {
                assert(tt[i] == digits_of((-(now as int)) as nat)[i - 1]);
                assert(is_digit(digits_of((-(now as int)) as nat)[i - 1]));
            }
        } else {
            assert(is_digit(tt[i]));
        }
    }
    assert forall|i: int| 0 <= i < d.len() implies !is_ws(#[trigger] d[i]) && !is_newline(d[i]) by {
        assert(is_digit(d[i]));
    }
    lemma_entry_words(tt, d, tag);
    let entry = tt + " "@ + d + " "@ + tag;
    let line = line_spec(now, exit_code, tag);
    assert(line =~= entry + seq!['\n'] + Seq::<char>::empty());
    lemma_pieces_concat(entry, '\n', Seq::<char>::empty(), nl);
    lemma_pieces_single(entry, nl);
    assert(pieces(Seq::<char>::empty(), nl) =~= seq![Seq::<char>::empty()]);
    let ll = seq![entry] + seq![Seq::<char>::empty()];
    assert(lines_of(line) =~= ll);
    // The line on its own.
    assert(words_of(Seq::<char>::empty()) =~= Seq::<Seq<char>>::empty()) by {
        assert(pieces(Seq::<char>::empty(), |c: char| is_ws(c)) =~= seq![Seq::<char>::empty()]);
        reveal_with_fuel(nonempty, 2);
        assert(seq![Seq::<char>::empty()].drop_last() =~= Seq::<Seq<char>>::empty());
    }
    assert(restart_of(Seq::<char>::empty()) is None);
    reveal_with_fuel(restarts_in, 3);
    assert(ll.drop_last() =~= seq![entry]);
    assert(seq![entry].drop_last() =~= Seq::<Seq<char>>::empty());
    let own = if decision == Decision::Restart {
        seq![now]
    } else {
        Seq::<i64>::empty()
    };
    assert(restarts_in(ll) =~= own);
    // After the body.
    if body.len() == 0 {
        assert(body + line =~= line);
        assert(lines_of(body) =~= seq![Seq::<char>::empty()]);
        assert(restarts_in(seq![Seq::<char>::empty()]) =~= Seq::<i64>::empty());
        assert(Seq::<i64>::empty() + own =~= own);
    } else {
        let b0 = body.drop_last();
        assert(body =~= b0 + seq!['\n'] + Seq::<char>::empty());
        lemma_pieces_concat(b0, '\n', Seq::<char>::empty(), nl);
        assert(body + line =~= b0 + seq!['\n'] + line);
        lemma_pieces_concat(b0, '\n', line, nl);
        let pb = pieces(b0, nl);
        lemma_restarts_concat(pb, seq![Seq::<char>::empty()]);
        lemma_restarts_concat(pb, ll);
        assert(restarts_in(seq![Seq::<char>::empty()]) =~= Seq::<i64>::empty());
        assert(restarts_in(pb) + Seq::<i64>::empty() =~= restarts_in(pb));
    }
}
} // verus!
