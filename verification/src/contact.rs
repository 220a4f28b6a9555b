//! The hook shim's side of the contact file and of the request it sends:
//! reading the daemon's port and token back out of the file the daemon
//! wrote, and the request head the shim posts with. Reading the file,
//! stdin and the socket are the shim's own.

use vstd::prelude::*;

use crate::decimal::{digits_of, decimal_u64, parse_u16, parse_u16_spec, is_digit, lemma_digits_of, law_u16_text_round_trips};
use crate::persist::contact_spec;
use crate::text::{chars_of, occurs_at, occurs_here, owned, string_of_range};
use crate::window_match::{is_ws, is_ws_char, lead_end};

verus! {

/// The first position at or after `i` where `needle` occurs in `hay`.
pub open spec fn first_at(hay: Seq<char>, needle: Seq<char>, i: int) -> Option<int>
    decreases hay.len() + 1 - i,
{
    if i < 0 || i + needle.len() > hay.len() {
        None
    } else if occurs_at(hay, needle, i) {
        Some(i)
    } else {
        first_at(hay, needle, i + 1)
    }
}

/// The text after the first occurrence of `key`, when there is one.
pub open spec fn after_key(hay: Seq<char>, key: Seq<char>) -> Option<Seq<char>> {
    match first_at(hay, key, 0) {
        Some(i) => Some(hay.skip(i + key.len())),
        None => None,
    }
}

/// The leading run of ASCII digits.
pub open spec fn leading_digits(s: Seq<char>) -> Seq<char>
    decreases s.len(),
{
    if s.len() > 0 && is_digit(s[0]) {
        seq![s[0]] + leading_digits(s.skip(1))
    } else {
        Seq::empty()
    }
}

/// The port and token the contact file names: the digits after
/// `"port":` (leading whitespace skipped), read as a `u16`, and the text
/// after `"token":"` up to the next double quote.
pub open spec fn parse_contact_spec(meta: Seq<char>) -> Option<(u16, Seq<char>)> {
    match after_key(meta, "\"port\":"@) {
        None => None,
        Some(pt) => match parse_u16_spec(leading_digits(pt.skip(lead_end(pt, 0)))) {
            None => None,
            Some(port) => match after_key(meta, "\"token\":\""@) {
                None => None,
                Some(tt) => match first_at(tt, "\""@, 0) {
                    None => None,
                    Some(j) => Some((port, tt.take(j))),
                },
            },
        },
    }
}

fn find_from(hay: &Vec<char>, needle: &Vec<char>, from: usize) -> (r: Option<usize>)
    requires
        from <= hay@.len(),
    ensures
        match r {
            Some(i) => first_at(hay@, needle@, from as int) == Some(i as int) && i + needle@.len() <= hay@.len(),
            None => first_at(hay@, needle@, from as int) is None,
        },
{
    if needle.len() > hay.len() || from > hay.len() - needle.len() {
        return None;
    }
    let last: usize = hay.len() - needle.len();
    let mut i: usize = from;
    while i <= last
        invariant
            last == hay@.len() - needle@.len(),
            from <= i <= last + 1,
            first_at(hay@, needle@, from as int) == first_at(hay@, needle@, i as int),
        decreases last + 1 - i,
    {
        if occurs_here(hay, needle, i) {
            return Some(i);
        }
        if i == last {
            proof {
                assert(first_at(hay@, needle@, i + 1) is None);
                assert(first_at(hay@, needle@, i as int) is None);
            }
            return None;
        }
        i = i + 1;
    }
    None
}

fn after(hay: &Vec<char>, key: &str) -> (r: Option<Vec<char>>)
    ensures
        match r {
            Some(v) => after_key(hay@, key@) == Some(v@),
            None => after_key(hay@, key@) is None,
        },
{
    let k = chars_of(key);
    match find_from(hay, &k, 0) {
        Some(i) => {
            let kl = k.len();
            let hl = hay.len();
            assert(i + kl <= hl);
            let mut out: Vec<char> = Vec::new();
            let mut j: usize = i + kl;
            let ghost start = i + k@.len();
            while j < hay.len()
                invariant
                    start == i + k@.len(),
                    start <= j <= hay@.len(),
                    out@ == hay@.subrange(start, j as int),
                decreases hay@.len() - j,
            {
                out.push(hay[j]);
                j = j + 1;
            }
            proof {
                assert(out@ =~= hay@.skip(start));
            }
            Some(out)
        },
        None => None,
    }
}

/// The port and token named by the contact file's text (see
/// `parse_contact_spec`).
pub fn parse_contact(meta: &str) -> (r: Option<(u16, String)>)
    ensures
        match parse_contact_spec(meta@) {
            Some((p, t)) => r matches Some((q, u)) && q == p && u@ == t,
            None => r is None,
        },
{
    proof {
        reveal_strlit("\"port\":");
        reveal_strlit("\"token\":\"");
        reveal_strlit("\"");
    }
    let cs = chars_of(meta);
    let pt = match after(&cs, "\"port\":") {
        Some(v) => v,
        None => return None,
    };
    let mut a: usize = 0;
    while a < pt.len() && is_ws_char(pt[a])
        invariant
            a <= pt@.len(),
            lead_end(pt@, 0) == lead_end(pt@, a as int),
        decreases pt@.len() - a,
    {
        a = a + 1;
    }
    let ghost rest = pt@.skip(a as int);
    let mut digits: Vec<char> = Vec::new();
    let mut b: usize = a;
    while b < pt.len() && '0' <= pt[b] && pt[b] <= '9'
        invariant
            a <= b <= pt@.len(),
            rest == pt@.skip(a as int),
            digits@ + leading_digits(pt@.skip(b as int)) == leading_digits(rest),
        decreases pt@.len() - b,
    {
        proof {
            assert(pt@.skip(b as int).skip(1) =~= pt@.skip(b + 1));
            assert(digits@.push(pt@[b as int]) + leading_digits(pt@.skip(b + 1)) =~= digits@ + (seq![pt@[b as int]]
                + leading_digits(pt@.skip(b + 1))));
        }
        digits.push(pt[b]);
        b = b + 1;
    }
    proof {
        assert(digits@ + Seq::<char>::empty() =~= digits@);
        if a == 0 {
            assert(pt@.skip(0) =~= pt@);
        }
    }
    let port = match parse_u16(&digits) {
        Some(p) => p,
        None => return None,
    };
    let tt = match after(&cs, "\"token\":\"") {
        Some(v) => v,
        None => return None,
    };
    let quote: Vec<char> = chars_of("\"");
    let j = match find_from(&tt, &quote, 0) {
        Some(j) => j,
        None => return None,
    };
    proof {
        lemma_first_at_bound(tt@, quote@, 0);
    }
    let token = string_of_range(&tt, 0, j);
    proof {
        assert(tt@.subrange(0, j as int) =~= tt@.take(j as int));
    }
    Some((port, token))
}

proof fn lemma_first_at_bound(hay: Seq<char>, needle: Seq<char>, i: int)
    ensures
        first_at(hay, needle, i) matches Some(j) ==> i <= j && j + needle.len() <= hay.len() && occurs_at(hay, needle, j),
    decreases hay.len() + 1 - i,
{
    if !(i < 0 || i + needle.len() > hay.len()) && !occurs_at(hay, needle, i) {
        lemma_first_at_bound(hay, needle, i + 1);
    }
}

/// The request head the shim posts a hook payload with.
pub open spec fn request_head_spec(port: u16, token: Seq<char>, body_len: usize) -> Seq<char> {
    "POST /hook HTTP/1.1\r\nHost: 127.0.0.1:"@ + digits_of(port as nat) + "\r\nX-Deckhand-Token: "@ + token
        + "\r\nContent-Type: application/json\r\nContent-Length: "@ + digits_of(body_len as nat)
        + "\r\nConnection: close\r\n\r\n"@
}

pub fn request_head(port: u16, token: &str, body_len: usize) -> (h: String)
    ensures
        h@ == request_head_spec(port, token@, body_len),
{
    let mut h = owned("POST /hook HTTP/1.1\r\nHost: 127.0.0.1:");
    let p = decimal_u64(port as u64);
    h = h.concat(p.as_str());
    h = h.concat("\r\nX-Deckhand-Token: ");
    h = h.concat(token);
    h = h.concat("\r\nContent-Type: application/json\r\nContent-Length: ");
    let n = decimal_u64(body_len as u64);
    h = h.concat(n.as_str());
    h = h.concat("\r\nConnection: close\r\n\r\n");
    proof {
        reveal_strlit("POST /hook HTTP/1.1\r\nHost: 127.0.0.1:");
        reveal_strlit("\r\nX-Deckhand-Token: ");
        reveal_strlit("\r\nContent-Type: application/json\r\nContent-Length: ");
        reveal_strlit("\r\nConnection: close\r\n\r\n");
    }
    h
}


proof fn lemma_first_at_skip(hay: Seq<char>, needle: Seq<char>, i: int, m: int)
    requires
        0 <= i <= m,
        m + needle.len() <= hay.len(),
        forall|j: int| i <= j < m ==> !occurs_at(hay, needle, j),
    ensures
        first_at(hay, needle, i) == first_at(hay, needle, m),
    decreases m - i,
{
    if i < m {
        lemma_first_at_skip(hay, needle, i + 1, m);
    }
}

proof fn lemma_leading_digits(d: Seq<char>, rest: Seq<char>)
    requires
        forall|i: int| 0 <= i < d.len() ==> is_digit(#[trigger] d[i]),
        rest.len() > 0,
        !is_digit(rest[0]),
    ensures
        leading_digits(d + rest) == d,
    decreases d.len(),
{
    if d.len() == 0 {
        assert(d + rest =~= rest);
    } else {
        let t = d.skip(1);
        assert forall|i: int| 0 <= i < t.len() implies is_digit(#[trigger] t[i]) by {
            assert(t[i] == d[i + 1]);
        }
        lemma_leading_digits(t, rest);
        assert((d + rest).skip(1) =~= t + rest);
        assert(seq![d[0]] + t =~= d);
    }
}

/// The shim reads back exactly the port and token the daemon wrote into
/// the contact file, for any token without a double quote in it (the
/// daemon's own tokens are hex).
pub proof fn law_the_shim_reads_back_what_the_daemon_wrote(port: u16, token: Seq<char>)
    requires
        forall|i: int| 0 <= i < token.len() ==> token[i] != '"',
    ensures
        parse_contact_spec(contact_spec(port, token)) == Some((port, token)),
{
    reveal_strlit("{\"port\":");
    reveal_strlit(",\"token\":\"");
    reveal_strlit("\"}");
    reveal_strlit("\"port\":");
    reveal_strlit("\"token\":\"");
    reveal_strlit("\"");
    let d = digits_of(port as nat);
    lemma_digits_of(port as nat);
    law_u16_text_round_trips(port);
    let pre = "{\"port\":"@;
    let mid = ",\"token\":\""@;
    let end = "\"}"@;
    let body = contact_spec(port, token);
    assert(body =~= pre + d + mid + token + end);
    let k1 = "\"port\":"@;
    let k2 = "\"token\":\""@;
    let dl = d.len() as int;
    // The port key.
    assert(!occurs_at(body, k1, 0)) by {
        assert(body[0] == '{');
        assert(body.subrange(0, 7)[0] == '{');
    }
    assert(body.subrange(1, 8) =~= k1);
    assert(first_at(body, k1, 1) == Some(1int));
    lemma_first_at_skip(body, k1, 0, 1);
    let pt = body.skip(8);
    assert(pt =~= d + (mid + token + end));
    assert(!crate::window_match::is_ws(pt[0])) by {
        assert(pt[0] == d[0]);
        assert(is_digit(d[0]));
    }
    assert(lead_end(pt, 0) == 0);
    assert(pt.skip(0) =~= pt);
    lemma_leading_digits(d, mid + token + end);
    // The token key.
    let m = 9 + dl;
    assert forall|j: int| 0 <= j < m implies !occurs_at(body, k2, j) by {
        if occurs_at(body, k2, j) {
            assert(body.subrange(j, j + 9)[0] == body[j]);
            assert(body.subrange(j, j + 9)[1] == body[j + 1]);
            assert(body[j] == '"');
            assert(body[j + 1] == 't');
            if j < 8 {
                assert(body[j] == pre[j]);
                assert(body[j + 1] == pre[j + 1] || j == 7);
            } else if j < 8 + dl {
                assert(body[j] == d[j - 8]);
                assert(is_digit(d[j - 8]));
            } else {
                assert(body[j] == ',');
            }
        }
    }
    assert(body.subrange(m, m + 9) =~= k2);
    assert(first_at(body, k2, m) == Some(m));
    lemma_first_at_skip(body, k2, 0, m);
    let tt = body.skip(m + 9);
    assert(tt =~= token + end);
    let q = "\""@;
    let tl = token.len() as int;
    assert forall|j: int| 0 <= j < tl implies !occurs_at(tt, q, j) by {
        assert(tt.subrange(j, j + 1)[0] == tt[j]);
        assert(tt[j] == token[j]);
    }
    assert(tt.subrange(tl, tl + 1) =~= q);
    assert(first_at(tt, q, tl) == Some(tl));
    lemma_first_at_skip(tt, q, 0, tl);
    assert(tt.take(tl) =~= token);
}
} // verus!
