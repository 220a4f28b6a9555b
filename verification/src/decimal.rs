//! Decimal integers as text: the digits the ledger, the contact file and
//! the shim's request head are written with, and the parser that reads
//! them back the way `str::parse` does.

use vstd::prelude::*;

use crate::text::{char_from_ascii, string_of};

verus! {

/// The character of a decimal digit.
pub open spec fn digit_char(d: int) -> char {
    (48 + d) as char
}

pub open spec fn is_digit(c: char) -> bool {
    '0' <= c && c <= '9'
}

/// The value of a digit character.
pub open spec fn digit_val(c: char) -> int {
    c as int - 48
}

/// The decimal digits of `n`, most significant first, without leading
/// zeros (a lone `0` for zero).
pub open spec fn digits_of(n: nat) -> Seq<char>
    decreases n,
{
    if n < 10 {
        seq![digit_char(n as int)]
    } else {
        digits_of(n / 10).push(digit_char((n % 10) as int))
    }
}

/// The value of a sequence of digit characters.
pub open spec fn value_of(ds: Seq<char>) -> int
    decreases ds.len(),
{
    if ds.len() == 0 {
        0
    } else {
        value_of(ds.drop_last()) * 10 + digit_val(ds.last())
    }
}

pub open spec fn all_digits(ds: Seq<char>) -> bool {
    forall|i: int| 0 <= i < ds.len() ==> is_digit(#[trigger] ds[i])
}

/// The text of an `i64`: a minus sign for a negative value, then the
/// digits of its magnitude.
pub open spec fn i64_text(n: i64) -> Seq<char> {
    if n < 0 {
        seq!['-'] + digits_of((-(n as int)) as nat)
    } else {
        digits_of(n as nat)
    }
}

/// `str::parse::<i64>`: an optional `+` or `-`, then at least one digit
/// and nothing else, in range.
pub open spec fn parse_i64_spec(t: Seq<char>) -> Option<i64> {
    let neg = t.len() > 0 && t[0] == '-';
    let signed = t.len() > 0 && (t[0] == '-' || t[0] == '+');
    let ds = if signed {
        t.drop_first()
    } else {
        t
    };
    if ds.len() == 0 || !all_digits(ds) {
        None
    } else if neg {
        if -value_of(ds) >= i64::MIN {
            Some((-value_of(ds)) as i64)
        } else {
            None
        }
    } else if value_of(ds) <= i64::MAX {
        Some(value_of(ds) as i64)
    } else {
        None
    }
}

/// `str::parse::<u16>`: an optional `+`, then at least one digit and
/// nothing else, in range.
pub open spec fn parse_u16_spec(t: Seq<char>) -> Option<u16> {
    let ds = if t.len() > 0 && t[0] == '+' {
        t.drop_first()
    } else {
        t
    };
    if ds.len() == 0 || !all_digits(ds) || value_of(ds) > u16::MAX {
        None
    } else {
        Some(value_of(ds) as u16)
    }
}

proof fn lemma_digit(d: int)
    requires
        0 <= d < 10,
    ensures
        digit_val(digit_char(d)) == d,
        is_digit(digit_char(d)),
{
    assert((48 + d) as char as int == 48 + d);
}

pub proof fn lemma_digits_of(n: nat)
    ensures
        all_digits(digits_of(n)),
        value_of(digits_of(n)) == n,
        1 <= digits_of(n).len(),
        n < 10 ==> digits_of(n).len() == 1,
    decreases n,
{
    lemma_digit((n % 10) as int);
    if n < 10 {
        lemma_digit(n as int);
        assert(digits_of(n).drop_last() =~= Seq::<char>::empty());
        assert(value_of(Seq::<char>::empty()) == 0);
        assert(digits_of(n).last() == digit_char(n as int));
    }
    if n >= 10 {
        lemma_digits_of(n / 10);
        let p = digits_of(n / 10);
        assert(digits_of(n).drop_last() =~= p);
        assert((n / 10) * 10 + n % 10 == n) by (nonlinear_arith);
        assert(digits_of(n).last() == digit_char((n % 10) as int));
        assert(value_of(digits_of(n)) == value_of(p) * 10 + digit_val(digit_char((n % 10) as int)));
        assert forall|i: int| 0 <= i < digits_of(n).len() implies is_digit(#[trigger] digits_of(n)[i]) by {
            if i < p.len() {
                assert(digits_of(n)[i] == p[i]);
            }
        }
    }
}

proof fn lemma_value_nonneg(ds: Seq<char>)
    requires
        all_digits(ds),
    ensures
        value_of(ds) >= 0,
    decreases ds.len(),
{
    if ds.len() > 0 {
        assert(all_digits(ds.drop_last()));
        lemma_value_nonneg(ds.drop_last());
    }
}

/// Growing a digit string never lowers its value.
proof fn lemma_value_grows(ds: Seq<char>, k: int)
    requires
        all_digits(ds),
        0 <= k <= ds.len(),
    ensures
        value_of(ds.take(k)) <= value_of(ds),
    decreases ds.len() - k,
{
    if k < ds.len() {
        lemma_value_grows(ds, k + 1);
        assert(ds.take(k + 1).drop_last() =~= ds.take(k));
        assert(all_digits(ds.take(k)));
        lemma_value_nonneg(ds.take(k));
    } else {
        assert(ds.take(k) =~= ds);
    }
}

fn push_digits(n: u64, out: &mut Vec<char>)
    ensures
        final(out)@ == old(out)@ + digits_of(n as nat),
    decreases n,
{
    if n >= 10 {
        push_digits(n / 10, out);
    }
    let d: u32 = (n % 10) as u32;
    out.push(char_from_ascii(48 + d));
    proof {
        if n >= 10 {
            assert(digits_of(n as nat) == digits_of((n / 10) as nat).push(digit_char((n % 10) as int)));
        }
    }
}

/// The decimal text of `n`.
pub fn decimal_u64(n: u64) -> (s: String)
    ensures
        s@ == digits_of(n as nat),
{
    let mut cs: Vec<char> = Vec::new();
    push_digits(n, &mut cs);
    assert(cs@ =~= digits_of(n as nat));
    string_of(cs.as_slice())
}

/// The decimal text of `n`, with a minus sign when negative.
pub fn decimal_i64(n: i64) -> (s: String)
    ensures
        s@ == i64_text(n),
{
    let mut cs: Vec<char> = Vec::new();
    if n < 0 {
        cs.push('-');
        let mag: u64 = if n == i64::MIN {
            9_223_372_036_854_775_808u64
        } else {
            (-n) as u64
        };
        push_digits(mag, &mut cs);
    } else {
        push_digits(n as u64, &mut cs);
    }
    assert(cs@ =~= i64_text(n));
    string_of(cs.as_slice())
}

/// The value of the digits `ds[from..]`, when it is at most `limit`.
fn digits_value(ds: &Vec<char>, from: usize, limit: u64) -> (r: Option<u64>)
    requires
        from <= ds@.len(),
    ensures
        match r {
            Some(v) => all_digits(ds@.skip(from as int)) && v == value_of(ds@.skip(from as int)) && v <= limit,
            None => !all_digits(ds@.skip(from as int)) || value_of(ds@.skip(from as int)) > limit,
        },
{
    let ghost t = ds@.skip(from as int);
    let mut acc: u64 = 0;
    let mut i: usize = from;
    while i < ds.len()
        invariant
            t == ds@.skip(from as int),
            from <= i <= ds@.len(),
            all_digits(t.take(i - from)),
            acc == value_of(t.take(i - from)),
            acc <= limit,
        decreases ds@.len() - i,
    {
        let c = ds[i];
        proof {
            assert(t.take(i - from + 1).drop_last() =~= t.take(i - from));
            assert(t[i - from] == c);
        }
        if !('0' <= c && c <= '9') {
            proof {
                assert(!is_digit(t[i - from]));
            }
            return None;
        }
        let d: u64 = (c as u32 - 48) as u64;
        if d > limit || acc > (limit - d) / 10 {
            proof {
                assert(all_digits(t.take(i - from + 1))) by {
                    assert forall|j: int| 0 <= j < t.take(i - from + 1).len() implies is_digit(#[trigger] t.take(i - from + 1)[j]) by {
                        if j < i - from {
                            assert(t.take(i - from + 1)[j] == t.take(i - from)[j]);
                        }
                    }
                }
                assert(value_of(t.take(i - from + 1)) == acc * 10 + d);
                if d <= limit {
                    assert(acc * 10 + d > limit) by (nonlinear_arith)
                        requires
                            acc > (limit - d) / 10,
                            d <= limit,
                    ;
                }
                if all_digits(t) {
                    lemma_value_grows(t, i - from + 1);
                }
            }
            return None;
        }
        proof {
            assert(acc * 10 + d <= limit) by (nonlinear_arith)
                requires
                    acc <= (limit - d) / 10,
                    d <= limit,
            ;
        }
        acc = acc * 10 + d;
        proof {
            assert forall|j: int| 0 <= j < t.take(i - from + 1).len() implies is_digit(#[trigger] t.take(i - from + 1)[j]) by {
                if j < i - from {
                    assert(t.take(i - from + 1)[j] == t.take(i - from)[j]);
                }
            }
        }
        i = i + 1;
    }
    proof {
        assert(t.take(i - from) =~= t);
    }
    Some(acc)
}

/// `str::parse::<i64>` on the given characters.
pub fn parse_i64(t: &Vec<char>) -> (r: Option<i64>)
    ensures
        r == parse_i64_spec(t@),
{
    let neg = t.len() > 0 && t[0] == '-';
    let signed = t.len() > 0 && (t[0] == '-' || t[0] == '+');
    let from: usize = if signed {
        1
    } else {
        0
    };
    proof {
        if signed {
            assert(t@.skip(1) =~= t@.drop_first());
        } else {
            assert(t@.skip(0) =~= t@);
        }
    }
    if from >= t.len() {
        return None;
    }
    let limit: u64 = if neg {
        9_223_372_036_854_775_808u64
    } else {
        9_223_372_036_854_775_807u64
    };
    match digits_value(t, from, limit) {
        Some(v) => if neg {
            if v == 9_223_372_036_854_775_808u64 {
                Some(i64::MIN)
            } else {
                Some(-(v as i64))
            }
        } else {
            Some(v as i64)
        },
        None => None,
    }
}

/// `str::parse::<u16>` on the given characters.
pub fn parse_u16(t: &Vec<char>) -> (r: Option<u16>)
    ensures
        r == parse_u16_spec(t@),
{
    let from: usize = if t.len() > 0 && t[0] == '+' {
        1
    } else {
        0
    };
    proof {
        if from == 1 {
            assert(t@.skip(1) =~= t@.drop_first());
        } else {
            assert(t@.skip(0) =~= t@);
        }
    }
    if from >= t.len() {
        return None;
    }
    match digits_value(t, from, 65535) {
        Some(v) => Some(v as u16),
        None => None,
    }
}

/// Every `i64` reads back from its own text.
pub proof fn law_i64_text_round_trips(n: i64)
    ensures
        parse_i64_spec(i64_text(n)) == Some(n),
{
    if n < 0 {
        let m = (-(n as int)) as nat;
        lemma_digits_of(m);
        let t = i64_text(n);
        assert(t.drop_first() =~= digits_of(m));
    } else {
        lemma_digits_of(n as nat);
        let ds = digits_of(n as nat);
        assert(ds[0] != '-' && ds[0] != '+') by {
            assert(is_digit(ds[0]));
        }
    }
}

/// Every `u16` reads back from its own digits.
pub proof fn law_u16_text_round_trips(n: u16)
    ensures
        parse_u16_spec(digits_of(n as nat)) == Some(n),
{
    lemma_digits_of(n as nat);
    let ds = digits_of(n as nat);
    assert(is_digit(ds[0]));
}

} // verus!
