//! Splitting text into lines and whitespace-separated words, the way
//! `str::lines` and `str::split_whitespace` read it.

use vstd::prelude::*;

use crate::window_match::{is_ws, is_ws_char};

verus! {

/// The pieces of `s` between separators, empty pieces included: one
/// more piece than there are separators.
pub open spec fn pieces(s: Seq<char>, sep: spec_fn(char) -> bool) -> Seq<Seq<char>>
    decreases s.len(),
{
    if s.len() == 0 {
        seq![Seq::<char>::empty()]
    } else {
        let p = pieces(s.drop_last(), sep);
        if sep(s.last()) {
            p.push(Seq::empty())
        } else {
            p.update(p.len() - 1, p.last().push(s.last()))
        }
    }
}

/// The non-empty entries of `ps`, in order.
pub open spec fn nonempty(ps: Seq<Seq<char>>) -> Seq<Seq<char>>
    decreases ps.len(),
{
    if ps.len() == 0 {
        Seq::empty()
    } else {
        let r = nonempty(ps.drop_last());
        if ps.last().len() > 0 {
            r.push(ps.last())
        } else {
            r
        }
    }
}

pub open spec fn is_newline(c: char) -> bool {
    c == '\n'
}

/// The lines of `s`: the pieces between newlines.
pub open spec fn lines_of(s: Seq<char>) -> Seq<Seq<char>> {
    pieces(s, |c: char| is_newline(c))
}

/// `split_whitespace`: the non-empty runs between whitespace.
pub open spec fn words_of(s: Seq<char>) -> Seq<Seq<char>> {
    nonempty(pieces(s, |c: char| is_ws(c)))
}

pub open spec fn char_vecs(v: Seq<Vec<char>>) -> Seq<Seq<char>> {
    v.map_values(|x: Vec<char>| x@)
}

proof fn lemma_pieces_nonempty(s: Seq<char>, sep: spec_fn(char) -> bool)
    ensures
        pieces(s, sep).len() >= 1,
    decreases s.len(),
{
    if s.len() > 0 {
        lemma_pieces_nonempty(s.drop_last(), sep);
    }
}

/// The lines of `cs`.
pub fn split_lines(cs: &Vec<char>) -> (out: Vec<Vec<char>>)
    ensures
        char_vecs(out@) == lines_of(cs@),
{
    let ghost sep = |c: char| is_newline(c);
    let mut out: Vec<Vec<char>> = Vec::new();
    let mut cur: Vec<char> = Vec::new();
    let mut i: usize = 0;
    while i < cs.len()
        invariant
            i <= cs@.len(),
            sep == (|c: char| is_newline(c)),
            char_vecs(out@).push(cur@) == pieces(cs@.take(i as int), sep),
        decreases cs@.len() - i,
    {
        let c = cs[i];
        proof {
            assert(cs@.take(i + 1).drop_last() =~= cs@.take(i as int));
            assert(cs@.take(i + 1).last() == c);
            lemma_pieces_nonempty(cs@.take(i as int), sep);
        }
        if c == '\n' {
            let ghost o = out@;
            let done = cur;
            cur = Vec::new();
            out.push(done);
            proof {
                assert(char_vecs(out@) =~= char_vecs(o).push(done@));
                assert(char_vecs(out@).push(cur@) =~= pieces(cs@.take(i + 1), sep));
            }
        } else {
            let ghost before = cur@;
            cur.push(c);
            proof {
                let p = pieces(cs@.take(i as int), sep);
                assert(p.last() == before);
                assert(char_vecs(out@).push(cur@) =~= p.update(p.len() - 1, p.last().push(c)));
            }
        }
        i = i + 1;
    }
    proof {
        assert(cs@.take(cs@.len() as int) =~= cs@);
    }
    let ghost o = out@;
    out.push(cur);
    proof {
        assert(char_vecs(out@) =~= char_vecs(o).push(out@[o.len() as int]@));
    }
    out
}

/// The whitespace-separated words of `cs`.
pub fn split_words(cs: &Vec<char>) -> (out: Vec<Vec<char>>)
    ensures
        char_vecs(out@) == words_of(cs@),
{
    let ghost sep = |c: char| is_ws(c);
    let ghost mut done: Seq<Seq<char>> = Seq::empty();
    let mut out: Vec<Vec<char>> = Vec::new();
    let mut cur: Vec<char> = Vec::new();
    let mut i: usize = 0;
    while i < cs.len()
        invariant
            i <= cs@.len(),
            sep == (|c: char| is_ws(c)),
            done.push(cur@) == pieces(cs@.take(i as int), sep),
            char_vecs(out@) == nonempty(done),
        decreases cs@.len() - i,
    {
        let c = cs[i];
        proof {
            assert(cs@.take(i + 1).drop_last() =~= cs@.take(i as int));
            assert(cs@.take(i + 1).last() == c);
        }
        if is_ws_char(c) {
            let ghost o = out@;
            proof {
                assert(done.push(cur@).drop_last() =~= done);
                done = done.push(cur@);
                assert(pieces(cs@.take(i + 1), sep) == done.push(Seq::<char>::empty()));
            }
            if cur.len() > 0 {
                let w = cur;
                cur = Vec::new();
                out.push(w);
                proof {
                    assert(char_vecs(out@) =~= char_vecs(o).push(w@));
                    assert(done.drop_last() =~= done.drop_last());
                }
            } else {
                cur = Vec::new();
            }
            proof {
                assert(cur@ =~= Seq::<char>::empty());
            }
        } else {
            let ghost before = cur@;
            cur.push(c);
            proof {
                let p = pieces(cs@.take(i as int), sep);
                assert(p.last() == before);
                assert(p.drop_last() =~= done);
                assert(done.push(cur@) =~= p.update(p.len() - 1, p.last().push(c)));
            }
        }
        i = i + 1;
    }
    proof {
        assert(cs@.take(cs@.len() as int) =~= cs@);
        assert(done.push(cur@).drop_last() =~= done);
    }
    if cur.len() > 0 {
        let ghost o = out@;
        out.push(cur);
        proof {
            assert(char_vecs(out@) =~= char_vecs(o).push(out@[o.len() as int]@));
        }
    }
    out
}


/// Splitting at a separator splits the pieces: what lies before it and
/// what lies after it are split independently.
pub proof fn lemma_pieces_concat(a: Seq<char>, x: char, b: Seq<char>, sep: spec_fn(char) -> bool)
    requires
        sep(x),
    ensures
        pieces(a + seq![x] + b, sep) == pieces(a, sep) + pieces(b, sep),
    decreases b.len(),
{
    if b.len() == 0 {
        assert((a + seq![x] + b).drop_last() =~= a);
        assert(a + seq![x] + b =~= (a + seq![x] + b).drop_last().push(x));
        assert(pieces(b, sep) =~= seq![Seq::<char>::empty()]);
        assert(pieces(a, sep).push(Seq::<char>::empty()) =~= pieces(a, sep) + seq![Seq::<char>::empty()]);
    } else {
        let b0 = b.drop_last();
        let y = b.last();
        lemma_pieces_concat(a, x, b0, sep);
        let s = a + seq![x] + b;
        assert(s.drop_last() =~= a + seq![x] + b0);
        assert(s.last() == y);
        lemma_pieces_nonempty(b0, sep);
        let pa = pieces(a, sep);
        let pb = pieces(b0, sep);
        if sep(y) {
            assert((pa + pb).push(Seq::<char>::empty()) =~= pa + pb.push(Seq::<char>::empty()));
        } else {
            assert((pa + pb).update((pa + pb).len() - 1, (pa + pb).last().push(y)) =~= pa + pb.update(
                pb.len() - 1,
                pb.last().push(y),
            ));
        }
    }
}

/// A text holding no separator is a single piece.
pub proof fn lemma_pieces_single(a: Seq<char>, sep: spec_fn(char) -> bool)
    requires
        forall|i: int| 0 <= i < a.len() ==> !sep(#[trigger] a[i]),
    ensures
        pieces(a, sep) == seq![a],
    decreases a.len(),
{
    if a.len() > 0 {
        let a0 = a.drop_last();
        assert forall|i: int| 0 <= i < a0.len() implies !sep(#[trigger] a0[i]) by {
            assert(a0[i] == a[i]);
        }
        lemma_pieces_single(a0, sep);
        assert(!sep(a[a.len() - 1]));
        assert(a0.push(a.last()) =~= a);
        assert(seq![a0].update(0, a0.push(a.last())) =~= seq![a]);
    } else {
        assert(a =~= Seq::<char>::empty());
    }
}

pub proof fn lemma_nonempty_concat(x: Seq<Seq<char>>, y: Seq<Seq<char>>)
    ensures
        nonempty(x + y) == nonempty(x) + nonempty(y),
    decreases y.len(),
{
    if y.len() == 0 {
        assert(x + y =~= x);
        assert(nonempty(x) + nonempty(y) =~= nonempty(x));
    } else {
        lemma_nonempty_concat(x, y.drop_last());
        assert((x + y).drop_last() =~= x + y.drop_last());
        assert((x + y).last() == y.last());
        if y.last().len() > 0 {
            assert((nonempty(x) + nonempty(y.drop_last())).push(y.last()) =~= nonempty(x) + nonempty(y.drop_last()).push(
                y.last(),
            ));
        }
    }
}
} // verus!
