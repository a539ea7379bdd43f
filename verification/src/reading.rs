//! The states an automaton can be in after reading a string: those of the
//! empty string are the empty-string closure of the start state, and one
//! character more leads to the closure of the targets of the states before.

use vstd::prelude::*;
use crate::sorted::{char_position, lemma_char_position};
use crate::closure::{eps_step, eps_link, eps_path, eps_reaches, lemma_reaches_refl,
    lemma_reaches_trans, lemma_step_then_reaches};
use crate::language::{moves, is_run, run_link, run_between, word_of, lemma_run_one, lemma_run_join,
    lemma_run_slice, lemma_word_split, lemma_moves_in_range};
use crate::nfa::NfaModel;

verus! {

/// Some run of `m` from the start state to `x` reads `w`.
pub open spec fn reads_to(m: NfaModel, w: Seq<char>, x: usize) -> bool {
    exists|p: Seq<usize>, l: Seq<Option<char>>| #[trigger] run_between(m, p, l, 0, x, w)
}

/// `x` is reachable by empty-string moves from a target, in input column
/// `j`, of a state of `s`.
pub open spec fn in_next(m: NfaModel, s: Seq<usize>, j: int, x: usize) -> bool {
    exists|f: usize, t: usize| s.contains(f) && #[trigger] m.table[f as int][j].contains(t) && eps_reaches(m, t, x)
}

/// Labels that are all empty read nothing.
proof fn lemma_word_of_empty_labels(n: nat)
    ensures
        word_of(Seq::new(n, |i: int| None::<char>)) == Seq::<char>::empty(),
    decreases n,
{
    if n > 0 {
        let l = Seq::new(n, |i: int| None::<char>);
        assert(l.drop_last() =~= Seq::new((n - 1) as nat, |i: int| None::<char>));
        lemma_word_of_empty_labels((n - 1) as nat);
    }
}

/// A path of empty-string moves is a run that reads nothing.
proof fn lemma_eps_path_run(m: NfaModel, p: Seq<usize>, u: usize, v: usize)
    requires
        eps_path(m, p, u, v),
    ensures
        is_run(m, p, Seq::new((p.len() - 1) as nat, |i: int| None::<char>)),
        word_of(Seq::new((p.len() - 1) as nat, |i: int| None::<char>)) == Seq::<char>::empty(),
{
    let l = Seq::new((p.len() - 1) as nat, |i: int| None::<char>);
    assert forall|i: int| 0 <= i < l.len() implies #[trigger] run_link(m, p, l, i) by {
        assert(eps_link(m, p, i));
    }
    lemma_word_of_empty_labels((p.len() - 1) as nat);
}

/// Labels that read nothing are all empty.
proof fn lemma_reads_nothing(l: Seq<Option<char>>)
    requires
        word_of(l) == Seq::<char>::empty(),
    ensures
        forall|k: int| 0 <= k < l.len() ==> #[trigger] l[k] is None,
    decreases l.len(),
{
    if l.len() > 0 {
        if l.last() is Some {
            assert(word_of(l).len() > 0);
        }
        lemma_reads_nothing(l.drop_last());
        assert forall|k: int| 0 <= k < l.len() implies #[trigger] l[k] is None by {
            if k < l.len() - 1 {
                assert(l.drop_last()[k] is None);
            }
        }
    }
}

/// A run whose labels are all empty follows empty-string moves.
proof fn lemma_empty_run_reaches(m: NfaModel, p: Seq<usize>, l: Seq<Option<char>>)
    requires
        is_run(m, p, l),
        forall|k: int| 0 <= k < l.len() ==> #[trigger] l[k] is None,
    ensures
        eps_reaches(m, p[0], p.last()),
    decreases l.len(),
{
    if l.len() == 0 {
        lemma_reaches_refl(m, p[0]);
    } else {
        let n = l.len();
        lemma_run_slice(m, p, l, 0, n - 1);
        let p1 = p.subrange(0, n as int);
        let l1 = l.subrange(0, n - 1);
        assert forall|k: int| 0 <= k < l1.len() implies #[trigger] l1[k] is None by {
            assert(l[k] is None);
        }
        lemma_empty_run_reaches(m, p1, l1);
        assert(run_link(m, p, l, n - 1));
        assert(l[n - 1] is None);
        let a = p[n - 1];
        let b = p[n as int];
        assert(p1[0] == p[0] && p1.last() == a);
        if a != b {
            assert(eps_step(m, a, b));
            lemma_reaches_refl(m, b);
            lemma_step_then_reaches(m, a, b, b);
            lemma_reaches_trans(m, p[0], a, b);
        }
    }
}

/// Labels that read `u` followed by `c` hold `c` at some position, read `u`
/// before it and nothing after it.
proof fn lemma_last_char(l: Seq<Option<char>>, u: Seq<char>, c: char) -> (i: int)
    requires
        word_of(l) == u.push(c),
    ensures
        0 <= i < l.len(),
        l[i] == Some(c),
        word_of(l.subrange(0, i)) == u,
        forall|k: int| i < k < l.len() ==> #[trigger] l[k] is None,
    decreases l.len(),
{
    if l.len() == 0 {
        assert(u.push(c).len() > 0);
        0
    } else {
        let d = l.drop_last();
        assert(d =~= l.subrange(0, l.len() - 1));
        match l.last() {
            Some(ch) => {
                assert(word_of(l) == word_of(d).push(ch));
                assert(word_of(d).len() == u.len());
                assert(ch == u.push(c)[u.len() as int]);
                assert(word_of(d) =~= u) by {
                    assert forall|q: int| 0 <= q < u.len() implies word_of(d)[q] == u[q] by {
                        assert(word_of(d).push(ch)[q] == u.push(c)[q]);
                    }
                }
                (l.len() - 1) as int
            },
            None => {
                let i = lemma_last_char(d, u, c);
                assert(d.subrange(0, i) =~= l.subrange(0, i));
                assert forall|k: int| i < k < l.len() implies #[trigger] l[k] is None by {
                    if k < l.len() - 1 {
                        assert(d[k] is None);
                    }
                }
                i
            },
        }
    }
}

/// The end of a run from the start state exists.
pub proof fn lemma_reads_in_range(m: NfaModel, w: Seq<char>, x: usize)
    requires
        m.wf(),
        reads_to(m, w, x),
    ensures
        x < m.table.len(),
{
    let (p, l) = choose|p: Seq<usize>, l: Seq<Option<char>>| #[trigger] run_between(m, p, l, 0, x, w);
    if l.len() > 0 {
        assert(run_link(m, p, l, l.len() - 1));
        lemma_moves_in_range(m, p[l.len() - 1], p[l.len() as int], l[l.len() - 1]);
    }
}

/// The states reached while reading nothing are those the start state
/// reaches by empty-string moves.
pub proof fn lemma_reads_empty(m: NfaModel, x: usize)
    ensures
        reads_to(m, Seq::<char>::empty(), x) <==> eps_reaches(m, 0, x),
{
    if eps_reaches(m, 0, x) {
        let q = choose|q: Seq<usize>| eps_path(m, q, 0, x);
        lemma_eps_path_run(m, q, 0, x);
        let l = Seq::new((q.len() - 1) as nat, |i: int| None::<char>);
        assert(run_between(m, q, l, 0, x, Seq::<char>::empty()));
    }
    if reads_to(m, Seq::<char>::empty(), x) {
        let (p, l) = choose|p: Seq<usize>, l: Seq<Option<char>>| #[trigger] run_between(m, p, l, 0, x, Seq::<char>::empty());
        lemma_reads_nothing(l);
        lemma_empty_run_reaches(m, p, l);
    }
}

/// With `s` the states reached while reading `u`, those reached while
/// reading `u` followed by `c` are the empty-string closure of the targets
/// of `s` on `c`; none where `c` is outside the alphabet.
pub proof fn lemma_reads_push(m: NfaModel, s: Seq<usize>, u: Seq<char>, c: char, x: usize)
    requires
        m.wf(),
        forall|y: usize| #[trigger] s.contains(y) <==> reads_to(m, u, y),
    ensures
        reads_to(m, u.push(c), x) <==> (char_position(m.inputs, c) < m.inputs.len() && in_next(
            m,
            s,
            char_position(m.inputs, c),
            x,
        )),
{
    let j = char_position(m.inputs, c);
    lemma_char_position(m.inputs, c);
    if reads_to(m, u.push(c), x) {
        let (p, l) = choose|p: Seq<usize>, l: Seq<Option<char>>| #[trigger] run_between(m, p, l, 0, x, u.push(c));
        let i = lemma_last_char(l, u, c);
        lemma_run_slice(m, p, l, 0, i);
        let p1 = p.subrange(0, i + 1);
        let l1 = l.subrange(0, i);
        assert(run_between(m, p1, l1, 0, p[i], u));
        assert(s.contains(p[i]));
        assert(run_link(m, p, l, i));
        assert(moves(m, p[i], p[i + 1], Some(c)));
        lemma_run_slice(m, p, l, i + 1, l.len() as int);
        let p2 = p.subrange(i + 1, l.len() + 1 as int);
        let l2 = l.subrange(i + 1, l.len() as int);
        assert forall|k: int| 0 <= k < l2.len() implies #[trigger] l2[k] is None by {
            assert(l[i + 1 + k] is None);
        }
        lemma_empty_run_reaches(m, p2, l2);
        assert(p2[0] == p[i + 1]);
        assert(p2.last() == x);
        assert(m.table[p[i] as int][j].contains(p[i + 1]));
        assert(in_next(m, s, j, x));
    }
    if j < m.inputs.len() && in_next(m, s, j, x) {
        let (f, t) = choose|f: usize, t: usize| s.contains(f) && #[trigger] m.table[f as int][j].contains(t) && eps_reaches(m, t, x);
        assert(reads_to(m, u, f));
        lemma_reads_in_range(m, u, f);
        assert(moves(m, f, t, Some(c)));
        lemma_reads_step(m, u, f, c, t, x);
    }
}

/// A run from the start state to `f` reading `u`, a move from `f` to `t` on
/// `c`, and empty-string moves from `t` to `x` make a run to `x` reading `u`
/// followed by `c`.
proof fn lemma_reads_step(m: NfaModel, u: Seq<char>, f: usize, c: char, t: usize, x: usize)
    requires
        reads_to(m, u, f),
        moves(m, f, t, Some(c)),
        eps_reaches(m, t, x),
    ensures
        reads_to(m, u.push(c), x),
{
    let (p1, l1) = choose|p: Seq<usize>, l: Seq<Option<char>>| #[trigger] run_between(m, p, l, 0, f, u);
    lemma_run_one(m, f, t, Some(c));
    let p2 = seq![f, t];
    let l2 = seq![Some(c)];
    lemma_run_join(m, p1, l1, p2, l2);
    let p3 = p1 + p2.drop_first();
    let l3 = l1 + l2;
    assert(word_of(l3) == u + seq![c]);
    let q = choose|q: Seq<usize>| eps_path(m, q, t, x);
    lemma_eps_path_run(m, q, t, x);
    let l4 = Seq::new((q.len() - 1) as nat, |i: int| None::<char>);
    lemma_run_join(m, p3, l3, q, l4);
    let p5 = p3 + q.drop_first();
    let l5 = l3 + l4;
    assert(word_of(l5) == u + seq![c] + Seq::<char>::empty());
    assert(u + seq![c] + Seq::<char>::empty() =~= u.push(c));
    assert(run_between(m, p5, l5, 0, x, u.push(c)));
}

/// Once no state is reached, reading more reaches none either.
pub proof fn lemma_reads_none_after(m: NfaModel, u: Seq<char>, v: Seq<char>)
    requires
        m.wf(),
        forall|x: usize| !#[trigger] reads_to(m, u, x),
    ensures
        forall|x: usize| !#[trigger] reads_to(m, u + v, x),
    decreases v.len(),
{
    if v.len() == 0 {
        assert(u + v =~= u);
    } else {
        let e = Seq::<usize>::empty();
        let c = v[0];
        assert forall|x: usize| !#[trigger] reads_to(m, u.push(c), x) by {
            lemma_reads_push(m, e, u, c, x);
        }
        lemma_reads_none_after(m, u.push(c), v.drop_first());
        assert(u.push(c) + v.drop_first() =~= u + v);
    }
}

} // verus!
