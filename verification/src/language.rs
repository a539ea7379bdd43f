//! The strings an automaton accepts, and what each construction does to
//! them: a single character accepts itself, concatenation accepts the
//! strings of one followed by the strings of the other, union the strings of
//! either, and star any number of strings of its operand one after another.

use vstd::prelude::*;
use crate::nfa::{NfaModel, widen, single_char_model, concat_model, union_model, star_model};
use crate::sorted::{strictly_sorted, strictly_sorted_chars, char_position, lemma_char_position,
    merge_chars, lemma_merge_chars, insert_sorted,
    lemma_insert_sorted_props};
use crate::table::{shift_cell, shift_row, shift_from, add_eps_move, empty_cells, start_cells};

verus! {

/// One move of `m` from `u` to `v`: on the character `c`, or on the empty
/// string when `c` is `None`.
pub open spec fn moves(m: NfaModel, u: usize, v: usize, c: Option<char>) -> bool {
    &&& u < m.table.len()
    &&& match c {
        None => m.eps(u as int).contains(v),
        Some(ch) => char_position(m.inputs, ch) < m.inputs.len() && m.table[u as int][char_position(
            m.inputs,
            ch,
        )].contains(v),
    }
}

/// Step `i` of the run with states `p` and labels `l` is a move.
pub open spec fn run_link(m: NfaModel, p: Seq<usize>, l: Seq<Option<char>>, i: int) -> bool {
    moves(m, p[i], p[i + 1], l[i])
}

/// `p` and `l` form a run: the states, and the label of each move between
/// consecutive states.
pub open spec fn is_run(m: NfaModel, p: Seq<usize>, l: Seq<Option<char>>) -> bool {
    &&& p.len() == l.len() + 1
    &&& forall|i: int| 0 <= i < l.len() ==> #[trigger] run_link(m, p, l, i)
}

/// The characters read along the labels, in order.
pub open spec fn word_of(l: Seq<Option<char>>) -> Seq<char>
    decreases l.len(),
{
    if l.len() == 0 {
        Seq::empty()
    } else {
        match l.last() {
            Some(c) => word_of(l.drop_last()).push(c),
            None => word_of(l.drop_last()),
        }
    }
}

/// A run from `u` to `v` that reads `w`.
pub open spec fn run_between(m: NfaModel, p: Seq<usize>, l: Seq<Option<char>>, u: usize, v: usize, w: Seq<char>) -> bool {
    &&& is_run(m, p, l)
    &&& p[0] == u
    &&& p.last() == v
    &&& word_of(l) == w
}

/// `m` accepts `w`: some run from the start state to the final state (the
/// last one) reads `w`.
pub open spec fn accepts(m: NfaModel, w: Seq<char>) -> bool {
    exists|p: Seq<usize>, l: Seq<Option<char>>| #[trigger] run_between(m, p, l, 0, (m.table.len() - 1) as usize, w)
}

/// The characters read along two label sequences one after the other.
pub proof fn lemma_word_of_concat(l1: Seq<Option<char>>, l2: Seq<Option<char>>)
    ensures
        word_of(l1 + l2) == word_of(l1) + word_of(l2),
    decreases l2.len(),
{
    if l2.len() == 0 {
        assert(l1 + l2 =~= l1);
        assert(word_of(l1) + word_of(l2) =~= word_of(l1));
    } else {
        lemma_word_of_concat(l1, l2.drop_last());
        assert((l1 + l2).drop_last() =~= l1 + l2.drop_last());
        match l2.last() {
            Some(c) => {
                assert(word_of(l1) + word_of(l2) =~= (word_of(l1) + word_of(l2.drop_last())).push(c));
            },
            None => {},
        }
    }
}

/// Two runs, the second starting where the first ends, form a run.
pub proof fn lemma_run_join(m: NfaModel, p1: Seq<usize>, l1: Seq<Option<char>>, p2: Seq<usize>, l2: Seq<Option<char>>)
    requires
        is_run(m, p1, l1),
        is_run(m, p2, l2),
        p1.last() == p2[0],
    ensures
        is_run(m, p1 + p2.drop_first(), l1 + l2),
        (p1 + p2.drop_first())[0] == p1[0],
        (p1 + p2.drop_first()).last() == p2.last(),
        word_of(l1 + l2) == word_of(l1) + word_of(l2),
{
    let p = p1 + p2.drop_first();
    let l = l1 + l2;
    assert forall|i: int| 0 <= i < l.len() implies #[trigger] run_link(m, p, l, i) by {
        if i < l1.len() {
            assert(run_link(m, p1, l1, i));
            if i == l1.len() - 1 {
                assert(p[i + 1] == p2[0]);
            }
        } else {
            let k = i - l1.len();
            assert(run_link(m, p2, l2, k));
            assert(p[i] == p2[k]);
            assert(p[i + 1] == p2[k + 1]);
        }
    }
    lemma_word_of_concat(l1, l2);
    if l2.len() == 0 {
        assert(p.last() == p1.last());
    }
}

/// A single move forms a run.
pub proof fn lemma_run_one(m: NfaModel, u: usize, v: usize, c: Option<char>)
    requires
        moves(m, u, v, c),
    ensures
        is_run(m, seq![u, v], seq![c]),
        word_of(seq![c]) == (match c {
            Some(ch) => seq![ch],
            None => Seq::<char>::empty(),
        }),
{
    assert(run_link(m, seq![u, v], seq![c], 0));
    let l = seq![c];
    assert(l.drop_last() =~= Seq::<Option<char>>::empty());
    assert(word_of(l.drop_last()) == Seq::<char>::empty());
    match c {
        Some(ch) => {
            assert(Seq::<char>::empty().push(ch) =~= seq![ch]);
        },
        None => {},
    }
}

/// The part of a run between two of its positions is a run.
pub proof fn lemma_run_slice(m: NfaModel, p: Seq<usize>, l: Seq<Option<char>>, i: int, j: int)
    requires
        is_run(m, p, l),
        0 <= i <= j <= l.len(),
    ensures
        is_run(m, p.subrange(i, j + 1), l.subrange(i, j)),
{
    let q = p.subrange(i, j + 1);
    let k = l.subrange(i, j);
    assert forall|x: int| 0 <= x < k.len() implies #[trigger] run_link(m, q, k, x) by {
        assert(run_link(m, p, l, i + x));
    }
}

/// Splitting the labels of a run splits its word.
pub proof fn lemma_word_split(l: Seq<Option<char>>, i: int)
    requires
        0 <= i <= l.len(),
    ensures
        word_of(l) == word_of(l.subrange(0, i)) + word_of(l.subrange(i, l.len() as int)),
{
    lemma_word_of_concat(l.subrange(0, i), l.subrange(i, l.len() as int));
    assert(l.subrange(0, i) + l.subrange(i, l.len() as int) =~= l);
}

/// Re-laying an automaton over a larger alphabet keeps exactly its moves.
pub proof fn lemma_widen_moves(m: NfaModel, u: Seq<char>, x: usize, y: usize, c: Option<char>)
    requires
        m.wf(),
        strictly_sorted_chars(u),
        forall|ch: char| m.inputs.contains(ch) ==> u.contains(ch),
    ensures
        moves(widen(m, u), x, y, c) == moves(m, x, y, c),
{
    let w = widen(m, u);
    if x < m.table.len() {
        assert(m.table[x as int].len() == m.inputs.len() + 1);
        match c {
            None => {},
            Some(ch) => {
                lemma_char_position(m.inputs, ch);
                lemma_char_position(u, ch);
                if char_position(m.inputs, ch) < m.inputs.len() {
                    assert(u.contains(ch));
                    assert(u[char_position(u, ch)] == ch);
                }
                if char_position(u, ch) < u.len() {
                    assert(u[char_position(u, ch)] == ch);
                }
            },
        }
    }
}

/// Re-laying an automaton over a larger alphabet keeps the strings it
/// accepts.
pub proof fn lemma_widen_accepts(m: NfaModel, u: Seq<char>, w: Seq<char>)
    requires
        m.wf(),
        strictly_sorted_chars(u),
        forall|ch: char| m.inputs.contains(ch) ==> u.contains(ch),
    ensures
        accepts(widen(m, u), w) == accepts(m, w),
{
    let wm = widen(m, u);
    let fin = (m.table.len() - 1) as usize;
    assert(wm.table.len() == m.table.len());
    assert forall|p: Seq<usize>, l: Seq<Option<char>>| is_run(wm, p, l) <==> #[trigger] is_run(m, p, l) by {
        if is_run(m, p, l) {
            assert forall|i: int| 0 <= i < l.len() implies #[trigger] run_link(wm, p, l, i) by {
                assert(run_link(m, p, l, i));
                lemma_widen_moves(m, u, p[i], p[i + 1], l[i]);
            }
        }
        if is_run(wm, p, l) {
            assert forall|i: int| 0 <= i < l.len() implies #[trigger] run_link(m, p, l, i) by {
                assert(run_link(wm, p, l, i));
                lemma_widen_moves(m, u, p[i], p[i + 1], l[i]);
            }
        }
    }
    if accepts(m, w) {
        let (p, l) = choose|p: Seq<usize>, l: Seq<Option<char>>| #[trigger] run_between(m, p, l, 0, fin, w);
        assert(run_between(wm, p, l, 0, fin, w));
    }
    if accepts(wm, w) {
        let (p, l) = choose|p: Seq<usize>, l: Seq<Option<char>>| #[trigger] run_between(wm, p, l, 0, fin, w);
        assert(run_between(m, p, l, 0, fin, w));
    }
}

/// The automaton of a single character accepts exactly that character.
pub proof fn lemma_single_char_accepts(c: char, w: Seq<char>)
    ensures
        accepts(single_char_model(c), w) <==> w == seq![c],
{
    let m = single_char_model(c);
    reveal_with_fuel(char_position, 2);
    if w == seq![c] {
        assert(char_position(m.inputs, c) == 0);
        assert(m.table[0][0][0] == 1);
        assert(moves(m, 0, 1, Some(c)));
        lemma_run_one(m, 0, 1, Some(c));
        assert((m.table.len() - 1) as usize == 1usize);
        assert(run_between(m, seq![0usize, 1], seq![Some(c)], 0, (m.table.len() - 1) as usize, w));
    }
    if accepts(m, w) {
        let (p, l) = choose|p: Seq<usize>, l: Seq<Option<char>>| #[trigger] run_between(m, p, l, 0, 1, w);
        assert(l.len() >= 1) by {
            if l.len() == 0 {
                assert(p[0] == p.last());
            }
        }
        assert(run_link(m, p, l, 0));
        assert(p[1] == 1 && l[0] == Some(c)) by {
            if l[0] is None {
                assert(!m.eps(0).contains(p[1]));
            } else {
                let ch = l[0]->0;
                lemma_char_position(m.inputs, ch);
            }
        }
        if l.len() > 1 {
            assert(run_link(m, p, l, 1));
            if l[1] is Some {
                lemma_char_position(m.inputs, l[1]->0);
            }
            assert(false);
        }
        assert(l =~= seq![Some(c)]);
        lemma_run_one(m, 0, 1, Some(c));
        assert(w == seq![c]);
    }
}

/// In a well-formed automaton a move leads to an existing state.
pub proof fn lemma_moves_in_range(m: NfaModel, x: usize, y: usize, c: Option<char>)
    requires
        m.wf(),
        moves(m, x, y, c),
    ensures
        x < m.table.len(),
        y < m.table.len(),
{
    let col = match c {
        None => m.inputs.len() as int,
        Some(ch) => char_position(m.inputs, ch),
    };
    match c {
        None => {},
        Some(ch) => {
            lemma_char_position(m.inputs, ch);
        },
    }
    assert(m.table[x as int].len() == m.inputs.len() + 1);
    let cell = m.table[x as int][col];
    let k = choose|k: int| 0 <= k < cell.len() && cell[k] == y;
    assert(m.table[x as int][col][k] < m.table.len());
}

/// A shifted cell holds `y` exactly when the cell holds `y - d`.
pub proof fn lemma_shift_cell_contains(cell: Seq<usize>, d: int, y: usize)
    requires
        d >= 0,
        forall|k: int| 0 <= k < cell.len() ==> cell[k] + d <= usize::MAX,
    ensures
        shift_cell(cell, d).contains(y) <==> (y >= d && cell.contains((y - d) as usize)),
{
    let s = shift_cell(cell, d);
    if s.contains(y) {
        let k = choose|k: int| 0 <= k < s.len() && s[k] == y;
        assert(cell[k] == y - d);
    }
    if y >= d && cell.contains((y - d) as usize) {
        let k = choose|k: int| 0 <= k < cell.len() && cell[k] == (y - d) as usize;
        assert(s[k] == y);
    }
}

/// The moves of `concat(a, b)`: those of `a` among its states, plus the
/// empty-string move from its final state to the start state of `b`; those
/// of `b`, with its states numbered after those of `a`.
pub proof fn lemma_concat_moves(a: NfaModel, b: NfaModel, x: usize, y: usize, c: Option<char>)
    requires
        a.wf(),
        b.wf(),
        a.table.len() + b.table.len() <= usize::MAX,
    ensures
        x < a.table.len() ==> (moves(concat_model(a, b), x, y, c) <==> (moves(a, x, y, c) || (x
            == a.table.len() - 1 && c is None && y == a.table.len()))),
        a.table.len() <= x < a.table.len() + b.table.len() ==> (moves(concat_model(a, b), x, y, c) <==> (y
            >= a.table.len() && moves(b, (x - a.table.len()) as usize, (y - a.table.len()) as usize, c))),
        x >= a.table.len() + b.table.len() ==> !moves(concat_model(a, b), x, y, c),
{
    let u = merge_chars(a.inputs, b.inputs);
    lemma_merge_chars(a.inputs, b.inputs);
    let n0 = a.table.len() as int;
    let n1 = b.table.len() as int;
    let wa = widen(a, u);
    let wb = widen(b, u);
    let cm = concat_model(a, b);
    let t = shift_from(wa.table + wb.table, n0, n0);
    assert(cm.inputs == u);
    assert(cm.table.len() == n0 + n1);
    if x < n0 {
        lemma_widen_moves(a, u, x, y, c);
        assert(wa.table[x as int] == t[x as int]);
        if x == n0 - 1 {
            let cell = t[x as int][u.len() as int];
            assert(wa.table[x as int].len() == u.len() + 1);
            assert(strictly_sorted(wa.table[x as int][u.len() as int])) by {
                crate::nfa::lemma_widen_wf(a, u);
            }
            lemma_insert_sorted_props(cell, n0 as usize);
            match c {
                None => {
                    assert(cm.table[x as int][u.len() as int] == insert_sorted(cell, n0 as usize));
                },
                Some(ch) => {
                    lemma_char_position(u, ch);
                    if char_position(u, ch) < u.len() {
                        assert(cm.table[x as int][char_position(u, ch)] == wa.table[x as int][char_position(u, ch)]);
                    }
                },
            }
        } else {
            assert(cm.table[x as int] == wa.table[x as int]);
        }
    } else if x < n0 + n1 {
        let xb = (x - n0) as usize;
        let yb = (y - n0) as usize;
        lemma_widen_moves(b, u, xb, yb, c);
        crate::nfa::lemma_widen_wf(b, u);
        assert((wa.table + wb.table)[x as int] == wb.table[xb as int]);
        assert(cm.table[x as int] == shift_row(wb.table[xb as int], n0));
        assert(wb.table[xb as int].len() == u.len() + 1);
        let col = match c {
            None => u.len() as int,
            Some(ch) => char_position(u, ch),
        };
        match c {
            None => {},
            Some(ch) => {
                lemma_char_position(u, ch);
            },
        }
        if 0 <= col <= u.len() {
            let cell = wb.table[xb as int][col];
            assert forall|k: int| 0 <= k < cell.len() implies cell[k] + n0 <= usize::MAX by {
                assert(wb.table[xb as int][col][k] < n1);
            }
            lemma_shift_cell_contains(cell, n0, y);
            assert(cm.table[x as int][col] == shift_cell(cell, n0));
        }
    }
}

/// A scan of `p` from position `j`, where every earlier state is below
/// `bound`, finds the first state at or above it.
proof fn lemma_first_reach(p: Seq<usize>, bound: int, j: int)
    requires
        0 <= j < p.len(),
        forall|k: int| 0 <= k <= j ==> p[k] < bound,
        p.last() >= bound,
    ensures
        exists|i: int| 0 < i < p.len() && p[i] >= bound && #[trigger] p[i - 1] < bound && forall|k: int| 0 <= k < i ==> p[k] < bound,
    decreases p.len() - j,
{
    if p[j + 1] >= bound {
        let i = j + 1;
        assert(p[i - 1] < bound);
    } else {
        lemma_first_reach(p, bound, j + 1);
    }
}

/// Once a run reaches states at or above `lo`, from which moves lead only to
/// such states, it stays there.
proof fn lemma_run_stays_above(m: NfaModel, p: Seq<usize>, l: Seq<Option<char>>, lo: int, i: int)
    requires
        is_run(m, p, l),
        0 <= i < p.len(),
        p[i] >= lo,
        forall|x: usize, y: usize, c: Option<char>| x >= lo && #[trigger] moves(m, x, y, c) ==> y >= lo,
    ensures
        forall|k: int| i <= k < p.len() ==> p[k] >= lo,
    decreases p.len() - i,
{
    if i + 1 < p.len() {
        assert(run_link(m, p, l, i));
        lemma_run_stays_above(m, p, l, lo, i + 1);
    }
}

/// `concat(a, b)` accepts exactly the strings made of a string of `a`
/// followed by a string of `b`.
pub proof fn lemma_concat_accepts(a: NfaModel, b: NfaModel, w: Seq<char>)
    requires
        a.wf(),
        b.wf(),
        a.table.len() + b.table.len() <= usize::MAX,
    ensures
        accepts(concat_model(a, b), w) <==> exists|w1: Seq<char>, w2: Seq<char>|
            #![trigger accepts(a, w1), accepts(b, w2)]
            w1 + w2 == w && accepts(a, w1) && accepts(b, w2),
{
    let cm = concat_model(a, b);
    let n0 = a.table.len() as int;
    let n1 = b.table.len() as int;
    let fin = (cm.table.len() - 1) as usize;
    assert(cm.table.len() == n0 + n1) by {
        lemma_concat_moves(a, b, 0, 0, None);
    }
    if exists|w1: Seq<char>, w2: Seq<char>| #![trigger accepts(a, w1), accepts(b, w2)] w1 + w2 == w && accepts(a, w1) && accepts(b, w2) {
        let (w1, w2) = choose|w1: Seq<char>, w2: Seq<char>| #![trigger accepts(a, w1), accepts(b, w2)] w1 + w2 == w && accepts(a, w1) && accepts(b, w2);
        let (p1, l1) = choose|p: Seq<usize>, l: Seq<Option<char>>| #[trigger] run_between(a, p, l, 0, (a.table.len() - 1) as usize, w1);
        let (p2, l2) = choose|p: Seq<usize>, l: Seq<Option<char>>| #[trigger] run_between(b, p, l, 0, (b.table.len() - 1) as usize, w2);
        assert(is_run(cm, p1, l1)) by {
            assert forall|i: int| 0 <= i < l1.len() implies #[trigger] run_link(cm, p1, l1, i) by {
                assert(run_link(a, p1, l1, i));
                lemma_moves_in_range(a, p1[i], p1[i + 1], l1[i]);
                lemma_concat_moves(a, b, p1[i], p1[i + 1], l1[i]);
            }
        }
        let q2 = Seq::new(p2.len(), |k: int| (p2[k] + n0) as usize);
        assert(is_run(cm, q2, l2)) by {
            assert forall|i: int| 0 <= i < l2.len() implies #[trigger] run_link(cm, q2, l2, i) by {
                assert(run_link(b, p2, l2, i));
                lemma_moves_in_range(b, p2[i], p2[i + 1], l2[i]);
                lemma_concat_moves(a, b, q2[i], q2[i + 1], l2[i]);
            }
        }
        lemma_concat_moves(a, b, (n0 - 1) as usize, n0 as usize, None);
        lemma_run_one(cm, (n0 - 1) as usize, n0 as usize, None);
        let pj = seq![(n0 - 1) as usize, n0 as usize];
        let lj = seq![None::<char>];
        lemma_run_join(cm, p1, l1, pj, lj);
        let p12 = p1 + pj.drop_first();
        let l12 = l1 + lj;
        lemma_run_join(cm, p12, l12, q2, l2);
        let p = p12 + q2.drop_first();
        let l = l12 + l2;
        assert(word_of(l) =~= w);
        assert(run_between(cm, p, l, 0, fin, w));
    }
    if accepts(cm, w) {
        let (p, l) = choose|p: Seq<usize>, l: Seq<Option<char>>| #[trigger] run_between(cm, p, l, 0, fin, w);
        assert(p.last() >= n0);
        lemma_first_reach(p, n0, 0);
        let i = choose|i: int| 0 < i < p.len() && p[i] >= n0 && #[trigger] p[i - 1] < n0 && forall|k: int| 0 <= k < i ==> p[k] < n0;
        assert(run_link(cm, p, l, i - 1));
        lemma_concat_moves(a, b, p[i - 1], p[i], l[i - 1]);
        if moves(a, p[i - 1], p[i], l[i - 1]) {
            lemma_moves_in_range(a, p[i - 1], p[i], l[i - 1]);
        }
        assert(p[i - 1] == n0 - 1 && p[i] == n0 && l[i - 1] is None);
        let p1 = p.subrange(0, i);
        let l1 = l.subrange(0, i - 1);
        lemma_run_slice(cm, p, l, 0, i - 1);
        assert(is_run(a, p1, l1)) by {
            assert forall|k: int| 0 <= k < l1.len() implies #[trigger] run_link(a, p1, l1, k) by {
                assert(run_link(cm, p1, l1, k));
                assert(p[k] < n0 && p[k + 1] < n0);
                lemma_concat_moves(a, b, p1[k], p1[k + 1], l1[k]);
            }
        }
        assert forall|x: usize, y: usize, c: Option<char>| x >= n0 && #[trigger] moves(cm, x, y, c) implies y >= n0 by {
            lemma_concat_moves(a, b, x, y, c);
        }
        lemma_run_stays_above(cm, p, l, n0, i);
        let l2 = l.subrange(i, l.len() as int);
        let p2 = Seq::new((p.len() - i) as nat, |k: int| (p[i + k] - n0) as usize);
        assert(is_run(b, p2, l2)) by {
            assert forall|k: int| 0 <= k < l2.len() implies #[trigger] run_link(b, p2, l2, k) by {
                assert(run_link(cm, p, l, i + k));
                lemma_concat_moves(a, b, p[i + k], p[i + k + 1], l[i + k]);
                assert(p[i + k] >= n0);
                assert(p[i + k] < n0 + n1) by {
                    lemma_concat_moves(a, b, p[i + k], p[i + k + 1], l[i + k]);
                }
            }
        }
        lemma_word_split(l, i - 1);
        lemma_word_split(l.subrange(i - 1, l.len() as int), 1);
        assert(l.subrange(i - 1, l.len() as int).subrange(0, 1) =~= seq![None::<char>]);
        assert(l.subrange(i - 1, l.len() as int).subrange(1, l.len() - i + 1) =~= l2);
        lemma_run_one(cm, (n0 - 1) as usize, n0 as usize, None);
        let w1 = word_of(l1);
        let w2 = word_of(l2);
        assert(w1 + w2 =~= w);
        assert(run_between(a, p1, l1, 0, (a.table.len() - 1) as usize, w1));
        assert(run_between(b, p2, l2, 0, (b.table.len() - 1) as usize, w2));
        assert(accepts(a, w1) && accepts(b, w2));
    }
}

/// A scan of `p` from position `j`, where the states from position `s` on
/// lie in `[lo, hi)`, finds the first position after `s` where the run
/// leaves that range.
proof fn lemma_first_exit(p: Seq<usize>, lo: int, hi: int, s: int, j: int)
    requires
        0 <= s <= j < p.len(),
        forall|k: int| s <= k <= j ==> lo <= #[trigger] p[k] < hi,
        !(lo <= p.last() < hi),
    ensures
        exists|i: int| s < i < p.len() && !(lo <= #[trigger] p[i] < hi) && forall|k: int| s <= k < i ==> lo <= #[trigger] p[k] < hi,
    decreases p.len() - j,
{
    if !(lo <= p[j + 1] < hi) {
        let i = j + 1;
        assert(!(lo <= p[i] < hi));
    } else {
        lemma_first_exit(p, lo, hi, s, j + 1);
    }
}

/// A cell shifted twice holds `y` exactly when the cell holds `y` less both
/// shifts.
proof fn lemma_shift_cell_twice(cell: Seq<usize>, d1: int, d2: int)
    requires
        d1 >= 0,
        d2 >= 0,
        forall|k: int| 0 <= k < cell.len() ==> cell[k] + d1 + d2 <= usize::MAX,
    ensures
        shift_cell(shift_cell(cell, d1), d2) == shift_cell(cell, d1 + d2),
{
    assert(shift_cell(shift_cell(cell, d1), d2) =~= shift_cell(cell, d1 + d2));
}

/// The moves of `union(a, b)`: from the new start state 0 to the start
/// states of `a` and of `b`; those of `a` and of `b`, renumbered after 0 and
/// after the states of `a`; and from the final states of both to the new
/// final state.
pub proof fn lemma_union_moves(a: NfaModel, b: NfaModel, x: usize, y: usize, c: Option<char>)
    requires
        a.wf(),
        b.wf(),
        a.table.len() + b.table.len() + 2 <= usize::MAX,
    ensures
        union_model(a, b).table.len() == a.table.len() + b.table.len() + 2,
        x == 0 ==> (moves(union_model(a, b), x, y, c) <==> (c is None && (y == 1 || y == a.table.len() + 1))),
        1 <= x <= a.table.len() ==> (moves(union_model(a, b), x, y, c) <==> ((y >= 1 && moves(a, (x - 1) as usize, (y - 1) as usize, c)) || (x == a.table.len() && c is None && y == a.table.len() + b.table.len() + 1))),
        a.table.len() + 1 <= x <= a.table.len() + b.table.len() ==> (moves(union_model(a, b), x, y, c) <==> ((y >= a.table.len() + 1 && moves(b, (x - a.table.len() - 1) as usize, (y - a.table.len() - 1) as usize, c)) || (x == a.table.len() + b.table.len() && c is None && y == a.table.len() + b.table.len() + 1))),
        x > a.table.len() + b.table.len() ==> !moves(union_model(a, b), x, y, c),
{
    let u = merge_chars(a.inputs, b.inputs);
    lemma_merge_chars(a.inputs, b.inputs);
    crate::nfa::lemma_widen_wf(a, u);
    crate::nfa::lemma_widen_wf(b, u);
    let n0 = a.table.len() as int;
    let n1 = b.table.len() as int;
    let f = n0 + n1 + 1;
    let wa = widen(a, u);
    let wb = widen(b, u);
    let um = union_model(a, b);
    let t0 = wa.table + shift_from(wb.table, 0, n0);
    let t1 = shift_from(t0, 0, 1);
    let t2 = t1.push(empty_cells(u.len() + 1int));
    let t3 = t2.update(n0 - 1, add_eps_move(t2[n0 - 1], f as usize));
    let t4 = t3.update(n0 + n1 - 1, add_eps_move(t3[n0 + n1 - 1], f as usize));
    assert(um.table == seq![start_cells(u.len() as int, 1, (n0 + 1) as usize)] + t4);
    assert(um.inputs == u);
    let col = match c {
        None => u.len() as int,
        Some(ch) => char_position(u, ch),
    };
    match c {
        None => {},
        Some(ch) => {
            lemma_char_position(u, ch);
        },
    }
    if x == 0 {
        assert(um.table[0] == start_cells(u.len() as int, 1, (n0 + 1) as usize));
        if col < u.len() {
            assert(um.table[0][col] == Seq::<usize>::empty());
        }
        let e = seq![1usize, (n0 + 1) as usize];
        assert(um.table[0][u.len() as int] == e);
        assert(e.contains(y) <==> (y == 1 || y == n0 + 1)) by {
            if y == 1 {
                assert(e[0] == y);
            }
            if y == n0 + 1 {
                assert(e[1] == y);
            }
        }
    } else if x <= n0 + n1 {
        let r = x - 1;
        assert(um.table[x as int] == t4[r]);
        let (base_row, d) = if r < n0 {
            (wa.table[r], 1int)
        } else {
            (wb.table[r - n0], n0 + 1)
        };
        assert(base_row.len() == u.len() + 1);
        if r < n0 {
            lemma_widen_moves(a, u, r as usize, (y - 1) as usize, c);
            assert(t1[r] == shift_row(wa.table[r], 1));
        } else {
            lemma_widen_moves(b, u, (r - n0) as usize, (y - n0 - 1) as usize, c);
            assert(t0[r] == shift_row(wb.table[r - n0], n0));
            assert(t1[r] == shift_row(shift_row(wb.table[r - n0], n0), 1));
            assert forall|cc: int| 0 <= cc < base_row.len() implies #[trigger] t1[r][cc] == shift_cell(base_row[cc], d) by {
                assert forall|k: int| 0 <= k < base_row[cc].len() implies base_row[cc][k] + n0 + 1 <= usize::MAX by {
                    assert(wb.table[r - n0][cc][k] < n1);
                }
                lemma_shift_cell_twice(base_row[cc], n0, 1);
            }
        }
        assert forall|cc: int| 0 <= cc < base_row.len() implies #[trigger] t1[r][cc] == shift_cell(base_row[cc], d) by {
            if r >= n0 {
                assert forall|k: int| 0 <= k < base_row[cc].len() implies base_row[cc][k] + n0 + 1 <= usize::MAX by {
                    assert(wb.table[r - n0][cc][k] < n1);
                }
                lemma_shift_cell_twice(base_row[cc], n0, 1);
            }
        }
        if 0 <= col <= u.len() {
            let cell = base_row[col];
            assert forall|k: int| 0 <= k < cell.len() implies cell[k] + d <= usize::MAX by {
                if r < n0 {
                    assert(wa.table[r][col][k] < n0);
                } else {
                    assert(wb.table[r - n0][col][k] < n1);
                }
            }
            lemma_shift_cell_contains(cell, d, y);
            assert(t2[r] == t1[r]);
            if (r == n0 - 1 || r == n0 + n1 - 1) && col == u.len() {
                assert(strictly_sorted(t1[r][col])) by {
                    if r < n0 {
                        crate::table::lemma_table_wf_shift(wa.table, 0, 1, u.len() + 1int, n0);
                    } else {
                        assert(strictly_sorted(cell));
                        assert forall|i: int, j: int| 0 <= i < j < t1[r][col].len() implies t1[r][col][i] < t1[r][col][j] by {
                            assert(cell[i] < cell[j]);
                        }
                    }
                }
                lemma_insert_sorted_props(t1[r][col], f as usize);
            }
        }
    } else if x == f {
        assert(um.table[x as int] == empty_cells(u.len() + 1int));
    }
}

/// A string of `a` (when `left`) or of `b` is accepted by `union(a, b)`.
proof fn lemma_union_embed(a: NfaModel, b: NfaModel, w: Seq<char>, left: bool)
    requires
        a.wf(),
        b.wf(),
        a.table.len() + b.table.len() + 2 <= usize::MAX,
        left ==> accepts(a, w),
        !left ==> accepts(b, w),
    ensures
        accepts(union_model(a, b), w),
{
    let um = union_model(a, b);
    let n0 = a.table.len() as int;
    let n1 = b.table.len() as int;
    let f = n0 + n1 + 1;
    lemma_union_moves(a, b, 0, 0, None);
    assert((um.table.len() - 1) as usize == f as usize);
    let m = if left { a } else { b };
    let d = if left { 1int } else { n0 + 1 };
    let fm = if left { n0 } else { n0 + n1 };
    let (p1, l1) = choose|p: Seq<usize>, l: Seq<Option<char>>| #[trigger] run_between(m, p, l, 0, (m.table.len() - 1) as usize, w);
    let q = Seq::new(p1.len(), |k: int| (p1[k] + d) as usize);
    assert(is_run(um, q, l1)) by {
        assert forall|i: int| 0 <= i < l1.len() implies #[trigger] run_link(um, q, l1, i) by {
            assert(run_link(m, p1, l1, i));
            lemma_moves_in_range(m, p1[i], p1[i + 1], l1[i]);
            lemma_union_moves(a, b, q[i], q[i + 1], l1[i]);
        }
    }
    lemma_union_moves(a, b, 0, d as usize, None);
    lemma_run_one(um, 0, d as usize, None);
    lemma_union_moves(a, b, fm as usize, f as usize, None);
    lemma_run_one(um, fm as usize, f as usize, None);
    let ps = seq![0usize, d as usize];
    let ls = seq![None::<char>];
    let pe = seq![fm as usize, f as usize];
    lemma_run_join(um, ps, ls, q, l1);
    let p2 = ps + q.drop_first();
    let l2 = ls + l1;
    lemma_run_join(um, p2, l2, pe, ls);
    let p = p2 + pe.drop_first();
    let l = l2 + ls;
    assert(word_of(l) =~= w);
    assert(run_between(um, p, l, 0, (um.table.len() - 1) as usize, w));
}

/// A string accepted by `union(a, b)` is accepted by `a` or by `b`.
proof fn lemma_union_extract(a: NfaModel, b: NfaModel, p: Seq<usize>, l: Seq<Option<char>>, w: Seq<char>)
    requires
        a.wf(),
        b.wf(),
        a.table.len() + b.table.len() + 2 <= usize::MAX,
        run_between(union_model(a, b), p, l, 0, (a.table.len() + b.table.len() + 1) as usize, w),
    ensures
        accepts(a, w) || accepts(b, w),
{
    let um = union_model(a, b);
    let n0 = a.table.len() as int;
    let n1 = b.table.len() as int;
    let f = n0 + n1 + 1;
    assert(l.len() >= 1) by {
        if l.len() == 0 {
            assert(p[0] == p.last());
        }
    }
    assert(run_link(um, p, l, 0));
    lemma_union_moves(a, b, 0, p[1], l[0]);
    let first_a = p[1] == 1;
    let m = if first_a { a } else { b };
    let lo = if first_a { 1int } else { n0 + 1 };
    let hi = if first_a { n0 + 1 } else { n0 + n1 + 1 };
    assert forall|x: usize, y: usize, c: Option<char>| x >= lo && #[trigger] moves(um, x, y, c) implies y >= lo by {
        lemma_union_moves(a, b, x, y, c);
    }
    lemma_run_stays_above(um, p, l, lo, 1);
    lemma_first_exit(p, lo, hi, 1, 1);
    let i = choose|i: int| 1 < i < p.len() && !(lo <= #[trigger] p[i] < hi) && forall|k: int| 1 <= k < i ==> lo <= #[trigger] p[k] < hi;
    assert(lo <= p[i - 1] < hi);
    assert(run_link(um, p, l, i - 1));
    lemma_union_moves(a, b, p[i - 1], p[i], l[i - 1]);
    if moves(m, (p[i - 1] - lo) as usize, (p[i] - lo) as usize, l[i - 1]) {
        lemma_moves_in_range(m, (p[i - 1] - lo) as usize, (p[i] - lo) as usize, l[i - 1]);
    }
    assert(p[i - 1] == hi - 1 && p[i] == f && l[i - 1] is None);
    assert(i == l.len()) by {
        if i < l.len() {
            assert(run_link(um, p, l, i));
            lemma_union_moves(a, b, p[i], p[i + 1], l[i]);
        }
    }
    let l1 = l.subrange(1, i - 1);
    let p1 = Seq::new((i - 1) as nat, |k: int| (p[k + 1] - lo) as usize);
    assert(is_run(m, p1, l1)) by {
        assert forall|k: int| 0 <= k < l1.len() implies #[trigger] run_link(m, p1, l1, k) by {
            assert(run_link(um, p, l, k + 1));
            assert(lo <= p[k + 1] < hi);
            assert(lo <= p[k + 2] < hi);
            lemma_union_moves(a, b, p[k + 1], p[k + 2], l[k + 1]);
        }
    }
    lemma_word_split(l, 1);
    let rest = l.subrange(1, l.len() as int);
    lemma_word_split(rest, i - 2);
    assert(rest.subrange(0, i - 2) =~= l1);
    assert(rest.subrange(i - 2, rest.len() as int) =~= seq![None::<char>]);
    assert(l.subrange(0, 1) =~= seq![None::<char>]);
    lemma_run_one(um, 0, p[1], None);
    assert(word_of(l1) =~= w);
    assert(run_between(m, p1, l1, 0, (m.table.len() - 1) as usize, w));
}

/// `union(a, b)` accepts exactly the strings that `a` or `b` accepts.
pub proof fn lemma_union_accepts(a: NfaModel, b: NfaModel, w: Seq<char>)
    requires
        a.wf(),
        b.wf(),
        a.table.len() + b.table.len() + 2 <= usize::MAX,
    ensures
        accepts(union_model(a, b), w) <==> (accepts(a, w) || accepts(b, w)),
{
    let um = union_model(a, b);
    lemma_union_moves(a, b, 0, 0, None);
    if accepts(a, w) {
        lemma_union_embed(a, b, w, true);
    } else if accepts(b, w) {
        lemma_union_embed(a, b, w, false);
    }
    if accepts(um, w) {
        let (p, l) = choose|p: Seq<usize>, l: Seq<Option<char>>| #[trigger] run_between(um, p, l, 0, (um.table.len() - 1) as usize, w);
        lemma_union_extract(a, b, p, l, w);
    }
}

/// The moves of `star(a)`: from the new start state 0 to the start state of
/// `a` and to the new final state; those of `a`, renumbered after 0; and from
/// the final state of `a` back to 0 and on to the new final state.
pub proof fn lemma_star_moves(a: NfaModel, x: usize, y: usize, c: Option<char>)
    requires
        a.wf(),
        a.table.len() + 2 <= usize::MAX,
    ensures
        star_model(a).table.len() == a.table.len() + 2,
        x == 0 ==> (moves(star_model(a), x, y, c) <==> (c is None && (y == 1 || y == a.table.len() + 1))),
        1 <= x <= a.table.len() ==> (moves(star_model(a), x, y, c) <==> ((y >= 1 && moves(a, (x - 1) as usize, (y - 1) as usize, c)) || (x == a.table.len() && c is None && (y == a.table.len() + 1 || y == 0)))),
        x > a.table.len() ==> !moves(star_model(a), x, y, c),
{
    let n = a.table.len() as int;
    let f = n + 1;
    let w = a.inputs.len() + 1int;
    let sm = star_model(a);
    let t1 = shift_from(a.table, 0, 1);
    let t2 = t1.push(empty_cells(w));
    let t3 = t2.update(n - 1, add_eps_move(t2[n - 1], f as usize));
    let t4 = seq![start_cells(a.inputs.len() as int, 1, f as usize)] + t3;
    assert(sm.table == t4.update(n, add_eps_move(t4[n], 0)));
    assert(sm.inputs == a.inputs);
    let col = match c {
        None => a.inputs.len() as int,
        Some(ch) => char_position(a.inputs, ch),
    };
    match c {
        None => {},
        Some(ch) => {
            lemma_char_position(a.inputs, ch);
        },
    }
    if x == 0 {
        assert(sm.table[0] == start_cells(a.inputs.len() as int, 1, f as usize));
        if col < a.inputs.len() {
            assert(sm.table[0][col] == Seq::<usize>::empty());
        }
        let e = seq![1usize, f as usize];
        assert(sm.table[0][a.inputs.len() as int] == e);
        assert(e.contains(y) <==> (y == 1 || y == f)) by {
            if y == 1 {
                assert(e[0] == y);
            }
            if y == f {
                assert(e[1] == y);
            }
        }
    } else if x <= n {
        let r = x - 1;
        let row = a.table[r];
        assert(row.len() == w);
        assert(t1[r] == shift_row(row, 1));
        assert(t4[x as int] == t3[r]);
        if 0 <= col < w {
            let cell = row[col];
            assert forall|k: int| 0 <= k < cell.len() implies cell[k] + 1 <= usize::MAX by {
                assert(a.table[r][col][k] < n);
            }
            lemma_shift_cell_contains(cell, 1, y);
            assert(strictly_sorted(cell));
            assert(strictly_sorted(t1[r][col])) by {
                assert forall|i: int, j: int| 0 <= i < j < t1[r][col].len() implies t1[r][col][i] < t1[r][col][j] by {
                    assert(cell[i] < cell[j]);
                }
            }
            if x == n && col == a.inputs.len() {
                let e1 = insert_sorted(t1[r][col], f as usize);
                lemma_insert_sorted_props(t1[r][col], f as usize);
                assert(t3[r][col] == e1);
                lemma_insert_sorted_props(e1, 0);
                assert(sm.table[x as int][col] == insert_sorted(e1, 0));
            } else if x == n {
                assert(sm.table[x as int][col] == t1[r][col]);
            } else {
                assert(sm.table[x as int] == t1[r]);
            }
        }
    } else if x == f {
        assert(sm.table[x as int] == empty_cells(w));
    }
}

/// Every string of `ws` is accepted by `m`.
pub open spec fn all_accepted(m: NfaModel, ws: Seq<Seq<char>>) -> bool {
    forall|i: int| 0 <= i < ws.len() ==> accepts(m, #[trigger] ws[i])
}

/// Strings of `a` one after another are accepted by `star(a)`.
proof fn lemma_star_build(a: NfaModel, ws: Seq<Seq<char>>)
    requires
        a.wf(),
        a.table.len() + 2 <= usize::MAX,
        all_accepted(a, ws),
    ensures
        accepts(star_model(a), ws.flatten()),
    decreases ws.len(),
{
    let sm = star_model(a);
    let n = a.table.len() as int;
    let f = n + 1;
    lemma_star_moves(a, 0, 0, None);
    assert((sm.table.len() - 1) as usize == f as usize);
    if ws.len() == 0 {
        lemma_star_moves(a, 0, f as usize, None);
        lemma_run_one(sm, 0, f as usize, None);
        assert(ws.flatten() =~= Seq::<char>::empty());
        assert(run_between(sm, seq![0usize, f as usize], seq![None::<char>], 0, (sm.table.len() - 1) as usize, ws.flatten()));
    } else {
        let rest = ws.drop_first();
        assert(all_accepted(a, rest)) by {
            assert forall|i: int| 0 <= i < rest.len() implies accepts(a, #[trigger] rest[i]) by {
                assert(rest[i] == ws[i + 1]);
            }
        }
        lemma_star_build(a, rest);
        assert(accepts(a, ws[0]));
        let (pr, lr) = choose|p: Seq<usize>, l: Seq<Option<char>>| #[trigger] run_between(sm, p, l, 0, (sm.table.len() - 1) as usize, rest.flatten());
        let (p1, l1) = choose|p: Seq<usize>, l: Seq<Option<char>>| #[trigger] run_between(a, p, l, 0, (a.table.len() - 1) as usize, ws[0]);
        let q = Seq::new(p1.len(), |k: int| (p1[k] + 1) as usize);
        assert(is_run(sm, q, l1)) by {
            assert forall|i: int| 0 <= i < l1.len() implies #[trigger] run_link(sm, q, l1, i) by {
                assert(run_link(a, p1, l1, i));
                lemma_moves_in_range(a, p1[i], p1[i + 1], l1[i]);
                lemma_star_moves(a, q[i], q[i + 1], l1[i]);
            }
        }
        lemma_star_moves(a, 0, 1, None);
        lemma_run_one(sm, 0, 1, None);
        lemma_star_moves(a, n as usize, 0, None);
        lemma_run_one(sm, n as usize, 0, None);
        let ps = seq![0usize, 1usize];
        let ls = seq![None::<char>];
        let pe = seq![n as usize, 0usize];
        lemma_run_join(sm, ps, ls, q, l1);
        let p2 = ps + q.drop_first();
        let l2 = ls + l1;
        lemma_run_join(sm, p2, l2, pe, ls);
        let p3 = p2 + pe.drop_first();
        let l3 = l2 + ls;
        lemma_run_join(sm, p3, l3, pr, lr);
        let p = p3 + pr.drop_first();
        let l = l3 + lr;
        assert(ws.flatten() == ws[0] + rest.flatten());
        assert(word_of(l) =~= ws.flatten());
        assert(run_between(sm, p, l, 0, (sm.table.len() - 1) as usize, ws.flatten()));
    }
}

/// A string accepted by `star(a)` is made of strings of `a`, one after
/// another.
proof fn lemma_star_split(a: NfaModel, p: Seq<usize>, l: Seq<Option<char>>, w: Seq<char>)
    requires
        a.wf(),
        a.table.len() + 2 <= usize::MAX,
        run_between(star_model(a), p, l, 0, (a.table.len() + 1) as usize, w),
    ensures
        exists|ws: Seq<Seq<char>>| #[trigger] all_accepted(a, ws) && ws.flatten() == w,
    decreases p.len(),
{
    let sm = star_model(a);
    let n = a.table.len() as int;
    let f = n + 1;
    lemma_star_moves(a, 0, 0, None);
    assert(l.len() >= 1) by {
        if l.len() == 0 {
            assert(p[0] == p.last());
        }
    }
    assert(run_link(sm, p, l, 0));
    lemma_star_moves(a, 0, p[1], l[0]);
    lemma_word_split(l, 1);
    assert(l.subrange(0, 1) =~= seq![None::<char>]);
    lemma_run_one(sm, 0, p[1], None);
    if p[1] == f {
        assert(l.len() == 1) by {
            if l.len() > 1 {
                assert(run_link(sm, p, l, 1));
                lemma_star_moves(a, p[1], p[2], l[1]);
            }
        }
        let ws = Seq::<Seq<char>>::empty();
        assert(l.subrange(1, l.len() as int) =~= Seq::<Option<char>>::empty());
        assert(w =~= Seq::<char>::empty());
        assert(all_accepted(a, ws));
        assert(ws.flatten() =~= w);
    } else {
        assert(p[1] == 1);
        assert forall|x: usize, y: usize, c: Option<char>| x >= 1 && #[trigger] moves(sm, x, y, c) implies y <= f by {
            lemma_star_moves(a, x, y, c);
            if x <= n && y >= 1 && moves(a, (x - 1) as usize, (y - 1) as usize, c) {
                lemma_moves_in_range(a, (x - 1) as usize, (y - 1) as usize, c);
            }
        }
        lemma_first_exit(p, 1, n + 1, 1, 1);
        let i = choose|i: int| 1 < i < p.len() && !(1 <= #[trigger] p[i] < n + 1) && forall|k: int| 1 <= k < i ==> 1 <= #[trigger] p[k] < n + 1;
        assert(1 <= p[i - 1] < n + 1);
        assert(run_link(sm, p, l, i - 1));
        lemma_star_moves(a, p[i - 1], p[i], l[i - 1]);
        if p[i] >= 1 && moves(a, (p[i - 1] - 1) as usize, (p[i] - 1) as usize, l[i - 1]) {
            lemma_moves_in_range(a, (p[i - 1] - 1) as usize, (p[i] - 1) as usize, l[i - 1]);
        }
        assert(p[i - 1] == n && l[i - 1] is None && (p[i] == f || p[i] == 0));
        let l1 = l.subrange(1, i - 1);
        let p1 = Seq::new((i - 1) as nat, |k: int| (p[k + 1] - 1) as usize);
        assert(is_run(a, p1, l1)) by {
            assert forall|k: int| 0 <= k < l1.len() implies #[trigger] run_link(a, p1, l1, k) by {
                assert(run_link(sm, p, l, k + 1));
                assert(1 <= p[k + 1] < n + 1);
                assert(1 <= p[k + 2] < n + 1);
                lemma_star_moves(a, p[k + 1], p[k + 2], l[k + 1]);
            }
        }
        let w1 = word_of(l1);
        assert(run_between(a, p1, l1, 0, (a.table.len() - 1) as usize, w1));
        assert(accepts(a, w1));
        let rest = l.subrange(1, l.len() as int);
        lemma_word_split(rest, i - 2);
        assert(rest.subrange(0, i - 2) =~= l1);
        let tail = rest.subrange(i - 2, rest.len() as int);
        lemma_word_split(tail, 1);
        assert(tail.subrange(0, 1) =~= seq![None::<char>]);
        let lr = tail.subrange(1, tail.len() as int);
        assert(lr =~= l.subrange(i, l.len() as int));
        let wr = word_of(lr);
        assert(w =~= w1 + wr);
        if p[i] == f {
            assert(i == l.len()) by {
                if i < l.len() {
                    assert(run_link(sm, p, l, i));
                    lemma_star_moves(a, p[i], p[i + 1], l[i]);
                }
            }
            assert(lr =~= Seq::<Option<char>>::empty());
            let ws = seq![w1];
            assert(all_accepted(a, ws));
            assert(ws.drop_first() =~= Seq::<Seq<char>>::empty());
            assert(Seq::<Seq<char>>::empty().flatten() == Seq::<char>::empty());
            assert(word_of(Seq::<Option<char>>::empty()) == Seq::<char>::empty());
            assert(ws.flatten() == ws.first() + ws.drop_first().flatten());
            assert(ws.flatten() =~= w);
        } else {
            let pr = p.subrange(i, p.len() as int);
            lemma_run_slice(sm, p, l, i, l.len() as int);
            assert(run_between(sm, pr, lr, 0, (a.table.len() + 1) as usize, wr));
            lemma_star_split(a, pr, lr, wr);
            let wsr = choose|ws: Seq<Seq<char>>| #[trigger] all_accepted(a, ws) && ws.flatten() == wr;
            let ws = seq![w1] + wsr;
            assert(all_accepted(a, ws)) by {
                assert forall|k: int| 0 <= k < ws.len() implies accepts(a, #[trigger] ws[k]) by {
                    if k > 0 {
                        assert(ws[k] == wsr[k - 1]);
                    }
                }
            }
            assert(ws.drop_first() =~= wsr);
            assert(ws.first() == w1);
            assert(ws.flatten() == ws.first() + ws.drop_first().flatten());
            assert(ws.flatten() == w1 + wr);
        }
    }
}

/// `star(a)` accepts exactly the strings made of any number of strings of
/// `a`, one after another.
pub proof fn lemma_star_accepts(a: NfaModel, w: Seq<char>)
    requires
        a.wf(),
        a.table.len() + 2 <= usize::MAX,
    ensures
        accepts(star_model(a), w) <==> exists|ws: Seq<Seq<char>>| #[trigger] all_accepted(a, ws) && ws.flatten() == w,
{
    let sm = star_model(a);
    lemma_star_moves(a, 0, 0, None);
    if exists|ws: Seq<Seq<char>>| #[trigger] all_accepted(a, ws) && ws.flatten() == w {
        let ws = choose|ws: Seq<Seq<char>>| #[trigger] all_accepted(a, ws) && ws.flatten() == w;
        lemma_star_build(a, ws);
    }
    if accepts(sm, w) {
        let (p, l) = choose|p: Seq<usize>, l: Seq<Option<char>>| #[trigger] run_between(sm, p, l, 0, (sm.table.len() - 1) as usize, w);
        lemma_star_split(a, p, l, w);
    }
}

} // verus!
