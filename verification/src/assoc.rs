//! Concatenation of automata is associative: concatenating `a b` with `c`
//! builds the same automaton as concatenating `a` with `b c`.

use vstd::prelude::*;
use crate::sorted::{insert_sorted, merge_chars, lemma_merge_chars, lemma_sorted_chars_unique,
    char_position, lemma_char_position};
use crate::table::{shift_cell, shift_row, add_eps_move};
use crate::nfa::{NfaModel, widen_row, concat_model};

verus! {

/// Re-laying a row over `u1` and then over `u2` is re-laying it over `u2`.
proof fn lemma_widen_row_twice(row: Seq<Seq<usize>>, o: Seq<char>, u1: Seq<char>, u2: Seq<char>)
    requires
        row.len() == o.len() + 1,
        forall|c: char| o.contains(c) ==> u1.contains(c),
        forall|c: char| u1.contains(c) ==> u2.contains(c),
    ensures
        widen_row(widen_row(row, o, u1), u1, u2) == widen_row(row, o, u2),
{
    let w1 = widen_row(row, o, u1);
    let l = widen_row(w1, u1, u2);
    let r = widen_row(row, o, u2);
    assert forall|j: int| 0 <= j < l.len() implies l[j] == r[j] by {
        if j < u2.len() {
            let c = u2[j];
            lemma_char_position(u1, c);
            lemma_char_position(o, c);
            if char_position(u1, c) < u1.len() {
                assert(u1[char_position(u1, c)] == c);
            } else if char_position(o, c) < o.len() {
                assert(o.contains(c));
            }
        }
    }
    assert(l =~= r);
}

/// Shifting the states of a row and re-laying it commute.
proof fn lemma_widen_row_shift(row: Seq<Seq<usize>>, o: Seq<char>, u: Seq<char>, d: int)
    requires
        row.len() == o.len() + 1,
    ensures
        widen_row(shift_row(row, d), o, u) == shift_row(widen_row(row, o, u), d),
{
    let l = widen_row(shift_row(row, d), o, u);
    let r = shift_row(widen_row(row, o, u), d);
    assert forall|j: int| 0 <= j < l.len() implies l[j] == r[j] by {
        if j < u.len() {
            lemma_char_position(o, u[j]);
            if char_position(o, u[j]) >= o.len() {
                assert(shift_cell(Seq::<usize>::empty(), d) =~= Seq::<usize>::empty());
            }
        }
    }
    assert(l =~= r);
}

/// Re-laying a row keeps an added empty-string move.
proof fn lemma_widen_row_eps(row: Seq<Seq<usize>>, o: Seq<char>, u: Seq<char>, x: usize)
    requires
        row.len() == o.len() + 1,
    ensures
        widen_row(add_eps_move(row, x), o, u) == add_eps_move(widen_row(row, o, u), x),
{
    let l = widen_row(add_eps_move(row, x), o, u);
    let r = add_eps_move(widen_row(row, o, u), x);
    assert forall|j: int| 0 <= j < l.len() implies l[j] == r[j] by {
        if j < u.len() {
            lemma_char_position(o, u[j]);
        }
    }
    assert(l =~= r);
}

/// Every state in the row is below `bound`.
pub open spec fn row_below(row: Seq<Seq<usize>>, bound: int) -> bool {
    forall|j: int, k: int| 0 <= j < row.len() && 0 <= k < row[j].len() ==> #[trigger] row[j][k] < bound
}

/// Re-laying a row keeps its states.
proof fn lemma_widen_row_below(row: Seq<Seq<usize>>, o: Seq<char>, u: Seq<char>, bound: int)
    requires
        row.len() == o.len() + 1,
        row_below(row, bound),
    ensures
        row_below(widen_row(row, o, u), bound),
{
    let w = widen_row(row, o, u);
    assert forall|j: int, k: int| 0 <= j < w.len() && 0 <= k < w[j].len() implies #[trigger] w[j][k] < bound by {
        if j < u.len() {
            lemma_char_position(o, u[j]);
            if char_position(o, u[j]) < o.len() {
                assert(w[j][k] == row[char_position(o, u[j])][k]);
            }
        } else {
            assert(w[j][k] == row[o.len() as int][k]);
        }
    }
}

/// Shifting twice is shifting by the sum.
proof fn lemma_shift_twice(row: Seq<Seq<usize>>, d1: int, d2: int, bound: int)
    requires
        row_below(row, bound),
        0 <= d1,
        0 <= d2,
        bound + d1 + d2 <= usize::MAX,
    ensures
        shift_row(shift_row(row, d1), d2) == shift_row(row, d1 + d2),
{
    let l = shift_row(shift_row(row, d1), d2);
    let r = shift_row(row, d1 + d2);
    assert forall|j: int| 0 <= j < l.len() implies l[j] == r[j] by {
        assert forall|k: int| 0 <= k < l[j].len() implies l[j][k] == r[j][k] by {
            assert(row[j][k] < bound);
        }
        assert(l[j] =~= r[j]);
    }
    assert(l =~= r);
}

/// Shifting a cell after adding `x` in order is adding `x` shifted to the
/// shifted cell.
proof fn lemma_shift_insert(c: Seq<usize>, x: usize, d: int)
    requires
        0 <= d,
        forall|k: int| 0 <= k < c.len() ==> #[trigger] c[k] + d <= usize::MAX,
        x + d <= usize::MAX,
    ensures
        shift_cell(insert_sorted(c, x), d) == insert_sorted(shift_cell(c, d), (x + d) as usize),
    decreases c.len(),
{
    let sc = shift_cell(c, d);
    let y = (x + d) as usize;
    if c.len() == 0 {
        assert(shift_cell(seq![x], d) =~= seq![y]);
    } else {
        assert(sc[0] == c[0] + d);
        if x < c[0] {
            assert(shift_cell(seq![x] + c, d) =~= seq![y] + sc);
        } else if x == c[0] {
        } else {
            let t = c.drop_first();
            lemma_shift_insert(t, x, d);
            assert(sc.drop_first() =~= shift_cell(t, d));
            assert(shift_cell(seq![c[0]] + insert_sorted(t, x), d) =~= seq![sc[0]] + shift_cell(insert_sorted(t, x), d));
        }
    }
}

/// Shifting a row after adding an empty-string move is adding the shifted
/// move to the shifted row.
proof fn lemma_shift_eps(row: Seq<Seq<usize>>, x: usize, d: int, bound: int)
    requires
        row.len() >= 1,
        row_below(row, bound),
        0 <= d,
        bound + d <= usize::MAX,
        x + d <= usize::MAX,
    ensures
        shift_row(add_eps_move(row, x), d) == add_eps_move(shift_row(row, d), (x + d) as usize),
{
    let e = row.last();
    assert forall|k: int| 0 <= k < e.len() implies #[trigger] e[k] + d <= usize::MAX by {
        assert(row[row.len() - 1][k] < bound);
    }
    lemma_shift_insert(e, x, d);
    let l = shift_row(add_eps_move(row, x), d);
    let r = add_eps_move(shift_row(row, d), (x + d) as usize);
    assert forall|j: int| 0 <= j < l.len() implies l[j] == r[j] by {}
    assert(l =~= r);
}

/// Concatenating `a b` with `c` builds the same automaton as concatenating
/// `a` with `b c`.
pub proof fn lemma_concat_assoc(a: NfaModel, b: NfaModel, c: NfaModel)
    requires
        a.wf(),
        b.wf(),
        c.wf(),
        a.table.len() + b.table.len() + c.table.len() <= usize::MAX,
    ensures
        concat_model(concat_model(a, b), c) == concat_model(a, concat_model(b, c)),
{
    let na = a.table.len() as int;
    let nb = b.table.len() as int;
    let nc = c.table.len() as int;
    let ua = a.inputs;
    let ub = b.inputs;
    let uc = c.inputs;
    let u1 = merge_chars(ua, ub);
    let u2 = merge_chars(ub, uc);
    lemma_merge_chars(ua, ub);
    lemma_merge_chars(ub, uc);
    lemma_merge_chars(u1, uc);
    lemma_merge_chars(ua, u2);
    let u = merge_chars(u1, uc);
    assert forall|ch: char| u.contains(ch) <==> merge_chars(ua, u2).contains(ch) by {}
    lemma_sorted_chars_unique(u, merge_chars(ua, u2));
    let ab = concat_model(a, b);
    let bc = concat_model(b, c);
    let l = concat_model(ab, c);
    let r = concat_model(a, bc);
    assert(ab.inputs == u1);
    assert(bc.inputs == u2);
    assert(l.inputs == r.inputs);
    assert(l.table.len() == na + nb + nc);
    assert(r.table.len() == na + nb + nc);
    assert forall|i: int| 0 <= i < na + nb + nc implies l.table[i] == r.table[i] by {
        if i < na {
            let ra = a.table[i];
            assert(ra.len() == ua.len() + 1);
            lemma_widen_row_twice(ra, ua, u1, u);
            let w1 = widen_row(ra, ua, u1);
            if i == na - 1 {
                assert(ab.table[i] == add_eps_move(w1, na as usize));
                lemma_widen_row_eps(w1, u1, u, na as usize);
                assert(l.table[i] == widen_row(ab.table[i], u1, u));
                assert(r.table[i] == add_eps_move(widen_row(ra, ua, u), na as usize));
            } else {
                assert(ab.table[i] == w1);
                assert(l.table[i] == widen_row(ab.table[i], u1, u));
                assert(r.table[i] == widen_row(ra, ua, u));
            }
        } else if i < na + nb {
            let q = i - na;
            let rb = b.table[q];
            assert(rb.len() == ub.len() + 1);
            assert(row_below(rb, nb));
            let wb1 = widen_row(rb, ub, u1);
            let wb2 = widen_row(rb, ub, u2);
            let wb = widen_row(rb, ub, u);
            lemma_widen_row_below(rb, ub, u, nb);
            lemma_widen_row_twice(rb, ub, u1, u);
            lemma_widen_row_twice(rb, ub, u2, u);
            lemma_widen_row_shift(wb1, u1, u, na);
            assert(ab.table[i] == shift_row(wb1, na));
            assert(r.table[i] == shift_row(widen_row(bc.table[q], u2, u), na));
            if q == nb - 1 {
                assert(bc.table[q] == add_eps_move(wb2, nb as usize));
                lemma_widen_row_eps(wb2, u2, u, nb as usize);
                lemma_shift_eps(wb, nb as usize, na, nb);
                assert(l.table[i] == add_eps_move(widen_row(ab.table[i], u1, u), (na + nb) as usize));
            } else {
                assert(bc.table[q] == wb2);
                assert(l.table[i] == widen_row(ab.table[i], u1, u));
            }
        } else {
            let q = i - na - nb;
            let rc = c.table[q];
            assert(rc.len() == uc.len() + 1);
            assert(row_below(rc, nc));
            let wc2 = widen_row(rc, uc, u2);
            let wc = widen_row(rc, uc, u);
            lemma_widen_row_below(rc, uc, u, nc);
            lemma_widen_row_shift(wc2, u2, u, nb);
            lemma_widen_row_twice(rc, uc, u2, u);
            lemma_shift_twice(wc, nb, na, nc);
            assert(l.table[i] == shift_row(wc, na + nb));
            assert(bc.table[q + nb] == shift_row(wc2, nb));
            assert(r.table[i] == shift_row(widen_row(bc.table[q + nb], u2, u), na));
        }
    }
    assert(l.table =~= r.table);
}

} // verus!
