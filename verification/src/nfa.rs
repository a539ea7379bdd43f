//! Nondeterministic finite automata with empty-string moves, and the
//! operations that build them: a single character, alphabet joining,
//! concatenation, union, Kleene star and character ranges.
//!
//! State 0 is the start state and the last state is the final state. Each row
//! of the table has one cell per input character, in the order of the
//! alphabet, and a last cell for the empty-string moves.

use vstd::prelude::*;
use crate::sorted::{strictly_sorted, strictly_sorted_chars, search_sorted_chars, merge_chars,
    lemma_merge_chars, lemma_sorted_chars_unique, char_position, lemma_char_position, lemma_char_position_sorted};
use crate::language::{accepts, all_accepted, lemma_single_char_accepts, lemma_widen_accepts, lemma_concat_accepts,
    lemma_union_accepts, lemma_star_accepts};
use crate::table::{table_view, table_wf, copy_table, insert_empty_column,
    insert_empty_cell, shift_from, shift_row, shift_fits, shift_rows_from, append_rows, add_eps_move, push_eps,
    empty_cells, empty_row, lemma_table_wf_weaken, lemma_table_wf_append, lemma_table_wf_shift,
    lemma_table_wf_add_eps, lemma_table_wf_push_empty, lemma_table_wf_prepend, insert_first_row,
    push_row, start_cells, start_row};

verus! {

/// The mathematical content of an automaton: its alphabet and its table.
pub struct NfaModel {
    pub inputs: Seq<char>,
    pub table: Seq<Seq<Seq<usize>>>,
}

impl NfaModel {
    /// A well-formed automaton: at least one state, a strictly increasing
    /// alphabet, one cell per input plus one for empty-string moves in every
    /// row, strictly increasing cells, and only existing states as targets.
    pub open spec fn wf(self) -> bool {
        &&& self.table.len() >= 1
        &&& strictly_sorted_chars(self.inputs)
        &&& table_wf(self.table, self.inputs.len() + 1 as int, self.table.len() as int)
    }

    /// The cell of the empty-string moves of state `q`.
    pub open spec fn eps(self, q: int) -> Seq<usize> {
        self.table[q][self.inputs.len() as int]
    }
}

/// A nondeterministic finite automaton.
#[derive(Clone, PartialEq, Eq)]
pub struct NFA {
    inputs: Vec<char>,
    table: Vec<Vec<Vec<usize>>>,
}

impl View for NFA {
    type V = NfaModel;

    closed spec fn view(&self) -> NfaModel {
        NfaModel { inputs: self.inputs@, table: table_view(&self.table) }
    }
}

impl NFA {
    /// The alphabet, in increasing order.
    pub fn inputs(&self) -> (r: &Vec<char>)
        ensures
            r@ == self@.inputs,
    {
        &self.inputs
    }

    /// The transition table.
    pub fn table(&self) -> (r: &Vec<Vec<Vec<usize>>>)
        ensures
            table_view(r) == self@.table,
    {
        &self.table
    }

    /// A copy of the automaton.
    pub fn duplicate(&self) -> (r: NFA)
        ensures
            r@ == self@,
    {
        NFA { inputs: self.inputs.clone(), table: copy_table(&self.table) }
    }
}

/// The model of the automaton that accepts exactly the one-character string
/// `c`.
pub open spec fn single_char_model(c: char) -> NfaModel {
    NfaModel {
        inputs: seq![c],
        table: seq![seq![seq![1usize], Seq::empty()], seq![Seq::empty(), Seq::empty()]],
    }
}

/// The automaton with states 0 and 1 and one move from 0 to 1 on `c`.
pub fn single_char_nfa(c: char) -> (r: NFA)
    ensures
        r@ == single_char_model(c),
        r@.wf(),
        forall|w: Seq<char>| #[trigger] accepts(r@, w) <==> w == seq![c],
{
    proof {
        assert forall|w: Seq<char>| #[trigger] accepts(single_char_model(c), w) <==> w == seq![c] by {
            lemma_single_char_accepts(c, w);
        }
    }
    let inputs = vec![c];
    let mut table: Vec<Vec<Vec<usize>>> = Vec::new();
    table.push(vec![vec![1], vec![]]);
    table.push(vec![vec![], vec![]]);
    let r = NFA { inputs, table };
    assert(r@.table =~~= single_char_model(c).table);
    assert(r@.inputs =~= single_char_model(c).inputs);
    r
}

/// The row of a table over the alphabet `old`, re-laid over the larger
/// alphabet `u`: the cell of a character of `old` is carried over, the cell of
/// a new character is empty, the empty-string cell stays last.
pub open spec fn widen_row(row: Seq<Seq<usize>>, old: Seq<char>, u: Seq<char>) -> Seq<Seq<usize>> {
    Seq::new(
        u.len() + 1,
        |j: int|
            if j < u.len() {
                if char_position(old, u[j]) < old.len() {
                    row[char_position(old, u[j])]
                } else {
                    Seq::empty()
                }
            } else {
                row[old.len() as int]
            },
    )
}

/// The automaton `m` over the alphabet `u`, which holds its own.
pub open spec fn widen(m: NfaModel, u: Seq<char>) -> NfaModel {
    NfaModel {
        inputs: u,
        table: Seq::new(m.table.len(), |r: int| widen_row(m.table[r], m.inputs, u)),
    }
}

/// Re-laying a row over its own alphabet changes nothing.
proof fn lemma_widen_row_same(row: Seq<Seq<usize>>, old: Seq<char>)
    requires
        strictly_sorted_chars(old),
        row.len() == old.len() + 1,
    ensures
        widen_row(row, old, old) == row,
{
    assert forall|j: int| 0 <= j < old.len() implies #[trigger] widen_row(row, old, old)[j] == row[j] by {
        lemma_char_position_sorted(old, j);
    }
    assert(widen_row(row, old, old) =~= row);
}

/// Adding a new character `c` at position `i` of the larger alphabet adds an
/// empty cell at column `i`.
proof fn lemma_widen_row_insert(row: Seq<Seq<usize>>, old: Seq<char>, u: Seq<char>, i: int, c: char)
    requires
        0 <= i <= u.len(),
        !old.contains(c),
    ensures
        widen_row(row, old, u.insert(i, c)) == insert_empty_cell(widen_row(row, old, u), i),
{
    let u2 = u.insert(i, c);
    let a = widen_row(row, old, u2);
    let b = insert_empty_cell(widen_row(row, old, u), i);
    lemma_char_position(old, c);
    assert forall|j: int| 0 <= j < a.len() implies a[j] == b[j] by {
        if j < i {
            assert(u2[j] == u[j]);
        } else if j == i {
        } else if j < u2.len() {
            assert(u2[j] == u[j - 1]);
        }
    }
    assert(a =~= b);
}

/// Re-laying a well-formed automaton over a strictly increasing alphabet that
/// holds its own keeps it well formed.
pub proof fn lemma_widen_wf(m: NfaModel, u: Seq<char>)
    requires
        m.wf(),
        strictly_sorted_chars(u),
        forall|c: char| m.inputs.contains(c) ==> u.contains(c),
    ensures
        widen(m, u).wf(),
{
    let w = widen(m, u);
    let n = m.table.len() as int;
    assert forall|r: int, c: int| 0 <= r < w.table.len() && 0 <= c < w.table[r].len() implies
        strictly_sorted(#[trigger] w.table[r][c]) && (forall|k: int| 0 <= k < w.table[r][c].len() ==> w.table[r][c][k] < n) by {
        if c < u.len() {
            lemma_char_position(m.inputs, u[c]);
            if char_position(m.inputs, u[c]) < m.inputs.len() {
                let i = char_position(m.inputs, u[c]);
                assert(w.table[r][c] == m.table[r][i]);
            }
        }
    }
    assert forall|r: int, c: int, k: int|
        0 <= r < w.table.len() && 0 <= c < w.table[r].len() && 0 <= k < w.table[r][c].len() implies #[trigger] w.table[r][c][k] < w.table.len() by {
        assert(strictly_sorted(w.table[r][c]));
    }
}

/// Adds every character of `chars` that `target` lacks to its alphabet, with
/// an empty cell for it in every row.
fn add_alphabet(target: &mut NFA, chars: &Vec<char>)
    requires
        old(target)@.wf(),
    ensures
        strictly_sorted_chars(final(target)@.inputs),
        forall|c: char| #[trigger] final(target)@.inputs.contains(c) <==> (old(target)@.inputs.contains(c) || chars@.contains(c)),
        final(target)@ == widen(old(target)@, final(target)@.inputs),
{
    let ghost m0 = target@;
    proof {
        assert forall|r: int| 0 <= r < m0.table.len() implies #[trigger] widen(m0, m0.inputs).table[r] == m0.table[r] by {
            lemma_widen_row_same(m0.table[r], m0.inputs);
        }
        assert(widen(m0, m0.inputs).table =~= m0.table);
    }
    let mut k: usize = 0;
    while k < chars.len()
        invariant
            m0.wf(),
            k <= chars@.len(),
            strictly_sorted_chars(target@.inputs),
            forall|c: char| #[trigger] target@.inputs.contains(c) <==> (m0.inputs.contains(c) || chars@.subrange(0, k as int).contains(c)),
            target@ == widen(m0, target@.inputs),
        decreases chars@.len() - k,
    {
        let c = chars[k];
        let ghost u = target@.inputs;
        let ghost old_rows = target@.table;
        assert(target@.table == widen(m0, u).table);
        assert(old_rows.len() == m0.table.len());
        assert(target@.table == table_view(&target.table));
        match search_sorted_chars(&target.inputs, c) {
            Ok(_) => {},
            Err(i) => {
                proof {
                    assert forall|r: int| 0 <= r < target.table@.len() implies i <= (#[trigger] target.table@[r])@.len() by {
                        assert(target@.table[r] == widen_row(m0.table[r], m0.inputs, u));
                        assert(table_view(&target.table)[r].len() == u.len() + 1);
                    }
                }
                target.inputs.insert(i, c);
                insert_empty_column(&mut target.table, i);
                proof {
                    let u2 = u.insert(i as int, c);
                    assert(target@.inputs == u2);
                    assert(!u.contains(c)) by {
                        if u.contains(c) {
                            let p = choose|p: int| 0 <= p < u.len() && u[p] == c;
                            if p < i {} else {}
                        }
                    }
                    assert(!m0.inputs.contains(c));
                    assert forall|p: int, q: int| 0 <= p < q < u2.len() implies u2[p] < u2[q] by {
                        if p < i && q > i {
                            assert(u2[q] == u[q - 1]);
                        } else if q < i {
                        } else if p > i {
                            assert(u2[q] == u[q - 1] && u2[p] == u[p - 1]);
                        } else if p == i {
                            assert(u2[q] == u[q - 1]);
                        }
                    }
                    assert(target@.table.len() == m0.table.len());
                    assert forall|r: int| 0 <= r < m0.table.len() implies #[trigger] target@.table[r]
                        == widen_row(m0.table[r], m0.inputs, u2) by {
                        assert(old_rows[r] == widen_row(m0.table[r], m0.inputs, u));
                        lemma_widen_row_insert(m0.table[r], m0.inputs, u, i as int, c);
                    }
                    assert(target@.table =~= widen(m0, u2).table);
                    assert forall|x: char| #[trigger] u2.contains(x) <==> (u.contains(x) || x == c) by {
                        if u2.contains(x) {
                            let p = choose|p: int| 0 <= p < u2.len() && u2[p] == x;
                            if p < i {
                                assert(u[p] == x);
                            } else if p > i {
                                assert(u[p - 1] == x);
                            }
                        }
                        if u.contains(x) {
                            let p = choose|p: int| 0 <= p < u.len() && u[p] == x;
                            if p < i {
                                assert(u2[p] == x);
                            } else {
                                assert(u2[p + 1] == x);
                            }
                        }
                        if x == c {
                            assert(u2[i as int] == x);
                        }
                    }
                }
            },
        }
        proof {
            assert forall|x: char| chars@.subrange(0, k + 1).contains(x) <==> (chars@.subrange(0, k as int).contains(x) || x == c) by {
                let s1 = chars@.subrange(0, k + 1);
                let s0 = chars@.subrange(0, k as int);
                if s1.contains(x) {
                    let p = choose|p: int| 0 <= p < s1.len() && s1[p] == x;
                    if p < k {
                        assert(s0[p] == x);
                    }
                }
                if s0.contains(x) {
                    let p = choose|p: int| 0 <= p < s0.len() && s0[p] == x;
                    assert(s1[p] == x);
                }
                if x == c {
                    assert(s1[k as int] == x);
                }
            }
        }
        k = k + 1;
    }
    proof {
        assert(chars@.subrange(0, chars@.len() as int) =~= chars@);
    }
}

/// Joining the alphabets of two well-formed automata that already share one
/// changes neither.
pub proof fn lemma_join_same_alphabet(a: NfaModel, b: NfaModel)
    requires
        a.wf(),
        b.wf(),
        a.inputs == b.inputs,
    ensures
        widen(a, merge_chars(a.inputs, b.inputs)) == a,
        widen(b, merge_chars(a.inputs, b.inputs)) == b,
{
    lemma_merge_chars(a.inputs, b.inputs);
    lemma_sorted_chars_unique(merge_chars(a.inputs, b.inputs), a.inputs);
    assert forall|r: int| 0 <= r < a.table.len() implies #[trigger] widen(a, a.inputs).table[r] == a.table[r] by {
        lemma_widen_row_same(a.table[r], a.inputs);
    }
    assert(widen(a, a.inputs).table =~= a.table);
    assert forall|r: int| 0 <= r < b.table.len() implies #[trigger] widen(b, b.inputs).table[r] == b.table[r] by {
        lemma_widen_row_same(b.table[r], b.inputs);
    }
    assert(widen(b, b.inputs).table =~= b.table);
}

/// Gives both automata the same alphabet: the union of theirs, in increasing
/// order. Every row gains an empty cell for each character its automaton
/// lacked; no move changes.
pub fn join_alphabets(nfa0: &mut NFA, nfa1: &mut NFA)
    requires
        old(nfa0)@.wf(),
        old(nfa1)@.wf(),
    ensures
        final(nfa0)@ == widen(old(nfa0)@, merge_chars(old(nfa0)@.inputs, old(nfa1)@.inputs)),
        final(nfa1)@ == widen(old(nfa1)@, merge_chars(old(nfa0)@.inputs, old(nfa1)@.inputs)),
        final(nfa0)@.wf(),
        final(nfa1)@.wf(),
        forall|w: Seq<char>| #[trigger] accepts(final(nfa0)@, w) == accepts(old(nfa0)@, w),
        forall|w: Seq<char>| #[trigger] accepts(final(nfa1)@, w) == accepts(old(nfa1)@, w),
{
    let ghost a = nfa0@;
    let ghost b = nfa1@;
    add_alphabet(nfa0, &nfa1.inputs);
    add_alphabet(nfa1, &nfa0.inputs);
    proof {
        let u = merge_chars(a.inputs, b.inputs);
        lemma_merge_chars(a.inputs, b.inputs);
        lemma_sorted_chars_unique(nfa0@.inputs, u);
        lemma_sorted_chars_unique(nfa1@.inputs, u);
        lemma_widen_wf(a, u);
        lemma_widen_wf(b, u);
        assert forall|w: Seq<char>| #[trigger] accepts(nfa0@, w) == accepts(a, w) by {
            lemma_widen_accepts(a, u, w);
        }
        assert forall|w: Seq<char>| #[trigger] accepts(nfa1@, w) == accepts(b, w) by {
            lemma_widen_accepts(b, u, w);
        }
    }
}

/// The model of `concat(a, b)`: both over the joint alphabet, the states of
/// `b` numbered after those of `a`, and an empty-string move from the final
/// state of `a` to the start state of `b`.
pub open spec fn concat_model(a: NfaModel, b: NfaModel) -> NfaModel {
    let u = merge_chars(a.inputs, b.inputs);
    let n0 = a.table.len() as int;
    let t = shift_from(widen(a, u).table + widen(b, u).table, n0, n0);
    NfaModel { inputs: u, table: t.update(n0 - 1, add_eps_move(t[n0 - 1], n0 as usize)) }
}

/// Where the final state of `b` has no moves, neither has the final state
/// of `concat_model(a, b)`.
proof fn lemma_concat_last_row(a: NfaModel, b: NfaModel)
    requires
        a.wf(),
        b.wf(),
        forall|c: int| 0 <= c < b.table.last().len() ==> #[trigger] b.table.last()[c].len() == 0,
    ensures
        concat_model(a, b).table[concat_model(a, b).table.len() - 1] == empty_cells(concat_model(a, b).inputs.len() + 1int),
{
    let u = merge_chars(a.inputs, b.inputs);
    let na = a.table.len() as int;
    let nb = b.table.len() as int;
    let last = b.table[nb - 1];
    assert(b.table.last() == last);
    assert(last.len() == b.inputs.len() + 1);
    let w = widen_row(last, b.inputs, u);
    let t = concat_model(a, b).table;
    assert(t.len() == na + nb);
    assert(t[na + nb - 1] == shift_row(w, na));
    assert forall|c: int| 0 <= c < w.len() implies #[trigger] shift_row(w, na)[c] == Seq::<usize>::empty() by {
        if c < u.len() {
            lemma_char_position(b.inputs, u[c]);
            if char_position(b.inputs, u[c]) < b.inputs.len() {
                assert(b.table.last()[char_position(b.inputs, u[c])].len() == 0);
            }
        } else {
            assert(b.table.last()[b.inputs.len() as int].len() == 0);
        }
        assert(shift_row(w, na)[c] =~= Seq::<usize>::empty());
    }
    assert(shift_row(w, na) =~= empty_cells(u.len() + 1int));
}

/// The automaton for the strings of `nfa0` followed by strings of `nfa1`.
pub fn concat(nfa0: &NFA, nfa1: &NFA) -> (res: NFA)
    requires
        nfa0@.wf(),
        nfa1@.wf(),
        nfa0@.table.len() + nfa1@.table.len() <= usize::MAX,
    ensures
        res@ == concat_model(nfa0@, nfa1@),
        res@.wf(),
        res@.table.len() == nfa0@.table.len() + nfa1@.table.len(),
        (forall|c: int| 0 <= c < nfa1@.table.last().len() ==> #[trigger] nfa1@.table.last()[c].len() == 0)
            ==> res@.table[res@.table.len() - 1] == empty_cells(res@.inputs.len() + 1int),
        forall|w: Seq<char>| #[trigger] accepts(res@, w) <==> exists|w1: Seq<char>, w2: Seq<char>|
            #![trigger accepts(nfa0@, w1), accepts(nfa1@, w2)]
            w1 + w2 == w && accepts(nfa0@, w1) && accepts(nfa1@, w2),
{
    proof {
        assert forall|w: Seq<char>| #[trigger] accepts(concat_model(nfa0@, nfa1@), w) <==> exists|w1: Seq<char>, w2: Seq<char>|
            #![trigger accepts(nfa0@, w1), accepts(nfa1@, w2)]
            w1 + w2 == w && accepts(nfa0@, w1) && accepts(nfa1@, w2) by {
            lemma_concat_accepts(nfa0@, nfa1@, w);
        }
        if forall|c: int| 0 <= c < nfa1@.table.last().len() ==> #[trigger] nfa1@.table.last()[c].len() == 0 {
            lemma_concat_last_row(nfa0@, nfa1@);
        }
    }
    let mut nfa0 = nfa0.duplicate();
    let mut nfa1 = nfa1.duplicate();
    let ghost a = nfa0@;
    let ghost b = nfa1@;
    join_alphabets(&mut nfa0, &mut nfa1);
    let ghost u = merge_chars(a.inputs, b.inputs);
    let ghost wa = nfa0@;
    let ghost wb = nfa1@;
    let mut res = nfa0.duplicate();
    let n0 = nfa0.table.len();
    append_rows(&mut res.table, &nfa1.table);
    let ghost joined = res@.table;
    proof {
        let w = u.len() + 1int;
        lemma_table_wf_weaken(wa.table, w, n0 as int, (n0 + wb.table.len()) as int);
        lemma_table_wf_weaken(wb.table, w, wb.table.len() as int, (n0 + wb.table.len()) as int);
        lemma_table_wf_append(wa.table, wb.table, w, (n0 + wb.table.len()) as int);
        assert(joined == wa.table + wb.table);
        assert forall|r: int, c: int, k: int|
            n0 <= r < joined.len() && 0 <= c < joined[r].len() && 0 <= k < joined[r][c].len() implies #[trigger] joined[r][c][k] + n0 <= usize::MAX by {
            assert(joined[r] == wb.table[r - n0]);
            assert(wb.table[r - n0][c][k] < wb.table.len());
        }
        assert(shift_fits(joined, n0 as int, n0 as int, usize::MAX as int));
    }
    shift_rows_from(&mut res.table, n0, n0);
    let ghost shifted = res@.table;
    proof {
        let w = u.len() + 1int;
        assert(table_wf(joined, w, (n0 + wb.table.len()) as int));
        assert forall|r: int, c: int, k: int|
            0 <= r < shifted.len() && 0 <= c < shifted[r].len() && 0 <= k < shifted[r][c].len() implies #[trigger] shifted[r][c][k] < shifted.len() by {
            if r < n0 {
                assert(shifted[r] == wa.table[r]);
                assert(wa.table[r][c][k] < n0);
            } else {
                assert(joined[r] == wb.table[r - n0]);
                assert(wb.table[r - n0][c][k] < wb.table.len());
            }
        }
        lemma_table_wf_shift(joined, n0 as int, n0 as int, w, (n0 + wb.table.len()) as int);
        assert(shifted[n0 - 1] == wa.table[n0 - 1]);
        assert(res.table@.len() == table_view(&res.table).len());
    }
    push_eps(&mut res.table, n0 - 1, n0);
    proof {
        let w = u.len() + 1int;
        assert(table_wf(shifted, w, shifted.len() as int));
        lemma_table_wf_add_eps(shifted, n0 - 1, n0, w, shifted.len() as int);
        assert(res@.table == concat_model(a, b).table);
        assert(res@.inputs == u);
    }
    res
}

/// The model of `union(a, b)`: a new start state 0 with empty-string moves
/// to the start states of `a` and `b`, then the states of `a` and of `b`, and
/// a new final state that the final states of `a` and `b` reach by
/// empty-string moves.
pub open spec fn union_model(a: NfaModel, b: NfaModel) -> NfaModel {
    let u = merge_chars(a.inputs, b.inputs);
    let n0 = a.table.len() as int;
    let n1 = b.table.len() as int;
    let t1 = shift_from(widen(a, u).table + shift_from(widen(b, u).table, 0, n0), 0, 1);
    let t2 = t1.push(empty_cells(u.len() + 1int));
    let f = (n0 + n1 + 1) as usize;
    let t3 = t2.update(n0 - 1, add_eps_move(t2[n0 - 1], f));
    let t4 = t3.update(n0 + n1 - 1, add_eps_move(t3[n0 + n1 - 1], f));
    NfaModel { inputs: u, table: seq![start_cells(u.len() as int, 1, (n0 + 1) as usize)] + t4 }
}

/// The automaton for the strings of `nfa0` and those of `nfa1`.
pub fn union(nfa0: &NFA, nfa1: &NFA) -> (res: NFA)
    requires
        nfa0@.wf(),
        nfa1@.wf(),
        nfa0@.table.len() + nfa1@.table.len() + 2 <= usize::MAX,
    ensures
        res@ == union_model(nfa0@, nfa1@),
        res@.wf(),
        res@.table.len() == nfa0@.table.len() + nfa1@.table.len() + 2,
        res@.table[res@.table.len() - 1] == empty_cells(res@.inputs.len() + 1int),
        forall|w: Seq<char>| #[trigger] accepts(res@, w) <==> (accepts(nfa0@, w) || accepts(nfa1@, w)),
{
    proof {
        assert forall|w: Seq<char>| #[trigger] accepts(union_model(nfa0@, nfa1@), w) <==> (accepts(nfa0@, w) || accepts(nfa1@, w)) by {
            lemma_union_accepts(nfa0@, nfa1@, w);
        }
    }
    let mut nfa0 = nfa0.duplicate();
    let mut nfa1 = nfa1.duplicate();
    let ghost a = nfa0@;
    let ghost b = nfa1@;
    join_alphabets(&mut nfa0, &mut nfa1);
    let ghost u = merge_chars(a.inputs, b.inputs);
    let ghost wa = nfa0@;
    let ghost wb = nfa1@;
    let ghost w = u.len() + 1int;
    let mut res = nfa0.duplicate();
    let n0 = nfa0.table.len();
    let n1 = nfa1.table.len();
    proof {
        assert forall|r: int, c: int, k: int|
            0 <= r < wb.table.len() && 0 <= c < wb.table[r].len() && 0 <= k < wb.table[r][c].len() implies #[trigger] wb.table[r][c][k] + n0 <= usize::MAX by {
            assert(wb.table[r][c][k] < n1);
        }
        lemma_table_wf_shift(wb.table, 0, n0 as int, w, n1 as int);
    }
    shift_rows_from(&mut nfa1.table, 0, n0);
    let ghost sb = nfa1@.table;
    append_rows(&mut res.table, &nfa1.table);
    let ghost joined = res@.table;
    proof {
        assert(joined == wa.table + sb);
        lemma_table_wf_weaken(wa.table, w, n0 as int, (n0 + n1) as int);
        lemma_table_wf_append(wa.table, sb, w, (n0 + n1) as int);
        assert forall|r: int, c: int, k: int|
            0 <= r < joined.len() && 0 <= c < joined[r].len() && 0 <= k < joined[r][c].len() implies #[trigger] joined[r][c][k] + 1 <= usize::MAX by {
            assert(joined[r][c][k] < n0 + n1);
        }
        lemma_table_wf_shift(joined, 0, 1, w, (n0 + n1) as int);
    }
    shift_rows_from(&mut res.table, 0, 1);
    let ghost t1 = res@.table;
    proof {
        assert(table_view(&res.table) == t1);
        assert(t1.len() >= 1);
        assert(res.table@.len() == table_view(&res.table).len());
        assert(table_view(&res.table)[0].len() == res.table@[0]@.len());
    }
    let width = res.table[0].len();
    push_row(&mut res.table, empty_row(width));
    let ghost t2 = res@.table;
    let final_idx = res.table.len();
    proof {
        assert(t2 == t1.push(empty_cells(w)));
        lemma_table_wf_push_empty(t1, w, (n0 + n1 + 1) as int);
        lemma_table_wf_weaken(t2, w, (n0 + n1 + 1) as int, (n0 + n1 + 2) as int);
        assert(t2[n0 - 1].len() == w);
        assert(res.table@.len() == table_view(&res.table).len());
    }
    push_eps(&mut res.table, n0 - 1, final_idx);
    let ghost t3 = res@.table;
    proof {
        lemma_table_wf_add_eps(t2, n0 - 1, final_idx, w, (n0 + n1 + 2) as int);
        assert(t3[n0 + n1 - 1].len() == w);
        assert(res.table@.len() == table_view(&res.table).len());
    }
    push_eps(&mut res.table, n0 + n1 - 1, final_idx);
    let ghost t4 = res@.table;
    proof {
        lemma_table_wf_add_eps(t3, n0 + n1 - 1, final_idx, w, (n0 + n1 + 2) as int);
    }
    let first = start_row(res.inputs.len(), 1, n0 + 1);
    insert_first_row(&mut res.table, first);
    proof {
        let row = start_cells(u.len() as int, 1, (n0 + 1) as usize);
        assert forall|c: int| 0 <= c < w implies strictly_sorted(#[trigger] row[c]) by {}
        assert forall|c: int, k: int| 0 <= c < w && 0 <= k < row[c].len() implies #[trigger] row[c][k] < n0 + n1 + 2 by {}
        lemma_table_wf_prepend(row, t4, w, (n0 + n1 + 2) as int);
        assert(res@.table == union_model(a, b).table);
        assert(res@.inputs == u);
    }
    res
}

/// The model of `star(a)`: a new start state 0 with empty-string moves to the
/// start state of `a` and to a new final state, the states of `a`, and the
/// final state of `a` moving back to 0 and on to the new final state.
pub open spec fn star_model(a: NfaModel) -> NfaModel {
    let n = a.table.len() as int;
    let t1 = shift_from(a.table, 0, 1);
    let t2 = t1.push(empty_cells(a.inputs.len() + 1int));
    let f = (n + 1) as usize;
    let t3 = t2.update(n - 1, add_eps_move(t2[n - 1], f));
    let t4 = seq![start_cells(a.inputs.len() as int, 1, f)] + t3;
    NfaModel { inputs: a.inputs, table: t4.update(n, add_eps_move(t4[n], 0)) }
}

/// The automaton for any number of strings of `nfa`, one after the other.
pub fn star(nfa: &NFA) -> (res: NFA)
    requires
        nfa@.wf(),
        nfa@.table.len() + 2 <= usize::MAX,
    ensures
        res@ == star_model(nfa@),
        res@.wf(),
        res@.table.len() == nfa@.table.len() + 2,
        res@.table[res@.table.len() - 1] == empty_cells(res@.inputs.len() + 1int),
        forall|w: Seq<char>| #[trigger] accepts(res@, w) <==> exists|ws: Seq<Seq<char>>| #[trigger] all_accepted(nfa@, ws) && ws.flatten() == w,
{
    proof {
        assert forall|w: Seq<char>| #[trigger] accepts(star_model(nfa@), w) <==> exists|ws: Seq<Seq<char>>| #[trigger] all_accepted(nfa@, ws) && ws.flatten() == w by {
            lemma_star_accepts(nfa@, w);
        }
    }
    let mut res = nfa.duplicate();
    let ghost a = nfa@;
    let ghost w = a.inputs.len() + 1int;
    let n = nfa.table.len();
    proof {
        assert forall|r: int, c: int, k: int|
            0 <= r < a.table.len() && 0 <= c < a.table[r].len() && 0 <= k < a.table[r][c].len() implies #[trigger] a.table[r][c][k] + 1 <= usize::MAX by {
            assert(a.table[r][c][k] < n);
        }
        lemma_table_wf_shift(a.table, 0, 1, w, n as int);
        assert(a.table[0].len() == w);
    }
    shift_rows_from(&mut res.table, 0, 1);
    let ghost t1 = res@.table;
    proof {
        assert(table_view(&res.table) == t1);
        assert(t1.len() >= 1);
        assert(res.table@.len() == table_view(&res.table).len());
        assert(table_view(&res.table)[0].len() == res.table@[0]@.len());
    }
    let width = res.table[0].len();
    push_row(&mut res.table, empty_row(width));
    let ghost t2 = res@.table;
    let final_idx = res.table.len();
    proof {
        lemma_table_wf_push_empty(t1, w, (n + 1) as int);
        lemma_table_wf_weaken(t2, w, (n + 1) as int, (n + 2) as int);
        assert(t2[n - 1].len() == w);
        assert(res.table@.len() == table_view(&res.table).len());
    }
    push_eps(&mut res.table, n - 1, final_idx);
    let ghost t3 = res@.table;
    proof {
        lemma_table_wf_add_eps(t2, n - 1, final_idx, w, (n + 2) as int);
    }
    let first = start_row(res.inputs.len(), 1, final_idx);
    insert_first_row(&mut res.table, first);
    let ghost t4 = res@.table;
    proof {
        let row = start_cells(a.inputs.len() as int, 1, final_idx);
        assert forall|c: int| 0 <= c < w implies strictly_sorted(#[trigger] row[c]) by {}
        assert forall|c: int, k: int| 0 <= c < w && 0 <= k < row[c].len() implies #[trigger] row[c][k] < n + 2 by {}
        lemma_table_wf_prepend(row, t3, w, (n + 2) as int);
        assert(t4[n as int].len() == w);
        assert(res.table@.len() == t4.len());
    }
    push_eps(&mut res.table, n, 0);
    proof {
        lemma_table_wf_add_eps(t4, n as int, 0, w, (n + 2) as int);
        assert(res@.table == star_model(a).table);
    }
    res
}

/// The one-character string of the character with byte code `k`.
pub open spec fn byte_string(k: int) -> Seq<char> {
    seq![k as u8 as char]
}

/// The model of `union_char_range(first, lo, hi)`: the automaton of `first`,
/// then its union with the automaton of each character of code `lo` to `hi`
/// in turn.
pub open spec fn char_range_model(first: char, lo: int, hi: int) -> NfaModel
    decreases hi - lo + 1,
{
    if hi < lo {
        single_char_model(first)
    } else {
        union_model(char_range_model(first, lo, hi - 1), single_char_model(hi as u8 as char))
    }
}

/// The automaton for `start_char` and every character whose code, cut to a
/// byte, lies between those of `start_char` and `end_char` cut to a byte.
pub fn union_char_range(start_char: char, end_char: char) -> (nfa: NFA)
    requires
        (start_char as u8) <= (end_char as u8),
    ensures
        nfa@ == char_range_model(start_char, start_char as u8 as int, end_char as u8 as int),
        nfa@.wf(),
        forall|w: Seq<char>| #[trigger] accepts(nfa@, w) <==> (w == seq![start_char] || exists|k: int|
            start_char as u8 <= k <= end_char as u8 && w == #[trigger] byte_string(k)),
{
    let mut nfa = single_char_nfa(start_char);
    let start_idx = start_char as u8;
    let end_idx = end_char as u8;
    let mut i: u16 = start_idx as u16;
    while i <= end_idx as u16
        invariant
            start_idx <= i <= end_idx as u16 + 1,
            nfa@ == char_range_model(start_char, start_idx as int, i - 1),
            nfa@.wf(),
            nfa@.table.len() == 2 + 4 * (i - start_idx),
            forall|w: Seq<char>| #[trigger] accepts(nfa@, w) <==> (w == seq![start_char] || exists|k: int|
                start_idx <= k < i && w == #[trigger] byte_string(k)),
        decreases end_idx as u16 + 1 - i,
    {
        let c = single_char_nfa(i as u8 as char);
        let ghost before = nfa@;
        nfa = union(&nfa, &c);
        proof {
            assert forall|w: Seq<char>| #[trigger] accepts(nfa@, w) <==> (w == seq![start_char] || exists|k: int|
                start_idx <= k < i + 1 && w == #[trigger] byte_string(k)) by {
                assert(accepts(nfa@, w) <==> (accepts(before, w) || accepts(c@, w)));
                if w == seq![i as u8 as char] {
                    assert(w == byte_string(i as int));
                }
                if exists|k: int| start_idx <= k < i + 1 && w == #[trigger] byte_string(k) {
                    let k = choose|k: int| start_idx <= k < i + 1 && w == #[trigger] byte_string(k);
                    if k == i {
                        assert(accepts(c@, w));
                    } else {
                        assert(accepts(before, w));
                    }
                }
            }
        }
        i = i + 1;
    }
    nfa
}

} // verus!
