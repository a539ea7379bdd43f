//! Deterministic finite automata, matching of whole strings, and the
//! construction of a deterministic automaton from a nondeterministic one.

use vstd::prelude::*;
use crate::sorted::{strictly_sorted, strictly_sorted_chars, search_sorted, search_sorted_chars,
    push_sorted, char_position, lemma_char_position,
    lemma_char_position_sorted};
use crate::closure::{eps_reaches, lemma_reach_in_range};
use crate::language::accepts;
use crate::reading::{reads_to, in_next, lemma_reads_empty, lemma_reads_push, lemma_reads_none_after};
use crate::subsets::{pow2, lemma_distinct_lists_bound};
use crate::nfa::{NFA, NfaModel};
use crate::table::{table_view, row_view, cells_equal};

verus! {

/// The mathematical content of a deterministic automaton.
pub struct DfaModel {
    pub inputs: Seq<char>,
    pub final_states: Seq<usize>,
    pub table: Seq<Seq<Option<usize>>>,
}

impl DfaModel {
    /// A well-formed automaton: at least one state, a strictly increasing
    /// alphabet, a strictly increasing list of existing final states, one
    /// cell per input in every row, and only existing states as targets.
    pub open spec fn wf(self) -> bool {
        &&& self.table.len() >= 1
        &&& strictly_sorted_chars(self.inputs)
        &&& strictly_sorted(self.final_states)
        &&& forall|k: usize| #[trigger] self.final_states.contains(k) ==> k < self.table.len()
        &&& forall|r: int| 0 <= r < self.table.len() ==> #[trigger] self.table[r].len() == self.inputs.len()
        &&& forall|r: int, j: int|
            0 <= r < self.table.len() && 0 <= j < self.table[r].len() && #[trigger] self.table[r][j] is Some
                ==> self.table[r][j]->0 < self.table.len()
    }

    /// The state reached from `s` on the character `c`, if any.
    pub open spec fn step(self, s: usize, c: char) -> Option<usize> {
        if char_position(self.inputs, c) < self.inputs.len() {
            self.table[s as int][char_position(self.inputs, c)]
        } else {
            None
        }
    }

    /// The state reached from `s` on the string `w`, if every character has
    /// a move.
    pub open spec fn run(self, s: usize, w: Seq<char>) -> Option<usize>
        decreases w.len(),
    {
        if w.len() == 0 {
            Some(s)
        } else {
            match self.step(s, w[0]) {
                Some(t) => self.run(t, w.drop_first()),
                None => None,
            }
        }
    }

    /// The whole string `w` leads from state 0 to a final state.
    pub open spec fn accepts(self, w: Seq<char>) -> bool {
        match self.run(0, w) {
            Some(s) => self.final_states.contains(s),
            None => false,
        }
    }
}

/// A deterministic finite automaton; state 0 is the start state.
pub struct DFA {
    inputs: Vec<char>,
    final_states: Vec<usize>,
    table: Vec<Vec<Option<usize>>>,
}

/// The rows of a deterministic table as sequences.
pub open spec fn dfa_table_view(t: &Vec<Vec<Option<usize>>>) -> Seq<Seq<Option<usize>>> {
    Seq::new(t@.len(), |r: int| t@[r]@)
}

impl View for DFA {
    type V = DfaModel;

    closed spec fn view(&self) -> DfaModel {
        DfaModel {
            inputs: self.inputs@,
            final_states: self.final_states@,
            table: dfa_table_view(&self.table),
        }
    }
}

impl DFA {
    /// The alphabet, in increasing order.
    pub fn inputs(&self) -> (r: &Vec<char>)
        ensures
            r@ == self@.inputs,
    {
        &self.inputs
    }

    /// The final states, in increasing order.
    pub fn final_states(&self) -> (r: &Vec<usize>)
        ensures
            r@ == self@.final_states,
    {
        &self.final_states
    }

    /// The transition table.
    pub fn table(&self) -> (r: &Vec<Vec<Option<usize>>>)
        ensures
            dfa_table_view(r) == self@.table,
    {
        &self.table
    }

    /// Whether the whole of `input` leads from state 0 to a final state.
    /// A character outside the alphabet, or without a move, rejects.
    pub fn mtch(&self, input: &str) -> (matched: bool)
        requires
            self@.wf(),
        ensures
            matched == self@.accepts(input@),
    {
        let ghost d = self@;
        let ghost w = input@;
        let mut state: usize = 0;
        let mut matching = search_sorted(&self.final_states, state).is_ok();
        proof {
            assert(matching == d.final_states.contains(0)) by {
                if d.final_states.contains(0) {
                    let k = choose|k: int| 0 <= k < d.final_states.len() && d.final_states[k] == 0;
                }
            }
            assert(w.skip(0) =~= w);
        }
        for chr in it: input.chars()
            invariant
                d == self@,
                w == input@,
                d.wf(),
                it.seq() == w,
                state < d.table.len(),
                d.run(0, w) == d.run(state, w.skip(it.index() as int)),
                matching == d.final_states.contains(state),
        {
            let ghost i = it.index();
            proof {
                assert(w.skip(i as int)[0] == chr);
                assert(w.skip(i as int).drop_first() =~= w.skip(i + 1));
            }
            let input_idx = search_sorted_chars(&self.inputs, chr);
            match input_idx {
                Ok(input_idx) => {
                    proof {
                        lemma_char_position_sorted(d.inputs, input_idx as int);
                        assert(d.table[state as int].len() == d.inputs.len());
                    }
                    match self.table[state][input_idx] {
                        Some(new_state) => {
                            proof {
                                assert(d.table[state as int][input_idx as int] == Some(new_state));
                            }
                            state = new_state;
                        },
                        None => {
                            proof {
                                assert(d.table[state as int][input_idx as int] is None);
                                assert(d.step(state, chr) is None);
                                assert(w.skip(i as int).len() > 0);
                                assert(d.run(state, w.skip(i as int)) is None);
                            }
                            return false;
                        },
                    }
                },
                Err(_) => {
                    proof {
                        lemma_char_position(d.inputs, chr);
                        assert(!d.inputs.contains(chr)) by {
                            if d.inputs.contains(chr) {
                                let p = choose|p: int| 0 <= p < d.inputs.len() && d.inputs[p] == chr;
                            }
                        }
                        assert(d.step(state, chr) is None);
                        assert(w.skip(i as int).len() > 0);
                        assert(d.run(state, w.skip(i as int)) is None);
                    }
                    return false;
                },
            }
            matching = search_sorted(&self.final_states, state).is_ok();
            proof {
                if d.final_states.contains(state) {
                    let k = choose|k: int| 0 <= k < d.final_states.len() && d.final_states[k] == state;
                }
            }
        }
        proof {
            assert(w.skip(w.len() as int) =~= Seq::<char>::empty());
        }
        matching
    }
}

/// `cls2` keeps the closures of `cls` at their places and may add more.
pub open spec fn extends(cls: Seq<Seq<usize>>, cls2: Seq<Seq<usize>>) -> bool {
    &&& cls.len() <= cls2.len()
    &&& forall|k: int| 0 <= k < cls.len() ==> cls2[k] == #[trigger] cls[k]
}

/// The closures as sequences.
pub open spec fn cls_view(ev: &Vec<Vec<usize>>) -> Seq<Seq<usize>> {
    Seq::new(ev@.len(), |k: int| ev@[k]@)
}

/// A row with no moves.
fn none_row(width: usize) -> (row: Vec<Option<usize>>)
    ensures
        row@ == Seq::new(width as nat, |j: int| None::<usize>),
{
    let mut row: Vec<Option<usize>> = Vec::with_capacity(width);
    let mut j: usize = 0;
    while j < width
        invariant
            j <= width,
            row@ == Seq::new(j as nat, |q: int| None::<usize>),
        decreases width - j,
    {
        row.push(None);
        j = j + 1;
        assert(row@ =~= Seq::new(j as nat, |q: int| None::<usize>));
    }
    row
}

/// The first position of `c` among the closures `ev`.
fn find_closure(ev: &Vec<Vec<usize>>, c: &Vec<usize>) -> (r: Option<usize>)
    ensures
        match r {
            Some(k) => k < ev@.len() && ev@[k as int]@ == c@,
            None => forall|k: int| 0 <= k < ev@.len() ==> (#[trigger] ev@[k])@ != c@,
        },
{
    let mut k: usize = 0;
    while k < ev.len()
        invariant
            k <= ev@.len(),
            forall|q: int| 0 <= q < k ==> (#[trigger] ev@[q])@ != c@,
        decreases ev@.len() - k,
    {
        if cells_equal(&ev[k], c) {
            return Some(k);
        }
        k = k + 1;
    }
    None
}

/// A row with no moves over an alphabet of `width` characters.
pub open spec fn none_cells(width: int) -> Seq<Option<usize>> {
    Seq::new(width as nat, |j: int| None::<usize>)
}

/// Every closure of `cls` is strictly increasing, holds only states of `m`,
/// and differs from every other.
pub open spec fn lists_ok(m: NfaModel, cls: Seq<Seq<usize>>) -> bool {
    &&& forall|k: int| 0 <= k < cls.len() ==> strictly_sorted(#[trigger] cls[k])
    &&& forall|k: int, y: usize| 0 <= k < cls.len() && #[trigger] cls[k].contains(y) ==> y < m.table.len()
    &&& forall|a: int, b: int| 0 <= a < cls.len() && 0 <= b < cls.len() && a != b ==> cls[a] != cls[b]
}

/// The closures of `cls` from position `len0` on are strictly increasing,
/// hold only states of `m`, and differ from every closure before them.
pub open spec fn added_ok(m: NfaModel, cls: Seq<Seq<usize>>, len0: int) -> bool {
    &&& forall|k: int| len0 <= k < cls.len() ==> strictly_sorted(#[trigger] cls[k])
    &&& forall|k: int, y: usize| len0 <= k < cls.len() && #[trigger] cls[k].contains(y) ==> y < m.table.len()
    &&& forall|a: int, b: int| 0 <= a < b < cls.len() && len0 <= b ==> cls[a] != cls[b]
}

/// The shape of a deterministic automaton over the alphabet of `m` with
/// `len` states: one row per state, one cell per input, only existing states
/// as targets, and strictly increasing final states.
pub open spec fn dfa_shape(m: NfaModel, d: DfaModel, len: int) -> bool {
    &&& d.inputs == m.inputs
    &&& d.table.len() == len
    &&& forall|r: int| 0 <= r < d.table.len() ==> #[trigger] d.table[r].len() == m.inputs.len()
    &&& forall|r: int, j: int|
        0 <= r < d.table.len() && 0 <= j < d.table[r].len() && #[trigger] d.table[r][j] is Some
            ==> d.table[r][j]->0 < len
    &&& strictly_sorted(d.final_states)
}

/// The entry of a deterministic row for the set of states `s` on input
/// column `j`: nowhere when no state of `s` moves on `j`, else a state whose
/// closure holds exactly the states reachable by empty-string moves from the
/// targets of `s` on `j`.
pub open spec fn entry_ok(m: NfaModel, cls: Seq<Seq<usize>>, s: Seq<usize>, j: int, entry: Option<usize>) -> bool {
    match entry {
        None => forall|x: usize| !#[trigger] in_next(m, s, j, x),
        Some(k) => k < cls.len() && forall|x: usize| #[trigger] cls[k as int].contains(x) <==> in_next(m, s, j, x),
    }
}

/// No state of `s` moves on input column `j`.
pub open spec fn no_targets(m: NfaModel, s: Seq<usize>, j: int) -> bool {
    forall|x: usize| !#[trigger] in_next(m, s, j, x)
}

/// The entry for the set of states `s` on input column `j` after the row is
/// filled: the entry it had `before` where no state of `s` moves on `j`,
/// else a state whose closure holds exactly the states reachable by
/// empty-string moves from the targets.
pub open spec fn filled_entry(m: NfaModel, cls: Seq<Seq<usize>>, s: Seq<usize>, j: int, before: Option<usize>, entry: Option<usize>) -> bool {
    if no_targets(m, s, j) {
        entry == before
    } else {
        entry is Some && entry_ok(m, cls, s, j, entry)
    }
}

/// Row `i` of a deterministic table follows the closure `cls[i]` on every
/// input.
pub open spec fn row_ok(m: NfaModel, cls: Seq<Seq<usize>>, row: Seq<Option<usize>>, i: int) -> bool {
    &&& row.len() == m.inputs.len()
    &&& forall|j: int| 0 <= j < m.inputs.len() ==> entry_ok(m, cls, cls[i], j, #[trigger] row[j])
}

/// The final states are those whose closure holds the final state of `m`.
pub open spec fn finals_ok(m: NfaModel, cls: Seq<Seq<usize>>, fin: Seq<usize>) -> bool {
    forall|k: usize| #[trigger] fin.contains(k) <==> (k < cls.len() && cls[k as int].contains((m.table.len() - 1) as usize))
}

/// The whole numbers from `lo` up to, not including, `hi`.
pub open spec fn index_range(lo: int, hi: int) -> Seq<usize> {
    Seq::new((hi - lo) as nat, |p: int| (lo + p) as usize)
}

/// A finished row stays finished when closures are added.
proof fn lemma_row_ok_extend(m: NfaModel, cls: Seq<Seq<usize>>, cls2: Seq<Seq<usize>>, row: Seq<Option<usize>>, k: int)
    requires
        row_ok(m, cls, row, k),
        extends(cls, cls2),
        0 <= k < cls.len(),
    ensures
        row_ok(m, cls2, row, k),
{
    assert forall|j: int| 0 <= j < m.inputs.len() implies entry_ok(m, cls2, cls2[k], j, #[trigger] row[j]) by {
        assert(entry_ok(m, cls, cls[k], j, row[j]));
        match row[j] {
            Some(k2) => {
                assert(cls2[k2 as int] == cls[k2 as int]);
            },
            None => {},
        }
    }
}

/// The closures found by `to_dfa` number at most two to the power of the
/// number of states.
proof fn lemma_lists_bound(m: NfaModel, cls: Seq<Seq<usize>>)
    requires
        lists_ok(m, cls),
        m.table.len() <= usize::MAX,
    ensures
        cls.len() <= pow2(m.table.len()),
{
    assert forall|a: int, q: int| 0 <= a < cls.len() && 0 <= q < cls[a].len() implies #[trigger] cls[a][q] < m.table.len() by {
        assert(cls[a].contains(cls[a][q]));
    }
    lemma_distinct_lists_bound(cls, m.table.len());
}

/// `x` is reachable by empty-string moves from one of the first `q` states
/// of `cell`.
pub open spec fn from_cell(m: NfaModel, cell: Seq<usize>, q: int, x: usize) -> bool {
    exists|r: int| 0 <= r < q && #[trigger] eps_reaches(m, cell[r], x)
}

/// Taking one more state of `s` into account adds the closure of its targets.
proof fn lemma_in_next_extend(m: NfaModel, s: Seq<usize>, p: int, j: int, x: usize)
    requires
        0 <= p < s.len(),
    ensures
        in_next(m, s.subrange(0, p + 1), j, x) <==> (in_next(m, s.subrange(0, p), j, x) || from_cell(
            m,
            m.table[s[p] as int][j],
            m.table[s[p] as int][j].len() as int,
            x,
        )),
{
    let s0 = s.subrange(0, p);
    let s1 = s.subrange(0, p + 1);
    let cell = m.table[s[p] as int][j];
    if in_next(m, s1, j, x) {
        let (f, t) = choose|f: usize, t: usize| s1.contains(f) && #[trigger] m.table[f as int][j].contains(t) && eps_reaches(m, t, x);
        let a = choose|a: int| 0 <= a < s1.len() && s1[a] == f;
        if a < p {
            assert(s0[a] == f);
            assert(s0.contains(f));
        } else {
            let r = choose|r: int| 0 <= r < cell.len() && cell[r] == t;
            assert(eps_reaches(m, cell[r], x));
        }
    }
    if in_next(m, s0, j, x) {
        let (f, t) = choose|f: usize, t: usize| s0.contains(f) && #[trigger] m.table[f as int][j].contains(t) && eps_reaches(m, t, x);
        let a = choose|a: int| 0 <= a < s0.len() && s0[a] == f;
        assert(s1[a] == f);
        assert(s1.contains(f));
    }
    if from_cell(m, cell, cell.len() as int, x) {
        let r = choose|r: int| 0 <= r < cell.len() && #[trigger] eps_reaches(m, cell[r], x);
        assert(s1[p] == s[p]);
        assert(s1.contains(s[p]));
        assert(cell.contains(cell[r]));
    }
}

impl NFA {
    /// The states reachable by empty-string moves from the targets, in input
    /// column `j`, of the states of `s`, in increasing order.
    fn targets_closure(&self, s: &Vec<usize>, j: usize) -> (next: Vec<usize>)
        requires
            self@.wf(),
            j < self@.inputs.len(),
            forall|y: usize| #[trigger] s@.contains(y) ==> y < self@.table.len(),
        ensures
            strictly_sorted(next@),
            forall|y: usize| #[trigger] next@.contains(y) ==> y < self@.table.len(),
            forall|x: usize| #[trigger] next@.contains(x) <==> in_next(self@, s@, j as int, x),
    {
        let ghost m = self@;
        let ghost n = m.table.len();
        let table = self.table();
        let mut next: Vec<usize> = Vec::new();
        let mut p: usize = 0;
        proof {
            assert forall|x: usize| #[trigger] next@.contains(x) <==> in_next(m, s@.subrange(0, 0), j as int, x) by {
                if in_next(m, s@.subrange(0, 0), j as int, x) {
                    let (f, t) = choose|f: usize, t: usize| s@.subrange(0, 0).contains(f) && #[trigger] m.table[f as int][j as int].contains(t) && eps_reaches(m, t, x);
                }
            }
        }
        while p < s.len()
            invariant
                m == self@,
                m.wf(),
                n == m.table.len(),
                table_view(table) == m.table,
                j < m.inputs.len(),
                p <= s@.len(),
                forall|y: usize| #[trigger] s@.contains(y) ==> y < n,
                strictly_sorted(next@),
                forall|y: usize| #[trigger] next@.contains(y) ==> y < n,
                forall|x: usize| #[trigger] next@.contains(x) <==> in_next(m, s@.subrange(0, p as int), j as int, x),
            decreases s@.len() - p,
        {
            let f = s[p];
            proof {
                assert(s@.contains(f));
                assert(m.table[f as int].len() == m.inputs.len() + 1);
            }
            let cell = &table[f][j];
            let ghost cl = m.table[f as int][j as int];
            let ghost mid = next@;
            proof {
                assert(row_view(&table@[f as int]) == m.table[f as int]);
                assert(cell@ == cl);
            }
            let mut q: usize = 0;
            while q < cell.len()
                invariant
                    m == self@,
                    m.wf(),
                    n == m.table.len(),
                    f < n,
                    j < m.inputs.len(),
                    cell@ == cl,
                    cl == m.table[f as int][j as int],
                    q <= cl.len(),
                    strictly_sorted(next@),
                    forall|y: usize| #[trigger] next@.contains(y) ==> y < n,
                    forall|x: usize| #[trigger] next@.contains(x) <==> (mid.contains(x) || from_cell(m, cl, q as int, x)),
                decreases cl.len() - q,
            {
                let t = cell[q];
                proof {
                    assert(cl[q as int] == t);
                    assert(t < n);
                }
                let c = self.eps_clos(t);
                let ghost before = next@;
                let mut r: usize = 0;
                while r < c.len()
                    invariant
                        m == self@,
                        m.wf(),
                        n == m.table.len(),
                        t < n,
                        r <= c@.len(),
                        forall|v: usize| #[trigger] c@.contains(v) <==> eps_reaches(m, t, v),
                        strictly_sorted(next@),
                        forall|y: usize| #[trigger] next@.contains(y) ==> y < n,
                        forall|x: usize| #[trigger] next@.contains(x) <==> (before.contains(x) || c@.subrange(0, r as int).contains(x)),
                    decreases c@.len() - r,
                {
                    let v = c[r];
                    proof {
                        assert(c@.contains(v));
                        lemma_reach_in_range(m, t, v);
                    }
                    let ghost b2 = next@;
                    push_sorted(&mut next, v);
                    proof {
                        assert forall|x: usize| #[trigger] next@.contains(x) <==> (before.contains(x) || c@.subrange(0, r + 1).contains(x)) by {
                            let c0 = c@.subrange(0, r as int);
                            let c1 = c@.subrange(0, r + 1);
                            if c1.contains(x) {
                                let a = choose|a: int| 0 <= a < c1.len() && c1[a] == x;
                                if a < r {
                                    assert(c0[a] == x);
                                }
                            }
                            if c0.contains(x) {
                                let a = choose|a: int| 0 <= a < c0.len() && c0[a] == x;
                                assert(c1[a] == x);
                            }
                            if x == v {
                                assert(c1[r as int] == x);
                            }
                            assert(b2.contains(x) <==> (before.contains(x) || c0.contains(x)));
                        }
                    }
                    r = r + 1;
                }
                proof {
                    assert(c@.subrange(0, c@.len() as int) =~= c@);
                    assert forall|x: usize| #[trigger] next@.contains(x) <==> (mid.contains(x) || from_cell(m, cl, q + 1, x)) by {
                        if from_cell(m, cl, q + 1, x) && !from_cell(m, cl, q as int, x) {
                            let a = choose|a: int| 0 <= a < q + 1 && #[trigger] eps_reaches(m, cl[a], x);
                            assert(a == q);
                            assert(c@.contains(x));
                        }
                        if from_cell(m, cl, q as int, x) {
                            let a = choose|a: int| 0 <= a < q && #[trigger] eps_reaches(m, cl[a], x);
                            assert(from_cell(m, cl, q + 1, x));
                        }
                        if c@.contains(x) {
                            assert(eps_reaches(m, cl[q as int], x));
                            assert(from_cell(m, cl, q + 1, x));
                        }
                        assert(before.contains(x) <==> (mid.contains(x) || from_cell(m, cl, q as int, x)));
                    }
                }
                q = q + 1;
            }
            proof {
                lemma_in_next_extend(m, s@, p as int, j as int, 0);
                assert forall|x: usize| #[trigger] next@.contains(x) <==> in_next(m, s@.subrange(0, p + 1), j as int, x) by {
                    lemma_in_next_extend(m, s@, p as int, j as int, x);
                    assert(mid.contains(x) <==> in_next(m, s@.subrange(0, p as int), j as int, x));
                }
            }
            p = p + 1;
        }
        proof {
            assert(s@.subrange(0, s@.len() as int) =~= s@);
        }
        next
    }
}

impl NFA {
    /// Fills row `i` of `dfa`: on each input on which a state of closure `i`
    /// moves, the entry goes to the closure of all the targets; on the other
    /// inputs the entry stays as it was. A closure not met before is added to `eps_closures`, with a new
    /// row without moves in `dfa`, and is final when it holds the final
    /// state. Returns the positions of the added closures.
    fn eps_clos_from_eps_clos(&self, eps_closures: &mut Vec<Vec<usize>>, dfa: &mut DFA, i: usize) -> (res: Vec<usize>)
        requires
            self@.wf(),
            i < old(eps_closures)@.len(),
            old(dfa)@.table.len() == old(eps_closures)@.len(),
            old(dfa)@.table[i as int].len() == self@.inputs.len(),
            forall|y: usize| #[trigger] old(eps_closures)@[i as int]@.contains(y) ==> y < self@.table.len(),
            strictly_sorted(old(dfa)@.final_states),
        ensures
            extends(cls_view(old(eps_closures)), cls_view(final(eps_closures))),
            added_ok(self@, cls_view(final(eps_closures)), old(eps_closures)@.len() as int),
            final(dfa)@.inputs == old(dfa)@.inputs,
            final(dfa)@.table.len() == final(eps_closures)@.len(),
            strictly_sorted(final(dfa)@.final_states),
            forall|r: int| 0 <= r < old(eps_closures)@.len() && r != i ==> #[trigger] final(dfa)@.table[r] == old(dfa)@.table[r],
            forall|r: int| old(eps_closures)@.len() <= r < final(eps_closures)@.len() ==> #[trigger] final(dfa)@.table[r] == none_cells(self@.inputs.len() as int),
            final(dfa)@.table[i as int].len() == self@.inputs.len(),
            forall|j: int| 0 <= j < self@.inputs.len() ==> filled_entry(self@, cls_view(final(eps_closures)), old(eps_closures)@[i as int]@, j, old(dfa)@.table[i as int][j], #[trigger] final(dfa)@.table[i as int][j]),
            forall|k: usize| #[trigger] final(dfa)@.final_states.contains(k) <==> (old(dfa)@.final_states.contains(k) || (old(eps_closures)@.len() <= k < final(eps_closures)@.len() && cls_view(final(eps_closures))[k as int].contains((self@.table.len() - 1) as usize))),
            res@ == index_range(old(eps_closures)@.len() as int, final(eps_closures)@.len() as int),
    {
        let ghost m = self@;
        let ghost n = m.table.len() as int;
        let ghost ni = m.inputs.len() as int;
        let ghost cls0 = cls_view(eps_closures);
        let ghost d0 = dfa@;
        let ghost len0 = cls0.len();
        let mut res: Vec<usize> = Vec::new();
        let from_states = eps_closures[i].clone();
        let ghost s = from_states@;
        let ninputs = self.inputs().len();
        let final_nfa_state = self.table().len() - 1;
        let mut row: Vec<Option<usize>> = Vec::new();
        proof {
            assert(s == cls0[i as int]);
            assert(res@ =~= index_range(len0 as int, len0 as int));
        }
        let mut j: usize = 0;
        while j < ninputs
            invariant
                m == self@,
                m.wf(),
                n == m.table.len(),
                ni == m.inputs.len(),
                ninputs == ni,
                final_nfa_state == n - 1,
                s == from_states@,
                s == cls0[i as int],
                forall|y: usize| #[trigger] s.contains(y) ==> y < n,
                i < len0,
                len0 == cls0.len(),
                j <= ni,
                row@.len() == j,
                added_ok(m, cls_view(eps_closures), len0 as int),
                extends(cls0, cls_view(eps_closures)),
                dfa@.table.len() == eps_closures@.len(),
                strictly_sorted(dfa@.final_states),
                dfa@.inputs == d0.inputs,
                d0.table.len() == len0,
                forall|r: int| 0 <= r < len0 ==> #[trigger] dfa@.table[r] == d0.table[r],
                forall|r: int| len0 <= r < eps_closures@.len() ==> #[trigger] dfa@.table[r] == none_cells(ni),
                d0.table[i as int].len() == ni,
                forall|q: int| 0 <= q < j ==> filled_entry(m, cls_view(eps_closures), s, q, d0.table[i as int][q], #[trigger] row@[q]),
                forall|k: usize| #[trigger] dfa@.final_states.contains(k) <==> (d0.final_states.contains(k) || (len0 <= k < eps_closures@.len() && cls_view(eps_closures)[k as int].contains((n - 1) as usize))),
                res@ == index_range(len0 as int, eps_closures@.len() as int),
            decreases ni - j,
        {
            let ghost cls1 = cls_view(eps_closures);
            let ghost row1 = row@;
            let next = self.targets_closure(&from_states, j);
            if next.len() == 0 {
                proof {
                    assert(dfa@.table[i as int] == d0.table[i as int]);
                    assert(dfa_table_view(&dfa.table)[i as int] == dfa.table@[i as int]@);
                }
                let before = dfa.table[i][j];
                row.push(before);
                proof {
                    assert forall|x: usize| !#[trigger] in_next(m, s, j as int, x) by {
                        if in_next(m, s, j as int, x) {
                            assert(next@.contains(x));
                        }
                    }
                    assert(no_targets(m, s, j as int));
                }
            } else {
                proof {
                    let x0 = next@[0];
                    assert(next@.contains(x0));
                    assert(!no_targets(m, s, j as int));
                }
                match find_closure(eps_closures, &next) {
                    Some(k) => {
                        row.push(Some(k));
                        proof {
                            assert(cls1[k as int] == next@);
                        }
                    },
                    None => {
                        let idx = eps_closures.len();
                        let is_final = search_sorted(&next, final_nfa_state).is_ok();
                        let ghost nx = next@;
                        let ghost fin1 = dfa@.final_states;
                        let ghost t1 = dfa@.table;
                        eps_closures.push(next);
                        dfa.table.push(none_row(ninputs));
                        res.push(idx);
                        if is_final {
                            push_sorted(&mut dfa.final_states, idx);
                        }
                        row.push(Some(idx));
                        proof {
                            let cls2 = cls_view(eps_closures);
                            assert(cls2 =~= cls1.push(nx));
                            assert(is_final == nx.contains((n - 1) as usize)) by {
                                if nx.contains((n - 1) as usize) {
                                    let q = choose|q: int| 0 <= q < nx.len() && nx[q] == (n - 1) as usize;
                                }
                            }
                            assert(dfa@.table =~= t1.push(none_cells(ni)));
                            assert(res@ =~= index_range(len0 as int, eps_closures@.len() as int));
                            assert forall|a: int, b: int| 0 <= a < b < cls2.len() && len0 <= b implies cls2[a] != cls2[b] by {
                                if b == idx {
                                    assert(cls1[a] != nx);
                                }
                            }
                            assert forall|k2: usize| #[trigger] dfa@.final_states.contains(k2) <==> (d0.final_states.contains(k2) || (len0 <= k2 < eps_closures@.len() && cls2[k2 as int].contains((n - 1) as usize))) by {
                                assert(fin1.contains(k2) <==> (d0.final_states.contains(k2) || (len0 <= k2 < cls1.len() && cls1[k2 as int].contains((n - 1) as usize))));
                            }
                            assert forall|q: int| 0 <= q < j implies filled_entry(m, cls2, s, q, d0.table[i as int][q], #[trigger] row@[q]) by {
                                assert(row@[q] == row1[q]);
                                assert(filled_entry(m, cls1, s, q, d0.table[i as int][q], row1[q]));
                                match row1[q] {
                                    Some(k2) => {
                                        if !no_targets(m, s, q) {
                                            assert(cls2[k2 as int] == cls1[k2 as int]);
                                        }
                                    },
                                    None => {},
                                }
                            }
                        }
                    },
                }
            }
            proof {
                assert(row@[j as int] == row@.last());
                assert forall|q: int| 0 <= q < j implies filled_entry(m, cls_view(eps_closures), s, q, d0.table[i as int][q], #[trigger] row@[q]) by {
                    assert(row@[q] == row1[q] || true);
                }
            }
            j = j + 1;
        }
        let ghost tb = dfa@.table;
        dfa.table.set(i, row);
        proof {
            assert(dfa@.table =~= tb.update(i as int, row@));
            let cls = cls_view(eps_closures);
            assert(cls[i as int] == s);
        }
        res
    }

    /// The deterministic automaton of this one: its states stand for the
    /// distinct sets of states that the automaton can be in after reading a
    /// string, each closed under empty-string moves, starting with the
    /// closure of the start state; a move on an input goes to the closure of
    /// all the targets of the set, and a state is final when its set holds
    /// the final state. It accepts exactly the strings this one accepts.
    pub fn to_dfa(&self) -> (dfa: DFA)
        requires
            self@.wf(),
        ensures
            dfa@.wf(),
            dfa@.inputs == self@.inputs,
            forall|w: Seq<char>| #[trigger] dfa@.accepts(w) == accepts(self@, w),
    {
        let ghost m = self@;
        let ghost n = m.table.len();
        let ghost ni = m.inputs.len() as int;
        let table = self.table();
        let final_nfa_state = table.len() - 1;
        let mut dfa = DFA { inputs: self.inputs().clone(), final_states: Vec::new(), table: Vec::new() };
        let row = none_row(dfa.inputs.len());
        dfa.table.push(row);
        let mut eps_closures: Vec<Vec<usize>> = Vec::new();
        eps_closures.push(self.eps_clos(0));
        let start_is_final = search_sorted(&eps_closures[0], final_nfa_state).is_ok();
        if start_is_final {
            push_sorted(&mut dfa.final_states, 0);
        }
        let mut stack: Vec<usize> = vec![0];
        proof {
            assert(n <= usize::MAX) by {
                assert(table_view(table).len() == table@.len());
            }
            let cls = cls_view(&eps_closures);
            let d = dfa@;
            assert(cls.len() == 1);
            assert forall|y: usize| #[trigger] cls[0].contains(y) implies y < n by {
                lemma_reach_in_range(m, 0, y);
            }
            assert(lists_ok(m, cls));
            assert(start_is_final == cls[0].contains((n - 1) as usize)) by {
                if cls[0].contains((n - 1) as usize) {
                    let q = choose|q: int| 0 <= q < cls[0].len() && cls[0][q] == (n - 1) as usize;
                }
            }
            assert(dfa_table_view(&dfa.table).len() == 1);
            assert(d.table[0] == none_cells(ni));
            assert forall|k: usize| #[trigger] d.final_states.contains(k) <==> (k < cls.len() && cls[k as int].contains((n - 1) as usize)) by {
                if d.final_states.contains(k) {
                    assert(d.final_states == seq![0usize]);
                }
                if k == 0 && start_is_final {
                    assert(d.final_states[0] == 0);
                }
            }
            assert(dfa_shape(m, d, 1));
            lemma_lists_bound(m, cls);
        }
        while !stack.is_empty()
            invariant
                m == self@,
                m.wf(),
                n == m.table.len(),
                n <= usize::MAX,
                ni == m.inputs.len(),
                eps_closures@.len() >= 1,
                lists_ok(m, cls_view(&eps_closures)),
                forall|x: usize| #[trigger] cls_view(&eps_closures)[0].contains(x) <==> eps_reaches(m, 0, x),
                dfa_shape(m, dfa@, eps_closures@.len() as int),
                finals_ok(m, cls_view(&eps_closures), dfa@.final_states),
                forall|p: int| 0 <= p < stack@.len() ==> #[trigger] stack@[p] < eps_closures@.len(),
                stack@.no_duplicates(),
                forall|k: int| 0 <= k < eps_closures@.len() && stack@.contains(k as usize) ==> #[trigger] dfa@.table[k] == none_cells(ni),
                forall|k: int| 0 <= k < eps_closures@.len() && !stack@.contains(k as usize) ==> #[trigger] row_ok(m, cls_view(&eps_closures), dfa@.table[k], k),
                eps_closures@.len() <= pow2(n),
            decreases pow2(n) - eps_closures@.len(), stack@.len(),
        {
            let ghost cls1 = cls_view(&eps_closures);
            let ghost d1 = dfa@;
            let ghost st1 = stack@;
            let i = stack.pop().unwrap();
            let ghost st2 = stack@;
            proof {
                assert(st2 == st1.drop_last());
                assert(i == st1.last());
                assert(i < cls1.len());
                assert(st1.contains(i));
                assert(d1.table[i as int] == none_cells(ni));
                assert(!st2.contains(i)) by {
                    if st2.contains(i) {
                        let q = choose|q: int| 0 <= q < st2.len() && st2[q] == i;
                        assert(st1[q] == st1[st1.len() - 1]);
                    }
                }
                assert forall|y: usize| #[trigger] eps_closures@[i as int]@.contains(y) implies y < n by {
                    assert(cls1[i as int].contains(y));
                }
            }
            let new_dfa_states = self.eps_clos_from_eps_clos(&mut eps_closures, &mut dfa, i);
            let ghost cls2 = cls_view(&eps_closures);
            let ghost d2 = dfa@;
            let total = eps_closures.len();
            let mut p: usize = 0;
            while p < new_dfa_states.len()
                invariant
                    p <= new_dfa_states@.len(),
                    stack@ == st2 + new_dfa_states@.subrange(0, p as int),
                decreases new_dfa_states@.len() - p,
            {
                stack.push(new_dfa_states[p]);
                assert(stack@ =~= st2 + new_dfa_states@.subrange(0, p + 1));
                p = p + 1;
            }
            proof {
                let len0 = cls1.len();
                let res = new_dfa_states@;
                assert(total == cls2.len());
                assert(lists_ok(m, cls2)) by {
                    assert forall|k: int| 0 <= k < cls2.len() implies strictly_sorted(#[trigger] cls2[k]) by {
                        if k < len0 {
                            assert(cls2[k] == cls1[k]);
                        }
                    }
                    assert forall|k: int, y: usize| 0 <= k < cls2.len() && #[trigger] cls2[k].contains(y) implies y < n by {
                        if k < len0 {
                            assert(cls2[k] == cls1[k]);
                        }
                    }
                    assert forall|a: int, b: int| 0 <= a < cls2.len() && 0 <= b < cls2.len() && a != b implies cls2[a] != cls2[b] by {
                        if a < len0 && b < len0 {
                            assert(cls2[a] == cls1[a] && cls2[b] == cls1[b]);
                        }
                    }
                }
                assert(dfa_shape(m, d2, cls2.len() as int)) by {
                    assert forall|r: int| 0 <= r < d2.table.len() implies #[trigger] d2.table[r].len() == m.inputs.len() by {
                        if r < len0 && r != i {
                            assert(d2.table[r] == d1.table[r]);
                        }
                    }
                    assert forall|r: int, j: int| 0 <= r < d2.table.len() && 0 <= j < d2.table[r].len() && #[trigger] d2.table[r][j] is Some implies d2.table[r][j]->0 < cls2.len() by {
                        if r == i {
                            assert(filled_entry(m, cls2, cls1[i as int], j, d1.table[i as int][j], d2.table[r][j]));
                            assert(d1.table[i as int][j] is None);
                        } else if r < len0 {
                            assert(d2.table[r] == d1.table[r]);
                        }
                    }
                }
                assert(res.subrange(0, res.len() as int) =~= res);
                let st3 = stack@;
                assert(st3 == st2 + res);
                lemma_lists_bound(m, cls2);
                assert(cls2[0] == cls1[0]);
                assert forall|k: usize| #[trigger] d2.final_states.contains(k) <==> (k < cls2.len() && cls2[k as int].contains((n - 1) as usize)) by {
                    assert(d1.final_states.contains(k) <==> (k < cls1.len() && cls1[k as int].contains((n - 1) as usize)));
                    if k < len0 {
                        assert(cls2[k as int] == cls1[k as int]);
                    }
                }
                assert forall|q: int| 0 <= q < st3.len() implies #[trigger] st3[q] < cls2.len() by {
                    if q >= st2.len() {
                        assert(res == index_range(len0 as int, cls2.len() as int));
                        assert(res[q - st2.len()] == len0 + (q - st2.len()));
                    } else {
                        assert(st2[q] == st1[q]);
                    }
                }
                assert(res == index_range(len0 as int, cls2.len() as int));
                assert forall|x: int| 0 <= x < st2.len() implies st2[x] < len0 && st2[x] == st1[x] by {
                    assert(st1[x] < len0);
                }
                assert forall|v: usize| #[trigger] st3.contains(v) <==> (st2.contains(v) || (len0 <= v < cls2.len())) by {
                    if st3.contains(v) {
                        let q = choose|q: int| 0 <= q < st3.len() && st3[q] == v;
                        if q >= st2.len() {
                            assert(res[q - st2.len()] == len0 + (q - st2.len()));
                        } else {
                            assert(st2[q] == v);
                        }
                    }
                    if st2.contains(v) {
                        let q = choose|q: int| 0 <= q < st2.len() && st2[q] == v;
                        assert(st3[q] == v);
                    }
                    if len0 <= v < cls2.len() {
                        let q = v - len0;
                        assert(res[q] == v);
                        assert(st3[st2.len() + q] == v);
                    }
                }
                assert forall|x: int, y: int| 0 <= x < st3.len() && 0 <= y < st3.len() && x != y implies st3[x] != st3[y] by {
                    if x < st2.len() && y < st2.len() {
                        assert(st1[x] == st2[x] && st1[y] == st2[y]);
                    } else if x >= st2.len() && y >= st2.len() {
                        assert(res[x - st2.len()] == len0 + (x - st2.len()));
                        assert(res[y - st2.len()] == len0 + (y - st2.len()));
                    } else if x < st2.len() {
                        assert(res[y - st2.len()] == len0 + (y - st2.len()));
                    } else {
                        assert(res[x - st2.len()] == len0 + (x - st2.len()));
                    }
                }
                assert forall|k: int| 0 <= k < cls2.len() && st3.contains(k as usize) implies #[trigger] d2.table[k] == none_cells(ni) by {
                    if k < len0 {
                        assert(st2.contains(k as usize));
                        assert(k != i);
                        assert(st1.contains(k as usize)) by {
                            let q = choose|q: int| 0 <= q < st2.len() && st2[q] == k as usize;
                            assert(st1[q] == k as usize);
                        }
                        assert(d2.table[k] == d1.table[k]);
                    }
                }
                assert forall|k: int| 0 <= k < cls2.len() && !st3.contains(k as usize) implies #[trigger] row_ok(m, cls2, d2.table[k], k) by {
                    if k == i {
                        assert forall|j: int| 0 <= j < m.inputs.len() implies entry_ok(m, cls2, cls2[k], j, #[trigger] d2.table[k][j]) by {
                            assert(filled_entry(m, cls2, cls1[i as int], j, d1.table[i as int][j], d2.table[k][j]));
                            assert(d1.table[i as int][j] is None);
                            assert(cls2[k] == cls1[k]);
                        }
                    } else if k >= len0 {
                        let q = k - len0;
                        assert(res == index_range(len0 as int, cls2.len() as int));
                        assert(res[q] == k);
                        assert(st3[st2.len() + q] == k);
                    } else if k != i {
                        assert(!st1.contains(k as usize)) by {
                            if st1.contains(k as usize) {
                                let q = choose|q: int| 0 <= q < st1.len() && st1[q] == k as usize;
                                if q < st1.len() - 1 {
                                    assert(st2[q] == k as usize);
                                    assert(st3[q] == k as usize);
                                }
                            }
                        }
                        assert(row_ok(m, cls1, d1.table[k], k));
                        lemma_row_ok_extend(m, cls1, cls2, d1.table[k], k);
                    }
                }
            }
        }
        proof {
            let cls = cls_view(&eps_closures);
            let d = dfa@;
            assert forall|k: int| 0 <= k < cls.len() implies #[trigger] row_ok(m, cls, d.table[k], k) by {
                assert(!stack@.contains(k as usize));
            }
            assert forall|w: Seq<char>| #[trigger] d.accepts(w) == accepts(m, w) by {
                lemma_dfa_language(m, d, cls, w);
            }
        }
        dfa
    }
}

/// Following the deterministic automaton from a state whose closure holds
/// exactly the states reached while reading `u` ends, after `w`, in a state
/// whose closure holds exactly the states reached while reading `u` followed
/// by `w`; it stops only where no state is reached.
proof fn lemma_run_reads(m: NfaModel, d: DfaModel, cls: Seq<Seq<usize>>, k: usize, u: Seq<char>, w: Seq<char>)
    requires
        m.wf(),
        dfa_shape(m, d, cls.len() as int),
        forall|r: int| 0 <= r < cls.len() ==> #[trigger] row_ok(m, cls, d.table[r], r),
        k < cls.len(),
        forall|y: usize| #[trigger] cls[k as int].contains(y) <==> reads_to(m, u, y),
    ensures
        match d.run(k, w) {
            Some(k2) => k2 < cls.len() && forall|y: usize| #[trigger] cls[k2 as int].contains(y) <==> reads_to(m, u + w, y),
            None => forall|y: usize| !#[trigger] reads_to(m, u + w, y),
        },
    decreases w.len(),
{
    if w.len() == 0 {
        assert(u + w =~= u);
    } else {
        let c = w[0];
        let j = char_position(m.inputs, c);
        lemma_char_position(m.inputs, c);
        assert(u.push(c) + w.drop_first() =~= u + w);
        if j < m.inputs.len() {
            assert(row_ok(m, cls, d.table[k as int], k as int));
            assert(entry_ok(m, cls, cls[k as int], j, d.table[k as int][j]));
            match d.table[k as int][j] {
                Some(k2) => {
                    assert forall|y: usize| #[trigger] cls[k2 as int].contains(y) <==> reads_to(m, u.push(c), y) by {
                        lemma_reads_push(m, cls[k as int], u, c, y);
                    }
                    lemma_run_reads(m, d, cls, k2, u.push(c), w.drop_first());
                },
                None => {
                    assert forall|y: usize| !#[trigger] reads_to(m, u.push(c), y) by {
                        lemma_reads_push(m, cls[k as int], u, c, y);
                    }
                    lemma_reads_none_after(m, u.push(c), w.drop_first());
                },
            }
        } else {
            assert forall|y: usize| !#[trigger] reads_to(m, u.push(c), y) by {
                lemma_reads_push(m, cls[k as int], u, c, y);
            }
            lemma_reads_none_after(m, u.push(c), w.drop_first());
        }
    }
}

/// A deterministic automaton built as `to_dfa` builds it accepts exactly the
/// strings the nondeterministic one accepts.
proof fn lemma_dfa_language(m: NfaModel, d: DfaModel, cls: Seq<Seq<usize>>, w: Seq<char>)
    requires
        m.wf(),
        cls.len() >= 1,
        dfa_shape(m, d, cls.len() as int),
        finals_ok(m, cls, d.final_states),
        forall|x: usize| #[trigger] cls[0].contains(x) <==> eps_reaches(m, 0, x),
        forall|r: int| 0 <= r < cls.len() ==> #[trigger] row_ok(m, cls, d.table[r], r),
    ensures
        d.accepts(w) == accepts(m, w),
{
    let e = Seq::<char>::empty();
    assert forall|y: usize| #[trigger] cls[0].contains(y) <==> reads_to(m, e, y) by {
        lemma_reads_empty(m, y);
    }
    lemma_run_reads(m, d, cls, 0, e, w);
    assert(e + w =~= w);
    let fin = (m.table.len() - 1) as usize;
    assert(accepts(m, w) == reads_to(m, w, fin));
    match d.run(0, w) {
        Some(k) => {
            assert(d.final_states.contains(k) <==> cls[k as int].contains(fin));
        },
        None => {},
    }
}

} // verus!
