//! Transition tables of automata: one row per state, one cell per input
//! column, and in each cell a strictly increasing list of target states.

use vstd::prelude::*;
use crate::sorted::{strictly_sorted, insert_sorted, push_sorted, lemma_insert_sorted_props};

verus! {

/// The cells of a row as sequences of states.
pub open spec fn row_view(row: &Vec<Vec<usize>>) -> Seq<Seq<usize>> {
    Seq::new(row@.len(), |c: int| row@[c]@)
}

/// The rows of a table as sequences of cells.
pub open spec fn table_view(t: &Vec<Vec<Vec<usize>>>) -> Seq<Seq<Seq<usize>>> {
    Seq::new(t@.len(), |r: int| row_view(&t@[r]))
}

/// Every state of the cell increased by `d`.
pub open spec fn shift_cell(c: Seq<usize>, d: int) -> Seq<usize> {
    Seq::new(c.len(), |k: int| (c[k] + d) as usize)
}

/// Every state of the row increased by `d`.
pub open spec fn shift_row(row: Seq<Seq<usize>>, d: int) -> Seq<Seq<usize>> {
    Seq::new(row.len(), |c: int| shift_cell(row[c], d))
}

/// The rows from `start` on with every state in them increased by `d`; the
/// rows before `start` unchanged.
pub open spec fn shift_from(t: Seq<Seq<Seq<usize>>>, start: int, d: int) -> Seq<Seq<Seq<usize>>> {
    Seq::new(t.len(), |r: int| if r < start { t[r] } else { shift_row(t[r], d) })
}

/// Every state in the rows from `start` on stays within `bound` once `d` is
/// added.
pub open spec fn shift_fits(t: Seq<Seq<Seq<usize>>>, start: int, d: int, bound: int) -> bool {
    forall|r: int, c: int, k: int|
        start <= r < t.len() && 0 <= c < t[r].len() && 0 <= k < t[r][c].len() ==> #[trigger] t[r][c][k]
            + d <= bound
}

/// Increases every state of one cell by `d`.
fn shift_cell_in_place(cell: &mut Vec<usize>, d: usize)
    requires
        forall|k: int| 0 <= k < old(cell)@.len() ==> old(cell)@[k] + d <= usize::MAX,
    ensures
        final(cell)@ == shift_cell(old(cell)@, d as int),
{
    let ghost c0 = cell@;
    let mut k: usize = 0;
    while k < cell.len()
        invariant
            cell@.len() == c0.len(),
            k <= c0.len(),
            forall|q: int| 0 <= q < c0.len() ==> c0[q] + d <= usize::MAX,
            forall|q: int| 0 <= q < k ==> cell@[q] == c0[q] + d,
            forall|q: int| k <= q < c0.len() ==> cell@[q] == c0[q],
        decreases c0.len() - k,
    {
        let v = cell[k];
        assert(v == c0[k as int]);
        cell[k] = v + d;
        k = k + 1;
    }
    assert(cell@ =~= shift_cell(c0, d as int));
}

/// Increases every state of one row by `d`.
fn shift_row_in_place(row: &mut Vec<Vec<usize>>, d: usize)
    requires
        forall|c: int, k: int|
            0 <= c < old(row)@.len() && 0 <= k < old(row)@[c]@.len() ==> #[trigger] old(row)@[c]@[k] + d
                <= usize::MAX,
    ensures
        row_view(final(row)) == shift_row(row_view(old(row)), d as int),
{
    let ghost r0 = row_view(row);
    let mut c: usize = 0;
    while c < row.len()
        invariant
            row@.len() == r0.len(),
            c <= r0.len(),
            forall|q: int, k: int| 0 <= q < r0.len() && 0 <= k < r0[q].len() ==> #[trigger] r0[q][k] + d <= usize::MAX,
            forall|q: int| 0 <= q < c ==> (#[trigger] row@[q])@ == shift_cell(r0[q], d as int),
            forall|q: int| c <= q < r0.len() ==> (#[trigger] row@[q])@ == r0[q],
        decreases r0.len() - c,
    {
        assert(forall|k: int| 0 <= k < row@[c as int]@.len() ==> row@[c as int]@[k] == r0[c as int][k]);
        shift_cell_in_place(&mut row[c], d);
        c = c + 1;
    }
    assert(row_view(row) =~= shift_row(r0, d as int));
}

/// Increases every state in the rows from `start` on by `d`.
pub fn shift_rows_from(t: &mut Vec<Vec<Vec<usize>>>, start: usize, d: usize)
    requires
        shift_fits(table_view(old(t)), start as int, d as int, usize::MAX as int),
    ensures
        table_view(final(t)) == shift_from(table_view(old(t)), start as int, d as int),
{
    let ghost t0 = table_view(t);
    let mut r = start;
    while r < t.len()
        invariant
            t@.len() == t0.len(),
            start <= r,
            shift_fits(t0, start as int, d as int, usize::MAX as int),
            forall|q: int| 0 <= q < t0.len() ==> row_view(#[trigger] &t@[q]) == if start <= q < r {
                shift_row(t0[q], d as int)
            } else {
                t0[q]
            },
        decreases t0.len() - r,
    {
        assert forall|c: int, k: int|
            0 <= c < t@[r as int]@.len() && 0 <= k < t@[r as int]@[c]@.len() implies #[trigger] t@[r as int]@[c]@[k] + d
                <= usize::MAX by {
            assert(table_view(t)[r as int][c][k] == t@[r as int]@[c]@[k]);
        }
        shift_row_in_place(&mut t[r], d);
        r = r + 1;
    }
    assert(table_view(t) =~= shift_from(t0, start as int, d as int));
}

/// The row with an empty cell inserted at column `i`.
pub open spec fn insert_empty_cell(row: Seq<Seq<usize>>, i: int) -> Seq<Seq<usize>> {
    row.insert(i, Seq::<usize>::empty())
}

/// Inserts an empty cell at column `i` of every row.
pub fn insert_empty_column(t: &mut Vec<Vec<Vec<usize>>>, i: usize)
    requires
        forall|r: int| 0 <= r < old(t)@.len() ==> i <= (#[trigger] old(t)@[r])@.len(),
    ensures
        table_view(final(t)) == Seq::new(
            old(t)@.len(),
            |r: int| insert_empty_cell(table_view(old(t))[r], i as int),
        ),
{
    let ghost t0 = table_view(t);
    let mut r: usize = 0;
    while r < t.len()
        invariant
            t@.len() == t0.len(),
            r <= t0.len(),
            forall|q: int| 0 <= q < t0.len() ==> i <= t0[q].len(),
            forall|q: int| 0 <= q < t0.len() ==> row_view(#[trigger] &t@[q]) == if q < r {
                insert_empty_cell(t0[q], i as int)
            } else {
                t0[q]
            },
        decreases t0.len() - r,
    {
        let ghost before = row_view(&t@[r as int]);
        t[r].insert(i, Vec::new());
        assert(row_view(&t@[r as int]) =~= insert_empty_cell(before, i as int));
        r = r + 1;
    }
    assert(table_view(t) =~= Seq::new(t0.len(), |q: int| insert_empty_cell(t0[q], i as int)));
}

/// The row with `x` added in order to its last cell, the one of the
/// empty-string moves.
pub open spec fn add_eps_move(row: Seq<Seq<usize>>, x: usize) -> Seq<Seq<usize>> {
    row.update(row.len() - 1, insert_sorted(row.last(), x))
}

/// Adds the state `x` in order to the last cell of row `r`.
pub fn push_eps(t: &mut Vec<Vec<Vec<usize>>>, r: usize, x: usize)
    requires
        r < old(t)@.len(),
        old(t)@[r as int]@.len() >= 1,
        strictly_sorted(table_view(old(t))[r as int].last()),
    ensures
        table_view(final(t)) == table_view(old(t)).update(
            r as int,
            add_eps_move(table_view(old(t))[r as int], x),
        ),
{
    let ghost t0 = table_view(t);
    let last = t[r].len() - 1;
    push_sorted(&mut t[r][last], x);
    assert(row_view(&t@[r as int]) =~= add_eps_move(t0[r as int], x));
    assert(table_view(t) =~= t0.update(r as int, add_eps_move(t0[r as int], x)));
}

/// A row of `width` empty cells.
pub open spec fn empty_cells(width: int) -> Seq<Seq<usize>> {
    Seq::new(width as nat, |c: int| Seq::<usize>::empty())
}

/// A row of `width` empty cells.
pub fn empty_row(width: usize) -> (row: Vec<Vec<usize>>)
    ensures
        row_view(&row) == empty_cells(width as int),
{
    let mut row: Vec<Vec<usize>> = Vec::with_capacity(width);
    let mut c: usize = 0;
    while c < width
        invariant
            c <= width,
            row@.len() == c,
            forall|q: int| 0 <= q < c ==> (#[trigger] row@[q])@ == Seq::<usize>::empty(),
        decreases width - c,
    {
        row.push(Vec::new());
        c = c + 1;
    }
    assert(row_view(&row) =~= empty_cells(width as int));
    row
}

/// A copy of a row.
pub fn copy_row(row: &Vec<Vec<usize>>) -> (res: Vec<Vec<usize>>)
    ensures
        row_view(&res) == row_view(row),
{
    let mut res: Vec<Vec<usize>> = Vec::with_capacity(row.len());
    let mut c: usize = 0;
    while c < row.len()
        invariant
            c <= row@.len(),
            res@.len() == c,
            forall|q: int| 0 <= q < c ==> (#[trigger] res@[q])@ == row@[q]@,
        decreases row@.len() - c,
    {
        res.push(row[c].clone());
        c = c + 1;
    }
    assert(row_view(&res) =~= row_view(row));
    res
}

/// Appends copies of the rows of `src` to `dst`.
pub fn append_rows(dst: &mut Vec<Vec<Vec<usize>>>, src: &Vec<Vec<Vec<usize>>>)
    ensures
        table_view(final(dst)) == table_view(old(dst)) + table_view(src),
{
    let ghost d0 = table_view(dst);
    let mut r: usize = 0;
    while r < src.len()
        invariant
            r <= src@.len(),
            table_view(dst) == d0 + table_view(src).subrange(0, r as int),
        decreases src@.len() - r,
    {
        let row = copy_row(&src[r]);
        let ghost before = table_view(dst);
        dst.push(row);
        assert(table_view(dst) =~= before.push(row_view(&src@[r as int])));
        assert(table_view(dst) =~= d0 + table_view(src).subrange(0, r + 1));
        r = r + 1;
    }
    assert(table_view(src).subrange(0, src@.len() as int) =~= table_view(src));
}

/// A copy of a table.
pub fn copy_table(t: &Vec<Vec<Vec<usize>>>) -> (res: Vec<Vec<Vec<usize>>>)
    ensures
        table_view(&res) == table_view(t),
{
    let mut res: Vec<Vec<Vec<usize>>> = Vec::with_capacity(t.len());
    let mut r: usize = 0;
    while r < t.len()
        invariant
            r <= t@.len(),
            res@.len() == r,
            forall|q: int| 0 <= q < r ==> row_view(#[trigger] &res@[q]) == row_view(&t@[q]),
        decreases t@.len() - r,
    {
        res.push(copy_row(&t[r]));
        r = r + 1;
    }
    assert(table_view(&res) =~= table_view(t));
    res
}

/// Every row has `width` cells, every cell is strictly increasing, and every
/// state in a cell is below `bound`.
pub open spec fn table_wf(t: Seq<Seq<Seq<usize>>>, width: int, bound: int) -> bool {
    &&& forall|r: int| 0 <= r < t.len() ==> #[trigger] t[r].len() == width
    &&& forall|r: int, c: int|
        0 <= r < t.len() && 0 <= c < t[r].len() ==> strictly_sorted(#[trigger] t[r][c])
    &&& forall|r: int, c: int, k: int|
        0 <= r < t.len() && 0 <= c < t[r].len() && 0 <= k < t[r][c].len() ==> #[trigger] t[r][c][k]
            < bound
}

/// A looser bound on the states still holds.
pub proof fn lemma_table_wf_weaken(t: Seq<Seq<Seq<usize>>>, w: int, b: int, b2: int)
    requires
        table_wf(t, w, b),
        b <= b2,
    ensures
        table_wf(t, w, b2),
{
    assert forall|r: int, c: int, k: int|
        0 <= r < t.len() && 0 <= c < t[r].len() && 0 <= k < t[r][c].len() implies #[trigger] t[r][c][k]
            < b2 by {}
}

/// Two well-formed tables placed one after the other form a well-formed
/// table.
pub proof fn lemma_table_wf_append(t1: Seq<Seq<Seq<usize>>>, t2: Seq<Seq<Seq<usize>>>, w: int, b: int)
    requires
        table_wf(t1, w, b),
        table_wf(t2, w, b),
    ensures
        table_wf(t1 + t2, w, b),
{
    let t = t1 + t2;
    assert forall|r: int| 0 <= r < t.len() implies #[trigger] t[r].len() == w by {
        if r >= t1.len() {
            assert(t[r] == t2[r - t1.len()]);
        }
    }
    assert forall|r: int, c: int| 0 <= r < t.len() && 0 <= c < t[r].len() implies strictly_sorted(#[trigger] t[r][c]) by {
        if r >= t1.len() {
            assert(t[r] == t2[r - t1.len()]);
        }
    }
    assert forall|r: int, c: int, k: int|
        0 <= r < t.len() && 0 <= c < t[r].len() && 0 <= k < t[r][c].len() implies #[trigger] t[r][c][k]
            < b by {
        if r >= t1.len() {
            assert(t[r] == t2[r - t1.len()]);
            assert(t2[r - t1.len()][c][k] < b);
        } else {
            assert(t1[r][c][k] < b);
        }
    }
}

/// Shifting the states of some rows by `d` keeps the table well formed, with
/// the bound raised by `d`.
pub proof fn lemma_table_wf_shift(t: Seq<Seq<Seq<usize>>>, start: int, d: int, w: int, b: int)
    requires
        table_wf(t, w, b),
        d >= 0,
        shift_fits(t, start, d, usize::MAX as int),
    ensures
        table_wf(shift_from(t, start, d), w, b + d),
{
    let s = shift_from(t, start, d);
    assert forall|r: int, c: int| 0 <= r < s.len() && 0 <= c < s[r].len() implies strictly_sorted(#[trigger] s[r][c]) by {
        assert(strictly_sorted(t[r][c]));
        if r >= start {
            assert forall|i: int, j: int| 0 <= i < j < s[r][c].len() implies s[r][c][i] < s[r][c][j] by {
                assert(t[r][c][i] < t[r][c][j]);
                assert(t[r][c][i] + d <= usize::MAX);
                assert(t[r][c][j] + d <= usize::MAX);
            }
        }
    }
    assert forall|r: int, c: int, k: int|
        0 <= r < s.len() && 0 <= c < s[r].len() && 0 <= k < s[r][c].len() implies #[trigger] s[r][c][k]
            < b + d by {
        assert(t[r][c][k] < b);
        if r >= start {
            assert(t[r][c][k] + d <= usize::MAX);
        }
    }
}

/// Adding a state below the bound to the empty-string cell of a row keeps the
/// table well formed.
pub proof fn lemma_table_wf_add_eps(t: Seq<Seq<Seq<usize>>>, r: int, x: usize, w: int, b: int)
    requires
        table_wf(t, w, b),
        0 <= r < t.len(),
        w >= 1,
        x < b,
    ensures
        table_wf(t.update(r, add_eps_move(t[r], x)), w, b),
{
    let cell = t[r][w - 1];
    assert(strictly_sorted(cell));
    lemma_insert_sorted_props(cell, x);
    let t2 = t.update(r, add_eps_move(t[r], x));
    assert forall|q: int, c: int, k: int|
        0 <= q < t2.len() && 0 <= c < t2[q].len() && 0 <= k < t2[q][c].len() implies #[trigger] t2[q][c][k]
            < b by {
        if q == r && c == w - 1 {
            let y = t2[q][c][k];
            assert(insert_sorted(cell, x).contains(y));
            if cell.contains(y) {
                let i = choose|i: int| 0 <= i < cell.len() && cell[i] == y;
                assert(t[r][w - 1][i] < b);
            }
        } else {
            assert(t2[q][c] == t[q][c]);
        }
    }
}

/// A row of empty cells can be added to a well-formed table.
pub proof fn lemma_table_wf_push_empty(t: Seq<Seq<Seq<usize>>>, w: int, b: int)
    requires
        table_wf(t, w, b),
        w >= 0,
    ensures
        table_wf(t.push(empty_cells(w)), w, b),
{
    let t2 = t.push(empty_cells(w));
    assert forall|r: int, c: int| 0 <= r < t2.len() && 0 <= c < t2[r].len() implies strictly_sorted(#[trigger] t2[r][c]) by {
        if r < t.len() {
            assert(t2[r] == t[r]);
        }
    }
    assert forall|r: int, c: int, k: int|
        0 <= r < t2.len() && 0 <= c < t2[r].len() && 0 <= k < t2[r][c].len() implies #[trigger] t2[r][c][k]
            < b by {
        if r < t.len() {
            assert(t2[r] == t[r]);
            assert(t[r][c][k] < b);
        }
    }
}

/// A row of the right width, with strictly increasing cells of states below
/// the bound, can be put in front of a well-formed table.
pub proof fn lemma_table_wf_prepend(row: Seq<Seq<usize>>, t: Seq<Seq<Seq<usize>>>, w: int, b: int)
    requires
        table_wf(t, w, b),
        row.len() == w,
        forall|c: int| 0 <= c < w ==> strictly_sorted(#[trigger] row[c]),
        forall|c: int, k: int| 0 <= c < w && 0 <= k < row[c].len() ==> #[trigger] row[c][k] < b,
    ensures
        table_wf(seq![row] + t, w, b),
{
    let t2 = seq![row] + t;
    assert forall|r: int| 0 <= r < t2.len() implies #[trigger] t2[r].len() == w by {
        if r > 0 {
            assert(t2[r] == t[r - 1]);
        }
    }
    assert forall|r: int, c: int| 0 <= r < t2.len() && 0 <= c < t2[r].len() implies strictly_sorted(#[trigger] t2[r][c]) by {
        if r > 0 {
            assert(t2[r] == t[r - 1]);
        }
    }
    assert forall|r: int, c: int, k: int|
        0 <= r < t2.len() && 0 <= c < t2[r].len() && 0 <= k < t2[r][c].len() implies #[trigger] t2[r][c][k]
            < b by {
        if r > 0 {
            assert(t2[r] == t[r - 1]);
            assert(t[r - 1][c][k] < b);
        } else {
            assert(row[c][k] < b);
        }
    }
}

/// Puts a row in front of the table.
pub fn insert_first_row(t: &mut Vec<Vec<Vec<usize>>>, row: Vec<Vec<usize>>)
    ensures
        table_view(final(t)) == seq![row_view(&row)] + table_view(old(t)),
{
    let ghost t0 = table_view(t);
    let ghost rv = row_view(&row);
    t.insert(0, row);
    assert(table_view(t) =~= seq![rv] + t0);
}

/// Puts a row after the last one.
pub fn push_row(t: &mut Vec<Vec<Vec<usize>>>, row: Vec<Vec<usize>>)
    ensures
        table_view(final(t)) == table_view(old(t)).push(row_view(&row)),
{
    let ghost t0 = table_view(t);
    let ghost rv = row_view(&row);
    t.push(row);
    assert(table_view(t) =~= t0.push(rv));
}

/// The row of the new start state: no move on any input, and empty-string
/// moves to `first` and `second`.
pub open spec fn start_cells(width: int, first: usize, second: usize) -> Seq<Seq<usize>> {
    empty_cells(width).push(seq![first, second])
}

/// The row of a new start state over an alphabet of `width` characters, with
/// empty-string moves to `first` and `second`.
pub fn start_row(width: usize, first: usize, second: usize) -> (row: Vec<Vec<usize>>)
    ensures
        row_view(&row) == start_cells(width as int, first, second),
{
    let mut row = empty_row(width);
    let ghost r0 = row_view(&row);
    row.push(vec![first, second]);
    assert(row_view(&row) =~~= start_cells(width as int, first, second));
    row
}

/// Whether two cells hold the same states.
pub fn cells_equal(a: &Vec<usize>, b: &Vec<usize>) -> (r: bool)
    ensures
        r == (a@ == b@),
{
    if a.len() != b.len() {
        return false;
    }
    let mut k: usize = 0;
    while k < a.len()
        invariant
            a@.len() == b@.len(),
            k <= a@.len(),
            forall|q: int| 0 <= q < k ==> a@[q] == b@[q],
        decreases a@.len() - k,
    {
        if a[k] != b[k] {
            return false;
        }
        k = k + 1;
    }
    assert(a@ =~= b@);
    true
}

/// Whether two rows hold the same cells.
fn rows_equal(a: &Vec<Vec<usize>>, b: &Vec<Vec<usize>>) -> (r: bool)
    ensures
        r == (row_view(a) == row_view(b)),
{
    if a.len() != b.len() {
        assert(row_view(a).len() != row_view(b).len());
        return false;
    }
    let mut c: usize = 0;
    while c < a.len()
        invariant
            a@.len() == b@.len(),
            c <= a@.len(),
            forall|q: int| 0 <= q < c ==> a@[q]@ == b@[q]@,
        decreases a@.len() - c,
    {
        if !cells_equal(&a[c], &b[c]) {
            assert(row_view(a)[c as int] != row_view(b)[c as int]);
            return false;
        }
        c = c + 1;
    }
    assert(row_view(a) =~= row_view(b));
    true
}

/// Whether two tables hold the same rows.
pub fn tables_equal(a: &Vec<Vec<Vec<usize>>>, b: &Vec<Vec<Vec<usize>>>) -> (r: bool)
    ensures
        r == (table_view(a) == table_view(b)),
{
    if a.len() != b.len() {
        assert(table_view(a).len() != table_view(b).len());
        return false;
    }
    let mut k: usize = 0;
    while k < a.len()
        invariant
            a@.len() == b@.len(),
            k <= a@.len(),
            forall|q: int| 0 <= q < k ==> row_view(&a@[q]) == row_view(&b@[q]),
        decreases a@.len() - k,
    {
        if !rows_equal(&a[k], &b[k]) {
            assert(table_view(a)[k as int] != table_view(b)[k as int]);
            return false;
        }
        k = k + 1;
    }
    assert(table_view(a) =~= table_view(b));
    true
}

} // verus!
