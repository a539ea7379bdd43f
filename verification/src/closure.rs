//! Empty-string closures: the states an automaton can reach from a state
//! without reading a character.

use vstd::prelude::*;
use vstd::set_lib::{set_int_range, lemma_int_range, lemma_len_subset};
use crate::sorted::strictly_sorted;
use crate::table::{table_view, row_view};
use crate::nfa::{NFA, NfaModel};

verus! {

/// An empty-string move from state `u` to a different state `v`.
pub open spec fn eps_step(m: NfaModel, u: usize, v: usize) -> bool {
    &&& u < m.table.len()
    &&& m.eps(u as int).contains(v)
    &&& v != u
}

/// Position `i` of `p` moves on to position `i + 1` by an empty-string move.
pub open spec fn eps_link(m: NfaModel, p: Seq<usize>, i: int) -> bool {
    eps_step(m, p[i], p[i + 1])
}

/// `p` is a path of empty-string moves from `u` to `v`.
pub open spec fn eps_path(m: NfaModel, p: Seq<usize>, u: usize, v: usize) -> bool {
    &&& p.len() >= 1
    &&& p[0] == u
    &&& p.last() == v
    &&& forall|i: int| 0 <= i < p.len() - 1 ==> #[trigger] eps_link(m, p, i)
}

/// `v` is reachable from `u` by empty-string moves (possibly none).
pub open spec fn eps_reaches(m: NfaModel, u: usize, v: usize) -> bool {
    exists|p: Seq<usize>| #[trigger] eps_path(m, p, u, v)
}

/// Every state reaches itself.
pub proof fn lemma_reaches_refl(m: NfaModel, u: usize)
    ensures
        eps_reaches(m, u, u),
{
    let p = seq![u];
    assert(eps_path(m, p, u, u));
}

/// Two paths joined end to start form a path.
pub proof fn lemma_path_join(m: NfaModel, p: Seq<usize>, q: Seq<usize>, u: usize, v: usize, w: usize)
    requires
        eps_path(m, p, u, v),
        eps_path(m, q, v, w),
    ensures
        eps_path(m, p + q.drop_first(), u, w),
        (p + q.drop_first()).len() == p.len() + q.len() - 1,
{
    let r = p + q.drop_first();
    assert forall|i: int| 0 <= i < r.len() - 1 implies #[trigger] eps_link(m, r, i) by {
        if i < p.len() - 1 {
            assert(eps_link(m, p, i));
        } else if i == p.len() - 1 {
            assert(eps_link(m, q, 0));
        } else {
            let j = i - p.len() + 1;
            assert(eps_link(m, q, j));
            assert(r[i] == q[j] && r[i + 1] == q[j + 1]);
        }
    }
    if q.len() == 1 {
        assert(r.last() == p.last());
    } else {
        assert(r.last() == q.last());
    }
}

/// Reachability is transitive.
pub proof fn lemma_reaches_trans(m: NfaModel, u: usize, v: usize, w: usize)
    requires
        eps_reaches(m, u, v),
        eps_reaches(m, v, w),
    ensures
        eps_reaches(m, u, w),
{
    let p = choose|p: Seq<usize>| eps_path(m, p, u, v);
    let q = choose|q: Seq<usize>| eps_path(m, q, v, w);
    lemma_path_join(m, p, q, u, v, w);
}

/// A move followed by a path is a path.
pub proof fn lemma_step_then_reaches(m: NfaModel, u: usize, t: usize, v: usize)
    requires
        eps_step(m, u, t),
        eps_reaches(m, t, v),
    ensures
        eps_reaches(m, u, v),
{
    let q = choose|q: Seq<usize>| eps_path(m, q, t, v);
    let p = seq![u, t];
    assert(eps_link(m, p, 0));
    assert(eps_path(m, p, u, t));
    lemma_path_join(m, p, q, u, t, v);
}

/// From a state below the number of states, moves lead only to such states.
pub proof fn lemma_step_in_range(m: NfaModel, u: usize, v: usize)
    requires
        m.wf(),
        eps_step(m, u, v),
    ensures
        v < m.table.len(),
{
    let cell = m.eps(u as int);
    let k = choose|k: int| 0 <= k < cell.len() && cell[k] == v;
    assert(m.table[u as int][m.inputs.len() as int][k] < m.table.len());
}

/// Two strictly increasing sequences with the same elements are equal.
pub proof fn lemma_sorted_unique(s: Seq<usize>, t: Seq<usize>)
    requires
        strictly_sorted(s),
        strictly_sorted(t),
        forall|x: usize| s.contains(x) <==> t.contains(x),
    ensures
        s == t,
    decreases s.len(),
{
    if s.len() == 0 {
        if t.len() > 0 {
            assert(t.contains(t[0]));
        }
        assert(s =~= t);
    } else {
        assert(s.contains(s[0]));
        assert(t.contains(t[0]));
        let i = choose|i: int| 0 <= i < t.len() && t[i] == s[0];
        let k = choose|k: int| 0 <= k < s.len() && s[k] == t[0];
        if i > 0 {
            assert(t[0] < t[i]);
            if k > 0 {
                assert(s[0] < s[k]);
            }
        }
        let s1 = s.drop_first();
        let t1 = t.drop_first();
        assert forall|x: usize| s1.contains(x) <==> t1.contains(x) by {
            if s1.contains(x) {
                let p = choose|p: int| 0 <= p < s1.len() && s1[p] == x;
                assert(s[p + 1] == x);
                assert(s.contains(x));
                let q = choose|q: int| 0 <= q < t.len() && t[q] == x;
                assert(s[0] < s[p + 1]);
                assert(t1[q - 1] == x);
            }
            if t1.contains(x) {
                let p = choose|p: int| 0 <= p < t1.len() && t1[p] == x;
                assert(t[p + 1] == x);
                assert(t.contains(x));
                let q = choose|q: int| 0 <= q < s.len() && s[q] == x;
                assert(t[0] < t[p + 1]);
                assert(s1[q - 1] == x);
            }
        }
        lemma_sorted_unique(s1, t1);
        assert(s =~= seq![s[0]] + s1);
        assert(t =~= seq![t[0]] + t1);
    }
}

/// A sequence of distinct values below `n` has at most `n` elements.
pub proof fn lemma_distinct_below(s: Seq<usize>, n: int)
    requires
        s.no_duplicates(),
        forall|k: int| 0 <= k < s.len() ==> s[k] < n,
        n >= 0,
    ensures
        s.len() <= n,
{
    let si = Seq::new(s.len(), |k: int| s[k] as int);
    assert(si.no_duplicates());
    si.unique_seq_to_set();
    lemma_int_range(0, n);
    assert(si.to_set().subset_of(set_int_range(0, n)));
    lemma_len_subset(si.to_set(), set_int_range(0, n));
}

/// States reachable from an existing state exist.
pub proof fn lemma_reach_in_range(m: NfaModel, u: usize, v: usize)
    requires
        m.wf(),
        u < m.table.len(),
        eps_reaches(m, u, v),
    ensures
        v < m.table.len(),
{
    if v != u {
        let p = choose|p: Seq<usize>| eps_path(m, p, u, v);
        assert(eps_link(m, p, p.len() - 2));
        lemma_step_in_range(m, p[p.len() - 2], v);
    }
}


/// The states that `vis` marks are closed under empty-string moves.
pub open spec fn marks_closed(m: NfaModel, vis: Seq<bool>) -> bool {
    forall|u: usize, w: usize|
        u < vis.len() && vis[u as int] && #[trigger] eps_step(m, u, w) ==> w < vis.len() && vis[w as int]
}

/// Along a path of empty-string moves from a marked state, every state is
/// marked.
proof fn lemma_path_marked(m: NfaModel, p: Seq<usize>, vis: Seq<bool>, i: int)
    requires
        p.len() >= 1,
        forall|j: int| 0 <= j < p.len() - 1 ==> #[trigger] eps_link(m, p, j),
        p[0] < vis.len(),
        vis[p[0] as int],
        marks_closed(m, vis),
        0 <= i < p.len(),
    ensures
        p[i] < vis.len(),
        vis[p[i] as int],
    decreases i,
{
    if i > 0 {
        lemma_path_marked(m, p, vis, i - 1);
        assert(eps_link(m, p, i - 1));
    }
}

/// Every move from one of the first `i` states of `order` leads to a marked
/// state.
pub open spec fn order_done(m: NfaModel, order: Seq<usize>, i: int, vis: Seq<bool>) -> bool {
    forall|j: int, w: usize| 0 <= j < i && #[trigger] eps_step(m, order[j], w) ==> w < vis.len() && vis[w as int]
}

impl NFA {
    /// Marks each state reachable from `s` by empty-string moves, searching
    /// with a list of the states found and the position of the next one to
    /// follow.
    fn eps_marks(&self, s: usize) -> (vis: Vec<bool>)
        requires
            self@.wf(),
            s < self@.table.len(),
        ensures
            vis@.len() == self@.table.len(),
            forall|v: usize| v < self@.table.len() ==> (vis@[v as int] <==> #[trigger] eps_reaches(self@, s, v)),
    {
        let ghost m = self@;
        let table = self.table();
        let n = table.len();
        let ni = self.inputs().len();
        let mut vis: Vec<bool> = Vec::new();
        let mut x: usize = 0;
        while x < n
            invariant
                x <= n,
                vis@.len() == x,
                forall|y: int| 0 <= y < x ==> !vis@[y],
            decreases n - x,
        {
            vis.push(false);
            x = x + 1;
        }
        vis.set(s, true);
        let mut order: Vec<usize> = vec![s];
        proof {
            lemma_reaches_refl(m, s);
            assert forall|y: usize| y < n implies (vis@[y as int] <==> order@.contains(y)) by {
                if y == s {
                    assert(order@[0] == s);
                }
            }
        }
        let mut i: usize = 0;
        while i < order.len()
            invariant
                m == self@,
                m.wf(),
                table_view(table) == m.table,
                n == m.table.len(),
                ni == m.inputs.len(),
                s < n,
                vis@.len() == n,
                vis@[s as int],
                order@.no_duplicates(),
                forall|k: int| 0 <= k < order@.len() ==> order@[k] < n,
                forall|y: usize| y < n ==> (vis@[y as int] <==> #[trigger] order@.contains(y)),
                forall|y: usize| #[trigger] order@.contains(y) ==> eps_reaches(m, s, y),
                i <= order@.len(),
                order_done(m, order@, i as int, vis@),
            decreases n - i,
        {
            proof {
                lemma_distinct_below(order@, n as int);
            }
            let u = order[i];
            proof {
                assert(order@.contains(u));
                assert(row_view(&table@[u as int]) == m.table[u as int]);
                assert(m.table[u as int].len() == ni + 1);
            }
            let cell = &table[u][ni];
            let ghost cl = m.eps(u as int);
            proof {
                assert(cell@ == cl);
            }
            let mut k: usize = 0;
            while k < cell.len()
                invariant
                    m == self@,
                    m.wf(),
                    n == m.table.len(),
                    u < n,
                    cell@ == cl,
                    cl == m.eps(u as int),
                    k <= cl.len(),
                    s < n,
                    vis@.len() == n,
                    vis@[s as int],
                    order@.no_duplicates(),
                    forall|k2: int| 0 <= k2 < order@.len() ==> order@[k2] < n,
                    forall|y: usize| y < n ==> (vis@[y as int] <==> #[trigger] order@.contains(y)),
                    forall|y: usize| #[trigger] order@.contains(y) ==> eps_reaches(m, s, y),
                    order@.contains(u),
                    i < order@.len(),
                    order@[i as int] == u,
                    order_done(m, order@, i as int, vis@),
                    forall|kk: int| 0 <= kk < k && cl[kk] != u ==> vis@[#[trigger] cl[kk] as int],
                decreases cl.len() - k,
            {
                let w = cell[k];
                proof {
                    assert(cl[k as int] == w);
                    assert(m.table[u as int][m.inputs.len() as int][k as int] == w);
                    assert(w < n);
                }
                if w != u && !vis[w] {
                    let ghost prev = order@;
                    proof {
                        assert(!prev.contains(w));
                        assert(eps_step(m, u, w));
                        lemma_reaches_refl(m, w);
                        lemma_step_then_reaches(m, u, w, w);
                        lemma_reaches_trans(m, s, u, w);
                    }
                    let ghost pvis = vis@;
                    vis.set(w, true);
                    order.push(w);
                    proof {
                        assert(order@ =~= prev.push(w));
                        assert(vis@ =~= pvis.update(w as int, true));
                        assert forall|y: usize| #[trigger] order@.contains(y) implies eps_reaches(m, s, y) by {
                            if y != w {
                                let q = choose|q: int| 0 <= q < order@.len() && order@[q] == y;
                                assert(q < prev.len());
                                assert(prev[q] == y);
                                assert(prev.contains(y));
                            }
                        }
                        assert forall|y: usize| y < n implies (vis@[y as int] <==> #[trigger] order@.contains(y)) by {
                            if y == w {
                                assert(order@[prev.len() as int] == w);
                            } else {
                                assert(vis@[y as int] == pvis[y as int]);
                                if order@.contains(y) {
                                    let q = choose|q: int| 0 <= q < order@.len() && order@[q] == y;
                                    assert(q < prev.len());
                                    assert(prev[q] == y);
                                    assert(prev.contains(y));
                                }
                                if prev.contains(y) {
                                    let q = choose|q: int| 0 <= q < prev.len() && prev[q] == y;
                                    assert(order@[q] == y);
                                }
                            }
                        }
                        assert(order@.contains(u)) by {
                            assert(order@[i as int] == u);
                        }
                    }
                }
                k = k + 1;
            }
            proof {
                assert forall|j: int, w: usize| 0 <= j < i + 1 && #[trigger] eps_step(m, order@[j], w) implies w < vis@.len() && vis@[w as int] by {
                    if j == i {
                        let kk = choose|kk: int| 0 <= kk < cl.len() && cl[kk] == w;
                        lemma_step_in_range(m, u, w);
                    }
                }
            }
            i = i + 1;
        }
        proof {
            assert(marks_closed(m, vis@)) by {
                assert forall|u: usize, w: usize| u < vis@.len() && vis@[u as int] && #[trigger] eps_step(m, u, w) implies w < vis@.len() && vis@[w as int] by {
                    assert(order@.contains(u));
                    let j = choose|j: int| 0 <= j < order@.len() && order@[j] == u;
                    assert(eps_step(m, order@[j], w));
                }
            }
            assert forall|v: usize| v < n implies (vis@[v as int] <==> #[trigger] eps_reaches(m, s, v)) by {
                if eps_reaches(m, s, v) {
                    let p = choose|p: Seq<usize>| eps_path(m, p, s, v);
                    lemma_path_marked(m, p, vis@, p.len() - 1);
                }
                if vis@[v as int] {
                    assert(order@.contains(v));
                }
            }
        }
        vis
    }

    /// The states reachable from `base_state` by empty-string moves, in
    /// increasing order.
    pub fn eps_clos(&self, base_state: usize) -> (res: Vec<usize>)
        requires
            self@.wf(),
            base_state < self@.table.len(),
        ensures
            strictly_sorted(res@),
            forall|v: usize| #[trigger] res@.contains(v) <==> eps_reaches(self@, base_state, v),
    {
        let ghost m = self@;
        let n = self.table().len();
        let vis = self.eps_marks(base_state);
        let mut res: Vec<usize> = Vec::new();
        let mut x: usize = 0;
        while x < n
            invariant
                m == self@,
                n == m.table.len(),
                x <= n,
                vis@.len() == n,
                forall|v: usize| v < n ==> (vis@[v as int] <==> #[trigger] eps_reaches(m, base_state, v)),
                strictly_sorted(res@),
                forall|k: int| 0 <= k < res@.len() ==> res@[k] < x,
                forall|v: usize| #[trigger] res@.contains(v) <==> (v < x && vis@[v as int]),
            decreases n - x,
        {
            if vis[x] {
                let ghost prev = res@;
                assert(forall|v: usize| #[trigger] prev.contains(v) <==> (v < x && vis@[v as int]));
                res.push(x);
                proof {
                    assert forall|v: usize| #[trigger] res@.contains(v) <==> (v < x + 1 && vis@[v as int]) by {
                        if res@.contains(v) && v != x {
                            let q = choose|q: int| 0 <= q < res@.len() && res@[q] == v;
                            assert(q < prev.len());
                            assert(prev[q] == v);
                            assert(prev.contains(v));
                        }
                        if v < x && vis@[v as int] {
                            assert(prev.contains(v));
                            let q = choose|q: int| 0 <= q < prev.len() && prev[q] == v;
                            assert(res@[q] == v);
                        }
                        if v == x {
                            assert(res@[prev.len() as int] == v);
                        }
                    }
                }
            }
            x = x + 1;
        }
        proof {
            assert forall|v: usize| #[trigger] res@.contains(v) <==> eps_reaches(m, base_state, v) by {
                if eps_reaches(m, base_state, v) {
                    lemma_reach_in_range(m, base_state, v);
                }
            }
        }
        res
    }
}

} // verus!
