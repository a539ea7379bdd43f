//! How many distinct sets of states there can be: at most two to the power
//! of the number of states. This bounds the states of a deterministic
//! automaton built from sets of states.

use vstd::prelude::*;
use crate::sorted::strictly_sorted;
use crate::closure::lemma_sorted_unique;

verus! {

/// Two to the power `n`.
pub open spec fn pow2(n: nat) -> nat
    decreases n,
{
    if n == 0 {
        1
    } else {
        2 * pow2((n - 1) as nat)
    }
}

/// The sets of `f`, in order, that hold `k` (when `with`) or that lack it.
pub open spec fn sets_split(f: Seq<Set<usize>>, k: usize, with: bool) -> Seq<Set<usize>>
    decreases f.len(),
{
    if f.len() == 0 {
        Seq::empty()
    } else {
        let r = sets_split(f.drop_last(), k, with);
        if f.last().contains(k) == with {
            r.push(f.last())
        } else {
            r
        }
    }
}

/// Splitting by `k` shares the sets out between the two parts, keeps them
/// distinct, and puts in each part only sets that hold, or lack, `k`.
proof fn lemma_split(f: Seq<Set<usize>>, k: usize)
    ensures
        sets_split(f, k, true).len() + sets_split(f, k, false).len() == f.len(),
        forall|with: bool, x: Set<usize>| #[trigger] sets_split(f, k, with).contains(x) ==> f.contains(x) && x.contains(k) == with,
        f.no_duplicates() ==> sets_split(f, k, true).no_duplicates() && sets_split(f, k, false).no_duplicates(),
    decreases f.len(),
{
    if f.len() > 0 {
        let d = f.drop_last();
        lemma_split(d, k);
        let l = f.last();
        assert forall|with: bool, x: Set<usize>| #[trigger] sets_split(f, k, with).contains(x) implies f.contains(x) && x.contains(k) == with by {
            let r = sets_split(d, k, with);
            if x != l || l.contains(k) != with {
                if l.contains(k) == with {
                    let q = choose|q: int| 0 <= q < sets_split(f, k, with).len() && sets_split(f, k, with)[q] == x;
                    assert(q < r.len());
                    assert(r[q] == x);
                }
                assert(r.contains(x));
                assert(d.contains(x));
                let q = choose|q: int| 0 <= q < d.len() && d[q] == x;
                assert(f[q] == x);
            } else {
                assert(f[f.len() - 1] == x);
            }
        }
        if f.no_duplicates() {
            assert(d.no_duplicates()) by {
                assert forall|a: int, b: int| 0 <= a < d.len() && 0 <= b < d.len() && a != b implies d[a] != d[b] by {
                    assert(f[a] == d[a] && f[b] == d[b]);
                }
            }
            assert(!d.contains(l)) by {
                if d.contains(l) {
                    let q = choose|q: int| 0 <= q < d.len() && d[q] == l;
                    assert(f[q] == f[f.len() - 1]);
                }
            }
            assert forall|with: bool| #[trigger] sets_split(f, k, with).no_duplicates() by {
                let r = sets_split(d, k, with);
                if l.contains(k) == with {
                    assert(!r.contains(l)) by {
                        if r.contains(l) {
                            assert(sets_split(d, k, with).contains(l));
                        }
                    }
                    let s = r.push(l);
                    assert forall|a: int, b: int| 0 <= a < s.len() && 0 <= b < s.len() && a != b implies s[a] != s[b] by {
                        if a < r.len() && b < r.len() {
                            assert(s[a] == r[a] && s[b] == r[b]);
                        } else if a < r.len() {
                            assert(s[a] == r[a]);
                            assert(r.contains(r[a]));
                        } else if b < r.len() {
                            assert(s[b] == r[b]);
                            assert(r.contains(r[b]));
                        }
                    }
                }
            }
        }
    }
}

/// Distinct sets of states below `n` number at most two to the power `n`.
pub proof fn lemma_distinct_sets_bound(f: Seq<Set<usize>>, n: nat)
    requires
        n <= usize::MAX,
        f.no_duplicates(),
        forall|i: int, x: usize| 0 <= i < f.len() && #[trigger] f[i].contains(x) ==> x < n,
    ensures
        f.len() <= pow2(n),
    decreases n,
{
    if n == 0 {
        if f.len() >= 2 {
            assert(f[0] =~= f[1]);
        }
    } else {
        let k = (n - 1) as usize;
        lemma_split(f, k);
        let f0 = sets_split(f, k, false);
        let f1 = sets_split(f, k, true);
        assert forall|i: int, x: usize| 0 <= i < f0.len() && #[trigger] f0[i].contains(x) implies x < n - 1 by {
            assert(f0.contains(f0[i]));
            let q = choose|q: int| 0 <= q < f.len() && f[q] == f0[i];
            assert(f[q].contains(x));
        }
        lemma_distinct_sets_bound(f0, (n - 1) as nat);
        let g = Seq::new(f1.len(), |i: int| f1[i].remove(k));
        assert forall|i: int, x: usize| 0 <= i < g.len() && #[trigger] g[i].contains(x) implies x < n - 1 by {
            assert(f1.contains(f1[i]));
            let q = choose|q: int| 0 <= q < f.len() && f[q] == f1[i];
            assert(f[q].contains(x));
        }
        assert(g.no_duplicates()) by {
            assert forall|a: int, b: int| 0 <= a < g.len() && 0 <= b < g.len() && a != b implies g[a] != g[b] by {
                assert(f1.contains(f1[a]));
                assert(f1.contains(f1[b]));
                if g[a] == g[b] {
                    assert(f1[a] =~= g[a].insert(k));
                    assert(f1[b] =~= g[b].insert(k));
                }
            }
        }
        lemma_distinct_sets_bound(g, (n - 1) as nat);
    }
}

/// Distinct strictly increasing lists of states below `n` number at most two
/// to the power `n`.
pub proof fn lemma_distinct_lists_bound(c: Seq<Seq<usize>>, n: nat)
    requires
        n <= usize::MAX,
        forall|a: int, b: int| 0 <= a < c.len() && 0 <= b < c.len() && a != b ==> c[a] != c[b],
        forall|a: int| 0 <= a < c.len() ==> strictly_sorted(#[trigger] c[a]),
        forall|a: int, q: int| 0 <= a < c.len() && 0 <= q < c[a].len() ==> #[trigger] c[a][q] < n,
    ensures
        c.len() <= pow2(n),
{
    let f = Seq::new(c.len(), |a: int| c[a].to_set());
    assert forall|i: int, x: usize| 0 <= i < f.len() && #[trigger] f[i].contains(x) implies x < n by {
        assert(c[i].contains(x));
        let q = choose|q: int| 0 <= q < c[i].len() && c[i][q] == x;
        assert(c[i][q] < n);
    }
    assert(f.no_duplicates()) by {
        assert forall|a: int, b: int| 0 <= a < f.len() && 0 <= b < f.len() && a != b implies f[a] != f[b] by {
            if f[a] == f[b] {
                assert forall|x: usize| c[a].contains(x) <==> c[b].contains(x) by {
                    assert(c[a].contains(x) == f[a].contains(x));
                    assert(c[b].contains(x) == f[b].contains(x));
                }
                lemma_sorted_unique(c[a], c[b]);
            }
        }
    }
    lemma_distinct_sets_bound(f, n);
}

} // verus!
