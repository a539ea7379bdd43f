//! Sorted vectors, and strictly increasing ones used as sets: search and
//! insertion.

use vstd::prelude::*;

verus! {

/// Every element is smaller than every later element.
pub open spec fn strictly_sorted(s: Seq<usize>) -> bool {
    forall|i: int, j: int| 0 <= i < j < s.len() ==> s[i] < s[j]
}

/// No element is larger than a later element.
pub open spec fn sorted(s: Seq<usize>) -> bool {
    forall|i: int, j: int| 0 <= i < j < s.len() ==> s[i] <= s[j]
}

/// Every character is smaller than every later character.
pub open spec fn strictly_sorted_chars(s: Seq<char>) -> bool {
    forall|i: int, j: int| 0 <= i < j < s.len() ==> s[i] < s[j]
}

/// Binary search in a sorted vector: `Ok` with a position of `x`, or `Err`
/// with the position where `x` would be inserted.
pub fn search_sorted(v: &Vec<usize>, x: usize) -> (r: Result<usize, usize>)
    requires
        sorted(v@),
    ensures
        match r {
            Ok(i) => i < v@.len() && v@[i as int] == x,
            Err(i) => i <= v@.len() && (forall|j: int| 0 <= j < i ==> v@[j] < x) && (forall|j: int|
                i <= j < v@.len() ==> v@[j] > x),
        },
{
    let mut lo: usize = 0;
    let mut hi: usize = v.len();
    while lo < hi
        invariant
            lo <= hi <= v@.len(),
            sorted(v@),
            forall|j: int| 0 <= j < lo ==> v@[j] < x,
            forall|j: int| hi <= j < v@.len() ==> v@[j] > x,
        decreases hi - lo,
    {
        let mid = lo + (hi - lo) / 2;
        if v[mid] == x {
            return Ok(mid);
        } else if v[mid] < x {
            lo = mid + 1;
        } else {
            hi = mid;
        }
    }
    Err(lo)
}

/// Binary search in a strictly increasing vector of characters.
pub fn search_sorted_chars(v: &Vec<char>, x: char) -> (r: Result<usize, usize>)
    requires
        strictly_sorted_chars(v@),
    ensures
        match r {
            Ok(i) => i < v@.len() && v@[i as int] == x,
            Err(i) => i <= v@.len() && (forall|j: int| 0 <= j < i ==> v@[j] < x) && (forall|j: int|
                i <= j < v@.len() ==> v@[j] > x),
        },
{
    let mut lo: usize = 0;
    let mut hi: usize = v.len();
    while lo < hi
        invariant
            lo <= hi <= v@.len(),
            strictly_sorted_chars(v@),
            forall|j: int| 0 <= j < lo ==> v@[j] < x,
            forall|j: int| hi <= j < v@.len() ==> v@[j] > x,
        decreases hi - lo,
    {
        let mid = lo + (hi - lo) / 2;
        if v[mid] == x {
            return Ok(mid);
        } else if v[mid] < x {
            lo = mid + 1;
        } else {
            hi = mid;
        }
    }
    Err(lo)
}


/// The sorted sequence `s` with `x` added in its place; `s` itself when `x`
/// is already there.
pub open spec fn insert_sorted(s: Seq<usize>, x: usize) -> Seq<usize>
    decreases s.len(),
{
    if s.len() == 0 {
        seq![x]
    } else if x < s[0] {
        seq![x] + s
    } else if x == s[0] {
        s
    } else {
        seq![s[0]] + insert_sorted(s.drop_first(), x)
    }
}

/// Where every element before `i` is below `x` and every one from `i` on is
/// above it, adding `x` in order is inserting it at `i`.
pub proof fn lemma_insert_sorted_at(s: Seq<usize>, x: usize, i: int)
    requires
        0 <= i <= s.len(),
        forall|j: int| 0 <= j < i ==> s[j] < x,
        forall|j: int| i <= j < s.len() ==> s[j] > x,
    ensures
        insert_sorted(s, x) == s.insert(i, x),
    decreases s.len(),
{
    if s.len() == 0 {
        assert(s.insert(i, x) =~= seq![x]);
    } else if i == 0 {
        assert(s.insert(i, x) =~= seq![x] + s);
    } else {
        let t = s.drop_first();
        lemma_insert_sorted_at(t, x, i - 1);
        assert(s.insert(i, x) =~= seq![s[0]] + t.insert(i - 1, x));
    }
}

/// Adding an element that is already there changes nothing.
pub proof fn lemma_insert_sorted_present(s: Seq<usize>, x: usize, i: int)
    requires
        sorted(s),
        0 <= i < s.len(),
        s[i] == x,
    ensures
        insert_sorted(s, x) == s,
    decreases s.len(),
{
    if i == 0 || s[0] == x {
    } else {
        let t = s.drop_first();
        assert(s[0] <= s[i]);
        lemma_insert_sorted_present(t, x, i - 1);
        assert(seq![s[0]] + t =~= s);
    }
}

/// Adding in order keeps a sequence strictly increasing and adds exactly `x`
/// to its elements.
pub proof fn lemma_insert_sorted_props(s: Seq<usize>, x: usize)
    requires
        strictly_sorted(s),
    ensures
        strictly_sorted(insert_sorted(s, x)),
        forall|y: usize| insert_sorted(s, x).contains(y) <==> (s.contains(y) || y == x),
        s.contains(x) ==> insert_sorted(s, x) == s,
        !s.contains(x) ==> insert_sorted(s, x).len() == s.len() + 1,
{
    if s.contains(x) {
        let i = choose|i: int| 0 <= i < s.len() && s[i] == x;
        lemma_insert_sorted_present(s, x, i);
    } else {
        lemma_split_point(s, x);
        let k = choose|k: int| #[trigger] splits_at(s, x, k);
        lemma_insert_sorted_at(s, x, k);
        let r = s.insert(k, x);
        assert forall|y: usize| r.contains(y) <==> (s.contains(y) || y == x) by {
            if r.contains(y) {
                let m = choose|m: int| 0 <= m < r.len() && r[m] == y;
                if m < k {
                    assert(s[m] == y);
                } else if m > k {
                    assert(s[m - 1] == y);
                }
            }
            if s.contains(y) {
                let m = choose|m: int| 0 <= m < s.len() && s[m] == y;
                if m < k {
                    assert(r[m] == y);
                } else {
                    assert(r[m + 1] == y);
                }
            }
            if y == x {
                assert(r[k] == y);
            }
        }
    }
}

/// Every element before position `k` is below `x`, every one from `k` on is
/// above it.
pub open spec fn splits_at(s: Seq<usize>, x: usize, k: int) -> bool {
    &&& 0 <= k <= s.len()
    &&& forall|j: int| 0 <= j < k ==> s[j] < x
    &&& forall|j: int| k <= j < s.len() ==> s[j] > x
}

/// A strictly increasing sequence that lacks `x` splits into the elements
/// below `x` followed by the elements above it.
proof fn lemma_split_point(s: Seq<usize>, x: usize)
    requires
        strictly_sorted(s),
        !s.contains(x),
    ensures
        exists|k: int| #[trigger] splits_at(s, x, k),
    decreases s.len(),
{
    if s.len() == 0 {
        assert(splits_at(s, x, 0));
    } else if x < s[0] {
        assert(forall|j: int| 0 <= j < s.len() ==> #[trigger] s[j] > x) by {
            assert forall|j: int| 0 <= j < s.len() implies s[j] > x by {
                if j > 0 {
                    assert(s[0] < s[j]);
                }
            }
        }
        assert(splits_at(s, x, 0));
    } else {
        let t = s.drop_first();
        assert(!t.contains(x)) by {
            if t.contains(x) {
                let m = choose|m: int| 0 <= m < t.len() && t[m] == x;
                assert(s[m + 1] == x);
            }
        }
        lemma_split_point(t, x);
        let k = choose|k: int| #[trigger] splits_at(t, x, k);
        assert(s[0] != x);
        assert forall|j: int| 0 <= j < k + 1 implies s[j] < x by {
            if j > 0 {
                assert(s[j] == t[j - 1]);
            }
        }
        assert forall|j: int| k + 1 <= j < s.len() implies s[j] > x by {
            assert(s[j] == t[j - 1]);
        }
        assert(splits_at(s, x, k + 1));
    }
}

/// Adding two values one after the other gives the same sequence in either
/// order.
pub proof fn lemma_insert_sorted_commutes(s: Seq<usize>, x: usize, y: usize)
    ensures
        insert_sorted(insert_sorted(s, x), y) == insert_sorted(insert_sorted(s, y), x),
    decreases s.len(),
{
    reveal_with_fuel(insert_sorted, 3);
    if s.len() > 0 && x > s[0] && y > s[0] {
        let t = s.drop_first();
        lemma_insert_sorted_commutes(t, x, y);
        assert((seq![s[0]] + insert_sorted(t, x)).drop_first() =~= insert_sorted(t, x));
        assert((seq![s[0]] + insert_sorted(t, y)).drop_first() =~= insert_sorted(t, y));
        assert((seq![s[0]] + insert_sorted(t, x))[0] == s[0]);
        assert((seq![s[0]] + insert_sorted(t, y))[0] == s[0]);
    } else if s.len() > 0 {
        let t = s.drop_first();
        assert((seq![x] + s).drop_first() =~= s);
        assert((seq![y] + s).drop_first() =~= s);
        assert((seq![s[0]] + insert_sorted(t, x)).drop_first() =~= insert_sorted(t, x));
        assert((seq![s[0]] + insert_sorted(t, y)).drop_first() =~= insert_sorted(t, y));
        assert(seq![x] + (seq![y] + s) =~= seq![x, y] + s);
        assert(seq![y] + (seq![x] + s) =~= seq![y, x] + s);
        assert(seq![x] + (seq![s[0]] + insert_sorted(t, y)) =~= seq![x, s[0]] + insert_sorted(t, y));
        assert(seq![y] + (seq![s[0]] + insert_sorted(t, x)) =~= seq![y, s[0]] + insert_sorted(t, x));
        assert(seq![s[0]] + t =~= s);
    } else {
        assert(seq![x].drop_first() =~= Seq::<usize>::empty());
        assert(seq![y].drop_first() =~= Seq::<usize>::empty());
        assert(seq![x] + seq![y] =~= seq![x, y]);
        assert(seq![y] + seq![x] =~= seq![y, x]);
        assert(seq![x] + seq![x] =~= seq![x, x]);
    }
}

/// Adds `new_int` to a sorted vector in its place, unless it is already
/// there.
pub fn push_sorted(vec: &mut Vec<usize>, new_int: usize)
    requires
        sorted(old(vec)@),
    ensures
        final(vec)@ == insert_sorted(old(vec)@, new_int),
        sorted(final(vec)@),
        strictly_sorted(old(vec)@) ==> strictly_sorted(final(vec)@),
        forall|y: usize| final(vec)@.contains(y) <==> (old(vec)@.contains(y) || y == new_int),
        old(vec)@.contains(new_int) ==> final(vec)@ == old(vec)@,
{
    let ghost s = vec@;
    match search_sorted(vec, new_int) {
        Ok(i) => {
            proof {
                lemma_insert_sorted_present(vec@, new_int, i as int);
            }
        },
        Err(i) => {
            proof {
                lemma_insert_sorted_at(vec@, new_int, i as int);
                assert(!s.contains(new_int)) by {
                    if s.contains(new_int) {
                        let m = choose|m: int| 0 <= m < s.len() && s[m] == new_int;
                    }
                }
            }
            vec.insert(i, new_int);
            proof {
                let r = vec@;
                assert forall|y: usize| r.contains(y) <==> (s.contains(y) || y == new_int) by {
                    if r.contains(y) {
                        let m = choose|m: int| 0 <= m < r.len() && r[m] == y;
                        if m < i {
                            assert(s[m] == y);
                        } else if m > i {
                            assert(s[m - 1] == y);
                        }
                    }
                    if s.contains(y) {
                        let m = choose|m: int| 0 <= m < s.len() && s[m] == y;
                        if m < i {
                            assert(r[m] == y);
                        } else {
                            assert(r[m + 1] == y);
                        }
                    }
                    if y == new_int {
                        assert(r[i as int] == y);
                    }
                }
            }
        },
    }
}

/// The position of the first occurrence of `c` in `s`, or the length of `s`
/// when `c` does not occur.
pub open spec fn char_position(s: Seq<char>, c: char) -> int
    decreases s.len(),
{
    if s.len() == 0 {
        0
    } else if s[0] == c {
        0
    } else {
        1 + char_position(s.drop_first(), c)
    }
}

/// `char_position` finds `c` exactly when `s` holds it, and then at a place
/// where it stands.
pub proof fn lemma_char_position(s: Seq<char>, c: char)
    ensures
        0 <= char_position(s, c) <= s.len(),
        char_position(s, c) < s.len() <==> s.contains(c),
        char_position(s, c) < s.len() ==> s[char_position(s, c)] == c,
        forall|k: int| 0 <= k < char_position(s, c) ==> s[k] != c,
    decreases s.len(),
{
    if s.len() == 0 {
    } else if s[0] == c {
        assert(s.contains(c));
    } else {
        let t = s.drop_first();
        lemma_char_position(t, c);
        if s.contains(c) {
            let k = choose|k: int| 0 <= k < s.len() && s[k] == c;
            assert(t[k - 1] == c);
        }
        if t.contains(c) {
            let k = choose|k: int| 0 <= k < t.len() && t[k] == c;
            assert(s[k + 1] == c);
        }
        assert forall|k: int| 0 <= k < char_position(s, c) implies s[k] != c by {
            if k > 0 {
                assert(s[k] == t[k - 1]);
            }
        }
    }
}

/// In a strictly increasing sequence, an element is found where it stands.
pub proof fn lemma_char_position_sorted(s: Seq<char>, j: int)
    requires
        strictly_sorted_chars(s),
        0 <= j < s.len(),
    ensures
        char_position(s, s[j]) == j,
{
    lemma_char_position(s, s[j]);
    let p = char_position(s, s[j]);
    assert(s.contains(s[j])) by {
        assert(s[j] == s[j]);
    }
    if p > j {
        assert(s[j] != s[j]);
    } else if p < j {
        assert(s[p] < s[j]);
    }
}

/// The strictly increasing merge of two strictly increasing character
/// sequences: every character of either, once.
pub open spec fn merge_chars(a: Seq<char>, b: Seq<char>) -> Seq<char>
    decreases a.len() + b.len(),
{
    if a.len() == 0 {
        b
    } else if b.len() == 0 {
        a
    } else if a[0] < b[0] {
        seq![a[0]] + merge_chars(a.drop_first(), b)
    } else if a[0] == b[0] {
        seq![a[0]] + merge_chars(a.drop_first(), b.drop_first())
    } else {
        seq![b[0]] + merge_chars(a, b.drop_first())
    }
}

/// The merge is strictly increasing and holds exactly the characters of both.
pub proof fn lemma_merge_chars(a: Seq<char>, b: Seq<char>)
    requires
        strictly_sorted_chars(a),
        strictly_sorted_chars(b),
    ensures
        strictly_sorted_chars(merge_chars(a, b)),
        forall|c: char| #[trigger] merge_chars(a, b).contains(c) <==> (a.contains(c) || b.contains(c)),
    decreases a.len() + b.len(),
{
    let m = merge_chars(a, b);
    if a.len() == 0 || b.len() == 0 {
    } else {
        let a1 = a.drop_first();
        let b1 = b.drop_first();
        assert(strictly_sorted_chars(a1));
        assert(strictly_sorted_chars(b1));
        assert forall|c: char| a1.contains(c) implies c > a[0] by {
            let i = choose|i: int| 0 <= i < a1.len() && a1[i] == c;
            assert(a[i + 1] == c);
        }
        assert forall|c: char| b1.contains(c) implies c > b[0] by {
            let i = choose|i: int| 0 <= i < b1.len() && b1[i] == c;
            assert(b[i + 1] == c);
        }
        assert forall|c: char| a.contains(c) <==> (c == a[0] || a1.contains(c)) by {
            if a.contains(c) && c != a[0] {
                let i = choose|i: int| 0 <= i < a.len() && a[i] == c;
                assert(a1[i - 1] == c);
            }
            if a1.contains(c) {
                let i = choose|i: int| 0 <= i < a1.len() && a1[i] == c;
                assert(a[i + 1] == c);
            }
            if c == a[0] {
                assert(a[0] == c);
            }
        }
        assert forall|c: char| b.contains(c) <==> (c == b[0] || b1.contains(c)) by {
            if b.contains(c) && c != b[0] {
                let i = choose|i: int| 0 <= i < b.len() && b[i] == c;
                assert(b1[i - 1] == c);
            }
            if b1.contains(c) {
                let i = choose|i: int| 0 <= i < b1.len() && b1[i] == c;
                assert(b[i + 1] == c);
            }
            if c == b[0] {
                assert(b[0] == c);
            }
        }
        let (h, rest) = if a[0] < b[0] {
            lemma_merge_chars(a1, b);
            (a[0], merge_chars(a1, b))
        } else if a[0] == b[0] {
            lemma_merge_chars(a1, b1);
            (a[0], merge_chars(a1, b1))
        } else {
            lemma_merge_chars(a, b1);
            (b[0], merge_chars(a, b1))
        };
        assert(m == seq![h] + rest);
        assert forall|c: char| rest.contains(c) implies c > h by {}
        assert forall|c: char| #[trigger] m.contains(c) <==> (c == h || rest.contains(c)) by {
            if m.contains(c) && c != h {
                let i = choose|i: int| 0 <= i < m.len() && m[i] == c;
                assert(rest[i - 1] == c);
            }
            if rest.contains(c) {
                let i = choose|i: int| 0 <= i < rest.len() && rest[i] == c;
                assert(m[i + 1] == c);
            }
            if c == h {
                assert(m[0] == c);
            }
        }
        assert forall|i: int, j: int| 0 <= i < j < m.len() implies m[i] < m[j] by {
            if i == 0 {
                assert(rest.contains(m[j])) by {
                    assert(rest[j - 1] == m[j]);
                }
            } else {
                assert(m[i] == rest[i - 1] && m[j] == rest[j - 1]);
            }
        }
    }
}

/// Two strictly increasing character sequences with the same characters are
/// equal.
pub proof fn lemma_sorted_chars_unique(s: Seq<char>, t: Seq<char>)
    requires
        strictly_sorted_chars(s),
        strictly_sorted_chars(t),
        forall|c: char| s.contains(c) <==> t.contains(c),
    ensures
        s == t,
    decreases s.len(),
{
    if s.len() == 0 {
        if t.len() > 0 {
            assert(t.contains(t[0]));
        }
        assert(s =~= t);
    } else {
        assert(s.contains(s[0]));
        assert(t.len() > 0);
        assert(t.contains(t[0]));
        let i = choose|i: int| 0 <= i < t.len() && t[i] == s[0];
        let k = choose|k: int| 0 <= k < s.len() && s[k] == t[0];
        if i > 0 {
            assert(t[0] < t[i]);
            if k > 0 {
                assert(s[0] < s[k]);
            }
        }
        assert(s[0] == t[0]);
        let s1 = s.drop_first();
        let t1 = t.drop_first();
        assert forall|c: char| s1.contains(c) <==> t1.contains(c) by {
            if s1.contains(c) {
                let p = choose|p: int| 0 <= p < s1.len() && s1[p] == c;
                assert(s[p + 1] == c);
                assert(s.contains(c));
                let q = choose|q: int| 0 <= q < t.len() && t[q] == c;
                assert(s[0] < s[p + 1]);
                assert(q != 0);
                assert(t1[q - 1] == c);
            }
            if t1.contains(c) {
                let p = choose|p: int| 0 <= p < t1.len() && t1[p] == c;
                assert(t[p + 1] == c);
                assert(t.contains(c));
                let q = choose|q: int| 0 <= q < s.len() && s[q] == c;
                assert(t[0] < t[p + 1]);
                assert(q != 0);
                assert(s1[q - 1] == c);
            }
        }
        lemma_sorted_chars_unique(s1, t1);
        assert(s =~= seq![s[0]] + s1);
        assert(t =~= seq![t[0]] + t1);
    }
}

} // verus!
