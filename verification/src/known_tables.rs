//! Automata of small expressions compared with their known tables.

use vstd::prelude::*;
use crate::nfa::{NFA, NfaModel, single_char_nfa, single_char_model, concat, union, star, concat_model,
    union_model, star_model};
use crate::sorted::{merge_chars, char_position, insert_sorted};
use crate::table::{table_view, tables_equal};

verus! {

/// The known table of the automaton of `a b`.
pub open spec fn concat_ab_table() -> Seq<Seq<Seq<usize>>> {
    seq![
        seq![seq![1usize], seq![], seq![]],
        seq![seq![], seq![], seq![2usize]],
        seq![seq![], seq![3usize], seq![]],
        seq![seq![], seq![], seq![]],
    ]
}

/// The known table of the automaton of `a|b`.
pub open spec fn union_ab_table() -> Seq<Seq<Seq<usize>>> {
    seq![
        seq![seq![], seq![], seq![1usize, 3]],
        seq![seq![2usize], seq![], seq![]],
        seq![seq![], seq![], seq![5usize]],
        seq![seq![], seq![4usize], seq![]],
        seq![seq![], seq![], seq![5usize]],
        seq![seq![], seq![], seq![]],
    ]
}

/// The known table of the automaton of `a*`.
pub open spec fn star_a_table() -> Seq<Seq<Seq<usize>>> {
    seq![
        seq![seq![], seq![1usize, 3]],
        seq![seq![2usize], seq![]],
        seq![seq![], seq![0usize, 3]],
        seq![seq![], seq![]],
    ]
}

/// The table of `concat` of the automata of `a` and `b`.
proof fn lemma_concat_ab()
    ensures
        concat_model(single_char_model('a'), single_char_model('b')).table == seq![
            seq![seq![1usize], seq![], seq![]],
            seq![seq![], seq![], seq![2usize]],
            seq![seq![], seq![3usize], seq![]],
            seq![seq![], seq![], seq![]],
        ],
{
    reveal_with_fuel(merge_chars, 3);
    reveal_with_fuel(char_position, 3);
    reveal_with_fuel(insert_sorted, 3);
    let m = concat_model(single_char_model('a'), single_char_model('b'));
    assert(m.table =~~= seq![
        seq![seq![1usize], seq![], seq![]],
        seq![seq![], seq![], seq![2usize]],
        seq![seq![], seq![3usize], seq![]],
        seq![seq![], seq![], seq![]],
    ]);
}

/// The table of `union` of the automata of `a` and `b`.
proof fn lemma_union_ab()
    ensures
        union_model(single_char_model('a'), single_char_model('b')).table == seq![
            seq![seq![], seq![], seq![1usize, 3]],
            seq![seq![2usize], seq![], seq![]],
            seq![seq![], seq![], seq![5usize]],
            seq![seq![], seq![4usize], seq![]],
            seq![seq![], seq![], seq![5usize]],
            seq![seq![], seq![], seq![]],
        ],
{
    reveal_with_fuel(merge_chars, 3);
    reveal_with_fuel(char_position, 3);
    reveal_with_fuel(insert_sorted, 3);
    let m = union_model(single_char_model('a'), single_char_model('b'));
    assert(m.table =~~= seq![
        seq![seq![], seq![], seq![1usize, 3]],
        seq![seq![2usize], seq![], seq![]],
        seq![seq![], seq![], seq![5usize]],
        seq![seq![], seq![4usize], seq![]],
        seq![seq![], seq![], seq![5usize]],
        seq![seq![], seq![], seq![]],
    ]);
}

/// The table of `star` of the automaton of `a`.
proof fn lemma_star_a()
    ensures
        star_model(single_char_model('a')).table == seq![
            seq![seq![], seq![1usize, 3]],
            seq![seq![2usize], seq![]],
            seq![seq![], seq![0usize, 3]],
            seq![seq![], seq![]],
        ],
{
    reveal_with_fuel(insert_sorted, 3);
    let m = star_model(single_char_model('a'));
    assert(m.table =~~= seq![
        seq![seq![], seq![1usize, 3]],
        seq![seq![2usize], seq![]],
        seq![seq![], seq![0usize, 3]],
        seq![seq![], seq![]],
    ]);
}

/// The automaton of the concatenation of `x` and `y`, for two characters in
/// increasing order.
proof fn lemma_concat_pair(x: char, y: char)
    requires
        x < y,
    ensures
        concat_model(single_char_model(x), single_char_model(y)).inputs == seq![x, y],
        concat_model(single_char_model(x), single_char_model(y)).table == seq![
            seq![seq![1usize], seq![], seq![]],
            seq![seq![], seq![], seq![2usize]],
            seq![seq![], seq![3usize], seq![]],
            seq![seq![], seq![], seq![]],
        ],
{
    reveal_with_fuel(merge_chars, 3);
    reveal_with_fuel(char_position, 3);
    reveal_with_fuel(insert_sorted, 3);
    let m = concat_model(single_char_model(x), single_char_model(y));
    assert(m.inputs =~= seq![x, y]);
    assert(m.table =~~= seq![
        seq![seq![1usize], seq![], seq![]],
        seq![seq![], seq![], seq![2usize]],
        seq![seq![], seq![3usize], seq![]],
        seq![seq![], seq![], seq![]],
    ]);
}

/// The alphabet of the concatenation of `a d`, `b e` and `c f`.
pub open spec fn chain_inputs() -> Seq<char> {
    seq!['a', 'b', 'c', 'd', 'e', 'f']
}

/// The table of the concatenation of `a d`, `b e` and `c f`.
pub open spec fn chain_table() -> Seq<Seq<Seq<usize>>> {
    seq![
        seq![seq![1usize], seq![], seq![], seq![], seq![], seq![], seq![]],
        seq![seq![], seq![], seq![], seq![], seq![], seq![], seq![2usize]],
        seq![seq![], seq![], seq![], seq![3usize], seq![], seq![], seq![]],
        seq![seq![], seq![], seq![], seq![], seq![], seq![], seq![4usize]],
        seq![seq![], seq![5usize], seq![], seq![], seq![], seq![], seq![]],
        seq![seq![], seq![], seq![], seq![], seq![], seq![], seq![6usize]],
        seq![seq![], seq![], seq![], seq![], seq![7usize], seq![], seq![]],
        seq![seq![], seq![], seq![], seq![], seq![], seq![], seq![8usize]],
        seq![seq![], seq![], seq![9usize], seq![], seq![], seq![], seq![]],
        seq![seq![], seq![], seq![], seq![], seq![], seq![], seq![10usize]],
        seq![seq![], seq![], seq![], seq![], seq![], seq![11usize], seq![]],
        seq![seq![], seq![], seq![], seq![], seq![], seq![], seq![]],
    ]
}

/// The concatenation of `a d`, `b e` and `c f`.
proof fn lemma_chain()
    ensures
        concat_model(
            concat_model(
                concat_model(single_char_model('a'), single_char_model('d')),
                concat_model(single_char_model('b'), single_char_model('e')),
            ),
            concat_model(single_char_model('c'), single_char_model('f')),
        ) == (crate::nfa::NfaModel { inputs: chain_inputs(), table: chain_table() }),
{
    lemma_concat_pair('a', 'd');
    lemma_concat_pair('b', 'e');
    lemma_concat_pair('c', 'f');
    let ad = concat_model(single_char_model('a'), single_char_model('d'));
    let be = concat_model(single_char_model('b'), single_char_model('e'));
    let cf = concat_model(single_char_model('c'), single_char_model('f'));
    reveal_with_fuel(merge_chars, 8);
    reveal_with_fuel(char_position, 8);
    reveal_with_fuel(insert_sorted, 3);
    let adbe = concat_model(ad, be);
    assert(adbe.inputs =~= seq!['a', 'b', 'd', 'e']);
    assert(adbe.table =~~= seq![
        seq![seq![1usize], seq![], seq![], seq![], seq![]],
        seq![seq![], seq![], seq![], seq![], seq![2usize]],
        seq![seq![], seq![], seq![3usize], seq![], seq![]],
        seq![seq![], seq![], seq![], seq![], seq![4usize]],
        seq![seq![], seq![5usize], seq![], seq![], seq![]],
        seq![seq![], seq![], seq![], seq![], seq![6usize]],
        seq![seq![], seq![], seq![], seq![7usize], seq![]],
        seq![seq![], seq![], seq![], seq![], seq![]],
    ]);
    let all = concat_model(adbe, cf);
    assert(all.inputs =~= chain_inputs());
    assert(all.table =~~= chain_table());
}

/// Whether two alphabets are equal.
fn inputs_equal(a: &Vec<char>, b: &Vec<char>) -> (r: bool)
    ensures
        r == (a@ == b@),
{
    if a.len() != b.len() {
        return false;
    }
    let mut k: usize = 0;
    while k < a.len()
        invariant
            a@.len() == b@.len(),
            k <= a@.len(),
            forall|q: int| 0 <= q < k ==> a@[q] == b@[q],
        decreases a@.len() - k,
    {
        if a[k] != b[k] {
            return false;
        }
        k = k + 1;
    }
    assert(a@ =~= b@);
    true
}

/// Whether the concatenation of `a` and `b` has the known table of `a b`.
fn concat_table_holds(a: &NFA, b: &NFA) -> (ok: bool)
    requires
        a@.wf(),
        b@.wf(),
        a@.table.len() + b@.table.len() <= usize::MAX,
    ensures
        ok == (concat_model(a@, b@).table == concat_ab_table()),
{
    let a_concat_b = concat(a, b);
    let expected: Vec<Vec<Vec<usize>>> = vec![
        vec![vec![1], vec![], vec![]],
        vec![vec![], vec![], vec![2]],
        vec![vec![], vec![3], vec![]],
        vec![vec![], vec![], vec![]],
    ];
    proof {
        assert(table_view(&expected) =~~= concat_ab_table());
    }
    tables_equal(&expected, a_concat_b.table())
}

/// Whether the union of `a` and `b` has the known table of `a|b`.
fn union_table_holds(a: &NFA, b: &NFA) -> (ok: bool)
    requires
        a@.wf(),
        b@.wf(),
        a@.table.len() + b@.table.len() + 2 <= usize::MAX,
    ensures
        ok == (union_model(a@, b@).table == union_ab_table()),
{
    let a_union_b = union(a, b);
    let expected: Vec<Vec<Vec<usize>>> = vec![
        vec![vec![], vec![], vec![1, 3]],
        vec![vec![2], vec![], vec![]],
        vec![vec![], vec![], vec![5]],
        vec![vec![], vec![4], vec![]],
        vec![vec![], vec![], vec![5]],
        vec![vec![], vec![], vec![]],
    ];
    proof {
        assert(table_view(&expected) =~~= union_ab_table());
    }
    tables_equal(&expected, a_union_b.table())
}

/// Whether the star of `a` has the known table of `a*`.
fn star_table_holds(a: &NFA) -> (ok: bool)
    requires
        a@.wf(),
        a@.table.len() + 2 <= usize::MAX,
    ensures
        ok == (star_model(a@).table == star_a_table()),
{
    let a_star = star(a);
    let expected: Vec<Vec<Vec<usize>>> = vec![
        vec![vec![], vec![1, 3]],
        vec![vec![2], vec![]],
        vec![vec![], vec![0, 3]],
        vec![vec![], vec![]],
    ];
    proof {
        assert(table_view(&expected) =~~= star_a_table());
    }
    tables_equal(&expected, a_star.table())
}

/// Whether the concatenation of `a_d`, `b_e` and `c_f`, built as that of
/// the first two followed by the third, has the known alphabet and table of
/// `a d b e c f`.
fn chain_table_holds(a_d: &NFA, b_e: &NFA, c_f: &NFA) -> (ok: bool)
    requires
        a_d@.wf(),
        b_e@.wf(),
        c_f@.wf(),
        a_d@.table.len() + b_e@.table.len() + c_f@.table.len() <= usize::MAX,
    ensures
        ok == (concat_model(concat_model(a_d@, b_e@), c_f@) == (NfaModel { inputs: chain_inputs(), table: chain_table() })),
{
    let a_d_b_e = concat(a_d, b_e);
    let a_thru_f_concat = concat(&a_d_b_e, c_f);
    let expected_inputs: Vec<char> = vec!['a', 'b', 'c', 'd', 'e', 'f'];
    let expected_table = chain_expected_table();
    proof {
        assert(expected_inputs@ =~= chain_inputs());
    }
    inputs_equal(&expected_inputs, a_thru_f_concat.inputs())
        && tables_equal(&expected_table, a_thru_f_concat.table())
}

/// The known table of the automaton of `a d b e c f`.
#[verifier::rlimit(40)]
fn chain_expected_table() -> (t: Vec<Vec<Vec<usize>>>)
    ensures
        table_view(&t) == chain_table(),
{
    let t: Vec<Vec<Vec<usize>>> = vec![
        vec![vec![1], vec![], vec![], vec![], vec![], vec![], vec![]],
        vec![vec![], vec![], vec![], vec![], vec![], vec![], vec![2]],
        vec![vec![], vec![], vec![], vec![3], vec![], vec![], vec![]],
        vec![vec![], vec![], vec![], vec![], vec![], vec![], vec![4]],
        vec![vec![], vec![5], vec![], vec![], vec![], vec![], vec![]],
        vec![vec![], vec![], vec![], vec![], vec![], vec![], vec![6]],
        vec![vec![], vec![], vec![], vec![], vec![7], vec![], vec![]],
        vec![vec![], vec![], vec![], vec![], vec![], vec![], vec![8]],
        vec![vec![], vec![], vec![9], vec![], vec![], vec![], vec![]],
        vec![vec![], vec![], vec![], vec![], vec![], vec![], vec![10]],
        vec![vec![], vec![], vec![], vec![], vec![], vec![11], vec![]],
        vec![vec![], vec![], vec![], vec![], vec![], vec![], vec![]],
    ];
    assert(table_view(&t) =~~= chain_table());
    t
}

/// Builds the automata of `a b`, `a|b`, `a*` and `a d b e c f` and compares
/// them with their known tables (and, for the last, its alphabet). Every
/// comparison holds.
pub fn run_nfa_tests() -> (passed: bool)
    ensures
        passed,
        concat_model(single_char_model('a'), single_char_model('b')).table == concat_ab_table(),
        union_model(single_char_model('a'), single_char_model('b')).table == union_ab_table(),
        star_model(single_char_model('a')).table == star_a_table(),
        concat_model(
            concat_model(
                concat_model(single_char_model('a'), single_char_model('d')),
                concat_model(single_char_model('b'), single_char_model('e')),
            ),
            concat_model(single_char_model('c'), single_char_model('f')),
        ) == (NfaModel { inputs: chain_inputs(), table: chain_table() }),
{
    let a = single_char_nfa('a');
    let b = single_char_nfa('b');
    let c = single_char_nfa('c');
    let d = single_char_nfa('d');
    let e = single_char_nfa('e');
    let f = single_char_nfa('f');
    let concat_ok = concat_table_holds(&a, &b);
    let union_ok = union_table_holds(&a, &b);
    let star_ok = star_table_holds(&a);
    let a_d = concat(&a, &d);
    let b_e = concat(&b, &e);
    let c_f = concat(&c, &f);
    let chain_ok = chain_table_holds(&a_d, &b_e, &c_f);
    proof {
        lemma_concat_ab();
        lemma_union_ab();
        lemma_star_a();
        lemma_chain();
    }
    concat_ok && union_ok && star_ok && chain_ok
}

} // verus!
