use lib::known_tables::run_nfa_tests;
use lib::nfa;
use lib::nfa::{join_alphabets, single_char_nfa, star, union, union_char_range, NFA};
use lib::sorted::{push_sorted, search_sorted};

fn regex_a_or_b_star_or_c() -> NFA {
    let a = single_char_nfa('a');
    let b = single_char_nfa('b');
    let c = single_char_nfa('c');
    union(&star(&union(&a, &b)), &c)
}

#[test]
fn run_nfa_tests_passes() {
    assert!(run_nfa_tests());
}

#[test]
fn single_char_table() {
    let a = single_char_nfa('x');
    assert_eq!(*a.inputs(), vec!['x']);
    assert_eq!(*a.table(), vec![vec![vec![1], vec![]], vec![vec![], vec![]]]);
}

#[test]
fn concat_of_two_chars() {
    let a_concat_b = nfa::concat(&single_char_nfa('a'), &single_char_nfa('b'));
    assert_eq!(
        vec![
            vec![vec![1], vec![], vec![]],
            vec![vec![], vec![], vec![2]],
            vec![vec![], vec![3], vec![]],
            vec![vec![], vec![], vec![]],
        ],
        *a_concat_b.table()
    );
    assert_eq!(*a_concat_b.inputs(), vec!['a', 'b']);
}

#[test]
fn union_of_two_chars() {
    let a_union_b = union(&single_char_nfa('a'), &single_char_nfa('b'));
    assert_eq!(
        vec![
            vec![vec![], vec![], vec![1, 3]],
            vec![vec![2], vec![], vec![]],
            vec![vec![], vec![], vec![5]],
            vec![vec![], vec![4], vec![]],
            vec![vec![], vec![], vec![5]],
            vec![vec![], vec![], vec![]],
        ],
        *a_union_b.table()
    );
}

#[test]
fn star_of_a_char() {
    let a_star = star(&single_char_nfa('a'));
    assert_eq!(
        vec![
            vec![vec![], vec![1, 3]],
            vec![vec![2], vec![]],
            vec![vec![], vec![0, 3]],
            vec![vec![], vec![]],
        ],
        *a_star.table()
    );
}

#[test]
fn concat_of_six_chars_joins_alphabets() {
    let a = single_char_nfa('a');
    let b = single_char_nfa('b');
    let c = single_char_nfa('c');
    let d = single_char_nfa('d');
    let e = single_char_nfa('e');
    let f = single_char_nfa('f');
    let a_d = nfa::concat(&a, &d);
    let b_e = nfa::concat(&b, &e);
    let c_f = nfa::concat(&c, &f);
    let a_thru_f_concat = nfa::concat(&nfa::concat(&a_d, &b_e), &c_f);
    assert_eq!(*a_thru_f_concat.inputs(), vec!['a', 'b', 'c', 'd', 'e', 'f']);
    assert_eq!(
        *a_thru_f_concat.table(),
        vec![
            vec![vec![1], vec![], vec![], vec![], vec![], vec![], vec![]],
            vec![vec![], vec![], vec![], vec![], vec![], vec![], vec![2]],
            vec![vec![], vec![], vec![], vec![3], vec![], vec![], vec![]],
            vec![vec![], vec![], vec![], vec![], vec![], vec![], vec![4]],
            vec![vec![], vec![5], vec![], vec![], vec![], vec![], vec![]],
            vec![vec![], vec![], vec![], vec![], vec![], vec![], vec![6]],
            vec![vec![], vec![], vec![], vec![], vec![7], vec![], vec![]],
            vec![vec![], vec![], vec![], vec![], vec![], vec![], vec![8]],
            vec![vec![], vec![], vec![9], vec![], vec![], vec![], vec![]],
            vec![vec![], vec![], vec![], vec![], vec![], vec![], vec![10]],
            vec![vec![], vec![], vec![], vec![], vec![], vec![11], vec![]],
            vec![vec![], vec![], vec![], vec![], vec![], vec![], vec![]],
        ]
    );
}

#[test]
fn join_alphabets_gives_both_the_union() {
    let mut x = nfa::concat(&single_char_nfa('a'), &single_char_nfa('c'));
    let mut y = single_char_nfa('b');
    join_alphabets(&mut x, &mut y);
    assert_eq!(*x.inputs(), vec!['a', 'b', 'c']);
    assert_eq!(*y.inputs(), vec!['a', 'b', 'c']);
    assert_eq!(
        *x.table(),
        vec![
            vec![vec![1], vec![], vec![], vec![]],
            vec![vec![], vec![], vec![], vec![2]],
            vec![vec![], vec![], vec![3], vec![]],
            vec![vec![], vec![], vec![], vec![]],
        ]
    );
    assert_eq!(
        *y.table(),
        vec![vec![vec![], vec![1], vec![], vec![]], vec![vec![], vec![], vec![], vec![]]]
    );
}

#[test]
fn join_alphabets_keeps_what_each_accepts() {
    let mut x = nfa::concat(&single_char_nfa('a'), &single_char_nfa('c'));
    let mut y = single_char_nfa('b');
    join_alphabets(&mut x, &mut y);
    let dx = x.to_dfa();
    let dy = y.to_dfa();
    assert!(dx.mtch("ac"));
    assert!(!dx.mtch("b"));
    assert!(!dx.mtch("ab"));
    assert!(dy.mtch("b"));
    assert!(!dy.mtch("a"));
    assert!(!dy.mtch("c"));
}

#[test]
fn join_alphabets_of_equal_alphabets_changes_nothing() {
    let mut x = single_char_nfa('q');
    let mut y = single_char_nfa('q');
    join_alphabets(&mut x, &mut y);
    assert!(x == single_char_nfa('q'));
    assert!(y == single_char_nfa('q'));
}

#[test]
fn eps_closures_of_a_star() {
    let a_star = star(&single_char_nfa('a'));
    assert_eq!(a_star.eps_clos(0), vec![0, 1, 3]);
    assert_eq!(a_star.eps_clos(1), vec![1]);
    assert_eq!(a_star.eps_clos(2), vec![0, 1, 2, 3]);
    assert_eq!(a_star.eps_clos(3), vec![3]);
}

#[test]
fn eps_closure_through_a_union() {
    let nfa = regex_a_or_b_star_or_c();
    assert_eq!(nfa.eps_clos(0), vec![0, 1, 2, 3, 5, 8, 9, 11]);
    assert_eq!(nfa.eps_clos(4), vec![1, 2, 3, 4, 5, 7, 8, 11]);
    assert_eq!(nfa.eps_clos(10), vec![10, 11]);
}

#[test]
fn dfa_of_a_single_char() {
    let dfa = single_char_nfa('a').to_dfa();
    assert_eq!(*dfa.inputs(), vec!['a']);
    assert_eq!(*dfa.table(), vec![vec![Some(1)], vec![None]]);
    assert_eq!(*dfa.final_states(), vec![1]);
    assert!(dfa.mtch("a"));
    assert!(!dfa.mtch("aa"));
    assert!(!dfa.mtch("b"));
}

#[test]
fn dfa_start_state_is_final_only_when_the_empty_string_is_accepted() {
    assert!(!single_char_nfa('a').to_dfa().mtch(""));
    assert!(!nfa::concat(&single_char_nfa('a'), &single_char_nfa('b')).to_dfa().mtch(""));
    assert!(star(&single_char_nfa('a')).to_dfa().mtch(""));
    assert!(regex_a_or_b_star_or_c().to_dfa().mtch(""));
}

#[test]
fn dfa_of_a_or_b_star_or_c() {
    let dfa = regex_a_or_b_star_or_c().to_dfa();
    assert_eq!(*dfa.inputs(), vec!['a', 'b', 'c']);
    assert_eq!(
        *dfa.table(),
        vec![
            vec![Some(1), Some(2), Some(3)],
            vec![Some(1), Some(2), None],
            vec![Some(1), Some(2), None],
            vec![None, None, None],
        ]
    );
    assert_eq!(*dfa.final_states(), vec![0, 1, 2, 3]);
}

#[test]
fn matching_a_or_b_star_or_c() {
    let dfa = regex_a_or_b_star_or_c().to_dfa();
    assert!(dfa.mtch("c"));
    assert!(dfa.mtch("ababab"));
    assert!(!dfa.mtch("hello world"));
    assert!(!dfa.mtch("abacaba"));
    assert!(!dfa.mtch("cc"));
}

#[test]
fn branches_on_one_char_are_all_followed() {
    let ab = nfa::concat(&single_char_nfa('a'), &single_char_nfa('b'));
    let ac = nfa::concat(&single_char_nfa('a'), &single_char_nfa('c'));
    let dfa = union(&ab, &ac).to_dfa();
    assert!(dfa.mtch("ab"));
    assert!(dfa.mtch("ac"));
    assert!(!dfa.mtch("a"));
    assert!(!dfa.mtch("bc"));
    assert!(!dfa.mtch(""));
}

#[test]
fn char_range_union() {
    let nfa = union_char_range('a', 'c');
    assert_eq!(*nfa.inputs(), vec!['a', 'b', 'c']);
    assert_eq!(nfa.table().len(), 14);
    let dfa = nfa.to_dfa();
    assert!(dfa.mtch("b"));
    assert!(!dfa.mtch("d"));
}

#[test]
fn char_range_of_one_char() {
    let nfa = union_char_range('z', 'z');
    assert_eq!(*nfa.inputs(), vec!['z']);
    assert_eq!(nfa.table().len(), 6);
}

#[test]
fn push_sorted_inserts_in_place() {
    let mut v = vec![1, 4, 9];
    push_sorted(&mut v, 5);
    assert_eq!(v, vec![1, 4, 5, 9]);
    push_sorted(&mut v, 0);
    assert_eq!(v, vec![0, 1, 4, 5, 9]);
    push_sorted(&mut v, 10);
    assert_eq!(v, vec![0, 1, 4, 5, 9, 10]);
}

#[test]
fn push_sorted_keeps_one_copy() {
    let mut v = vec![2, 3];
    push_sorted(&mut v, 3);
    assert_eq!(v, vec![2, 3]);
    let mut empty: Vec<usize> = vec![];
    push_sorted(&mut empty, 7);
    assert_eq!(empty, vec![7]);
}

#[test]
fn push_sorted_with_repeats() {
    let mut v = vec![1, 3, 3, 7];
    push_sorted(&mut v, 5);
    assert_eq!(v, vec![1, 3, 3, 5, 7]);
    push_sorted(&mut v, 3);
    assert_eq!(v, vec![1, 3, 3, 5, 7]);
    push_sorted(&mut v, 2);
    assert_eq!(v, vec![1, 2, 3, 3, 5, 7]);
}

#[test]
fn push_sorted_in_either_order() {
    let mut v1 = vec![2, 4, 4, 8];
    let mut v2 = v1.clone();
    push_sorted(&mut v1, 6);
    push_sorted(&mut v1, 1);
    push_sorted(&mut v2, 1);
    push_sorted(&mut v2, 6);
    assert_eq!(v1, v2);
    assert_eq!(v1, vec![1, 2, 4, 4, 6, 8]);
}

#[test]
fn search_sorted_finds_or_places() {
    let v = vec![2, 4, 6];
    assert_eq!(search_sorted(&v, 4), Ok(1));
    assert_eq!(search_sorted(&v, 5), Err(2));
    assert_eq!(search_sorted(&v, 1), Err(0));
    assert_eq!(search_sorted(&v, 7), Err(3));
}


#[test]
fn matching_a_concatenation() {
    let dfa = nfa::concat(&single_char_nfa('a'), &single_char_nfa('b')).to_dfa();
    assert_eq!(*dfa.table(), vec![vec![Some(1), None], vec![None, Some(2)], vec![None, None]]);
    assert_eq!(*dfa.final_states(), vec![2]);
    assert!(dfa.mtch("ab"));
    assert!(!dfa.mtch("a"));
    assert!(!dfa.mtch("b"));
    assert!(!dfa.mtch("abb"));
}

#[test]
fn matching_a_union() {
    let dfa = union(&single_char_nfa('a'), &single_char_nfa('b')).to_dfa();
    assert!(dfa.mtch("a"));
    assert!(dfa.mtch("b"));
    assert!(!dfa.mtch("ab"));
    assert!(!dfa.mtch("c"));
}

#[test]
fn matching_a_star() {
    let dfa = star(&single_char_nfa('a')).to_dfa();
    assert_eq!(*dfa.table(), vec![vec![Some(1)], vec![Some(1)]]);
    assert_eq!(*dfa.final_states(), vec![0, 1]);
    assert!(dfa.mtch("a"));
    assert!(dfa.mtch("aaaa"));
    assert!(!dfa.mtch("ab"));
}

#[test]
fn duplicate_is_equal() {
    let nfa = regex_a_or_b_star_or_c();
    assert!(nfa.duplicate() == nfa);
}

#[test]
fn eps_closure_with_a_cycle() {
    let a = single_char_nfa('a');
    let nfa = star(&star(&a));
    assert_eq!(nfa.eps_clos(0), vec![0, 1, 2, 4, 5]);
    assert_eq!(nfa.eps_clos(3), vec![0, 1, 2, 3, 4, 5]);
}

#[test]
fn star_of_star_matches_any_number_of_chars() {
    let dfa = star(&star(&single_char_nfa('a'))).to_dfa();
    assert!(dfa.mtch(""));
    assert!(dfa.mtch("a"));
    assert!(dfa.mtch("aaa"));
    assert!(!dfa.mtch("b"));
    let b = single_char_nfa('b');
    let dfa = star(&union(&single_char_nfa('a'), &star(&b))).to_dfa();
    assert!(dfa.mtch("abba"));
    assert!(dfa.mtch(""));
    assert!(!dfa.mtch("abc"));
}

#[test]
fn concat_is_associative() {
    let a = union(&single_char_nfa('a'), &single_char_nfa('x'));
    let b = star(&single_char_nfa('b'));
    let c = nfa::concat(&single_char_nfa('c'), &single_char_nfa('a'));
    let left = nfa::concat(&nfa::concat(&a, &b), &c);
    let right = nfa::concat(&a, &nfa::concat(&b, &c));
    assert!(left == right);
}

#[test]
fn final_states_have_no_moves() {
    let a = single_char_nfa('a');
    let b = star(&single_char_nfa('b'));
    for nfa in [nfa::concat(&a, &b), union(&a, &b), star(&a)] {
        let last = nfa.table().last().unwrap();
        assert_eq!(last.len(), nfa.inputs().len() + 1);
        assert!(last.iter().all(|cell| cell.is_empty()));
    }
}
