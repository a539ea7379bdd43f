# Regular-expression automata

A small library that builds nondeterministic finite automata (with
empty-string moves) from single characters by concatenation, union and Kleene
star, computes empty-string closures, turns an automaton into a deterministic
one, and matches whole strings with it. Every function of the library is
verified with Verus against its contract.

Layout:

- `src/sorted.rs`: sorted vectors, and strictly increasing ones used as sets
  (binary search, insertion in place, merging of alphabets).
- `src/table.rs`: transition tables and the operations on them.
- `src/nfa.rs`: the automaton type, its well-formedness, and the
  constructions (`single_char_nfa`, `join_alphabets`, `concat`, `union`,
  `star`, `union_char_range`).
- `src/closure.rs`: paths of empty-string moves and `eps_clos`.
- `src/reading.rs`: the states reached while reading a string, one character
  at a time.
- `src/subsets.rs`: the bound on the number of distinct sets of states.
- `src/dfa.rs`: the deterministic automaton, `mtch`, and `to_dfa` (the
  subset construction, which accepts exactly what the automaton accepts).
- `src/assoc.rs`: concatenation of automata is associative.
- `src/language.rs`: the strings an automaton accepts, and the proofs that
  each construction accepts what its regular-expression operator denotes.
- `src/known_tables.rs`: `run_nfa_tests`, the automata of a few small
  expressions compared with their known tables.
- `app/main.rs`: the program that prints a few matches and automata.
