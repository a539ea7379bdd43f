//! Nondeterministic finite automata built from single characters with
//! concatenation, union and Kleene star, and their conversion into
//! deterministic automata that match whole strings.

pub mod sorted;
pub mod nfa;
pub mod table;
pub mod closure;
pub mod dfa;
pub mod known_tables;
pub mod language;
pub mod subsets;
pub mod reading;
pub mod assoc;
