//! A small pattern-matching engine: patterns are compiled into
//! nondeterministic automata by Thompson's construction and matched by a
//! greedy walk over the automaton.

pub mod acceptance;
pub mod nfa;
pub mod nfa_executor;
pub mod pattern;
pub mod status;
pub mod status_rules;
pub mod text;
