//! A small regular-expression engine: a pattern is tokenised, parsed into a
//! syntax tree, compiled into a nondeterministic finite automaton with
//! epsilon transitions, and that automaton is run against candidate strings.
pub mod compile;
pub mod dot;
pub mod laws;
pub mod lexer;
pub mod matcher;
pub mod nfa;
pub mod parser;
