use nfa_regex::compile::{build_nfa, IDGenerator};
use nfa_regex::matcher::{closure_of, InputWithIndex};
use nfa_regex::parser::Node;
use std::collections::HashSet;

#[test]
fn id_generator_counts_from_zero() {
    let mut ids = IDGenerator::new();
    assert_eq!(ids.next(), 0);
    assert_eq!(ids.next(), 1);
    assert_eq!(ids.next(), 2);
}

#[test]
fn cursor_walks_characters_not_bytes() {
    let mut input = InputWithIndex::new("a\u{3b5}b");
    assert_eq!(input.index(), 0);
    assert!(!input.is_end());
    assert_eq!(input.peek(), Some('a'));
    assert_eq!(input.next(), Some('a'));
    assert_eq!(input.index(), 1);
    assert_eq!(input.next(), Some('\u{3b5}'));
    assert_eq!(input.peek(), Some('b'));
    assert_eq!(input.next(), Some('b'));
    assert_eq!(input.index(), 3);
    assert!(input.is_end());
    assert_eq!(input.peek(), None);
    assert_eq!(input.next(), None);
    assert_eq!(input.index(), 4);
    input.set_index(1);
    assert_eq!(input.peek(), Some('\u{3b5}'));
    assert!(!input.is_end());
}

#[test]
fn cursor_over_the_empty_input() {
    let input = InputWithIndex::new("");
    assert!(input.is_end());
    assert_eq!(input.peek(), None);
}

#[test]
fn closure_of_compiled_states() {
    // a*: entry 0, exit 1, a at 2 and 3.
    let nfa = build_nfa(Node::ZeroOrMore(Box::new(Node::Literal('a')))).unwrap();
    assert_eq!(closure_of(&nfa, 0), HashSet::from([1, 2]));
    assert_eq!(closure_of(&nfa, 1), HashSet::from([]));
    assert_eq!(closure_of(&nfa, 2), HashSet::from([]));
    assert_eq!(closure_of(&nfa, 3), HashSet::from([1, 2]));
}
