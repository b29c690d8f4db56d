use nfa_regex::compile::{build_nfa, CompileError};
use nfa_regex::lexer::lex;
use nfa_regex::matcher::{epsilon_closure, match_nfa, MatchError};
use nfa_regex::nfa::{build_states, Label, State, NFA};
use nfa_regex::parser::{parse, Node};
use std::collections::HashSet;

#[test]
fn test_epsilon_closure() {
    let start_id = 0;

    // 0 -> 1 -> 2 -> 3
    let q0 = State::new(start_id, vec![(Label::Epsilon, 1)], false);
    let q1 = State::new(1, vec![(Label::Char('a'), 2)], false);
    let q2 = State::new(2, vec![(Label::Char('b'), 3)], false);
    let q3 = State::new(3, vec![], true);
    let states = build_states(vec![q0, q1, q2, q3]);

    let nfa = NFA::new(start_id, states);
    let result = epsilon_closure(&nfa, 0);
    assert_eq!(result, Ok(HashSet::from([1])));

    //      <---
    //      |  |
    // 0 -> 1 ->-> 2 -> 3
    let q0 = State::new(start_id, vec![(Label::Epsilon, 1)], false);
    let q1 = State::new(
        1,
        vec![(Label::Char('a'), 2), (Label::Epsilon, 1)],
        false,
    );
    let q2 = State::new(2, vec![(Label::Char('b'), 3)], false);
    let q3 = State::new(3, vec![], true);
    let states = build_states(vec![q0, q1, q2, q3]);
    let nfa = NFA::new(start_id, states);

    let result = epsilon_closure(&nfa, 0);
    assert_eq!(result, Ok(HashSet::from([1])));

    let result = epsilon_closure(&nfa, 1);
    assert_eq!(result, Ok(HashSet::from([1])));

    let result = epsilon_closure(&nfa, 2);
    assert_eq!(result, Ok(HashSet::from([])));

    let q0 = State::new(start_id, vec![(Label::Epsilon, 1)], false);
    let q1 = State::new(
        1,
        vec![
            (Label::Char('a'), 2),
            (Label::Epsilon, 0),
            (Label::Epsilon, 1),
        ],
        false,
    );
    let q2 = State::new(2, vec![(Label::Char('b'), 3)], false);
    let q3 = State::new(3, vec![], true);
    let states = build_states(vec![q0, q1, q2, q3]);
    let nfa = NFA::new(start_id, states);

    let result = epsilon_closure(&nfa, 0);
    assert_eq!(result, Ok(HashSet::from([0, 1])));

    let result = epsilon_closure(&nfa, 1);
    assert_eq!(result, Ok(HashSet::from([0, 1])));

    let result = epsilon_closure(&nfa, 2);
    assert_eq!(result, Ok(HashSet::from([])));
}

#[test]
fn test_match_nfa() {
    // a
    let nfa = build_nfa(Node::Literal('a')).unwrap();
    assert_eq!(match_nfa(&nfa, "a"), Ok(true));
    assert_eq!(match_nfa(&nfa, "b"), Ok(false));
    assert_eq!(match_nfa(&nfa, "aa"), Ok(true));
    assert_eq!(match_nfa(&nfa, "ab"), Ok(true));

    // ab
    let nfa = build_nfa(Node::Concat(vec![Node::Literal('a'), Node::Literal('b')])).unwrap();
    assert_eq!(match_nfa(&nfa, "ab"), Ok(true));
    assert_eq!(match_nfa(&nfa, "aab"), Ok(false));
    assert_eq!(match_nfa(&nfa, "ba"), Ok(false));
    assert_eq!(match_nfa(&nfa, "a"), Ok(false));
    assert_eq!(match_nfa(&nfa, "b"), Ok(false));

    // a|b
    let nfa = build_nfa(Node::Union(
        Box::new(Node::Literal('a')),
        Box::new(Node::Literal('b')),
    ))
    .unwrap();
    assert_eq!(match_nfa(&nfa, "a"), Ok(true));
    assert_eq!(match_nfa(&nfa, "b"), Ok(true));
    assert_eq!(match_nfa(&nfa, "ab"), Ok(true));
    assert_eq!(match_nfa(&nfa, "ba"), Ok(true));
    assert_eq!(match_nfa(&nfa, "bb"), Ok(true));

    // ab|cd
    let nfa = build_nfa(Node::Union(
        Box::new(Node::Concat(vec![Node::Literal('a'), Node::Literal('b')])),
        Box::new(Node::Concat(vec![Node::Literal('c'), Node::Literal('d')])),
    ))
    .unwrap();
    assert_eq!(match_nfa(&nfa, "ab"), Ok(true));
    assert_eq!(match_nfa(&nfa, "cd"), Ok(true));
    assert_eq!(match_nfa(&nfa, "abcd"), Ok(true));
    assert_eq!(match_nfa(&nfa, "abd"), Ok(true));
    assert_eq!(match_nfa(&nfa, "ac"), Ok(false));
    assert_eq!(match_nfa(&nfa, "ad"), Ok(false));
    assert_eq!(match_nfa(&nfa, "bc"), Ok(false));
    assert_eq!(match_nfa(&nfa, "bd"), Ok(false));
    assert_eq!(match_nfa(&nfa, "abc"), Ok(true));
    assert_eq!(match_nfa(&nfa, "abd"), Ok(true));
    assert_eq!(match_nfa(&nfa, "acd"), Ok(false));
    assert_eq!(match_nfa(&nfa, "bcd"), Ok(false));

    // a*
    let nfa = build_nfa(Node::ZeroOrMore(Box::new(Node::Literal('a')))).unwrap();
    assert_eq!(match_nfa(&nfa, "a"), Ok(true));
    assert_eq!(match_nfa(&nfa, "aa"), Ok(true));
    assert_eq!(match_nfa(&nfa, ""), Ok(true));
    assert_eq!(match_nfa(&nfa, "b"), Ok(true)); // is this correct?

    // a*b
    let nfa = build_nfa(Node::Concat(vec![
        Node::ZeroOrMore(Box::new(Node::Literal('a'))),
        Node::Literal('b'),
    ]))
    .unwrap();
    assert_eq!(match_nfa(&nfa, "ab"), Ok(true));
    assert_eq!(match_nfa(&nfa, "aab"), Ok(true));
    assert_eq!(match_nfa(&nfa, "b"), Ok(true));
    assert_eq!(match_nfa(&nfa, "bb"), Ok(true));
    assert_eq!(match_nfa(&nfa, "a"), Ok(false));

    // a+
    let nfa = build_nfa(Node::OneOrMore(Box::new(Node::Literal('a')))).unwrap();
    assert_eq!(match_nfa(&nfa, "a"), Ok(true));
    assert_eq!(match_nfa(&nfa, "aa"), Ok(true));
    assert_eq!(match_nfa(&nfa, "aaa"), Ok(true));
    assert_eq!(match_nfa(&nfa, ""), Ok(false));
    assert_eq!(match_nfa(&nfa, "b"), Ok(false));

    // a+b
    let nfa = build_nfa(Node::Concat(vec![
        Node::OneOrMore(Box::new(Node::Literal('a'))),
        Node::Literal('b'),
    ]))
    .unwrap();
    assert_eq!(match_nfa(&nfa, "ab"), Ok(true));
    assert_eq!(match_nfa(&nfa, "aab"), Ok(true));
    assert_eq!(match_nfa(&nfa, "aaab"), Ok(true));
    assert_eq!(match_nfa(&nfa, "b"), Ok(false));

    // a?
    let nfa = build_nfa(Node::ZeroOrOne(Box::new(Node::Literal('a')))).unwrap();
    assert_eq!(match_nfa(&nfa, "a"), Ok(true));
    assert_eq!(match_nfa(&nfa, "aa"), Ok(true));
    assert_eq!(match_nfa(&nfa, ""), Ok(true));
    assert_eq!(match_nfa(&nfa, "b"), Ok(true));

    // a?b
    let nfa = build_nfa(Node::Concat(vec![
        Node::ZeroOrOne(Box::new(Node::Literal('a'))),
        Node::Literal('b'),
    ]))
    .unwrap();
    assert_eq!(match_nfa(&nfa, "ab"), Ok(true));
    assert_eq!(match_nfa(&nfa, "b"), Ok(true));
    assert_eq!(match_nfa(&nfa, "aa"), Ok(false));
    assert_eq!(match_nfa(&nfa, "aab"), Ok(false));
}

fn compile(pattern: &str) -> NFA {
    build_nfa(parse(lex(pattern).unwrap()).unwrap()).unwrap()
}

fn sorted(ids: Vec<usize>) -> Vec<usize> {
    let mut ids = ids;
    ids.sort();
    ids
}

#[test]
fn literal_matches_its_character_and_stops_at_the_accepting_state() {
    let nfa = build_nfa(Node::Literal('a')).unwrap();
    assert_eq!(match_nfa(&nfa, "a"), Ok(true));
    assert_eq!(match_nfa(&nfa, "aa"), Ok(true));
    assert_eq!(match_nfa(&nfa, "ab"), Ok(true));
    assert_eq!(match_nfa(&nfa, ""), Ok(false));
    assert_eq!(match_nfa(&nfa, "b"), Ok(false));
    assert_eq!(match_nfa(&nfa, "ba"), Ok(false));
}

#[test]
fn literal_of_any_character_matches_itself() {
    for c in ['a', 'Z', '0', '*', ' ', '\u{3b5}', '\u{10ffff}'] {
        let nfa = build_nfa(Node::Literal(c)).unwrap();
        assert_eq!(match_nfa(&nfa, &c.to_string()), Ok(true));
        assert_eq!(match_nfa(&nfa, ""), Ok(false));
    }
}

#[test]
fn concat_matches_in_order_only() {
    let nfa = build_nfa(Node::Concat(vec![Node::Literal('a'), Node::Literal('b')])).unwrap();
    assert_eq!(match_nfa(&nfa, "ab"), Ok(true));
    assert_eq!(match_nfa(&nfa, "a"), Ok(false));
    assert_eq!(match_nfa(&nfa, "b"), Ok(false));
    assert_eq!(match_nfa(&nfa, "ba"), Ok(false));
    assert_eq!(match_nfa(&nfa, ""), Ok(false));
}

#[test]
fn empty_concat_accepts_at_once() {
    let nfa = build_nfa(Node::Concat(vec![])).unwrap();
    assert_eq!(sorted(nfa.state_ids()), vec![0]);
    assert!(nfa.state(0).unwrap().is_accept());
    assert_eq!(nfa.state(0).unwrap().transition_count(), 0);
    // The entry state is the exit: it accepts before anything is read.
    assert_eq!(match_nfa(&nfa, ""), Ok(true));
    assert_eq!(match_nfa(&nfa, "a"), Ok(true));
    // So does the empty sequence inside another one, and in a group.
    let nfa = build_nfa(Node::Concat(vec![Node::Concat(vec![])])).unwrap();
    assert_eq!(match_nfa(&nfa, ""), Ok(true));
    assert_eq!(match_nfa(&nfa, "a"), Ok(true));
    let nfa = build_nfa(Node::Group(Box::new(Node::Concat(vec![])))).unwrap();
    assert_eq!(match_nfa(&nfa, ""), Ok(true));
    // It is what the empty pattern and the empty group parse to.
    assert_eq!(match_nfa(&compile(""), ""), Ok(true));
    assert_eq!(match_nfa(&compile("()"), ""), Ok(true));
    assert_eq!(match_nfa(&compile("()a"), "a"), Ok(true));
    assert_eq!(match_nfa(&compile("()a"), "b"), Ok(false));
}

#[test]
fn accepting_entry_state_of_a_hand_built_automaton() {
    let q0 = State::new(0, vec![(Label::Char('a'), 1)], true);
    let q1 = State::new(1, vec![], false);
    let nfa = NFA::new(0, build_states(vec![q0, q1]));
    assert_eq!(match_nfa(&nfa, ""), Ok(true));
    assert_eq!(match_nfa(&nfa, "b"), Ok(true));
    // The closure of a state does not hold the state itself.
    assert_eq!(epsilon_closure(&nfa, 0), Ok(HashSet::from([])));
}

#[test]
fn union_matches_either_branch() {
    let nfa = build_nfa(Node::Union(
        Box::new(Node::Literal('a')),
        Box::new(Node::Literal('b')),
    ))
    .unwrap();
    assert_eq!(match_nfa(&nfa, "a"), Ok(true));
    assert_eq!(match_nfa(&nfa, "b"), Ok(true));
    assert_eq!(match_nfa(&nfa, "c"), Ok(false));
    assert_eq!(match_nfa(&nfa, "ca"), Ok(false));
    assert_eq!(match_nfa(&nfa, ""), Ok(false));
}

#[test]
fn zero_or_more_matches_any_count() {
    let nfa = build_nfa(Node::ZeroOrMore(Box::new(Node::Literal('a')))).unwrap();
    assert_eq!(match_nfa(&nfa, ""), Ok(true));
    assert_eq!(match_nfa(&nfa, "a"), Ok(true));
    assert_eq!(match_nfa(&nfa, "aa"), Ok(true));
}

#[test]
fn one_or_more_needs_one() {
    let nfa = build_nfa(Node::OneOrMore(Box::new(Node::Literal('a')))).unwrap();
    assert_eq!(match_nfa(&nfa, "a"), Ok(true));
    assert_eq!(match_nfa(&nfa, "aa"), Ok(true));
    assert_eq!(match_nfa(&nfa, ""), Ok(false));
}

#[test]
fn zero_or_one_matches_none_and_one() {
    let nfa = build_nfa(Node::ZeroOrOne(Box::new(Node::Literal('a')))).unwrap();
    assert_eq!(match_nfa(&nfa, ""), Ok(true));
    assert_eq!(match_nfa(&nfa, "a"), Ok(true));
}

#[test]
fn closure_of_an_epsilon_self_loop_is_finite() {
    let q0 = State::new(0, vec![(Label::Epsilon, 0)], false);
    let nfa = NFA::new(0, build_states(vec![q0]));
    assert_eq!(epsilon_closure(&nfa, 0), Ok(HashSet::from([0])));
    assert_eq!(match_nfa(&nfa, ""), Ok(false));
    assert_eq!(match_nfa(&nfa, "a"), Ok(false));
}

#[test]
fn closure_follows_chains_and_cycles() {
    // 0 -> 1 -> 2 -> 0, and 2 -a-> 3
    let q0 = State::new(0, vec![(Label::Epsilon, 1)], false);
    let q1 = State::new(1, vec![(Label::Epsilon, 2)], false);
    let q2 = State::new(2, vec![(Label::Epsilon, 0), (Label::Char('a'), 3)], false);
    let q3 = State::new(3, vec![], true);
    let nfa = NFA::new(0, build_states(vec![q0, q1, q2, q3]));
    assert_eq!(epsilon_closure(&nfa, 0), Ok(HashSet::from([0, 1, 2])));
    assert_eq!(epsilon_closure(&nfa, 3), Ok(HashSet::from([])));
    assert_eq!(match_nfa(&nfa, "a"), Ok(true));
    assert_eq!(match_nfa(&nfa, "b"), Ok(false));
    assert_eq!(match_nfa(&nfa, ""), Ok(false));
}

#[test]
fn nested_repetition_with_epsilon_cycles_gives_an_answer() {
    // (a?)* and (a*)* hold cycles of epsilon transitions alone.
    let nfa = build_nfa(Node::Concat(vec![
        Node::ZeroOrMore(Box::new(Node::ZeroOrOne(Box::new(Node::Literal('a'))))),
        Node::Literal('b'),
    ]))
    .unwrap();
    assert_eq!(match_nfa(&nfa, "aab"), Ok(true));
    assert_eq!(match_nfa(&nfa, "b"), Ok(true));
    assert_eq!(match_nfa(&nfa, "aa"), Ok(false));
    assert_eq!(match_nfa(&nfa, "c"), Ok(false));
    let nfa = build_nfa(Node::Concat(vec![
        Node::ZeroOrMore(Box::new(Node::ZeroOrMore(Box::new(Node::Literal('a'))))),
        Node::Literal('b'),
    ]))
    .unwrap();
    assert_eq!(match_nfa(&nfa, "aaab"), Ok(true));
    assert_eq!(match_nfa(&nfa, "aaa"), Ok(false));
}

#[test]
fn a_transition_into_the_own_closure_reads_nothing() {
    // 0 -a-> 1 and 0 -eps-> 1: state 1 counts as reached without reading,
    // so from it the input still starts with 'a'.
    let q0 = State::new(0, vec![(Label::Char('a'), 1), (Label::Epsilon, 1)], false);
    let q1 = State::new(1, vec![(Label::Char('b'), 2)], false);
    let q2 = State::new(2, vec![], true);
    let nfa = NFA::new(0, build_states(vec![q0, q1, q2]));
    assert_eq!(match_nfa(&nfa, "ab"), Ok(false));
    assert_eq!(match_nfa(&nfa, "b"), Ok(true));
}

#[test]
fn any_char_compiles_and_matches_every_character() {
    let nfa = build_nfa(Node::AnyChar).unwrap();
    assert_eq!(sorted(nfa.state_ids()), vec![0, 1]);
    assert_eq!(match_nfa(&nfa, "a"), Ok(true));
    assert_eq!(match_nfa(&nfa, "\u{3b5}"), Ok(true));
    assert_eq!(match_nfa(&nfa, "zz"), Ok(true));
    assert_eq!(match_nfa(&nfa, ""), Ok(false));
    let nfa = compile("a.c");
    assert_eq!(match_nfa(&nfa, "abc"), Ok(true));
    assert_eq!(match_nfa(&nfa, "a-c"), Ok(true));
    assert_eq!(match_nfa(&nfa, "ac"), Ok(false));
    assert_eq!(match_nfa(&nfa, "abd"), Ok(false));
}

#[test]
fn char_class_compiles_and_matches_its_members() {
    let nfa = build_nfa(Node::CharClass(vec!['a', 'b', 'c'])).unwrap();
    assert_eq!(sorted(nfa.state_ids()), vec![0, 1]);
    assert_eq!(nfa.state(0).unwrap().transition_count(), 3);
    assert_eq!(match_nfa(&nfa, "a"), Ok(true));
    assert_eq!(match_nfa(&nfa, "b"), Ok(true));
    assert_eq!(match_nfa(&nfa, "c"), Ok(true));
    assert_eq!(match_nfa(&nfa, "d"), Ok(false));
    assert_eq!(match_nfa(&nfa, ""), Ok(false));
    // A character that occurs twice gives one transition.
    let nfa = build_nfa(Node::CharClass(vec!['a', 'a'])).unwrap();
    assert_eq!(nfa.state(0).unwrap().transition_count(), 1);
    // The empty class matches nothing.
    let nfa = build_nfa(Node::CharClass(vec![])).unwrap();
    assert_eq!(match_nfa(&nfa, "a"), Ok(false));
    assert_eq!(match_nfa(&nfa, ""), Ok(false));
    let nfa = compile("[0-9]+x");
    assert_eq!(match_nfa(&nfa, "2024x"), Ok(true));
    assert_eq!(match_nfa(&nfa, "x"), Ok(false));
    assert_eq!(match_nfa(&nfa, "12"), Ok(false));
}

#[test]
fn group_compiles_to_what_it_holds() {
    let plain = build_nfa(Node::Literal('a')).unwrap();
    let group = build_nfa(Node::Group(Box::new(Node::Literal('a')))).unwrap();
    assert_eq!(group.to_dot(), plain.to_dot());
    assert_eq!(group.start_id(), 0);
    let nfa = compile("(ab)*c");
    assert_eq!(match_nfa(&nfa, "c"), Ok(true));
    assert_eq!(match_nfa(&nfa, "ababc"), Ok(true));
    assert_eq!(match_nfa(&nfa, "abab"), Ok(false));
    assert_eq!(match_nfa(&nfa, "ac"), Ok(false));
}

#[test]
fn every_construct_compiles() {
    let trees = vec![
        Node::Literal('a'),
        Node::AnyChar,
        Node::CharClass(vec!['a']),
        Node::Union(Box::new(Node::AnyChar), Box::new(Node::Literal('b'))),
        Node::ZeroOrMore(Box::new(Node::AnyChar)),
        Node::OneOrMore(Box::new(Node::CharClass(vec!['x', 'y']))),
        Node::ZeroOrOne(Box::new(Node::Group(Box::new(Node::Literal('a'))))),
        Node::Group(Box::new(Node::AnyChar)),
        Node::Concat(vec![Node::AnyChar, Node::CharClass(vec![]), Node::Concat(vec![])]),
    ];
    for tree in trees {
        let r: Result<NFA, CompileError> = build_nfa(tree);
        assert!(r.is_ok());
        assert!(r.unwrap().is_well_formed());
    }
}

#[test]
fn state_ids_are_contiguous_from_zero() {
    let nfa = build_nfa(Node::Literal('a')).unwrap();
    assert_eq!(sorted(nfa.state_ids()), vec![0, 1]);
    assert_eq!(nfa.start_id(), 0);
    let nfa = compile("(a|b)*c[de]+.?");
    let ids = sorted(nfa.state_ids());
    assert_eq!(ids, (0..ids.len()).collect::<Vec<usize>>());
    assert_eq!(nfa.state_count(), ids.len());
    assert_eq!(nfa.start_id(), 0);
    for id in ids {
        assert_eq!(nfa.state(id).unwrap().id(), id);
    }
}

#[test]
fn compiled_states_are_wired_as_the_construction_says() {
    // a|b: entry 0, a at 1 and 2, b at 3 and 4, exit 5.
    let nfa = build_nfa(Node::Union(
        Box::new(Node::Literal('a')),
        Box::new(Node::Literal('b')),
    ))
    .unwrap();
    assert_eq!(nfa.state_count(), 6);
    let edges = |id: usize| -> Vec<(Label, usize)> {
        let s = nfa.state(id).unwrap();
        (0..s.transition_count()).map(|i| s.transition(i)).collect()
    };
    assert_eq!(edges(0), vec![(Label::Epsilon, 1), (Label::Epsilon, 3)]);
    assert_eq!(edges(1), vec![(Label::Char('a'), 2)]);
    assert_eq!(edges(2), vec![(Label::Epsilon, 5)]);
    assert_eq!(edges(3), vec![(Label::Char('b'), 4)]);
    assert_eq!(edges(4), vec![(Label::Epsilon, 5)]);
    assert_eq!(edges(5), vec![]);
    for id in 0..5 {
        assert!(!nfa.state(id).unwrap().is_accept());
    }
    assert!(nfa.state(5).unwrap().is_accept());

    // a*: entry 0, exit 1, a at 2 and 3.
    let nfa = build_nfa(Node::ZeroOrMore(Box::new(Node::Literal('a')))).unwrap();
    let edges = |id: usize| -> Vec<(Label, usize)> {
        let s = nfa.state(id).unwrap();
        (0..s.transition_count()).map(|i| s.transition(i)).collect()
    };
    assert_eq!(edges(0), vec![(Label::Epsilon, 2), (Label::Epsilon, 1)]);
    assert_eq!(edges(1), vec![]);
    assert_eq!(edges(2), vec![(Label::Char('a'), 3)]);
    assert_eq!(edges(3), vec![(Label::Epsilon, 1), (Label::Epsilon, 2)]);
    assert!(nfa.state(1).unwrap().is_accept());
    assert!(!nfa.state(3).unwrap().is_accept());

    // a+: entry 0, a at 1 and 2, and 2 stays the accepting exit.
    let nfa = build_nfa(Node::OneOrMore(Box::new(Node::Literal('a')))).unwrap();
    assert_eq!(nfa.state_count(), 3);
    assert!(nfa.state(2).unwrap().is_accept());
    assert!(nfa.state(2).unwrap().has_transition(Label::Epsilon, 1));

    // a?: entry 0 leads to the inner entry and to the inner exit.
    let nfa = build_nfa(Node::ZeroOrOne(Box::new(Node::Literal('a')))).unwrap();
    assert!(nfa.state(0).unwrap().has_transition(Label::Epsilon, 1));
    assert!(nfa.state(0).unwrap().has_transition(Label::Epsilon, 2));
    assert!(nfa.state(2).unwrap().is_accept());

    // ab: entry 0, a at 1 and 2, b at 3 and 4; only the last exit accepts.
    let nfa = build_nfa(Node::Concat(vec![Node::Literal('a'), Node::Literal('b')])).unwrap();
    assert!(nfa.state(0).unwrap().has_transition(Label::Epsilon, 1));
    assert!(nfa.state(2).unwrap().has_transition(Label::Epsilon, 3));
    assert!(!nfa.state(2).unwrap().is_accept());
    assert!(nfa.state(4).unwrap().is_accept());
}

#[test]
fn malformed_automaton_is_an_error() {
    // A transition to a state that does not exist.
    let q0 = State::new(0, vec![(Label::Char('a'), 7)], false);
    let nfa = NFA::new(0, build_states(vec![q0]));
    assert!(!nfa.is_well_formed());
    assert_eq!(match_nfa(&nfa, "a"), Err(MatchError::MalformedAutomaton));
    assert_eq!(match_nfa(&nfa, ""), Err(MatchError::MalformedAutomaton));
    assert_eq!(
        epsilon_closure(&nfa, 0),
        Err(MatchError::MalformedAutomaton)
    );
    // No entry state.
    let q1 = State::new(1, vec![], true);
    let nfa = NFA::new(0, build_states(vec![q1]));
    assert_eq!(match_nfa(&nfa, ""), Err(MatchError::MalformedAutomaton));
    // A state under another identifier than its own.
    let mut table = build_states(vec![State::new(0, vec![], true)]);
    table.insert(1, State::new(5, vec![], false));
    let nfa = NFA::new(0, table);
    assert_eq!(match_nfa(&nfa, ""), Err(MatchError::MalformedAutomaton));
}

#[test]
fn closure_of_an_unknown_state_is_an_error() {
    let q0 = State::new(0, vec![], true);
    let nfa = NFA::new(0, build_states(vec![q0]));
    assert!(nfa.is_well_formed());
    assert_eq!(epsilon_closure(&nfa, 3), Err(MatchError::UnknownState));
}

#[test]
fn hand_built_automaton_with_scattered_identifiers() {
    let q10 = State::new(10, vec![(Label::Any, 40)], false);
    let q40 = State::new(40, vec![], true);
    let nfa = NFA::new(10, build_states(vec![q40, q10]));
    assert!(nfa.is_well_formed());
    assert_eq!(match_nfa(&nfa, "x"), Ok(true));
    assert_eq!(match_nfa(&nfa, ""), Ok(false));
}

#[test]
fn build_states_keeps_the_later_of_two_states_with_one_identifier() {
    let first = State::new(0, vec![], false);
    let second = State::new(0, vec![(Label::Epsilon, 0)], true);
    let table = build_states(vec![first, second]);
    assert_eq!(table.len(), 1);
    assert!(table.get(&0).unwrap().is_accept());
    assert_eq!(table.get(&0).unwrap().transition_count(), 1);
}

#[test]
fn state_keeps_each_transition_once_in_order() {
    let mut s = State::new(
        3,
        vec![
            (Label::Char('a'), 1),
            (Label::Epsilon, 2),
            (Label::Char('a'), 1),
            (Label::Any, 1),
        ],
        false,
    );
    assert_eq!(s.id(), 3);
    assert_eq!(s.transition_count(), 3);
    assert_eq!(s.transition(0), (Label::Char('a'), 1));
    assert_eq!(s.transition(1), (Label::Epsilon, 2));
    assert_eq!(s.transition(2), (Label::Any, 1));
    s.add_transition(Label::Epsilon, 2);
    assert_eq!(s.transition_count(), 3);
    s.add_transition(Label::Epsilon, 3);
    assert_eq!(s.transition_count(), 4);
    assert_eq!(s.transition(3), (Label::Epsilon, 3));
    assert!(s.has_transition(Label::Any, 1));
    assert!(!s.has_transition(Label::Any, 2));
    assert!(!s.is_accept());
    s.set_accept(true);
    assert!(s.is_accept());
}

#[test]
fn only_one_epsilon_transition() {
    let s = State::new(0, vec![(Label::Epsilon, 4)], false);
    assert!(s.is_only_one_epsilon_transition());
    assert_eq!(s.get_if_only_one_epsilon_transition(), Some(4));
    let s = State::new(0, vec![(Label::Char('a'), 4)], false);
    assert!(!s.is_only_one_epsilon_transition());
    assert_eq!(s.get_if_only_one_epsilon_transition(), None);
    let s = State::new(0, vec![(Label::Epsilon, 4), (Label::Epsilon, 5)], false);
    assert_eq!(s.get_if_only_one_epsilon_transition(), None);
    let s = State::new(0, vec![], false);
    assert_eq!(s.get_if_only_one_epsilon_transition(), None);
}

#[test]
fn label_reads() {
    assert!(Label::Char('a').can_read('a'));
    assert!(!Label::Char('a').can_read('b'));
    assert!(Label::Any.can_read('a'));
    assert!(!Label::Epsilon.can_read('a'));
    assert!(Label::Epsilon.is_epsilon());
    assert!(!Label::Any.is_epsilon());
}

#[test]
fn to_dot_of_a_literal() {
    let nfa = build_nfa(Node::Literal('a')).unwrap();
    assert_eq!(
        nfa.to_dot(),
        "digraph finite_state_machine {\n\trankdir=LR\n\tnode [shape=doublecircle]; 1;\n\tnode [shape=circle];\n\t0 -> 1 [label=\"a\"]\n\n}"
    );
}

#[test]
fn to_dot_of_an_alternation() {
    let nfa = compile("a|.");
    assert_eq!(
        nfa.to_dot(),
        "digraph finite_state_machine {\n\trankdir=LR\n\tnode [shape=doublecircle]; 5;\n\tnode [shape=circle];\n\t0 -> 1 [label=\"\u{3b5}\"]\n\t0 -> 3 [label=\"\u{3b5}\"]\n\t1 -> 2 [label=\"a\"]\n\t2 -> 5 [label=\"\u{3b5}\"]\n\t3 -> 4 [label=\"any\"]\n\t4 -> 5 [label=\"\u{3b5}\"]\n\n}"
    );
}

#[test]
fn to_dot_lists_accepting_states_and_writes_long_numbers() {
    let q7 = State::new(7, vec![(Label::Char('x'), 1234)], true);
    let q1234 = State::new(1234, vec![(Label::Epsilon, 100)], true);
    let q100 = State::new(100, vec![], false);
    let q0 = State::new(0, vec![], true);
    let nfa = NFA::new(7, build_states(vec![q7, q1234, q100, q0]));
    assert_eq!(
        nfa.to_dot(),
        "digraph finite_state_machine {\n\trankdir=LR\n\tnode [shape=doublecircle]; 0 7 1234;\n\tnode [shape=circle];\n\t7 -> 1234 [label=\"x\"]\n\t1234 -> 100 [label=\"\u{3b5}\"]\n\n}"
    );
}

#[test]
fn to_dot_tells_the_epsilon_label_from_a_literal_epsilon() {
    let q0 = State::new(
        0,
        vec![
            (Label::Epsilon, 1),
            (Label::Char('\u{3b5}'), 1),
            (Label::Any, 1),
            (Label::Char('\u{3a3}'), 1),
            (Label::Char('\\'), 1),
            (Label::Char('a'), 1),
        ],
        false,
    );
    let q1 = State::new(1, vec![], true);
    let nfa = NFA::new(0, build_states(vec![q0, q1]));
    assert_eq!(
        nfa.to_dot(),
        "digraph finite_state_machine {\n\trankdir=LR\n\tnode [shape=doublecircle]; 1;\n\tnode [shape=circle];\n\t0 -> 1 [label=\"\u{3b5}\"]\n\t0 -> 1 [label=\"\\\u{3b5}\"]\n\t0 -> 1 [label=\"any\"]\n\t0 -> 1 [label=\"\u{3a3}\"]\n\t0 -> 1 [label=\"\\\"]\n\t0 -> 1 [label=\"a\"]\n\n}"
    );
    // A literal backslash, as the pattern of two backslashes gives it, is
    // written as it is.
    let nfa = compile("\\\\");
    assert!(nfa.to_dot().contains("\t0 -> 1 [label=\"\\\"]\n"));
    // A literal small epsilon can be had from a pattern too, by an escape.
    let nfa = compile("\\\u{3b5}");
    assert!(nfa.to_dot().contains("\t0 -> 1 [label=\"\\\u{3b5}\"]\n"));
}

#[test]
fn to_dot_without_accepting_states() {
    let nfa = NFA::new(0, build_states(vec![State::new(0, vec![], false)]));
    assert_eq!(
        nfa.to_dot(),
        "digraph finite_state_machine {\n\trankdir=LR\n\tnode [shape=doublecircle]; ;\n\tnode [shape=circle];\n\n}"
    );
}
