//! What holds of compiling and matching together.
use crate::compile::{
    chain, compiled, fragment, lemma_chain_self_contained, lemma_fragment_self_contained,
};
use crate::matcher::{lemma_eps_prepend, lemma_eps_step};
use crate::nfa::{Label, NfaModel};
use crate::parser::Ast;
use vstd::prelude::*;

verus! {

/// A state without epsilon transitions reaches nothing by epsilon
/// transitions.
pub proof fn lemma_no_epsilon_edge_no_closure(m: NfaModel, a: nat)
    requires
        forall|b: nat| !m.edge(a, Label::Epsilon, b),
    ensures
        forall|b: nat| !m.eps_reachable(a, b),
        !m.closure_accepts(a),
{
    assert forall|b: nat| !m.eps_reachable(a, b) by {
        if m.eps_reachable(a, b) {
            let n = choose|n: nat| n >= 1 && #[trigger] m.eps_path(a, b, n);
            let mid = choose|mid: nat|
                #[trigger] m.edge(a, Label::Epsilon, mid) && m.eps_path(mid, b, (n - 1) as nat);
            assert(false);
        }
    }
}

proof fn lemma_other_character_not_read(c: char, x: char, d: nat)
    requires
        x != c,
    ensures
        !Set::<(Label, nat)>::empty().insert((Label::Char(c), 1)).contains((Label::Char(x), d)),
        !Set::<(Label, nat)>::empty().insert((Label::Char(c), 1)).contains((Label::Any, d)),
{
}

/// The automaton of a literal accepts exactly the inputs that start with
/// the literal's character: reading that character reaches the accepting
/// state, and what follows is not looked at.
pub proof fn lemma_literal_accepts(c: char, input: Seq<char>)
    ensures
        compiled(Ast::Literal(c)).accepts(input) <==> input.len() > 0 && input[0] == c,
{
    let m = compiled(Ast::Literal(c));
    let f = fragment(Ast::Literal(c), 0);
    assert(f.states.len() == 2);
    assert(m.has_state(0) && m.has_state(1));
    assert(m.states[0] == f.states[0]);
    assert(m.states[1] == f.states[1]);
    assert forall|b: nat| !m.edge(0, Label::Epsilon, b) by {}
    lemma_no_epsilon_edge_no_closure(m, 0);
    if input.len() > 0 {
        let x = input[0];
        if x == c {
            assert(m.edge(0, Label::Char(x), 1));
            assert forall|b: nat| !m.edge(1, Label::Epsilon, b) by {}
            assert(m.consumes(0, x, 1));
            assert(m.accepting(1));
            assert(m.step_matches(0, input, 0));
        } else {
            let edges = Set::<(Label, nat)>::empty().insert((Label::Char(c), 1));
            assert(m.states[0].edges == edges);
            assert forall|d: nat| !m.consumes(0, x, d) by {
                lemma_other_character_not_read(c, x, d);
            }
            assert(!m.step_matches(0, input, 0));
        }
    }
}

/// In every fragment the exit state accepts, and no other state does.
pub proof fn lemma_only_exit_accepts(ast: Ast, base: nat)
    ensures
        ({
            let f = fragment(ast, base);
            &&& base <= f.exit < base + f.states.len()
            &&& forall|i: int|
                0 <= i < f.states.len() ==> ((#[trigger] f.states[i]).accept <==> i == f.exit
                    - base)
        }),
    decreases ast, 0nat,
{
    let f = fragment(ast, base);
    lemma_fragment_self_contained(ast, base);
    match ast {
        Ast::Literal(_) | Ast::AnyChar | Ast::CharClass(_) => {},
        Ast::Group(inner) => {
            lemma_only_exit_accepts(*inner, base);
        },
        Ast::Union(left, right) => {
            lemma_only_exit_accepts(*left, base + 1);
            let l = fragment(*left, base + 1);
            lemma_only_exit_accepts(*right, base + 1 + l.states.len());
            let r = fragment(*right, base + 1 + l.states.len());
            assert forall|i: int| 0 <= i < f.states.len() implies ((#[trigger] f.states[i]).accept
                <==> i == f.exit - base) by {
                if 1 <= i < 1 + l.states.len() {
                    assert(f.states[i].accept ==> l.states[i - 1].accept);
                } else if 1 + l.states.len() <= i < 1 + l.states.len() + r.states.len() {
                    assert(f.states[i].accept ==> r.states[i - 1 - l.states.len()].accept);
                }
            }
        },
        Ast::ZeroOrMore(inner) => {
            lemma_only_exit_accepts(*inner, base + 2);
            let n = fragment(*inner, base + 2);
            assert forall|i: int| 0 <= i < f.states.len() implies ((#[trigger] f.states[i]).accept
                <==> i == f.exit - base) by {
                if 2 <= i {
                    assert(f.states[i].accept ==> n.states[i - 2].accept);
                }
            }
        },
        Ast::OneOrMore(inner) => {
            lemma_only_exit_accepts(*inner, base + 1);
            let n = fragment(*inner, base + 1);
            assert forall|i: int| 0 <= i < f.states.len() implies ((#[trigger] f.states[i]).accept
                <==> i == f.exit - base) by {
                if 1 <= i {
                    assert(f.states[i].accept <==> n.states[i - 1].accept || i - 1 == n.exit - (base
                        + 1));
                }
            }
        },
        Ast::ZeroOrOne(inner) => {
            lemma_only_exit_accepts(*inner, base + 1);
            let n = fragment(*inner, base + 1);
            assert forall|i: int| 0 <= i < f.states.len() implies ((#[trigger] f.states[i]).accept
                <==> i == f.exit - base) by {
                if 1 <= i {
                    assert(f.states[i] == n.states[i - 1]);
                }
            }
        },
        Ast::Concat(items) => {
            lemma_chain_self_contained(items, items.len(), base);
            lemma_chain_accepts_nowhere(items, items.len(), base);
            let c = chain(items, items.len(), base);
            assert forall|i: int| 0 <= i < f.states.len() implies ((#[trigger] f.states[i]).accept
                <==> i == f.exit - base) by {
                if i != c.exit - base {
                    assert(f.states[i] == c.states[i]);
                }
            }
        },
    }
}

/// No state of a chain accepts.
pub proof fn lemma_chain_accepts_nowhere(items: Seq<Ast>, k: nat, base: nat)
    ensures
        forall|i: int|
            0 <= i < chain(items, k, base).states.len() ==> !(#[trigger] chain(
                items,
                k,
                base,
            ).states[i]).accept,
    decreases items, k,
{
    let f = chain(items, k, base);
    if !(k == 0 || k > items.len()) {
        lemma_chain_accepts_nowhere(items, (k - 1) as nat, base);
        lemma_chain_self_contained(items, (k - 1) as nat, base);
        let prev = chain(items, (k - 1) as nat, base);
        lemma_only_exit_accepts(items[k - 1], base + prev.states.len());
        let next = fragment(items[k - 1], base + prev.states.len());
        assert forall|i: int| 0 <= i < f.states.len() implies !(#[trigger] f.states[i]).accept by {
            if i < prev.states.len() {
                assert(f.states[i].accept == prev.states[i].accept);
            } else {
                let j = i - prev.states.len();
                assert(f.states[i].accept ==> next.states[j].accept && j != next.exit - (base
                    + prev.states.len()));
            }
        }
    }
}

/// The automaton of a star accepts every input: its entry state reaches
/// its accepting exit without reading.
pub proof fn lemma_zero_or_more_accepts_all(inner: Ast, input: Seq<char>)
    ensures
        compiled(Ast::ZeroOrMore(Box::new(inner))).accepts(input),
{
    let ast = Ast::ZeroOrMore(Box::new(inner));
    let m = compiled(ast);
    let f = fragment(ast, 0);
    lemma_fragment_self_contained(inner, 2);
    assert(m.states[0] == f.states[0]);
    assert(m.states[1] == f.states[1]);
    assert(m.edge(0, Label::Epsilon, 1));
    lemma_eps_step(m, 0, 1);
    assert(m.accepting(1));
}

/// The automaton of an option accepts every input: its entry state reaches
/// the accepting exit of what it holds without reading.
pub proof fn lemma_zero_or_one_accepts_all(inner: Ast, input: Seq<char>)
    ensures
        compiled(Ast::ZeroOrOne(Box::new(inner))).accepts(input),
{
    let ast = Ast::ZeroOrOne(Box::new(inner));
    let m = compiled(ast);
    let f = fragment(ast, 0);
    let i = fragment(inner, 1);
    lemma_only_exit_accepts(inner, 1);
    assert(m.states[0] == f.states[0]);
    assert(f.states[i.exit as int] == i.states[i.exit - 1]);
    assert(m.states[i.exit] == f.states[i.exit as int]);
    assert(m.edge(0, Label::Epsilon, i.exit));
    lemma_eps_step(m, 0, i.exit);
    assert(m.accepting(i.exit));
}

impl NfaModel {
    /// State `s` has a transition to `d` that reads `c`.
    pub open spec fn reads_to(self, s: nat, c: char, d: nat) -> bool {
        self.edge(s, Label::Char(c), d) || self.edge(s, Label::Any, d)
    }

    /// The backtracking search as it is run one candidate at a time, cut
    /// off after `depth` nested calls.
    ///
    /// At the end of the input the search positioned at `s` reports a match
    /// when the epsilon closure of `s` holds an accepting state. Before the
    /// end, its candidates are the states of the closure and the states
    /// that a transition of `s` reaches by reading the next character. A
    /// candidate that accepts is a match. Otherwise the search goes on from
    /// the candidate: at the same place in the input where the candidate is
    /// in the closure, one character further where it is not.
    pub open spec fn search(self, s: nat, input: Seq<char>, i: nat, depth: nat) -> bool
        decreases depth,
    {
        if depth == 0 {
            false
        } else if i >= input.len() {
            self.closure_accepts(s)
        } else {
            exists|candidate: nat| #[trigger]
                self.is_candidate(s, input[i as int], candidate) && (self.accepting(candidate)
                    || self.search(
                    candidate,
                    input,
                    if self.eps_reachable(s, candidate) {
                        i
                    } else {
                        i + 1
                    },
                    (depth - 1) as nat,
                ))
        }
    }

    /// Whether the search positioned at `s` tries `candidate` on the
    /// character `c`.
    pub open spec fn is_candidate(self, s: nat, c: char, candidate: nat) -> bool {
        self.eps_reachable(s, candidate) || self.reads_to(s, c, candidate)
    }
}

/// Epsilon paths can be put together.
pub proof fn lemma_eps_transitive(m: NfaModel, a: nat, b: nat, c: nat)
    requires
        m.eps_reachable(a, b),
        m.eps_reachable(b, c),
    ensures
        m.eps_reachable(a, c),
{
    let n = choose|n: nat| n >= 1 && #[trigger] m.eps_path(a, b, n);
    lemma_eps_path_then(m, a, b, c, n);
}

proof fn lemma_eps_path_then(m: NfaModel, a: nat, b: nat, c: nat, n: nat)
    requires
        m.eps_path(a, b, n),
        m.eps_reachable(b, c),
    ensures
        m.eps_reachable(a, c),
    decreases n,
{
    if n > 0 {
        let mid = choose|mid: nat|
            #[trigger] m.edge(a, Label::Epsilon, mid) && m.eps_path(mid, b, (n - 1) as nat);
        lemma_eps_path_then(m, mid, b, c, (n - 1) as nat);
        lemma_eps_prepend(m, a, mid, c);
    }
}

/// Whatever the search finds within some depth, `accepts_from` holds of.
pub proof fn lemma_search_is_sound(m: NfaModel, s: nat, input: Seq<char>, i: nat, depth: nat)
    requires
        m.search(s, input, i, depth),
    ensures
        m.accepts_from(s, input, i),
    decreases depth,
{
    if i < input.len() {
        let c = input[i as int];
        let candidate = choose|candidate: nat| #[trigger]
            m.is_candidate(s, c, candidate) && (m.accepting(candidate) || m.search(
                candidate,
                input,
                if m.eps_reachable(s, candidate) {
                    i
                } else {
                    i + 1
                },
                (depth - 1) as nat,
            ));
        if m.eps_reachable(s, candidate) {
            if m.accepting(candidate) {
                assert(m.closure_accepts(s));
            } else {
                lemma_search_is_sound(m, candidate, input, i, (depth - 1) as nat);
                if m.closure_accepts(candidate) {
                    let b = choose|b: nat| #[trigger] m.eps_reachable(candidate, b) && m.accepting(b);
                    lemma_eps_transitive(m, s, candidate, b);
                    assert(m.closure_accepts(s));
                } else if m.step_matches(candidate, input, i) {
                } else {
                    let t = choose|t: nat| #[trigger]
                        m.eps_reachable(candidate, t) && m.step_matches(t, input, i);
                    lemma_eps_transitive(m, s, candidate, t);
                }
            }
        } else {
            assert(m.consumes(s, c, candidate));
            if !m.accepting(candidate) {
                lemma_search_is_sound(m, candidate, input, i + 1, (depth - 1) as nat);
            }
            assert(m.step_matches(s, input, i));
        }
    }
}

/// Whatever `accepts_from` holds of, the search finds within some depth.
pub proof fn lemma_search_is_complete(m: NfaModel, s: nat, input: Seq<char>, i: nat) -> (depth: nat)
    requires
        m.accepts_from(s, input, i),
    ensures
        m.search(s, input, i, depth),
    decreases input.len() - i, 1nat,
{
    if i >= input.len() {
        1
    } else if m.closure_accepts(s) {
        let b = choose|b: nat| #[trigger] m.eps_reachable(s, b) && m.accepting(b);
        assert(m.is_candidate(s, input[i as int], b));
        1
    } else if m.step_matches(s, input, i) {
        lemma_step_is_found(m, s, input, i)
    } else {
        let t = choose|t: nat| #[trigger] m.eps_reachable(s, t) && m.step_matches(t, input, i);
        let below = lemma_step_is_found(m, t, input, i);
        assert(m.is_candidate(s, input[i as int], t));
        below + 1
    }
}

proof fn lemma_step_is_found(m: NfaModel, t: nat, input: Seq<char>, i: nat) -> (depth: nat)
    requires
        m.step_matches(t, input, i),
    ensures
        m.search(t, input, i, depth),
    decreases input.len() - i, 0nat,
{
    let c = input[i as int];
    let d = choose|d: nat| #[trigger]
        m.consumes(t, c, d) && (m.accepting(d) || m.accepts_from(d, input, i + 1));
    assert(m.is_candidate(t, c, d));
    if m.accepting(d) {
        1
    } else {
        let below = lemma_search_is_complete(m, d, input, i + 1);
        below + 1
    }
}

/// `accepts_from` is the outcome of the backtracking search wherever that
/// search comes to an end: it holds exactly where some run of the search,
/// of whatever depth, reports a match.
pub proof fn lemma_accepts_is_search(m: NfaModel, s: nat, input: Seq<char>, i: nat)
    ensures
        m.accepts_from(s, input, i) <==> exists|depth: nat| m.search(s, input, i, depth),
{
    if m.accepts_from(s, input, i) {
        let depth = lemma_search_is_complete(m, s, input, i);
        assert(m.search(s, input, i, depth));
    }
    if exists|depth: nat| m.search(s, input, i, depth) {
        let depth = choose|depth: nat| m.search(s, input, i, depth);
        lemma_search_is_sound(m, s, input, i, depth);
    }
}

/// The automaton of the empty sequence accepts every input: its entry
/// state is its exit, and accepts before anything is read.
pub proof fn lemma_empty_sequence_accepts_all(input: Seq<char>)
    ensures
        compiled(Ast::Concat(Seq::empty())).accepts(input),
{
    let ast = Ast::Concat(Seq::<Ast>::empty());
    let m = compiled(ast);
    let f = fragment(ast, 0);
    let c = chain(Seq::<Ast>::empty(), 0, 0);
    assert(c.states.len() == 1 && c.exit == 0);
    assert(f.states.len() == 1);
    assert(m.states[0] == f.states[0]);
    assert(m.accepting(0));
}

/// An automaton whose entry state accepts, accepts every input.
pub proof fn lemma_accepting_entry_accepts_all(m: NfaModel, input: Seq<char>)
    requires
        m.accepting(m.start),
    ensures
        m.accepts(input),
{
}

/// A group compiles to the automaton of what it holds.
pub proof fn lemma_group_is_transparent(inner: Ast)
    ensures
        compiled(Ast::Group(Box::new(inner))) == compiled(inner),
{
}

/// The only accepting state of a compiled automaton is the exit state of
/// its fragment.
pub proof fn lemma_compiled_accepts_at_exit(ast: Ast)
    ensures
        forall|k: nat| compiled(ast).accepting(k) <==> k == fragment(ast, 0).exit,
{
    lemma_only_exit_accepts(ast, 0);
    let f = fragment(ast, 0);
    assert forall|k: nat| compiled(ast).accepting(k) <==> k == f.exit by {
        if k < f.states.len() {
            assert(compiled(ast).states[k] == f.states[k as int]);
        }
    }
}

/// Where all epsilon transitions of `a` lead into `targets`, and no state
/// of `targets` has an epsilon transition, the epsilon closure of `a` is
/// `targets`.
pub proof fn lemma_closure_of_one_hop(m: NfaModel, a: nat, targets: Set<nat>)
    requires
        forall|y: nat| m.edge(a, Label::Epsilon, y) <==> targets.contains(y),
        forall|y: nat, z: nat| targets.contains(y) ==> !m.edge(y, Label::Epsilon, z),
    ensures
        forall|t: nat| #[trigger] m.eps_reachable(a, t) ==> targets.contains(t),
        forall|t: nat| #[trigger] targets.contains(t) ==> m.eps_reachable(a, t),
{
    assert forall|t: nat| m.eps_reachable(a, t) <==> targets.contains(t) by {
        if targets.contains(t) {
            lemma_eps_step(m, a, t);
        }
        if m.eps_reachable(a, t) {
            let n = choose|n: nat| n >= 1 && #[trigger] m.eps_path(a, t, n);
            let mid = choose|mid: nat|
                #[trigger] m.edge(a, Label::Epsilon, mid) && m.eps_path(mid, t, (n - 1) as nat);
            if n >= 2 {
                let far = choose|far: nat|
                    #[trigger] m.edge(mid, Label::Epsilon, far) && m.eps_path(
                        far,
                        t,
                        (n - 2) as nat,
                    );
                assert(false);
            }
        }
    }
}

/// What reading `x` from a state leads to, where the state's only
/// transition is one on the character `c` to `d`.
proof fn lemma_single_reading_edge(m: NfaModel, t: nat, c: char, d: nat, x: char, e: nat)
    requires
        m.has_state(t),
        m.states[t].edges == Set::<(Label, nat)>::empty().insert((Label::Char(c), d)),
    ensures
        m.reads_to(t, x, e) <==> x == c && e == d,
{
}

/// What reading leads to from a state that has epsilon transitions only.
proof fn lemma_no_reading_edge(m: NfaModel, t: nat, x: char, e: nat)
    requires
        m.has_state(t),
        forall|l: Label, d: nat| #[trigger] m.states[t].edges.contains((l, d)) ==> l == Label::Epsilon,
    ensures
        !m.reads_to(t, x, e),
{
}

/// The automaton of a literal repeated once or more accepts exactly the
/// inputs that start with the literal's character.
pub proof fn lemma_one_or_more_literal_accepts(c: char, input: Seq<char>)
    ensures
        compiled(Ast::OneOrMore(Box::new(Ast::Literal(c)))).accepts(input) <==> input.len() > 0
            && input[0] == c,
{
    let ast = Ast::OneOrMore(Box::new(Ast::Literal(c)));
    let m = compiled(ast);
    let f = fragment(ast, 0);
    let eps = Label::Epsilon;
    let none = Set::<(Label, nat)>::empty();
    reveal_with_fuel(fragment, 2);
    assert(f.states.len() == 3);
    assert(m.states[0] == f.states[0] && m.states[1] == f.states[1] && m.states[2] == f.states[2]);
    assert(m.states[0].edges == none.insert((eps, 1)));
    assert(m.states[1].edges == none.insert((Label::Char(c), 2)));
    assert(m.states[2].edges == none.insert((eps, 1)));
    assert(!m.states[0].accept && !m.states[1].accept && m.states[2].accept);
    assert forall|b: nat| !m.edge(1, eps, b) by {}
    lemma_no_epsilon_edge_no_closure(m, 1);
    lemma_closure_of_one_hop(m, 0, set![1nat]);
    assert(set![1nat].contains(1));
    assert(!m.closure_accepts(0));
    if input.len() > 0 {
        let x = input[0];
        assert forall|d: nat| !m.consumes(0, x, d) by {
            lemma_no_reading_edge(m, 0, x, d);
        }
        assert(!m.step_matches(0, input, 0));
        assert forall|d: nat| m.consumes(1, x, d) <==> x == c && d == 2 by {
            lemma_single_reading_edge(m, 1, c, 2, x, d);
        }
        if x == c {
            assert(m.eps_reachable(0, 1));
            assert(m.consumes(1, x, 2));
            assert(m.step_matches(1, input, 0));
        } else {
            assert(!m.step_matches(1, input, 0));
        }
    }
}

/// The automaton of two literals in sequence accepts exactly the inputs
/// that start with the two characters in that order.
pub proof fn lemma_concat_literals_accepts(a: char, b: char, input: Seq<char>)
    ensures
        compiled(Ast::Concat(seq![Ast::Literal(a), Ast::Literal(b)])).accepts(input)
            <==> input.len() >= 2 && input[0] == a && input[1] == b,
{
    let items = seq![Ast::Literal(a), Ast::Literal(b)];
    let ast = Ast::Concat(items);
    let m = compiled(ast);
    let f = fragment(ast, 0);
    let eps = Label::Epsilon;
    let none = Set::<(Label, nat)>::empty();
    reveal_with_fuel(chain, 3);
    let c0 = chain(items, 0, 0);
    let c1 = chain(items, 1, 0);
    let c2 = chain(items, 2, 0);
    assert(items[0] == Ast::Literal(a) && items[1] == Ast::Literal(b));
    assert(c0.states.len() == 1);
    assert(c1.states.len() == 3 && c1.exit == 2);
    assert(c2.states.len() == 5 && c2.exit == 4);
    assert(f.states.len() == 5);
    assert(m.states[0] == f.states[0] && m.states[1] == f.states[1] && m.states[2] == f.states[2]
        && m.states[3] == f.states[3] && m.states[4] == f.states[4]);
    assert(m.states[0].edges == none.insert((eps, 1)));
    assert(m.states[1].edges == none.insert((Label::Char(a), 2)));
    assert(m.states[2].edges == none.insert((eps, 3)));
    assert(m.states[3].edges == none.insert((Label::Char(b), 4)));
    assert(m.states[4].edges == none);
    assert(!m.states[0].accept && !m.states[1].accept && !m.states[2].accept
        && !m.states[3].accept && m.states[4].accept);
    assert forall|y: nat| !m.edge(1, eps, y) by {}
    assert forall|y: nat| !m.edge(3, eps, y) by {}
    assert forall|y: nat| !m.edge(4, eps, y) by {}
    lemma_no_epsilon_edge_no_closure(m, 1);
    lemma_no_epsilon_edge_no_closure(m, 3);
    lemma_no_epsilon_edge_no_closure(m, 4);
    lemma_closure_of_one_hop(m, 0, set![1nat]);
    lemma_closure_of_one_hop(m, 2, set![3nat]);
    assert(set![1nat].contains(1) && set![3nat].contains(3));
    assert(!m.closure_accepts(0));
    assert(!m.closure_accepts(2));
    if input.len() > 0 {
        let x = input[0];
        assert forall|d: nat| !m.consumes(0, x, d) by {
            lemma_no_reading_edge(m, 0, x, d);
        }
        assert forall|d: nat| m.consumes(1, x, d) <==> x == a && d == 2 by {
            lemma_single_reading_edge(m, 1, a, 2, x, d);
        }
        assert(!m.step_matches(0, input, 0));
        // What the search from state 2 comes to, with one character read.
        let rest: bool = input.len() >= 2 && input[1] == b;
        if input.len() >= 2 {
            let y = input[1];
            assert forall|d: nat| !m.consumes(2, y, d) by {
                lemma_no_reading_edge(m, 2, y, d);
            }
            assert forall|d: nat| m.consumes(3, y, d) <==> y == b && d == 4 by {
                lemma_single_reading_edge(m, 3, b, 4, y, d);
            }
            assert(!m.step_matches(2, input, 1));
            if y == b {
                assert(m.eps_reachable(2, 3));
                assert(m.consumes(3, y, 4));
                assert(m.accepting(4));
                assert(m.step_matches(3, input, 1));
            } else {
                assert(!m.step_matches(3, input, 1));
            }
        }
        assert(m.accepts_from(2, input, 1) == rest);
        if x == a {
            assert(m.eps_reachable(0, 1));
            if rest {
                assert(m.consumes(1, x, 2));
                assert(m.step_matches(1, input, 0));
            } else {
                assert(!m.step_matches(1, input, 0));
            }
        } else {
            assert(!m.step_matches(1, input, 0));
        }
    }
}

/// The automaton of two literals as alternatives accepts exactly the
/// inputs that start with one of the two characters.
pub proof fn lemma_union_literals_accepts(a: char, b: char, input: Seq<char>)
    ensures
        compiled(Ast::Union(Box::new(Ast::Literal(a)), Box::new(Ast::Literal(b)))).accepts(input)
            <==> input.len() > 0 && (input[0] == a || input[0] == b),
{
    let ast = Ast::Union(Box::new(Ast::Literal(a)), Box::new(Ast::Literal(b)));
    let m = compiled(ast);
    let f = fragment(ast, 0);
    let eps = Label::Epsilon;
    let none = Set::<(Label, nat)>::empty();
    reveal_with_fuel(fragment, 2);
    assert(f.states.len() == 6);
    assert(m.states[0] == f.states[0] && m.states[1] == f.states[1] && m.states[2] == f.states[2]
        && m.states[3] == f.states[3] && m.states[4] == f.states[4] && m.states[5]
        == f.states[5]);
    assert(m.states[0].edges == none.insert((eps, 1)).insert((eps, 3)));
    assert(m.states[1].edges == none.insert((Label::Char(a), 2)));
    assert(m.states[2].edges == none.insert((eps, 5)));
    assert(m.states[3].edges == none.insert((Label::Char(b), 4)));
    assert(m.states[4].edges == none.insert((eps, 5)));
    assert(m.states[5].edges == none);
    assert(!m.states[0].accept && !m.states[1].accept && !m.states[2].accept
        && !m.states[3].accept && !m.states[4].accept && m.states[5].accept);
    assert forall|y: nat| !m.edge(1, eps, y) by {}
    assert forall|y: nat| !m.edge(3, eps, y) by {}
    assert forall|y: nat| !m.edge(5, eps, y) by {}
    lemma_no_epsilon_edge_no_closure(m, 1);
    lemma_no_epsilon_edge_no_closure(m, 3);
    lemma_closure_of_one_hop(m, 0, set![1nat, 3nat]);
    lemma_closure_of_one_hop(m, 2, set![5nat]);
    lemma_closure_of_one_hop(m, 4, set![5nat]);
    assert(set![1nat, 3nat].contains(1) && set![1nat, 3nat].contains(3) && set![5nat].contains(5));
    assert(!m.closure_accepts(0));
    assert(m.eps_reachable(2, 5) && m.accepting(5));
    assert(m.eps_reachable(4, 5));
    assert(m.closure_accepts(2));
    assert(m.closure_accepts(4));
    if input.len() > 0 {
        let x = input[0];
        assert forall|d: nat| !m.consumes(0, x, d) by {
            lemma_no_reading_edge(m, 0, x, d);
        }
        assert forall|d: nat| m.consumes(1, x, d) <==> x == a && d == 2 by {
            lemma_single_reading_edge(m, 1, a, 2, x, d);
        }
        assert forall|d: nat| m.consumes(3, x, d) <==> x == b && d == 4 by {
            lemma_single_reading_edge(m, 3, b, 4, x, d);
        }
        assert(!m.step_matches(0, input, 0));
        assert(m.accepts_from(2, input, 1));
        assert(m.accepts_from(4, input, 1));
        if x == a {
            assert(m.eps_reachable(0, 1));
            assert(m.consumes(1, x, 2));
            assert(m.step_matches(1, input, 0));
        } else {
            assert(!m.step_matches(1, input, 0));
        }
        if x == b {
            assert(m.eps_reachable(0, 3));
            assert(m.consumes(3, x, 4));
            assert(m.step_matches(3, input, 0));
        } else {
            assert(!m.step_matches(3, input, 0));
        }
    }
}

} // verus!
