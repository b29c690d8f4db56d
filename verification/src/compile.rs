//! Compiling a syntax tree into an automaton by Thompson's construction:
//! every node becomes a fragment with one entry and one exit state, and the
//! fragments of its children are wired together by epsilon transitions.
use crate::nfa::{build_states, table_of, Label, NfaModel, State, StateModel, NFA};
use crate::parser::{Ast, Node};
use vstd::prelude::*;

verus! {

/// A piece of an automaton under construction: consecutive states, the
/// first of which has the identifier that the fragment was built at, with
/// one entry and one exit state.
pub struct Fragment {
    pub states: Seq<StateModel>,
    pub entry: nat,
    pub exit: nat,
}

/// A fragment of two states: from the first, which is the entry, the given
/// transitions lead to the second, which is the exit and accepts.
pub open spec fn leaf(base: nat, edges: Set<(Label, nat)>) -> Fragment {
    Fragment {
        states: Seq::empty().push(StateModel { id: base, accept: false, edges }).push(
            StateModel::plain(base + 1, true),
        ),
        entry: base,
        exit: base + 1,
    }
}

/// One transition to `target` on each character of `chars`.
pub open spec fn class_edges(chars: Seq<char>, target: nat) -> Set<(Label, nat)> {
    Set::new(
        |e: (Label, nat)| e.1 == target && (e.0 matches Label::Char(c) && chars.contains(c)),
    )
}

/// The fragment for `ast`, built at identifier `base`.
///
/// - A literal, the wildcard and a character class are leaves: the entry
///   has a transition to the exit on the character, on anything, or on
///   each character of the class.
/// - A group is the fragment of what it holds.
/// - An alternation has a fresh entry with epsilon transitions to the
///   entries of both branches, which follow it, and a fresh accepting exit
///   behind them; each branch's exit stops accepting and gets an epsilon
///   transition to the fresh exit.
/// - A star has a fresh entry and, next to it, a fresh accepting exit; the
///   entry has epsilon transitions to the inner entry and to the exit; the
///   inner exit stops accepting and gets epsilon transitions to the exit
///   and back to the inner entry.
/// - A plus has a fresh entry with an epsilon transition to the inner
///   entry; the inner exit stays the accepting exit and gets an epsilon
///   transition back to the inner entry.
/// - An option has a fresh entry with epsilon transitions to the inner
///   entry and to the inner exit, which stays the accepting exit.
/// - A sequence is the chain of all its items, whose exit accepts.
pub open spec fn fragment(ast: Ast, base: nat) -> Fragment
    decreases ast, 0nat,
{
    match ast {
        Ast::Literal(c) => leaf(base, Set::empty().insert((Label::Char(c), base + 1))),
        Ast::AnyChar => leaf(base, Set::empty().insert((Label::Any, base + 1))),
        Ast::CharClass(chars) => leaf(base, class_edges(chars, base + 1)),
        Ast::Group(inner) => fragment(*inner, base),
        Ast::Union(left, right) => {
            let l = fragment(*left, base + 1);
            let r = fragment(*right, base + 1 + l.states.len());
            let end = base + 1 + l.states.len() + r.states.len();
            let entry = StateModel::plain(base, false).with_edge(Label::Epsilon, l.entry).with_edge(
                Label::Epsilon,
                r.entry,
            );
            let l_exit = l.exit - (base + 1);
            let r_exit = r.exit - (base + 1 + l.states.len());
            Fragment {
                states: Seq::empty().push(entry) + l.states.update(
                    l_exit,
                    l.states[l_exit].with_accept(false).with_edge(Label::Epsilon, end),
                ) + r.states.update(
                    r_exit,
                    r.states[r_exit].with_accept(false).with_edge(Label::Epsilon, end),
                ) + Seq::empty().push(StateModel::plain(end, true)),
                entry: base,
                exit: end,
            }
        },
        Ast::ZeroOrMore(inner) => {
            let end = base + 1;
            let i = fragment(*inner, base + 2);
            let entry = StateModel::plain(base, false).with_edge(Label::Epsilon, i.entry).with_edge(
                Label::Epsilon,
                end,
            );
            let i_exit = i.exit - (base + 2);
            Fragment {
                states: Seq::empty().push(entry).push(StateModel::plain(end, true))
                    + i.states.update(
                    i_exit,
                    i.states[i_exit].with_edge(Label::Epsilon, end).with_edge(
                        Label::Epsilon,
                        i.entry,
                    ).with_accept(false),
                ),
                entry: base,
                exit: end,
            }
        },
        Ast::OneOrMore(inner) => {
            let i = fragment(*inner, base + 1);
            let entry = StateModel::plain(base, false).with_edge(Label::Epsilon, i.entry);
            let i_exit = i.exit - (base + 1);
            Fragment {
                states: Seq::empty().push(entry) + i.states.update(
                    i_exit,
                    i.states[i_exit].with_accept(true).with_edge(Label::Epsilon, i.entry),
                ),
                entry: base,
                exit: i.exit,
            }
        },
        Ast::ZeroOrOne(inner) => {
            let i = fragment(*inner, base + 1);
            let entry = StateModel::plain(base, false).with_edge(Label::Epsilon, i.entry).with_edge(
                Label::Epsilon,
                i.exit,
            );
            Fragment { states: Seq::empty().push(entry) + i.states, entry: base, exit: i.exit }
        },
        Ast::Concat(items) => {
            let c = chain(items, items.len(), base);
            let c_exit = c.exit - base;
            Fragment {
                states: c.states.update(c_exit, c.states[c_exit].with_accept(true)),
                entry: base,
                exit: c.exit,
            }
        },
    }
}

/// A fresh entry at `base`, followed by the fragments of the first `k`
/// items: the entry has an epsilon transition to the first fragment's
/// entry, each fragment's exit has one to the next fragment's entry, and no
/// exit accepts. The exit is that of the last fragment; with no items it is
/// the entry itself.
pub open spec fn chain(items: Seq<Ast>, k: nat, base: nat) -> Fragment
    decreases items, k,
{
    if k == 0 || k > items.len() {
        Fragment {
            states: Seq::empty().push(StateModel::plain(base, false)),
            entry: base,
            exit: base,
        }
    } else {
        let prev = chain(items, (k - 1) as nat, base);
        let next = fragment(items[k - 1], base + prev.states.len());
        let p_exit = prev.exit - base;
        let n_exit = next.exit - (base + prev.states.len());
        Fragment {
            states: prev.states.update(
                p_exit,
                prev.states[p_exit].with_edge(Label::Epsilon, next.entry),
            ) + next.states.update(n_exit, next.states[n_exit].with_accept(false)),
            entry: base,
            exit: next.exit,
        }
    }
}

/// The automaton for `ast`: its fragment built at identifier zero.
pub open spec fn compiled(ast: Ast) -> NfaModel {
    let f = fragment(ast, 0);
    NfaModel {
        start: f.entry,
        states: Map::new(|k: nat| k < f.states.len(), |k: nat| f.states[k as int]),
    }
}

/// The states of `f` are numbered consecutively from `base`, the entry is
/// the first of them, the exit is one of them, and every transition leads
/// to one of them.
pub open spec fn self_contained(f: Fragment, base: nat) -> bool {
    &&& f.entry == base
    &&& base <= f.exit < base + f.states.len()
    &&& forall|i: int| 0 <= i < f.states.len() ==> (#[trigger] f.states[i]).id == base + i
    &&& forall|i: int, l: Label, t: nat|
        0 <= i < f.states.len() && #[trigger] f.states[i].edges.contains((l, t)) ==> base <= t
            < base + f.states.len()
}

/// Every fragment is self-contained.
pub proof fn lemma_fragment_self_contained(ast: Ast, base: nat)
    ensures
        self_contained(fragment(ast, base), base),
    decreases ast, 0nat,
{
    let f = fragment(ast, base);
    match ast {
        Ast::Literal(c) => {},
        Ast::AnyChar => {},
        Ast::CharClass(chars) => {},
        Ast::Group(inner) => {
            lemma_fragment_self_contained(*inner, base);
        },
        Ast::Union(left, right) => {
            lemma_fragment_self_contained(*left, base + 1);
            let l = fragment(*left, base + 1);
            lemma_fragment_self_contained(*right, base + 1 + l.states.len());
            let r = fragment(*right, base + 1 + l.states.len());
            assert forall|i: int, lab: Label, t: nat|
                0 <= i < f.states.len() && #[trigger] f.states[i].edges.contains(
                    (lab, t),
                ) implies base <= t < base + f.states.len() by {
                if 1 <= i < 1 + l.states.len() {
                    assert(l.states[i - 1].edges.contains((lab, t)) || t == f.exit);
                } else if 1 + l.states.len() <= i < 1 + l.states.len() + r.states.len() {
                    assert(r.states[i - 1 - l.states.len()].edges.contains((lab, t)) || t
                        == f.exit);
                }
            }
        },
        Ast::ZeroOrMore(inner) => {
            lemma_fragment_self_contained(*inner, base + 2);
            let n = fragment(*inner, base + 2);
            assert forall|i: int, lab: Label, t: nat|
                0 <= i < f.states.len() && #[trigger] f.states[i].edges.contains(
                    (lab, t),
                ) implies base <= t < base + f.states.len() by {
                if 2 <= i {
                    assert(n.states[i - 2].edges.contains((lab, t)) || t == f.exit || t
                        == n.entry);
                }
            }
        },
        Ast::OneOrMore(inner) => {
            lemma_fragment_self_contained(*inner, base + 1);
            let n = fragment(*inner, base + 1);
            assert forall|i: int, lab: Label, t: nat|
                0 <= i < f.states.len() && #[trigger] f.states[i].edges.contains(
                    (lab, t),
                ) implies base <= t < base + f.states.len() by {
                if 1 <= i {
                    assert(n.states[i - 1].edges.contains((lab, t)) || t == n.entry);
                }
            }
        },
        Ast::ZeroOrOne(inner) => {
            lemma_fragment_self_contained(*inner, base + 1);
            let n = fragment(*inner, base + 1);
            assert forall|i: int, lab: Label, t: nat|
                0 <= i < f.states.len() && #[trigger] f.states[i].edges.contains(
                    (lab, t),
                ) implies base <= t < base + f.states.len() by {
                if 1 <= i {
                    assert(n.states[i - 1].edges.contains((lab, t)));
                }
            }
        },
        Ast::Concat(items) => {
            lemma_chain_self_contained(items, items.len(), base);
            let c = chain(items, items.len(), base);
            assert forall|i: int, lab: Label, t: nat|
                0 <= i < f.states.len() && #[trigger] f.states[i].edges.contains(
                    (lab, t),
                ) implies base <= t < base + f.states.len() by {
                assert(c.states[i].edges.contains((lab, t)));
            }
        },
    }
}

/// Every chain is self-contained.
pub proof fn lemma_chain_self_contained(items: Seq<Ast>, k: nat, base: nat)
    ensures
        self_contained(chain(items, k, base), base),
    decreases items, k,
{
    let f = chain(items, k, base);
    if !(k == 0 || k > items.len()) {
        lemma_chain_self_contained(items, (k - 1) as nat, base);
        let prev = chain(items, (k - 1) as nat, base);
        lemma_fragment_self_contained(items[k - 1], base + prev.states.len());
        let next = fragment(items[k - 1], base + prev.states.len());
        assert forall|i: int, lab: Label, t: nat|
            0 <= i < f.states.len() && #[trigger] f.states[i].edges.contains(
                (lab, t),
            ) implies base <= t < base + f.states.len() by {
            if i < prev.states.len() {
                assert(prev.states[i].edges.contains((lab, t)) || t == next.entry);
            } else {
                assert(next.states[i - prev.states.len()].edges.contains((lab, t)));
            }
        }
    }
}

/// The number of states of the automaton for `ast`.
pub open spec fn state_count(ast: Ast) -> nat {
    fragment(ast, 0).states.len()
}

/// The states of a compiled automaton are numbered consecutively from
/// zero, each is kept under its own identifier, the entry state is state
/// zero, and the automaton is well formed.
pub proof fn lemma_compiled_ids_contiguous(ast: Ast)
    ensures
        compiled(ast).start == 0,
        state_count(ast) >= 1,
        forall|k: nat| compiled(ast).has_state(k) <==> k < state_count(ast),
        forall|k: nat| k < state_count(ast) ==> (#[trigger] compiled(ast).states[k]).id == k,
        compiled(ast).well_formed(),
{
    lemma_fragment_self_contained(ast, 0);
    let f = fragment(ast, 0);
    let m = compiled(ast);
    assert forall|k: nat| #[trigger] m.has_state(k) implies m.states[k].id == k by {
        assert(f.states[k as int].id == k);
    }
    assert forall|k: nat, l: Label, t: nat| #[trigger] m.edge(k, l, t) implies m.has_state(t) by {
        assert(f.states[k as int].edges.contains((l, t)));
    }
}

/// Why a syntax tree could not be compiled.
#[derive(Clone, Copy, Debug, PartialEq, Eq, Structural)]
pub enum CompileError {
    /// The tree holds a construct that the compiler has no rule for. Every
    /// construct of `Node` has a rule, so `build_nfa` never gives this.
    UnsupportedConstruct,
}

/// Hands out consecutive identifiers, starting at zero.
#[derive(Debug)]
pub struct IDGenerator {
    index: usize,
}

impl IDGenerator {
    /// The identifier that the next call of `next` returns.
    pub closed spec fn upcoming(&self) -> nat {
        self.index as nat
    }

    /// A generator whose first identifier is zero.
    pub fn new() -> (r: Self)
        ensures
            r.upcoming() == 0,
    {
        Self { index: 0 }
    }

    /// The next identifier.
    pub fn next(&mut self) -> (id: usize)
        requires
            old(self).upcoming() < usize::MAX,
        ensures
            id == old(self).upcoming(),
            final(self).upcoming() == old(self).upcoming() + 1,
    {
        let result: usize = self.index;
        self.index += 1;
        result
    }
}

/// The states made so far in one compilation, each at the position of its
/// identifier, and the generator that numbers them.
struct Builder {
    id_generator: IDGenerator,
    states: Vec<State>,
}

impl Builder {
    /// The models of the states made so far.
    spec fn model(&self) -> Seq<StateModel> {
        Seq::new(self.states@.len(), |i: int| self.states@[i]@)
    }

    /// The next identifier is the number of states, and every state has the
    /// identifier of its position and lists no transition twice.
    spec fn well_formed(&self) -> bool {
        &&& self.id_generator.upcoming() == self.states@.len()
        &&& forall|i: int|
            0 <= i < self.states@.len() ==> (#[trigger] self.states@[i]).spec_id() == i
                && self.states@[i].well_formed()
    }

    fn new() -> (b: Self)
        ensures
            b.well_formed(),
            b.model() == Seq::<StateModel>::empty(),
    {
        let b = Self { id_generator: IDGenerator::new(), states: Vec::new() };
        assert(b.model() =~= Seq::<StateModel>::empty());
        b
    }

    /// Adds a transition on `label` from state `from` to state `to`.
    fn add_transition(&mut self, from: usize, label: Label, to: usize)
        requires
            old(self).well_formed(),
            from < old(self).model().len(),
        ensures
            final(self).well_formed(),
            final(self).model() == old(self).model().update(
                from as int,
                old(self).model()[from as int].with_edge(label, to as nat),
            ),
    {
        self.states[from].add_transition(label, to);
        assert(self.model() =~= old(self).model().update(
            from as int,
            old(self).model()[from as int].with_edge(label, to as nat),
        ));
    }

    /// Makes state `id` accept or not.
    fn set_accept(&mut self, id: usize, is_accept: bool)
        requires
            old(self).well_formed(),
            id < old(self).model().len(),
        ensures
            final(self).well_formed(),
            final(self).model() == old(self).model().update(
                id as int,
                old(self).model()[id as int].with_accept(is_accept),
            ),
    {
        self.states[id].set_accept(is_accept);
        assert(self.model() =~= old(self).model().update(
            id as int,
            old(self).model()[id as int].with_accept(is_accept),
        ));
    }
}

/// Makes a state without transitions and returns its identifier, the next
/// one of the generator.
fn generate_state(builder: &mut Builder, is_accept: bool) -> (id: usize)
    requires
        old(builder).well_formed(),
    ensures
        final(builder).well_formed(),
        id == old(builder).model().len(),
        final(builder).model() == old(builder).model().push(
            StateModel::plain(id as nat, is_accept),
        ),
{
    let position: usize = builder.states.len();
    builder.states.push(State::new(position, Vec::new(), is_accept));
    // The state is in the vector, so `position + 1` is a length: the
    // generator does not overflow.
    let count: usize = builder.states.len();
    let id = builder.id_generator.next();
    assert(builder.model() =~= old(builder).model().push(StateModel::plain(id as nat, is_accept)));
    id
}

/// Compiles `node` into states behind those made so far, and returns the
/// identifiers of the fragment's entry and exit.
fn _build_nfa(node: &Node, builder: &mut Builder) -> (r: (usize, usize))
    requires
        old(builder).well_formed(),
    ensures
        final(builder).well_formed(),
        final(builder).model() == old(builder).model() + fragment(
            node@,
            old(builder).model().len(),
        ).states,
        r.0 == fragment(node@, old(builder).model().len()).entry,
        r.1 == fragment(node@, old(builder).model().len()).exit,
        r.0 == old(builder).model().len(),
        old(builder).model().len() <= r.1 < final(builder).model().len(),
    decreases node, 1nat,
{
    match node {
        Node::Group(inner) => _build_nfa(inner, builder),
        Node::Literal(c) => {
            let start = generate_state(builder, false);
            let end_id = build_literal(builder, start, *c);
            (start, end_id)
        },
        Node::AnyChar => {
            let start = generate_state(builder, false);
            let end_id = build_any_char(builder, start);
            (start, end_id)
        },
        Node::CharClass(chars) => {
            let start = generate_state(builder, false);
            let end_id = build_char_class(builder, start, chars);
            (start, end_id)
        },
        Node::Union(left, right) => {
            let start = generate_state(builder, false);
            let end_id = build_or(builder, start, left, right, Ghost(*node));
            (start, end_id)
        },
        Node::Concat(nodes) => {
            let start = generate_state(builder, false);
            let end_id = build_concat(builder, start, nodes, Ghost(*node));
            (start, end_id)
        },
        Node::ZeroOrMore(inner) => {
            let start = generate_state(builder, false);
            let end_id = build_zero_or_more(builder, start, inner, Ghost(*node));
            (start, end_id)
        },
        Node::OneOrMore(inner) => {
            let start = generate_state(builder, false);
            let end_id = build_one_or_more(builder, start, inner, Ghost(*node));
            (start, end_id)
        },
        Node::ZeroOrOne(inner) => {
            let start = generate_state(builder, false);
            let end_id = build_zero_or_one(builder, start, inner, Ghost(*node));
            (start, end_id)
        },
    }
}

/// What the builders of the single constructs are handed: the entry state
/// `start` was made last and has no transitions yet.
spec fn fresh_entry(builder: &Builder, start: usize) -> bool {
    &&& builder.well_formed()
    &&& builder.model().len() == start + 1
    &&& builder.model()[start as int] == StateModel::plain(start as nat, false)
}

/// Completes the leaf whose entry is `start`: a fresh accepting exit, and
/// a transition on `label` to it.
fn build_leaf(builder: &mut Builder, start: usize, label: Label) -> (end_id: usize)
    requires
        fresh_entry(old(builder), start),
    ensures
        final(builder).well_formed(),
        final(builder).model() == old(builder).model().drop_last() + leaf(
            start as nat,
            Set::empty().insert((label, (start + 1) as nat)),
        ).states,
        end_id == start + 1,
        end_id < final(builder).model().len(),
{
    let q0_id = generate_state(builder, true);
    builder.add_transition(start, label, q0_id);
    assert(builder.model() =~= old(builder).model().drop_last() + leaf(
        start as nat,
        Set::empty().insert((label, (start + 1) as nat)),
    ).states);
    q0_id
}

/// Completes the literal whose entry is `start`.
fn build_literal(builder: &mut Builder, start: usize, c: char) -> (end_id: usize)
    requires
        fresh_entry(old(builder), start),
    ensures
        final(builder).well_formed(),
        final(builder).model() == old(builder).model().drop_last() + fragment(
            Ast::Literal(c),
            start as nat,
        ).states,
        end_id == start + 1,
        end_id < final(builder).model().len(),
{
    build_leaf(builder, start, Label::Char(c))
}

/// Completes the wildcard whose entry is `start`.
fn build_any_char(builder: &mut Builder, start: usize) -> (end_id: usize)
    requires
        fresh_entry(old(builder), start),
    ensures
        final(builder).well_formed(),
        final(builder).model() == old(builder).model().drop_last() + fragment(
            Ast::AnyChar,
            start as nat,
        ).states,
        end_id == start + 1,
        end_id < final(builder).model().len(),
{
    build_leaf(builder, start, Label::Any)
}

/// The transitions for one character more are those for the characters
/// before it and the one on that character.
proof fn lemma_class_edges_grow(chars: Seq<char>, k: int, c: char, target: nat)
    requires
        0 <= k < chars.len(),
        chars[k] == c,
    ensures
        class_edges(chars.take(k), target).insert((Label::Char(c), target)) == class_edges(
            chars.take(k + 1),
            target,
        ),
{
    let done = chars.take(k);
    let more = chars.take(k + 1);
    let grown = class_edges(done, target).insert((Label::Char(c), target));
    assert forall|e: (Label, nat)| grown.contains(e) implies class_edges(more, target).contains(
        e,
    ) by {
        if e == (Label::Char(c), target) {
            assert(more[k] == c);
            assert(more.contains(c));
        } else {
            assert(class_edges(done, target).contains(e));
            let d = e.0->Char_0;
            assert(done.contains(d));
            let i = choose|i: int| 0 <= i < done.len() && done[i] == d;
            assert(more[i] == d);
            assert(more.contains(d));
        }
    }
    assert forall|e: (Label, nat)| class_edges(more, target).contains(e) implies grown.contains(
        e,
    ) by {
        let d = e.0->Char_0;
        assert(more.contains(d));
        let i = choose|i: int| 0 <= i < more.len() && more[i] == d;
        if i < k {
            assert(done[i] == d);
            assert(done.contains(d));
            assert(class_edges(done, target).contains(e));
        } else {
            assert(d == c);
            assert(e == (Label::Char(c), target));
        }
    }
    assert(grown =~= class_edges(more, target));
}

/// Completes the character class whose entry is `start`: a fresh accepting
/// exit, and a transition to it on each character of the class.
fn build_char_class(builder: &mut Builder, start: usize, chars: &Vec<char>) -> (end_id:
    usize)
    requires
        fresh_entry(old(builder), start),
    ensures
        final(builder).well_formed(),
        final(builder).model() == old(builder).model().drop_last() + leaf(
            start as nat,
            class_edges(chars@, (start + 1) as nat),
        ).states,
        end_id == start + 1,
        end_id < final(builder).model().len(),
{
    let end_id = generate_state(builder, true);
    let ghost before = old(builder).model().drop_last();
    let mut k: usize = 0;
    proof {
        assert(class_edges(chars@.take(0), end_id as nat) =~= Set::empty());
        assert(builder.model() =~= before + leaf(
            start as nat,
            class_edges(chars@.take(0), end_id as nat),
        ).states);
    }
    while k < chars.len()
        invariant
            k <= chars@.len(),
            end_id == start + 1,
            builder.well_formed(),
            builder.model() == before + leaf(
                start as nat,
                class_edges(chars@.take(k as int), end_id as nat),
            ).states,
            before.len() == start,
        decreases chars@.len() - k,
    {
        let c: char = chars[k];
        builder.add_transition(start, Label::Char(c), end_id);
        proof {
            lemma_class_edges_grow(chars@, k as int, c, end_id as nat);
        }
        k += 1;
        assert(builder.model() =~= before + leaf(
            start as nat,
            class_edges(chars@.take(k as int), end_id as nat),
        ).states);
    }
    proof {
        assert(chars@.take(k as int) == chars@);
    }
    end_id
}

/// Completes the alternation whose entry is `start`.
fn build_or(
    builder: &mut Builder,
    start: usize,
    left: &Node,
    right: &Node,
    Ghost(parent): Ghost<Node>,
) -> (end_id: usize)
    requires
        fresh_entry(old(builder), start),
        parent@ == Ast::Union(Box::new(left@), Box::new(right@)),
        parent matches Node::Union(l, r) && *l == *left && *r == *right,
    ensures
        final(builder).well_formed(),
        final(builder).model() == old(builder).model().drop_last() + fragment(
            parent@,
            start as nat,
        ).states,
        end_id == fragment(parent@, start as nat).exit,
        start <= end_id < final(builder).model().len(),
    decreases parent, 0nat,
{
    let ghost before = old(builder).model().drop_last();
    let ghost l = fragment(left@, (start + 1) as nat);
    let (left_start_id, left_end_id) = _build_nfa(left, builder);
    let ghost r = fragment(right@, (start + 1 + l.states.len()) as nat);
    let (right_start_id, right_end_id) = _build_nfa(right, builder);

    builder.add_transition(start, Label::Epsilon, left_start_id);
    builder.add_transition(start, Label::Epsilon, right_start_id);

    let end_id = generate_state(builder, true);

    builder.set_accept(left_end_id, false);
    builder.add_transition(left_end_id, Label::Epsilon, end_id);
    builder.set_accept(right_end_id, false);
    builder.add_transition(right_end_id, Label::Epsilon, end_id);

    assert(builder.model() =~= before + fragment(parent@, start as nat).states);
    end_id
}

/// Completes the sequence whose entry is `start`.
fn build_concat(
    builder: &mut Builder,
    start: usize,
    nodes: &Vec<Node>,
    Ghost(parent): Ghost<Node>,
) -> (end_id: usize)
    requires
        fresh_entry(old(builder), start),
        parent matches Node::Concat(v) && v == *nodes,
    ensures
        final(builder).well_formed(),
        final(builder).model() == old(builder).model().drop_last() + fragment(
            parent@,
            start as nat,
        ).states,
        end_id == fragment(parent@, start as nat).exit,
        start <= end_id < final(builder).model().len(),
    decreases parent, 0nat,
{
    let ghost before = old(builder).model().drop_last();
    let ghost items = crate::parser::asts_of(nodes@);
    let mut prev_end_id: usize = start;
    let mut k: usize = 0;
    assert(builder.model() =~= before + chain(items, 0, start as nat).states);
    while k < nodes.len()
        invariant
            k <= nodes@.len(),
            parent matches Node::Concat(v) && v == *nodes,
            items == crate::parser::asts_of(nodes@),
            before.len() == start,
            builder.well_formed(),
            builder.model() == before + chain(items, k as nat, start as nat).states,
            prev_end_id == chain(items, k as nat, start as nat).exit,
            start <= prev_end_id < builder.model().len(),
        decreases nodes@.len() - k,
    {
        let ghost prev = chain(items, k as nat, start as nat);
        let ghost next = fragment(items[k as int], (start + prev.states.len()) as nat);
        let (first_id, end_id) = _build_nfa(&nodes[k], builder);
        builder.add_transition(prev_end_id, Label::Epsilon, first_id);
        builder.set_accept(end_id, false);
        prev_end_id = end_id;
        k += 1;
        assert(builder.model() =~= before + chain(items, k as nat, start as nat).states);
    }
    builder.set_accept(prev_end_id, true);
    assert(builder.model() =~= before + fragment(parent@, start as nat).states);
    prev_end_id
}

/// Completes the star whose entry is `start`.
fn build_zero_or_more(
    builder: &mut Builder,
    start: usize,
    node: &Node,
    Ghost(parent): Ghost<Node>,
) -> (end_id: usize)
    requires
        fresh_entry(old(builder), start),
        parent matches Node::ZeroOrMore(inner) && *inner == *node,
    ensures
        final(builder).well_formed(),
        final(builder).model() == old(builder).model().drop_last() + fragment(
            parent@,
            start as nat,
        ).states,
        end_id == fragment(parent@, start as nat).exit,
        start <= end_id < final(builder).model().len(),
    decreases parent, 0nat,
{
    let ghost before = old(builder).model().drop_last();
    let end_id = generate_state(builder, true);
    let (first_id, inner_end_id) = _build_nfa(node, builder);

    builder.add_transition(start, Label::Epsilon, first_id);
    builder.add_transition(start, Label::Epsilon, end_id);

    builder.add_transition(inner_end_id, Label::Epsilon, end_id);
    builder.add_transition(inner_end_id, Label::Epsilon, first_id);
    builder.set_accept(inner_end_id, false);

    assert(builder.model() =~= before + fragment(parent@, start as nat).states);
    end_id
}

/// Completes the plus whose entry is `start`.
fn build_one_or_more(
    builder: &mut Builder,
    start: usize,
    node: &Node,
    Ghost(parent): Ghost<Node>,
) -> (end_id: usize)
    requires
        fresh_entry(old(builder), start),
        parent matches Node::OneOrMore(inner) && *inner == *node,
    ensures
        final(builder).well_formed(),
        final(builder).model() == old(builder).model().drop_last() + fragment(
            parent@,
            start as nat,
        ).states,
        end_id == fragment(parent@, start as nat).exit,
        start <= end_id < final(builder).model().len(),
    decreases parent, 0nat,
{
    let ghost before = old(builder).model().drop_last();
    let (first_id, end_id) = _build_nfa(node, builder);

    builder.add_transition(start, Label::Epsilon, first_id);

    builder.set_accept(end_id, true);
    builder.add_transition(end_id, Label::Epsilon, first_id);

    assert(builder.model() =~= before + fragment(parent@, start as nat).states);
    end_id
}

/// Completes the option whose entry is `start`.
fn build_zero_or_one(
    builder: &mut Builder,
    start: usize,
    node: &Node,
    Ghost(parent): Ghost<Node>,
) -> (end_id: usize)
    requires
        fresh_entry(old(builder), start),
        parent matches Node::ZeroOrOne(inner) && *inner == *node,
    ensures
        final(builder).well_formed(),
        final(builder).model() == old(builder).model().drop_last() + fragment(
            parent@,
            start as nat,
        ).states,
        end_id == fragment(parent@, start as nat).exit,
        start <= end_id < final(builder).model().len(),
    decreases parent, 0nat,
{
    let ghost before = old(builder).model().drop_last();
    let (first_id, end_id) = _build_nfa(node, builder);

    builder.add_transition(start, Label::Epsilon, first_id);
    builder.add_transition(start, Label::Epsilon, end_id);

    assert(builder.model() =~= before + fragment(parent@, start as nat).states);
    end_id
}

/// Where every state stands at the position of its identifier, the table
/// holds exactly these states, each under its position.
proof fn lemma_table_of_positions(states: Seq<State>)
    requires
        forall|i: int| 0 <= i < states.len() ==> (#[trigger] states[i]).spec_id() == i,
    ensures
        forall|k: usize| table_of(states).contains_key(k) <==> k < states.len(),
        forall|k: usize| k < states.len() ==> table_of(states)[k] == states[k as int],
    decreases states.len(),
{
    if states.len() > 0 {
        let front = states.drop_last();
        assert forall|i: int| 0 <= i < front.len() implies (#[trigger] front[i]).spec_id() == i by {
            assert(front[i] == states[i]);
        }
        lemma_table_of_positions(front);
        let last = states[states.len() - 1];
        assert(states.last() == last);
        assert(last.spec_id() == states.len() - 1);
        assert(table_of(states) == table_of(front).insert(last.spec_id(), last));
        assert forall|k: usize| table_of(states).contains_key(k) <==> k < states.len() by {
            assert(table_of(front).contains_key(k) <==> k < front.len());
        }
        assert forall|k: usize| k < states.len() implies table_of(states)[k] == states[k as int] by {
            if k < front.len() {
                assert(table_of(front)[k] == front[k as int]);
            }
        }
    }
}

/// Compiles a syntax tree into an automaton. Every tree can be compiled.
///
/// The automaton is well formed, so that a search on it cannot fail. Its
/// entry state has the identifier zero, and no state of it lists a
/// transition twice.
pub fn build_nfa(node: Node) -> (r: Result<NFA, CompileError>)
    ensures
        r matches Ok(nfa) && nfa@ == compiled(node@) && nfa@.well_formed() && forall|k: usize|
            nfa.table().contains_key(k) ==> (#[trigger] nfa.table()[k]).well_formed(),
{
    let mut builder = Builder::new();
    let (start_id, _) = _build_nfa(&node, &mut builder);
    let ghost made = builder.states@;
    let ghost f = fragment(node@, 0);
    assert(builder.model() =~= f.states);
    let nfa = NFA::new(start_id, build_states(builder.states));
    proof {
        lemma_compiled_ids_contiguous(node@);
        lemma_table_of_positions(made);
        assert forall|k: nat| nfa@.states.contains_key(k) <==> compiled(node@).states.contains_key(
            k,
        ) by {
            if k <= usize::MAX {
                assert(table_of(made).contains_key(k as usize) <==> k < made.len());
            }
        }
        assert forall|k: nat| nfa@.states.contains_key(k) implies nfa@.states[k] == compiled(
            node@,
        ).states[k] by {
            assert(table_of(made)[k as usize] == made[k as int]);
            assert(builder.model()[k as int] == made[k as int]@);
        }
        assert(nfa@.states =~= compiled(node@).states);
        assert forall|k: usize| nfa.table().contains_key(k) implies (#[trigger] nfa.table()[
            k
        ]).well_formed() by {
            assert(table_of(made)[k] == made[k as int]);
        }
    }
    Ok(nfa)
}

} // verus!
