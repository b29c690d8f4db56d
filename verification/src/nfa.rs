//! The automaton's data: labels, states, the state table, and the
//! mathematical model that every contract of the engine is stated over.
use std::collections::HashMap;
use vstd::prelude::*;
use vstd::std_specs::iter::IteratorSpec;

verus! {

/// What a transition is taken on.
#[derive(Clone, Copy, Debug, PartialEq, Eq, Structural)]
pub enum Label {
    /// Taken without reading input.
    Epsilon,
    /// Taken on exactly this character.
    Char(char),
    /// Taken on any one character.
    Any,
}

impl Label {
    /// Whether a transition with this label reads the character `c`.
    pub open spec fn reads(self, c: char) -> bool {
        self == Label::Char(c) || self == Label::Any
    }

    /// Decides `reads`.
    pub fn can_read(&self, c: char) -> (b: bool)
        ensures
            b == self.reads(c),
    {
        match self {
            Label::Epsilon => false,
            Label::Char(d) => *d == c,
            Label::Any => true,
        }
    }

    /// Whether this is the epsilon label.
    pub fn is_epsilon(&self) -> (b: bool)
        ensures
            b == (*self == Label::Epsilon),
    {
        match self {
            Label::Epsilon => true,
            _ => false,
        }
    }
}

/// The model of one state: its identifier, whether it accepts, and its
/// outgoing transitions as a set of (label, destination) pairs.
pub struct StateModel {
    pub id: nat,
    pub accept: bool,
    pub edges: Set<(Label, nat)>,
}

impl StateModel {
    /// A state without transitions.
    pub open spec fn plain(id: nat, accept: bool) -> StateModel {
        StateModel { id, accept, edges: Set::empty() }
    }

    /// This state with one more transition, on `label` to `target`.
    pub open spec fn with_edge(self, label: Label, target: nat) -> StateModel {
        StateModel { id: self.id, accept: self.accept, edges: self.edges.insert((label, target)) }
    }

    /// This state, accepting or not as `accept` says.
    pub open spec fn with_accept(self, accept: bool) -> StateModel {
        StateModel { id: self.id, accept, edges: self.edges }
    }
}

/// The model of an automaton: the entry state and the states by identifier.
pub struct NfaModel {
    pub start: nat,
    pub states: Map<nat, StateModel>,
}

impl NfaModel {
    /// Whether the automaton has a state with identifier `k`.
    pub open spec fn has_state(self, k: nat) -> bool {
        self.states.contains_key(k)
    }

    /// Whether state `from` exists and has a transition on `label` to `to`.
    pub open spec fn edge(self, from: nat, label: Label, to: nat) -> bool {
        self.has_state(from) && self.states[from].edges.contains((label, to))
    }

    /// Whether state `k` exists and accepts.
    pub open spec fn accepting(self, k: nat) -> bool {
        self.has_state(k) && self.states[k].accept
    }

    /// The entry state exists, every state is kept under its own
    /// identifier, and no transition leads to a state that does not exist.
    pub open spec fn well_formed(self) -> bool {
        &&& self.has_state(self.start)
        &&& forall|k: nat| #[trigger] self.has_state(k) ==> self.states[k].id == k
        &&& forall|k: nat, l: Label, t: nat| #[trigger] self.edge(k, l, t) ==> self.has_state(t)
    }
}

/// `s` with every element that already occurred earlier left out.
pub open spec fn without_repeats(s: Seq<(Label, usize)>) -> Seq<(Label, usize)>
    decreases s.len(),
{
    if s.len() == 0 {
        Seq::empty()
    } else {
        let rest = without_repeats(s.drop_last());
        if rest.contains(s.last()) {
            rest
        } else {
            rest.push(s.last())
        }
    }
}

/// `without_repeats` keeps exactly the elements of its argument, each once.
pub proof fn lemma_without_repeats(s: Seq<(Label, usize)>)
    ensures
        without_repeats(s).no_duplicates(),
        forall|e: (Label, usize)| without_repeats(s).contains(e) <==> s.contains(e),
    decreases s.len(),
{
    if s.len() > 0 {
        let front = s.drop_last();
        lemma_without_repeats(front);
        let rest = without_repeats(front);
        assert forall|e: (Label, usize)| without_repeats(s).contains(e) <==> s.contains(e) by {
            if s.contains(e) {
                let i = choose|i: int| 0 <= i < s.len() && s[i] == e;
                if i < s.len() - 1 {
                    assert(front[i] == e);
                    assert(front.contains(e));
                    assert(rest.contains(e));
                    let j = choose|j: int| 0 <= j < rest.len() && rest[j] == e;
                    if !rest.contains(s.last()) {
                        assert(rest.push(s.last())[j] == e);
                    }
                } else if !rest.contains(s.last()) {
                    assert(rest.push(s.last())[rest.len() as int] == e);
                }
            }
            if without_repeats(s).contains(e) {
                let j = choose|j: int| 0 <= j < without_repeats(s).len() && without_repeats(s)[j] == e;
                if j < rest.len() {
                    assert(rest[j] == e);
                    assert(rest.contains(e));
                    assert(front.contains(e));
                    let i = choose|i: int| 0 <= i < front.len() && front[i] == e;
                    assert(s[i] == e);
                } else {
                    assert(s[s.len() - 1] == e);
                }
            }
        }
    }
}

/// A state of the automaton.
///
/// The transitions are kept in the order in which they were added, and no
/// (label, destination) pair is kept twice. They are a list and not a hash
/// table by label: of a hash table Verus knows what it holds only where the
/// key is an integer, a `bool` or a box of one.
#[derive(Debug)]
pub struct State {
    id: usize,
    transitions: Vec<(Label, usize)>,
    is_accept: bool,
}

impl View for State {
    type V = StateModel;

    open spec fn view(&self) -> StateModel {
        StateModel {
            id: self.spec_id() as nat,
            accept: self.spec_is_accept(),
            edges: Set::new(
                |e: (Label, nat)|
                    e.1 <= usize::MAX && self.edge_list().contains((e.0, e.1 as usize)),
            ),
        }
    }
}

impl State {
    /// The state's identifier.
    pub closed spec fn spec_id(&self) -> usize {
        self.id
    }

    /// Whether the state accepts.
    pub closed spec fn spec_is_accept(&self) -> bool {
        self.is_accept
    }

    /// The transitions in the order in which they were added.
    pub closed spec fn edge_list(&self) -> Seq<(Label, usize)> {
        self.transitions@
    }

    /// No (label, destination) pair is kept twice. Every state that `new`
    /// makes has this, and `add_transition` and `set_accept` keep it.
    pub open spec fn well_formed(&self) -> bool {
        self.edge_list().no_duplicates()
    }

    /// The model's transitions are those of `edge_list`.
    pub proof fn lemma_view_edges(&self)
        ensures
            forall|l: Label, t: nat|
                #![trigger self@.edges.contains((l, t))]
                self@.edges.contains((l, t)) <==> t <= usize::MAX && self.edge_list().contains(
                    (l, t as usize),
                ),
    {
    }

    /// A state with the given identifier and acceptance, and with the given
    /// transitions in their order, repeated pairs left out.
    pub fn new(id: usize, transitions: Vec<(Label, usize)>, is_accept: bool) -> (s: Self)
        ensures
            s.spec_id() == id,
            s.spec_is_accept() == is_accept,
            s.edge_list() == without_repeats(transitions@),
            s.well_formed(),
            s@.id == id,
            s@.accept == is_accept,
            forall|l: Label, t: nat|
                #![trigger s@.edges.contains((l, t))]
                s@.edges.contains((l, t)) <==> t <= usize::MAX && transitions@.contains(
                    (l, t as usize),
                ),
            transitions@.len() == 0 ==> s@ == StateModel::plain(id as nat, is_accept),
    {
        let mut s = Self { id, transitions: Vec::new(), is_accept };
        let mut i: usize = 0;
        while i < transitions.len()
            invariant
                i <= transitions@.len(),
                s.id == id,
                s.is_accept == is_accept,
                s.transitions@ == without_repeats(transitions@.take(i as int)),
                s.transitions@.no_duplicates(),
            decreases transitions@.len() - i,
        {
            let e = transitions[i];
            proof {
                assert(transitions@.take(i + 1).drop_last() == transitions@.take(i as int));
            }
            s.add_transition(e.0, e.1);
            i += 1;
        }
        proof {
            assert(transitions@.take(i as int) == transitions@);
            lemma_without_repeats(transitions@);
            if transitions@.len() == 0 {
                assert(s@.edges =~= Set::empty());
            }
        }
        s
    }

    /// The state's identifier.
    pub fn id(&self) -> (id: usize)
        ensures
            id == self.spec_id(),
    {
        self.id
    }

    /// Whether the state accepts.
    pub fn is_accept(&self) -> (b: bool)
        ensures
            b == self.spec_is_accept(),
    {
        self.is_accept
    }

    /// Marks the state as accepting or not; nothing else changes.
    pub fn set_accept(&mut self, is_accept: bool)
        ensures
            final(self).spec_is_accept() == is_accept,
            final(self).spec_id() == old(self).spec_id(),
            final(self).edge_list() == old(self).edge_list(),
            old(self).well_formed() ==> final(self).well_formed(),
            final(self)@ == old(self)@.with_accept(is_accept),
    {
        self.is_accept = is_accept;
    }

    /// The number of transitions.
    pub fn transition_count(&self) -> (n: usize)
        ensures
            n == self.edge_list().len(),
    {
        self.transitions.len()
    }

    /// The `i`-th transition in the order of `edge_list`.
    pub fn transition(&self, i: usize) -> (e: (Label, usize))
        requires
            i < self.edge_list().len(),
        ensures
            e == self.edge_list()[i as int],
    {
        self.transitions[i]
    }

    /// Whether the state has a transition on `label` to `target`.
    pub fn has_transition(&self, label: Label, target: usize) -> (b: bool)
        ensures
            b == self.edge_list().contains((label, target)),
    {
        let mut i: usize = 0;
        while i < self.transitions.len()
            invariant
                i <= self.transitions@.len(),
                forall|j: int| 0 <= j < i ==> self.transitions@[j] != (label, target),
            decreases self.transitions@.len() - i,
        {
            let e = self.transitions[i];
            if e.0 == label && e.1 == target {
                return true;
            }
            i += 1;
        }
        false
    }

    /// Adds a transition on `c` to `state_id`, unless the state has it
    /// already.
    pub fn add_transition(&mut self, c: Label, state_id: usize)
        ensures
            final(self).spec_id() == old(self).spec_id(),
            final(self).spec_is_accept() == old(self).spec_is_accept(),
            final(self).edge_list() == if old(self).edge_list().contains((c, state_id)) {
                old(self).edge_list()
            } else {
                old(self).edge_list().push((c, state_id))
            },
            old(self).well_formed() ==> final(self).well_formed(),
            final(self)@ == old(self)@.with_edge(c, state_id as nat),
    {
        if !self.has_transition(c, state_id) {
            self.transitions.push((c, state_id));
            proof {
                if old(self).well_formed() {
                    let old_list = old(self).transitions@;
                    assert forall|i: int, j: int|
                        0 <= i < j < self.transitions@.len() implies self.transitions@[i]
                        != self.transitions@[j] by {
                        if j < old_list.len() {
                            assert(old_list[i] != old_list[j]);
                        } else {
                            assert(old_list[i] != (c, state_id));
                        }
                    }
                }
            }
        }
        proof {
            let before = old(self).transitions@;
            let after = self.transitions@;
            assert forall|e: (Label, nat)|
                self@.edges.contains(e) <==> old(self)@.edges.insert((c, state_id as nat)).contains(
                    e,
                ) by {
                let raw = (e.0, e.1 as usize);
                if e.1 <= usize::MAX && after.contains(raw) {
                    let i = choose|i: int| 0 <= i < after.len() && after[i] == raw;
                    if i < before.len() {
                        assert(before[i] == raw);
                    }
                }
                if e.1 <= usize::MAX && before.contains(raw) {
                    let i = choose|i: int| 0 <= i < before.len() && before[i] == raw;
                    assert(after[i] == raw);
                }
                if e == (c, state_id as nat) {
                    if before.contains((c, state_id)) {
                    } else {
                        assert(after[after.len() - 1] == (c, state_id));
                    }
                }
            }
            assert(self@.edges =~= old(self)@.edges.insert((c, state_id as nat)));
        }
    }

    /// Whether the only transition of the state is a single epsilon
    /// transition.
    pub open spec fn only_one_epsilon(&self) -> bool {
        self.edge_list().len() == 1 && self.edge_list()[0].0 == Label::Epsilon
    }

    /// Decides `only_one_epsilon`.
    pub fn is_only_one_epsilon_transition(&self) -> (b: bool)
        ensures
            b == self.only_one_epsilon(),
    {
        self.transitions.len() == 1 && self.transitions[0].0.is_epsilon()
    }

    /// The destination of the state's only transition, where that is a
    /// single epsilon transition.
    pub fn get_if_only_one_epsilon_transition(&self) -> (r: Option<usize>)
        ensures
            r == if self.only_one_epsilon() {
                Some(self.edge_list()[0].1)
            } else {
                None
            },
    {
        if self.is_only_one_epsilon_transition() {
            Some(self.transitions[0].1)
        } else {
            None
        }
    }
}

/// The table that holds each state of `states` under its identifier; of two
/// states with the same identifier the later one stays.
pub open spec fn table_of(states: Seq<State>) -> Map<usize, State>
    decreases states.len(),
{
    if states.len() == 0 {
        Map::empty()
    } else {
        table_of(states.drop_last()).insert(states.last().spec_id(), states.last())
    }
}

/// Keys the given states by their identifiers.
pub fn build_states(states: Vec<State>) -> (table: HashMap<usize, State>)
    ensures
        table@ == table_of(states@),
{
    broadcast use vstd::std_specs::hash::group_hash_axioms;

    let mut table: HashMap<usize, State> = HashMap::new();
    let ghost all = states@;
    let ghost mut done: int = 0;
    for state in it: states
        invariant
            done == it.index(),
            it.seq() == all,
            table@ == table_of(all.take(done)),
    {
        proof {
            assert(all.take(done + 1).drop_last() == all.take(done));
            done = done + 1;
        }
        let id: usize = state.id();
        table.insert(id, state);
    }
    proof {
        assert(all.take(done) == all);
    }
    table
}

/// A nondeterministic finite automaton with epsilon transitions: an entry
/// state and a table of states by identifier.
#[derive(Debug)]
pub struct NFA {
    start_id: usize,
    states: HashMap<usize, State>,
}

impl View for NFA {
    type V = NfaModel;

    open spec fn view(&self) -> NfaModel {
        NfaModel {
            start: self.spec_start_id() as nat,
            states: Map::new(
                |k: nat| k <= usize::MAX && self.table().contains_key(k as usize),
                |k: nat| self.table()[k as usize]@,
            ),
        }
    }
}

impl NFA {
    /// The identifier of the entry state.
    pub closed spec fn spec_start_id(&self) -> usize {
        self.start_id
    }

    /// The states by identifier.
    pub closed spec fn table(&self) -> Map<usize, State> {
        self.states@
    }

    /// An automaton with the given entry state and states. Nothing is
    /// checked here: `is_well_formed` tells whether the parts fit.
    pub fn new(start_id: usize, states: HashMap<usize, State>) -> (nfa: Self)
        ensures
            nfa.spec_start_id() == start_id,
            nfa.table() == states@,
    {
        Self { start_id, states }
    }

    /// The identifier of the entry state.
    pub fn start_id(&self) -> (id: usize)
        ensures
            id == self.spec_start_id(),
            id as nat == self@.start,
    {
        self.start_id
    }

    /// The state kept under `id`, if there is one.
    pub fn state(&self, id: usize) -> (r: Option<&State>)
        ensures
            self@.has_state(id as nat) == r.is_some(),
            self.table().contains_key(id) == r.is_some(),
            r matches Some(s) ==> *s == self.table()[id] && s@ == self@.states[id as nat],
    {
        broadcast use vstd::std_specs::hash::group_hash_axioms;

        self.states.get(&id)
    }

    /// The number of states.
    pub fn state_count(&self) -> (n: usize)
        ensures
            self.table().dom().finite(),
            n == self.table().dom().len(),
    {
        broadcast use vstd::std_specs::hash::group_hash_axioms;

        self.states.len()
    }

    /// The identifiers of all states, each once, in no particular order.
    pub fn state_ids(&self) -> (ids: Vec<usize>)
        ensures
            ids@.no_duplicates(),
            ids@.to_set() == self.table().dom(),
    {
        broadcast use vstd::std_specs::hash::group_hash_axioms;

        let mut ids: Vec<usize> = Vec::new();
        let ghost all: Seq<usize> = self.states.keys().remaining().unref();
        for k in it: self.states.keys()
            invariant
                it.seq().unref() == all,
                ids@ == all.take(it.index() as int),
        {
            ids.push(*k);
            assert(ids@ == all.take(it.index() + 1));
        }
        assert(ids@ == all);
        ids
    }

    /// Whether every transition of `state` leads to a state of this
    /// automaton.
    fn targets_exist(&self, state: &State) -> (b: bool)
        ensures
            b == forall|i: int|
                0 <= i < state.edge_list().len() ==> self.table().contains_key(
                    (#[trigger] state.edge_list()[i]).1,
                ),
    {
        let n: usize = state.transition_count();
        let mut i: usize = 0;
        while i < n
            invariant
                i <= n,
                n == state.edge_list().len(),
                forall|j: int|
                    0 <= j < i ==> self.table().contains_key((#[trigger] state.edge_list()[j]).1),
            decreases n - i,
        {
            let e = state.transition(i);
            if self.state(e.1).is_none() {
                return false;
            }
            i += 1;
        }
        true
    }

    /// Decides whether the automaton is well formed.
    pub fn is_well_formed(&self) -> (b: bool)
        ensures
            b == self@.well_formed(),
    {
        if self.state(self.start_id).is_none() {
            return false;
        }
        let ids = self.state_ids();
        let mut j: usize = 0;
        while j < ids.len()
            invariant
                j <= ids@.len(),
                ids@.to_set() == self.table().dom(),
                self@.has_state(self@.start),
                forall|m: int|
                    0 <= m < j ==> {
                        let s = self.table()[#[trigger] ids@[m]];
                        &&& s.spec_id() == ids@[m]
                        &&& forall|i: int|
                            0 <= i < s.edge_list().len() ==> self.table().contains_key(
                                (#[trigger] s.edge_list()[i]).1,
                            )
                    },
            decreases ids@.len() - j,
        {
            let id: usize = ids[j];
            proof {
                assert(ids@.to_set().contains(ids@[j as int]));
            }
            match self.state(id) {
                Some(state) => {
                    if state.id() != id {
                        proof {
                            assert(self@.has_state(id as nat));
                        }
                        return false;
                    }
                    if !self.targets_exist(state) {
                        proof {
                            let i = choose|i: int|
                                0 <= i < state.edge_list().len() && !self.table().contains_key(
                                    (#[trigger] state.edge_list()[i]).1,
                                );
                            let e = state.edge_list()[i];
                            assert(state.edge_list().contains((e.0, e.1)));
                            assert(self@.edge(id as nat, e.0, e.1 as nat));
                            assert(!self@.has_state(e.1 as nat));
                        }
                        return false;
                    }
                },
                None => {
                    return false;
                },
            }
            j += 1;
        }
        proof {
            assert forall|k: nat| #[trigger] self@.has_state(k) implies self@.states[k].id == k by {
                let key = k as usize;
                assert(ids@.to_set().contains(key));
                let m = choose|m: int| 0 <= m < ids@.len() && ids@[m] == key;
                assert(self.table()[ids@[m]].spec_id() == key);
            }
            assert forall|k: nat, l: Label, t: nat| #[trigger]
                self@.edge(k, l, t) implies self@.has_state(t) by {
                let key = k as usize;
                assert(ids@.to_set().contains(key));
                let m = choose|m: int| 0 <= m < ids@.len() && ids@[m] == key;
                let s = self.table()[ids@[m]];
                assert(s.edge_list().contains((l, t as usize)));
                let i = choose|i: int| 0 <= i < s.edge_list().len() && s.edge_list()[i] == (l, t as usize);
                assert(self.table().contains_key(s.edge_list()[i].1));
            }
        }
        true
    }
}

} // verus!
